//! Assembly of a single runnable archive from the compiled classes of a
//! project and the archives of its libraries.
//!
//! The archive starts with its manifest, then holds the project's own files,
//! then the entries of the libraries.  No name occurs twice: the first entry
//! with a name stays.  Service files and framework discovery files of the
//! libraries are merged instead, and signature files are left out.

use crate::table::{
    distinct_keys, find_key, has_key, lemma_has_key_position, lemma_has_key_witness,
    lemma_put_all_absent_extends, lemma_put_all_absent_keys, lemma_put_if_absent, lemma_put_keys,
    lookup, put, put_all_absent, put_if_absent,
};
use crate::text::{ends_with, replace, replace_all, starts_with, str_eq};
use vstd::pervasive::VecAdditionalExecFns;
use vstd::prelude::*;
use vstd::string::{StrSliceExecFns, StringExecFns};

verus! {

/// What an archive is built from and for.
pub struct FatJarConfig<'a> {
    pub output_jar: &'a str,
    pub classes_dir: &'a str,
    pub libs_dir: &'a str,
    pub main_class: &'a str,
    pub group_id: &'a str,
    pub artifact_id: &'a str,
}

/// An entry of a library archive.
#[derive(Debug, PartialEq, Eq)]
pub struct ArchiveEntry {
    pub name: String,
    pub is_dir: bool,
    pub data: Vec<u8>,
}

/// What an `ArchiveEntry` stands for.
pub struct ArchiveEntryView {
    pub name: Seq<char>,
    pub is_dir: bool,
    pub data: Seq<u8>,
}

impl DeepView for ArchiveEntry {
    type V = ArchiveEntryView;

    open spec fn deep_view(&self) -> ArchiveEntryView {
        ArchiveEntryView { name: self.name@, is_dir: self.is_dir, data: self.data@ }
    }
}

/// Named contents: the entries of an archive, or the files of a directory.
pub type Files = Seq<(Seq<char>, Seq<u8>)>;

/// The name of the manifest inside an archive.
pub open spec fn manifest_name() -> Seq<char> {
    "META-INF/MANIFEST.MF"@
}

/// The text of the manifest.
pub open spec fn manifest_text(
    main_class: Seq<char>,
    artifact_id: Seq<char>,
    group_id: Seq<char>,
    jdk: Seq<char>,
) -> Seq<char> {
    "Manifest-Version: 1.0\nMain-Class: "@ + main_class + "\nImplementation-Title: "@ + artifact_id
        + "\nImplementation-Vendor-Id: "@ + group_id + "\nBuilt-By: grind\nBuild-Jdk: "@ + jdk
        + "\nImplementation-Version: 1.0.0\n\n"@
}

/// The text of the manifest of the archive that `config` describes, built
/// with the toolchain `jdk`.
pub fn generate_manifest(config: &FatJarConfig, jdk: &str) -> (out: String)
    ensures
        out@ == manifest_text(config.main_class@, config.artifact_id@, config.group_id@, jdk@),
{
    let mut out = String::from_str("Manifest-Version: 1.0\nMain-Class: ");
    out.append(config.main_class);
    out.append("\nImplementation-Title: ");
    out.append(config.artifact_id);
    out.append("\nImplementation-Vendor-Id: ");
    out.append(config.group_id);
    out.append("\nBuilt-By: grind\nBuild-Jdk: ");
    out.append(jdk);
    out.append("\nImplementation-Version: 1.0.0\n\n");
    out
}

/// The upper-case form of a text, as `str::to_uppercase` gives it.
pub uninterp spec fn uppercase_of(s: Seq<char>) -> Seq<char>;

/// `str::to_uppercase`: the upper-case form of `s`.  What that form is for
/// each character is left to the standard library; the same text always has
/// the same form.
#[verifier::external_body]
fn to_uppercase(s: &str) -> (out: String)
    ensures
        out@ == uppercase_of(s@),
{
    s.to_uppercase()
}

/// Whether a name, given in upper case, is that of a signature file: it lies
/// under `META-INF/` and ends in `.SF`, `.RSA` or `.DSA`.
pub open spec fn is_signature_name(upper: Seq<char>) -> bool {
    "META-INF/"@.is_prefix_of(upper) && (".SF"@.is_suffix_of(upper) || ".RSA"@.is_suffix_of(upper)
        || ".DSA"@.is_suffix_of(upper))
}

/// Whether the name `upper`, given in upper case, is that of a signature
/// file.
pub fn is_signature_name_upper(upper: &str) -> (yes: bool)
    ensures
        yes == is_signature_name(upper@),
{
    starts_with(upper, "META-INF/") && (ends_with(upper, ".SF") || ends_with(upper, ".RSA")
        || ends_with(upper, ".DSA"))
}

/// Whether `name` is that of a signature file, whatever its case.
pub fn is_signature_file(name: &str) -> (yes: bool)
    ensures
        yes == is_signature_name(uppercase_of(name@)),
{
    let upper = to_uppercase(name);
    is_signature_name_upper(upper.as_str())
}

/// Whether entries of the name `name` are merged: service files and
/// framework discovery files.
pub open spec fn is_mergeable_name(name: Seq<char>) -> bool {
    "META-INF/services/"@.is_prefix_of(name) || name == "META-INF/spring.factories"@
        || "META-INF/spring/"@.is_prefix_of(name)
}

/// Whether entries of the name `name` are merged.
pub fn is_mergeable(name: &str) -> (yes: bool)
    ensures
        yes == is_mergeable_name(name@),
{
    starts_with(name, "META-INF/services/") || str_eq(name, "META-INF/spring.factories")
        || starts_with(name, "META-INF/spring/")
}

/// Whether a file of the name `file_name` is an archive: the name ends in
/// `.jar` and has something before that.
pub fn has_jar_extension(file_name: &str) -> (yes: bool)
    ensures
        yes == (".jar"@.is_suffix_of(file_name@) && file_name@.len() > ".jar"@.len()),
{
    proof {
        reveal_strlit(".jar");
    }
    ends_with(file_name, ".jar") && file_name.unicode_len() > 4
}

/// `old` followed by `more`, with a line break between them where `old` does
/// not end in one.
pub open spec fn joined(old: Seq<u8>, more: Seq<u8>) -> Seq<u8> {
    if old.len() > 0 && old.last() == 10u8 {
        old + more
    } else {
        old.push(10u8) + more
    }
}

/// The merged contents `merged` after a contribution `more` under the name
/// `name`: the first contribution under a name as it is, a later one joined
/// to what is there.
pub open spec fn merged_with(merged: Files, name: Seq<char>, more: Seq<u8>) -> Files {
    match lookup(merged, name) {
        Some(old) => put(merged, name, joined(old, more)),
        None => put(merged, name, more),
    }
}

/// Bytes stand for themselves.
pub proof fn lemma_bytes_view(bytes: Vec<u8>)
    ensures
        bytes.deep_view() == bytes@,
{
    assert(bytes.deep_view() =~= bytes@);
}

/// A copy of `bytes`.
pub fn copy_bytes(bytes: &Vec<u8>) -> (out: Vec<u8>)
    ensures
        out@ == bytes@,
{
    let mut out: Vec<u8> = Vec::new();
    append_bytes(&mut out, bytes);
    assert(out@ =~= bytes@);
    out
}

/// Puts `more` behind `bytes`.
pub fn append_bytes(bytes: &mut Vec<u8>, more: &Vec<u8>)
    ensures
        final(bytes)@ == old(bytes)@ + more@,
{
    let ghost start = bytes@;
    let mut i: usize = 0;
    assert(bytes@ =~= start + more@.take(0));
    while i < more.len()
        invariant
            i <= more.len(),
            bytes@ == start + more@.take(i as int),
        decreases more.len() - i,
    {
        bytes.push(more[i]);
        assert(bytes@ =~= start + more@.take(i + 1));
        i += 1;
    }
    assert(more@.take(more.len() as int) =~= more@);
}

/// Adds the contribution `buf` under the name `name` to the merged contents.
pub fn merge_resource(merged: &mut Vec<(String, Vec<u8>)>, name: &str, buf: &Vec<u8>)
    ensures
        final(merged).deep_view() == merged_with(old(merged).deep_view(), name@, buf@),
{
    let ghost before = merged.deep_view();
    let i = find_key(merged, name);
    if i < merged.len() {
        proof {
            lemma_bytes_view(merged@[i as int].1);
        }
        assert(before[i as int].1 == merged@[i as int].1@);
        let mut data = copy_bytes(&merged[i].1);
        if data.len() == 0 || data[data.len() - 1] != 10 {
            data.push(10);
        }
        append_bytes(&mut data, buf);
        assert(data@ =~= joined(before[i as int].1, buf@));
        proof {
            lemma_bytes_view(data);
        }
        merged.set(i, (String::from_str(name), data));
        assert(merged.deep_view() =~= before.update(i as int, (name@, data@)));
    } else {
        let data = copy_bytes(buf);
        proof {
            lemma_bytes_view(data);
        }
        merged.push((String::from_str(name), data));
        assert(merged.deep_view() =~= before.push((name@, buf@)));
    }
}

/// The path `path` with forward slashes for backslashes.
pub open spec fn normalised(path: Seq<char>) -> Seq<char> {
    replace_all(path, "\\"@, "/"@)
}

/// The files `files`, each under its normalised path.
pub open spec fn normalised_files(files: Files) -> Files {
    files.map_values(|f: (Seq<char>, Seq<u8>)| (normalised(f.0), f.1))
}

/// The entries `entries` after the files `files` of the project: each file
/// under its normalised path, unless that name is taken.
pub open spec fn with_classes(entries: Files, files: Files) -> Files {
    put_all_absent(entries, normalised_files(files))
}

/// How many of the files `files` get into `entries`.
pub open spec fn classes_added(entries: Files, files: Files) -> nat {
    (with_classes(entries, files).len() - entries.len()) as nat
}

/// The archive under construction: the entries written so far, and the
/// merged contents that are written at the end.
#[derive(Debug, PartialEq, Eq)]
pub struct FatJar {
    pub entries: Vec<(String, Vec<u8>)>,
    pub merged: Vec<(String, Vec<u8>)>,
}

/// What a `FatJar` stands for.
#[verifier::ext_equal]
pub struct FatJarView {
    pub entries: Files,
    pub merged: Files,
}

impl DeepView for FatJar {
    type V = FatJarView;

    open spec fn deep_view(&self) -> FatJarView {
        FatJarView { entries: self.entries.deep_view(), merged: self.merged.deep_view() }
    }
}

/// Writes `data` under `name` at the end of `entries`, unless the name is
/// taken.  Says whether it wrote.
pub fn write_once(entries: &mut Vec<(String, Vec<u8>)>, name: String, data: Vec<u8>) -> (wrote:
    bool)
    ensures
        final(entries).deep_view() == put_if_absent(old(entries).deep_view(), name@, data@),
        wrote == !has_key(old(entries).deep_view(), name@),
{
    let ghost before = entries.deep_view();
    let ghost pair = (name@, data@);
    proof {
        lemma_bytes_view(data);
    }
    let i = find_key(entries, name.as_str());
    if i >= entries.len() {
        entries.push((name, data));
        assert(entries.deep_view() =~= before.push(pair));
        true
    } else {
        false
    }
}

/// Writes the files `files` of the project into the archive, each under its
/// normalised path and only if that name is not taken, and counts those
/// written in `file_count`.
pub fn add_directory_classes(
    files: &Vec<(String, Vec<u8>)>,
    writer: &mut Vec<(String, Vec<u8>)>,
    file_count: &mut usize,
)
    requires
        *old(file_count) + files.len() <= usize::MAX,
    ensures
        final(writer).deep_view() == with_classes(old(writer).deep_view(), files.deep_view()),
        *final(file_count) == *old(file_count) + classes_added(
            old(writer).deep_view(),
            files.deep_view(),
        ),
{
    let ghost start = writer.deep_view();
    let ghost count0 = *file_count;
    let ghost pairs = normalised_files(files.deep_view());
    let mut i: usize = 0;
    assert(pairs.take(0) =~= Seq::<(Seq<char>, Seq<u8>)>::empty());
    while i < files.len()
        invariant
            i <= files.len(),
            count0 + files.len() <= usize::MAX,
            pairs == normalised_files(files.deep_view()),
            writer.deep_view() == put_all_absent(start, pairs.take(i as int)),
            writer.deep_view().len() >= start.len(),
            *file_count == count0 + (writer.deep_view().len() - start.len()),
            *file_count <= count0 + i,
        decreases files.len() - i,
    {
        proof {
            let next = pairs.take(i + 1);
            assert(next.drop_last() =~= pairs.take(i as int));
            lemma_bytes_view(files@[i as int].1);
            assert(next.last() == (normalised(files@[i as int].0@), files@[i as int].1@));
        }
        let rel_path = replace(files[i].0.as_str(), "\\", "/");
        if write_once(writer, rel_path, copy_bytes(&files[i].1)) {
            *file_count += 1;
        }
        i += 1;
    }
    assert(pairs.take(files.len() as int) =~= pairs);
}

/// Whether the entry `e` of a library is left out: a directory, the
/// library's manifest, or a signature file.
pub open spec fn is_skipped(e: ArchiveEntryView) -> bool {
    e.is_dir || e.name == manifest_name() || is_signature_name(uppercase_of(e.name))
}

/// The archive `jar` after the entry `e` of a library.
pub open spec fn with_entry(jar: FatJarView, e: ArchiveEntryView) -> FatJarView {
    if is_skipped(e) {
        jar
    } else if is_mergeable_name(e.name) {
        FatJarView { entries: jar.entries, merged: merged_with(jar.merged, e.name, e.data) }
    } else {
        FatJarView { entries: put_if_absent(jar.entries, e.name, e.data), merged: jar.merged }
    }
}

/// The archive `jar` after the entries `library` of a library, in order.
pub open spec fn with_library(jar: FatJarView, library: Seq<ArchiveEntryView>) -> FatJarView
    decreases library.len(),
{
    if library.len() == 0 {
        jar
    } else {
        with_entry(with_library(jar, library.drop_last()), library.last())
    }
}

/// The archive `jar` after the libraries `libraries`, in order.
pub open spec fn with_libraries(jar: FatJarView, libraries: Seq<Seq<ArchiveEntryView>>) -> FatJarView
    decreases libraries.len(),
{
    if libraries.len() == 0 {
        jar
    } else {
        with_library(with_libraries(jar, libraries.drop_last()), libraries.last())
    }
}

/// The entries `entries` after the merged contents `merged`: each as one
/// entry, unless its name is taken.
pub open spec fn with_merged(entries: Files, merged: Files) -> Files {
    put_all_absent(entries, merged)
}

/// Takes the entries of a library into the archive: directories, the
/// library's manifest and signature files are left out; service files and
/// discovery files are merged; any other entry is written unless its name is
/// taken.
pub fn merge_jar(library: &Vec<ArchiveEntry>, jar: &mut FatJar)
    ensures
        final(jar).deep_view() == with_library(old(jar).deep_view(), library.deep_view()),
{
    let ghost start = jar.deep_view();
    let mut i: usize = 0;
    assert(library.deep_view().take(0) =~= Seq::<ArchiveEntryView>::empty());
    while i < library.len()
        invariant
            i <= library.len(),
            jar.deep_view() == with_library(start, library.deep_view().take(i as int)),
        decreases library.len() - i,
    {
        let ghost before = jar.deep_view();
        let entry = &library[i];
        proof {
            let next = library.deep_view().take(i + 1);
            assert(next.drop_last() =~= library.deep_view().take(i as int));
            assert(next.last() == entry.deep_view());
        }
        let name = entry.name.as_str();
        if entry.is_dir || str_eq(name, "META-INF/MANIFEST.MF") || is_signature_file(name) {
        } else if is_mergeable(name) {
            merge_resource(&mut jar.merged, name, &entry.data);
            assert(jar.deep_view() =~= with_entry(before, entry.deep_view()));
        } else {
            write_once(&mut jar.entries, entry.name.clone(), copy_bytes(&entry.data));
            assert(jar.deep_view() =~= with_entry(before, entry.deep_view()));
        }
        i += 1;
    }
    assert(library.deep_view().take(library.len() as int) =~= library.deep_view());
}

/// What the libraries look like to the assembly.
pub open spec fn libraries_view(libraries: Seq<Vec<ArchiveEntry>>) -> Seq<Seq<ArchiveEntryView>> {
    libraries.map_values(|l: Vec<ArchiveEntry>| l.deep_view())
}

/// The archive with only its manifest in it.
pub open spec fn opened(manifest: Seq<char>) -> FatJarView {
    FatJarView {
        entries: seq![(manifest_name(), vstd::utf8::encode_utf8(manifest))],
        merged: Seq::empty(),
    }
}

/// The entries of the assembled archive, in order: the manifest, the
/// project's files, the entries of the libraries, the merged contents.
pub open spec fn assembled(
    manifest: Seq<char>,
    classes: Files,
    libraries: Seq<Seq<ArchiveEntryView>>,
) -> Files {
    let start = opened(manifest);
    let filled = with_libraries(
        FatJarView { entries: with_classes(start.entries, classes), merged: start.merged },
        libraries,
    );
    with_merged(filled.entries, filled.merged)
}

/// Writes the merged contents into the archive, each as one entry unless its
/// name is taken.
pub fn write_merged(entries: &mut Vec<(String, Vec<u8>)>, merged: &Vec<(String, Vec<u8>)>)
    ensures
        final(entries).deep_view() == with_merged(old(entries).deep_view(), merged.deep_view()),
{
    let ghost start = entries.deep_view();
    let mut i: usize = 0;
    assert(merged.deep_view().take(0) =~= Seq::<(Seq<char>, Seq<u8>)>::empty());
    while i < merged.len()
        invariant
            i <= merged.len(),
            entries.deep_view() == put_all_absent(start, merged.deep_view().take(i as int)),
        decreases merged.len() - i,
    {
        proof {
            let next = merged.deep_view().take(i + 1);
            assert(next.drop_last() =~= merged.deep_view().take(i as int));
            lemma_bytes_view(merged@[i as int].1);
            assert(next.last() == (merged@[i as int].0@, merged@[i as int].1@));
        }
        write_once(entries, merged[i].0.clone(), copy_bytes(&merged[i].1));
        i += 1;
    }
    assert(merged.deep_view().take(merged.len() as int) =~= merged.deep_view());
}

/// The assembled archive and how many of the project's files it holds.
#[derive(Debug, PartialEq, Eq)]
pub struct BuiltJar {
    pub entries: Vec<(String, Vec<u8>)>,
    pub file_count: usize,
}

/// Assembles the archive that `config` describes from the project's files
/// `classes` and the libraries `libraries`, for the toolchain `jdk`.
pub fn build_fat_jar(
    config: &FatJarConfig,
    jdk: &str,
    classes: &Vec<(String, Vec<u8>)>,
    libraries: &Vec<Vec<ArchiveEntry>>,
) -> (out: BuiltJar)
    ensures
        out.entries.deep_view() == assembled(
            manifest_text(config.main_class@, config.artifact_id@, config.group_id@, jdk@),
            classes.deep_view(),
            libraries_view(libraries@),
        ),
        out.file_count == classes_added(
            opened(
                manifest_text(config.main_class@, config.artifact_id@, config.group_id@, jdk@),
            ).entries,
            classes.deep_view(),
        ),
{
    let manifest = generate_manifest(config, jdk);
    let data = manifest.as_str().as_bytes_vec();
    let mut jar = FatJar { entries: Vec::new(), merged: Vec::new() };
    proof {
        lemma_bytes_view(data);
    }
    jar.entries.push((String::from_str("META-INF/MANIFEST.MF"), data));
    assert(jar.deep_view() =~= opened(manifest@));
    let mut file_count: usize = 0;
    add_directory_classes(classes, &mut jar.entries, &mut file_count);
    let ghost classed = jar.deep_view();
    let mut i: usize = 0;
    assert(libraries_view(libraries@).take(0) =~= Seq::<Seq<ArchiveEntryView>>::empty());
    while i < libraries.len()
        invariant
            i <= libraries.len(),
            jar.deep_view() == with_libraries(classed, libraries_view(libraries@).take(i as int)),
        decreases libraries.len() - i,
    {
        proof {
            let next = libraries_view(libraries@).take(i + 1);
            assert(next.drop_last() =~= libraries_view(libraries@).take(i as int));
            assert(next.last() == libraries@[i as int].deep_view());
        }
        merge_jar(&libraries[i], &mut jar);
        i += 1;
    }
    assert(libraries_view(libraries@).take(libraries.len() as int) =~= libraries_view(
        libraries@,
    ));
    write_merged(&mut jar.entries, &jar.merged);
    BuiltJar { entries: jar.entries, file_count }
}

/// Where a name in the archive can come from: it is the manifest's, or the
/// normalised path of one of the project's files, or the name of an entry of
/// a library that is not left out.
pub open spec fn comes_from(
    name: Seq<char>,
    classes: Files,
    libraries: Seq<Seq<ArchiveEntryView>>,
) -> bool {
    ||| name == manifest_name()
    ||| exists|k: int| 0 <= k < classes.len() && normalised((#[trigger] classes[k]).0) == name
    ||| exists|l: int, k: int|
        0 <= l < libraries.len() && 0 <= k < libraries[l].len() && (#[trigger] libraries[l][k]).name
            == name && !is_skipped(libraries[l][k])
}

/// Whether `name` is written or waits to be merged.
pub open spec fn known(jar: FatJarView, name: Seq<char>) -> bool {
    has_key(jar.entries, name) || has_key(jar.merged, name)
}

/// A library adds only the names of its entries that are not left out, and
/// keeps written entries where they are and their names distinct.
pub proof fn lemma_with_library(jar: FatJarView, library: Seq<ArchiveEntryView>, name: Seq<char>)
    ensures
        known(with_library(jar, library), name) ==> known(jar, name) || exists|k: int|
            0 <= k < library.len() && (#[trigger] library[k]).name == name && !is_skipped(
                library[k],
            ),
        distinct_keys(jar.entries) ==> distinct_keys(with_library(jar, library).entries),
        with_library(jar, library).entries.len() >= jar.entries.len(),
        with_library(jar, library).entries.take(jar.entries.len() as int) == jar.entries,
    decreases library.len(),
{
    if library.len() > 0 {
        let before = with_library(jar, library.drop_last());
        let e = library.last();
        lemma_with_library(jar, library.drop_last(), name);
        lemma_put_if_absent(before.entries, e.name, e.data, name);
        assert(with_library(jar, library).entries.take(jar.entries.len() as int)
            =~= before.entries.take(jar.entries.len() as int));
        if known(with_library(jar, library), name) {
            if known(before, name) {
                if !known(jar, name) {
                    let k = choose|k: int|
                        0 <= k < library.drop_last().len() && (
                        #[trigger] library.drop_last()[k]).name == name && !is_skipped(
                            library.drop_last()[k],
                        );
                    assert(library[k] == library.drop_last()[k]);
                }
            } else {
                match lookup(before.merged, e.name) {
                    Some(old) => lemma_put_keys(before.merged, e.name, joined(old, e.data), name),
                    None => lemma_put_keys(before.merged, e.name, e.data, name),
                }
                assert(e.name == name && !is_skipped(e));
                assert(library[library.len() - 1] == e);
            }
        }
    } else {
        assert(jar.entries.take(jar.entries.len() as int) =~= jar.entries);
    }
}

/// The libraries add only the names of their entries that are not left out,
/// and keep written entries where they are and their names distinct.
pub proof fn lemma_with_libraries(
    jar: FatJarView,
    libraries: Seq<Seq<ArchiveEntryView>>,
    name: Seq<char>,
)
    ensures
        known(with_libraries(jar, libraries), name) ==> known(jar, name) || exists|l: int, k: int|
            0 <= l < libraries.len() && 0 <= k < libraries[l].len() && (
            #[trigger] libraries[l][k]).name == name && !is_skipped(libraries[l][k]),
        distinct_keys(jar.entries) ==> distinct_keys(with_libraries(jar, libraries).entries),
        with_libraries(jar, libraries).entries.len() >= jar.entries.len(),
        with_libraries(jar, libraries).entries.take(jar.entries.len() as int) == jar.entries,
    decreases libraries.len(),
{
    if libraries.len() > 0 {
        let before = with_libraries(jar, libraries.drop_last());
        let last = libraries.last();
        lemma_with_libraries(jar, libraries.drop_last(), name);
        lemma_with_library(before, last, name);
        assert(with_libraries(jar, libraries).entries.take(jar.entries.len() as int)
            =~= before.entries.take(jar.entries.len() as int));
        if known(with_libraries(jar, libraries), name) && !known(jar, name) {
            if known(before, name) {
                let (l, k) = choose|l: int, k: int|
                    0 <= l < libraries.drop_last().len() && 0 <= k < libraries.drop_last()[l].len()
                        && (#[trigger] libraries.drop_last()[l][k]).name == name && !is_skipped(
                        libraries.drop_last()[l][k],
                    );
                assert(libraries[l][k] == libraries.drop_last()[l][k]);
            } else {
                let k = choose|k: int|
                    0 <= k < last.len() && (#[trigger] last[k]).name == name && !is_skipped(last[k]);
                assert(libraries[libraries.len() - 1][k] == last[k]);
            }
        }
    } else {
        assert(jar.entries.take(jar.entries.len() as int) =~= jar.entries);
    }
}

/// The assembled archive starts with the manifest, holds no name twice, and
/// every name in it is the manifest's, the path of one of the project's
/// files, or the name of an entry of a library that is not left out.  So no
/// signature file of a library gets into it.
pub proof fn lemma_assembled(
    manifest: Seq<char>,
    classes: Files,
    libraries: Seq<Seq<ArchiveEntryView>>,
)
    ensures
        assembled(manifest, classes, libraries).len() > 0,
        assembled(manifest, classes, libraries)[0] == (
            manifest_name(),
            vstd::utf8::encode_utf8(manifest),
        ),
        distinct_keys(assembled(manifest, classes, libraries)),
        forall|i: int|
            0 <= i < assembled(manifest, classes, libraries).len() ==> comes_from(
                (#[trigger] assembled(manifest, classes, libraries)[i]).0,
                classes,
                libraries,
            ),
{
    let start = opened(manifest);
    let classed = FatJarView { entries: with_classes(start.entries, classes), merged: start.merged };
    let filled = with_libraries(classed, libraries);
    let out = assembled(manifest, classes, libraries);
    assert(distinct_keys(start.entries));
    lemma_put_all_absent_extends(start.entries, normalised_files(classes));
    lemma_with_libraries(classed, libraries, manifest_name());
    lemma_put_all_absent_extends(filled.entries, filled.merged);
    assert(out[0] == out.take(filled.entries.len() as int)[0]);
    assert(filled.entries[0] == filled.entries.take(classed.entries.len() as int)[0]);
    assert(classed.entries[0] == classed.entries.take(start.entries.len() as int)[0]);
    assert forall|i: int| 0 <= i < out.len() implies comes_from(
        (#[trigger] out[i]).0,
        classes,
        libraries,
    ) by {
        let name = out[i].0;
        lemma_has_key_witness(out, i);
        lemma_put_all_absent_keys(filled.entries, filled.merged, name);
        if !has_key(filled.entries, name) {
            let j = choose|j: int| 0 <= j < filled.merged.len() && (#[trigger] filled.merged[j]).0
                == name;
            lemma_has_key_witness(filled.merged, j);
        }
        assert(known(filled, name));
        lemma_with_libraries(classed, libraries, name);
        if known(classed, name) {
            assert(has_key(classed.entries, name));
            lemma_put_all_absent_keys(start.entries, normalised_files(classes), name);
            if has_key(start.entries, name) {
                let j = lemma_has_key_position(start.entries, name);
                assert(name == manifest_name());
            } else {
                let k = choose|k: int|
                    0 <= k < normalised_files(classes).len() && (#[trigger] normalised_files(
                        classes,
                    )[k]).0 == name;
                assert(normalised(classes[k].0) == name);
            }
        }
    }
}

/// After a contribution under a name, that name has one merged entry: the
/// contribution itself where it is the first, else what was there, a line
/// break where that did not end in one, and the contribution.  Every other
/// name is merged as before.
pub proof fn lemma_merged_with(merged: Files, name: Seq<char>, more: Seq<u8>, other: Seq<char>)
    ensures
        lookup(merged_with(merged, name, more), name) == Some(
            match lookup(merged, name) {
                Some(old) => joined(old, more),
                None => more,
            },
        ),
        other != name ==> lookup(merged_with(merged, name, more), other) == lookup(merged, other),
        distinct_keys(merged) ==> distinct_keys(merged_with(merged, name, more)),
{
    match lookup(merged, name) {
        Some(old) => crate::table::lemma_put(merged, name, joined(old, more), other),
        None => crate::table::lemma_put(merged, name, more, other),
    }
}

} // verus!
