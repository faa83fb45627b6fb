//! Digests of the files of a directory, and their verification.
//!
//! The manifest of a directory names each of its files by its path below the
//! directory, with forward slashes, and gives its digest in lower-case
//! hexadecimal.  The manifest file itself is not part of it.

use crate::table::{distinct_keys, find_key, lemma_key_index, lookup, put};
use crate::text::{replace, split, split_any, str_eq};
use crate::uberjar::{lemma_bytes_view, normalised, normalised_files, Files};
use vstd::prelude::*;

verus! {

/// The 16 bytes of the MD5 digest of `data`, as the `md5` crate computes it.
pub uninterp spec fn md5_digest(data: Seq<u8>) -> Seq<u8>;

/// `md5::compute`: the MD5 digest of `data`.  How the digest follows from the
/// data is left to the crate; the same data always has the same digest.
#[verifier::external_body]
fn md5_compute(data: &Vec<u8>) -> (digest: [u8; 16])
    ensures
        digest@ == md5_digest(data@),
{
    md5::compute(data).0
}

/// The character for a number below sixteen: a digit, or a letter from `a`
/// to `f`.
pub open spec fn hex_digit(n: int) -> char {
    if n < 10 {
        ((48 + n) as u8) as char
    } else {
        ((87 + n) as u8) as char
    }
}

/// The bytes `bytes` in lower-case hexadecimal, two characters for each.
pub open spec fn lower_hex(bytes: Seq<u8>) -> Seq<char>
    decreases bytes.len(),
{
    if bytes.len() == 0 {
        Seq::empty()
    } else {
        lower_hex(bytes.drop_last()).push(hex_digit(bytes.last() as int / 16)).push(
            hex_digit(bytes.last() as int % 16),
        )
    }
}

/// The `LowerHex` form of `md5::Digest`: each of the 16 bytes as two
/// lower-case hexadecimal characters, in order.
#[verifier::external_body]
fn digest_hex(digest: &[u8; 16]) -> (out: String)
    ensures
        out@ == lower_hex(digest@),
{
    format!("{:x}", md5::Digest(*digest))
}

/// The digest of `data` as it stands in a manifest.
pub open spec fn digest_text(data: Seq<u8>) -> Seq<char> {
    lower_hex(md5_digest(data))
}

/// The digest of the contents `data` in lower-case hexadecimal.
pub fn file_digest(data: &Vec<u8>) -> (out: String)
    ensures
        out@ == digest_text(data@),
{
    let digest = md5_compute(data);
    digest_hex(&digest)
}

/// The digests of the files of a directory, by path.
#[derive(Debug, PartialEq, Eq)]
pub struct IntegrityData {
    pub files: Vec<(String, String)>,
}

impl DeepView for IntegrityData {
    type V = Seq<(Seq<char>, Seq<char>)>;

    open spec fn deep_view(&self) -> Seq<(Seq<char>, Seq<char>)> {
        self.files.deep_view()
    }
}

/// The name of the manifest file.
pub open spec fn own_name() -> Seq<char> {
    "integrity.json"@
}

/// Whether the file at `path` is a manifest file: the last part of the path
/// is the manifest's name.
pub open spec fn is_own(path: Seq<char>) -> bool {
    split_any(normalised(path), seq!['/']).last() == own_name()
}

/// The manifest of the files `files`: for each file that is not a manifest
/// file, its digest under its normalised path.  Of two files with the same
/// path the later one counts.
pub open spec fn manifest_of(files: Files) -> Seq<(Seq<char>, Seq<char>)>
    decreases files.len(),
{
    if files.len() == 0 {
        Seq::empty()
    } else if is_own(files.last().0) {
        manifest_of(files.drop_last())
    } else {
        put(manifest_of(files.drop_last()), normalised(files.last().0), digest_text(files.last().1))
    }
}

/// Whether the file at `path` is a manifest file.
pub fn is_manifest_file(path: &str) -> (yes: bool)
    ensures
        yes == is_own(path@),
{
    let flat = replace(path, "\\", "/");
    let mut seps: Vec<char> = Vec::new();
    seps.push('/');
    assert(seps@ =~= seq!['/']);
    let parts = split(flat.as_str(), &seps);
    proof {
        crate::text::lemma_split_nonempty(flat@, seps@);
    }
    let last = &parts[parts.len() - 1];
    assert(parts.deep_view().last() == last@);
    str_eq(last.as_str(), "integrity.json")
}

/// The manifest of a directory whose files are `files`, each given by its
/// path below the directory and its contents.
pub fn generate_integrity_data(files: &Vec<(String, Vec<u8>)>) -> (out: IntegrityData)
    ensures
        out.deep_view() == manifest_of(files.deep_view()),
{
    let mut table: Vec<(String, String)> = Vec::new();
    let mut i: usize = 0;
    assert(files.deep_view().take(0) =~= Seq::<(Seq<char>, Seq<u8>)>::empty());
    assert(table.deep_view() =~= Seq::<(Seq<char>, Seq<char>)>::empty());
    while i < files.len()
        invariant
            i <= files.len(),
            table.deep_view() == manifest_of(files.deep_view().take(i as int)),
        decreases files.len() - i,
    {
        proof {
            let next = files.deep_view().take(i + 1);
            assert(next.drop_last() =~= files.deep_view().take(i as int));
            lemma_bytes_view(files@[i as int].1);
            assert(next.last() == (files@[i as int].0@, files@[i as int].1@));
        }
        if !is_manifest_file(files[i].0.as_str()) {
            let path = replace(files[i].0.as_str(), "\\", "/");
            let digest = file_digest(&files[i].1);
            crate::pom::set_property(&mut table, path.as_str(), digest.as_str());
        }
        i += 1;
    }
    assert(files.deep_view().take(files.len() as int) =~= files.deep_view());
    IntegrityData { files: table }
}

/// What the check of one recorded file found.
#[derive(Debug, PartialEq, Eq)]
pub enum FileCheck {
    /// The file is there and has the recorded digest.
    Matches,
    /// The file is there and has another digest: the one given.
    Mismatch(String),
    /// The file is not there.
    Missing,
}

/// What a `FileCheck` stands for.
pub enum FileCheckView {
    Matches,
    Mismatch(Seq<char>),
    Missing,
}

impl DeepView for FileCheck {
    type V = FileCheckView;

    open spec fn deep_view(&self) -> FileCheckView {
        match self {
            FileCheck::Matches => FileCheckView::Matches,
            FileCheck::Mismatch(actual) => FileCheckView::Mismatch(actual@),
            FileCheck::Missing => FileCheckView::Missing,
        }
    }
}

/// What the check of a recorded file finds, given the digest `actual` of the
/// file at hand, if it is there, and the recorded digest `expected`.
pub open spec fn check_given(actual: Option<Seq<char>>, expected: Seq<char>) -> FileCheckView {
    match actual {
        None => FileCheckView::Missing,
        Some(digest) => if digest == expected {
            FileCheckView::Matches
        } else {
            FileCheckView::Mismatch(digest)
        },
    }
}

/// The check of the file recorded under `path` with the digest `expected`,
/// among the files `files` at hand.
pub open spec fn check_of(files: Files, path: Seq<char>, expected: Seq<char>) -> FileCheckView {
    check_given(
        match lookup(files, path) {
            Some(data) => Some(digest_text(data)),
            None => None,
        },
        expected,
    )
}

/// What the check of a recorded file finds, given the digest `actual` of the
/// file at hand, if it is there, and the recorded digest `expected`.
pub fn check_file(actual: Option<String>, expected: &str) -> (out: FileCheck)
    ensures
        out.deep_view() == check_given(actual.deep_view(), expected@),
{
    match actual {
        None => FileCheck::Missing,
        Some(digest) => {
            if str_eq(digest.as_str(), expected) {
                FileCheck::Matches
            } else {
                FileCheck::Mismatch(digest)
            }
        },
    }
}

/// The checks of all recorded files, in the manifest's order.
pub open spec fn checks_of(manifest: Seq<(Seq<char>, Seq<char>)>, files: Files) -> Seq<
    FileCheckView,
> {
    manifest.map_values(|r: (Seq<char>, Seq<char>)| check_of(files, r.0, r.1))
}

/// How many of `checks` found the file missing.
pub open spec fn count_missing(checks: Seq<FileCheckView>) -> nat
    decreases checks.len(),
{
    if checks.len() == 0 {
        0
    } else {
        count_missing(checks.drop_last()) + if checks.last() is Missing {
            1nat
        } else {
            0nat
        }
    }
}

/// How many of `checks` found another digest.
pub open spec fn count_mismatched(checks: Seq<FileCheckView>) -> nat
    decreases checks.len(),
{
    if checks.len() == 0 {
        0
    } else {
        count_mismatched(checks.drop_last()) + if checks.last() is Mismatch {
            1nat
        } else {
            0nat
        }
    }
}

/// The outcome of a verification.
#[derive(Debug, PartialEq, Eq)]
pub struct IntegrityReport {
    pub all_match: bool,
    pub total: usize,
    pub missing: usize,
    pub mismatched: usize,
    pub checks: Vec<FileCheck>,
}

/// Verifies the files `files` at hand against the manifest: `files` holds,
/// by recorded path, the contents of each recorded file that is there.  The
/// report has one check for each recorded file, in the manifest's order; all
/// match exactly when every recorded file is there with its recorded digest.
pub fn verify_integrity_data(manifest: &IntegrityData, files: &Vec<(String, Vec<u8>)>) -> (out:
    IntegrityReport)
    ensures
        out.checks.deep_view() == checks_of(manifest.deep_view(), files.deep_view()),
        out.total == manifest.files.len(),
        out.missing == count_missing(out.checks.deep_view()),
        out.mismatched == count_mismatched(out.checks.deep_view()),
        out.all_match == (out.missing == 0 && out.mismatched == 0),
        out.all_match == (forall|i: int|
            0 <= i < out.checks.len() ==> #[trigger] out.checks.deep_view()[i] is Matches),
{
    let mut checks: Vec<FileCheck> = Vec::new();
    let mut missing: usize = 0;
    let mut mismatched: usize = 0;
    let mut i: usize = 0;
    let ghost wanted = checks_of(manifest.deep_view(), files.deep_view());
    assert(checks.deep_view() =~= wanted.take(0));
    while i < manifest.files.len()
        invariant
            i <= manifest.files.len(),
            wanted == checks_of(manifest.deep_view(), files.deep_view()),
            checks.deep_view() == wanted.take(i as int),
            missing == count_missing(checks.deep_view()),
            mismatched == count_mismatched(checks.deep_view()),
            missing + mismatched <= i,
            (missing == 0 && mismatched == 0) == (forall|j: int|
                0 <= j < checks.len() ==> #[trigger] checks.deep_view()[j] is Matches),
        decreases manifest.files.len() - i,
    {
        let ghost before = checks.deep_view();
        let path = manifest.files[i].0.as_str();
        let expected = manifest.files[i].1.as_str();
        assert(manifest.deep_view()[i as int] == (path@, expected@));
        let k = find_key(files, path);
        let actual: Option<String> = if k >= files.len() {
            None
        } else {
            proof {
                lemma_bytes_view(files@[k as int].1);
            }
            assert(files.deep_view()[k as int].1 == files@[k as int].1@);
            Some(file_digest(&files[k].1))
        };
        let check = check_file(actual, expected);
        assert(check.deep_view() == wanted[i as int]);
        match &check {
            FileCheck::Missing => {
                missing += 1;
            },
            FileCheck::Mismatch(_) => {
                mismatched += 1;
            },
            FileCheck::Matches => {},
        }
        checks.push(check);
        proof {
            let after = checks.deep_view();
            assert(after =~= before.push(wanted[i as int]));
            assert(after.drop_last() =~= before);
            assert(after =~= wanted.take(i + 1));
            assert forall|j: int| 0 <= j < before.len() implies after[j] == before[j] by {}
            if forall|j: int| 0 <= j < after.len() ==> #[trigger] after[j] is Matches {
                assert forall|j: int| 0 <= j < before.len() implies #[trigger] before[j] is Matches by {
                    assert(after[j] is Matches);
                }
                assert(after[i as int] is Matches);
            }
        }
        i += 1;
    }
    assert(checks.deep_view() =~= wanted);
    IntegrityReport {
        all_match: missing == 0 && mismatched == 0,
        total: manifest.files.len(),
        missing,
        mismatched,
        checks,
    }
}

/// The files `files`, each with its digest under its normalised path.
pub open spec fn digests(files: Files) -> Seq<(Seq<char>, Seq<char>)> {
    Seq::new(files.len(), |k: int| (normalised(files[k].0), digest_text(files[k].1)))
}

/// Where no file is a manifest file and no two files have the same path, the
/// manifest records each file once, in order.
pub proof fn lemma_manifest_of_distinct(files: Files)
    requires
        distinct_keys(normalised_files(files)),
        forall|k: int| 0 <= k < files.len() ==> !is_own((#[trigger] files[k]).0),
    ensures
        manifest_of(files) == digests(files),
    decreases files.len(),
{
    if files.len() > 0 {
        let rest = files.drop_last();
        let last = files.last();
        assert forall|a: int, b: int| 0 <= a < b < rest.len() implies (#[trigger] normalised_files(
            rest,
        )[a]).0 != (#[trigger] normalised_files(rest)[b]).0 by {
            assert(normalised_files(rest)[a] == normalised_files(files)[a]);
            assert(normalised_files(rest)[b] == normalised_files(files)[b]);
        }
        assert forall|k: int| 0 <= k < rest.len() implies !is_own((#[trigger] rest[k]).0) by {
            assert(rest[k] == files[k]);
        }
        lemma_manifest_of_distinct(rest);
        let prev = manifest_of(rest);
        let key = normalised(last.0);
        assert(!is_own(files[files.len() - 1].0));
        assert forall|j: int| 0 <= j < prev.len() implies (#[trigger] prev[j]).0 != key by {
            assert(normalised_files(files)[j].0 == prev[j].0);
            assert(normalised_files(files)[files.len() - 1].0 == key);
        }
        lemma_key_index(prev, key, prev.len() as int);
        assert(manifest_of(files) =~= digests(files));
    } else {
        assert(manifest_of(files) =~= digests(files));
    }
}

/// A manifest that was just generated verifies: where no file is a manifest
/// file and no two files have the same path, every check of the files against
/// their own manifest finds a match.
pub proof fn lemma_round_trip(files: Files, i: int)
    requires
        distinct_keys(normalised_files(files)),
        forall|k: int| 0 <= k < files.len() ==> !is_own((#[trigger] files[k]).0),
        0 <= i < files.len(),
    ensures
        checks_of(manifest_of(files), normalised_files(files)).len() == files.len(),
        checks_of(manifest_of(files), normalised_files(files))[i] is Matches,
{
    lemma_manifest_of_distinct(files);
    let at_hand = normalised_files(files);
    let key = normalised(files[i].0);
    assert(at_hand[i].0 == key);
    assert forall|j: int| 0 <= j < i implies (#[trigger] at_hand[j]).0 != key by {}
    lemma_key_index(at_hand, key, i);
    assert(lookup(at_hand, key) == Some(files[i].1));
    assert(manifest_of(files)[i] == (key, digest_text(files[i].1)));
}

} // verus!
