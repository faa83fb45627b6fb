//! Decisions of the toolchain manager: addresses, names and the handling of
//! the shell profile.

use crate::text::{
    contains, contains_sub, find_sub, first_match, replace, replace_all, slice_chars, split,
    split_any, to_chars,
};
use vstd::prelude::*;
use vstd::string::StringExecFns;

verus! {

/// The name of an operating system as the toolchain service spells it.
pub fn map_os(os: &str) -> (out: String)
    ensures
        out@ == replace_all(os@, "macos"@, "mac"@),
{
    replace(os, "macos", "mac")
}

/// The name of a processor architecture as the toolchain service spells it.
pub fn map_arch(arch: &str) -> (out: String)
    ensures
        out@ == replace_all(replace_all(arch@, "x86_64"@, "x64"@), "x86"@, "x32"@),
{
    let first = replace(arch, "x86_64", "x64");
    replace(first.as_str(), "x86", "x32")
}

/// `s` without the characters `c` at its start.
pub open spec fn without_leading(s: Seq<char>, c: char) -> Seq<char>
    decreases s.len(),
{
    if s.len() > 0 && s[0] == c {
        without_leading(s.skip(1), c)
    } else {
        s
    }
}

/// `s` without the characters `c` at its start.
pub fn trim_leading(s: &str, c: char) -> (out: String)
    ensures
        out@ == without_leading(s@, c),
{
    let chars = to_chars(s);
    let mut i: usize = 0;
    assert(s@.skip(0) =~= s@);
    while i < chars.len() && chars[i] == c
        invariant
            i <= chars.len(),
            chars@ == s@,
            without_leading(s@, c) == without_leading(s@.skip(i as int), c),
        decreases chars.len() - i,
    {
        assert(s@.skip(i as int)[0] == s@[i as int]);
        assert(s@.skip(i as int).skip(1) =~= s@.skip(i + 1));
        i += 1;
    }
    proof {
        if i < chars.len() {
            assert(s@.skip(i as int)[0] == s@[i as int]);
        }
        assert(s@.subrange(i as int, s@.len() as int) =~= s@.skip(i as int));
    }
    slice_chars(&chars, i, chars.len())
}

/// The address that describes the newest toolchain of the version
/// `version`, with or without a leading `v`, for an operating system and an
/// architecture as the machine names them.
pub open spec fn jdk_detail_url(version: Seq<char>, os: Seq<char>, arch: Seq<char>) -> Seq<char> {
    "https://api.adoptium.net/v3/assets/latest/"@ + without_leading(version, 'v')
        + "/hotspot?architecture="@ + replace_all(
        replace_all(arch, "x86_64"@, "x64"@),
        "x86"@,
        "x32"@,
    ) + "&image_type=jdk&os="@ + replace_all(os, "macos"@, "mac"@) + "&vendor=eclipse"@
}

/// The address that describes the newest toolchain of a version.
pub fn get_jdk_detail_url(version: &str, os: &str, arch: &str) -> (out: String)
    ensures
        out@ == jdk_detail_url(version@, os@, arch@),
{
    let version = trim_leading(version, 'v');
    let os = map_os(os);
    let arch = map_arch(arch);
    let mut out = String::from_str("https://api.adoptium.net/v3/assets/latest/");
    out.append(version.as_str());
    out.append("/hotspot?architecture=");
    out.append(arch.as_str());
    out.append("&image_type=jdk&os=");
    out.append(os.as_str());
    out.append("&vendor=eclipse");
    out
}

/// A link as the service writes it, without its quotation marks.
pub fn link_text(link: &str) -> (out: String)
    ensures
        out@ == replace_all(link@, "\""@, ""@),
{
    replace(link, "\"", "")
}

/// The file name at the end of an address: what follows its last slash.
pub fn archive_name(url: &str) -> (out: String)
    ensures
        out@ == split_any(url@, seq!['/']).last(),
{
    let mut seps: Vec<char> = Vec::new();
    seps.push('/');
    assert(seps@ =~= seq!['/']);
    let parts = split(url, &seps);
    proof {
        crate::text::lemma_split_nonempty(url@, seps@);
    }
    assert(parts.deep_view().last() == parts@[parts.len() - 1]@);
    parts[parts.len() - 1].clone()
}

/// The directory of the toolchain of the version `version`.
pub fn jdk_home(version: &str) -> (out: String)
    ensures
        out@ == "~/.grind/jdks/v"@ + version@,
{
    let mut out = String::from_str("~/.grind/jdks/v");
    out.append(version);
    out
}

/// The directory of the programs of the toolchain of the version `version`.
pub fn jdk_bin(version: &str) -> (out: String)
    ensures
        out@ == "~/.grind/jdks/v"@ + version@ + "/bin"@,
{
    let mut out = jdk_home(version);
    out.append("/bin");
    out
}

/// The line that marks, in the shell profile, what the toolchain manager
/// wrote.
pub open spec fn path_marker() -> Seq<char> {
    "# GRIND-JDK-PATH"@
}

/// Whether the shell profile `bashrc` holds the marker.
pub fn has_path_marker(bashrc: &str) -> (yes: bool)
    ensures
        yes == contains_sub(bashrc@, path_marker()),
{
    contains(bashrc, "# GRIND-JDK-PATH")
}

/// What is written behind the shell profile to put the managed toolchain on
/// the search path.
pub fn path_block() -> (out: &'static str)
    ensures
        out@ == "\n# GRIND-JDK-PATH\nexport PATH=\"$HOME/.grind/jdks/current:$PATH\"\n# GRIND-JDK-PATH\n        "@,
{
    "\n# GRIND-JDK-PATH\nexport PATH=\"$HOME/.grind/jdks/current:$PATH\"\n# GRIND-JDK-PATH\n        "
}

/// The shell profile `bashrc` up to the first marker; all of it where it
/// holds none.
pub fn without_path_block(bashrc: &str) -> (out: String)
    ensures
        out@ == bashrc@.take(first_match(bashrc@, path_marker()) as int),
{
    let chars = to_chars(bashrc);
    let marker = to_chars("# GRIND-JDK-PATH");
    let k = find_sub(&chars, &marker);
    let out = slice_chars(&chars, 0, k);
    assert(bashrc@.subrange(0, k as int) =~= bashrc@.take(k as int));
    out
}

/// Whether the toolchain in use is the managed one: its directory, its link
/// and the marker in the shell profile are all there.
pub fn run_jdk_checks(is_jdk: bool, is_symlink: bool, is_bashrc: bool) -> (managed: bool)
    ensures
        managed == (is_jdk && is_symlink && is_bashrc),
{
    is_jdk && is_bashrc && is_symlink && is_bashrc
}

/// How much of a download of `total` bytes is done after one more chunk:
/// never more than the total.
pub fn advance_download(downloaded: u64, chunk: usize, total: u64) -> (out: u64)
    ensures
        out == if downloaded + chunk <= total {
            downloaded + chunk
        } else {
            total as int
        },
{
    let chunk64: u64 = chunk as u64;
    if downloaded > total || chunk64 > total - downloaded {
        total
    } else {
        downloaded + chunk64
    }
}

/// The pattern of a version in what the toolchain prints.
pub open spec fn version_pattern() -> Seq<char> {
    "(\\d+\\.\\d+\\.\\d+.*\\w)"@
}

/// What the first group of the first match of the regular expression
/// `pattern` in `text` holds, as the `regex` crate finds it: nothing where
/// there is no match or the group took no part in it; an error in words where
/// the pattern is refused.
pub uninterp spec fn first_group_of(pattern: Seq<char>, text: Seq<char>) -> Result<
    Option<Seq<char>>,
    Seq<char>,
>;

/// What a search stands for.
pub open spec fn search_view(found: Result<Option<String>, String>) -> Result<
    Option<Seq<char>>,
    Seq<char>,
> {
    match found {
        Ok(Some(s)) => Ok(Some(s@)),
        Ok(None) => Ok(None),
        Err(e) => Err(e@),
    }
}

/// `regex::Regex::captures` on the expression that `regex::Regex::new` makes
/// of `pattern`: the text of the first group of the first match in `text`.
/// What matches is left to the crate; the same pattern and text always give
/// the same result.
#[verifier::external_body]
fn first_group(pattern: &str, text: &str) -> (found: Result<Option<String>, String>)
    ensures
        search_view(found) == first_group_of(pattern@, text@),
{
    match regex::Regex::new(pattern) {
        Err(e) => Err(e.to_string()),
        Ok(re) => Ok(
            match re.captures(text) {
                Some(caps) => match caps.get(1) {
                    Some(m) => Some(m.as_str().to_string()),
                    None => None,
                },
                None => None,
            },
        ),
    }
}

/// The version that a search found, or why there is none.
pub open spec fn version_found(found: Result<Option<Seq<char>>, Seq<char>>) -> Result<
    Seq<char>,
    Seq<char>,
> {
    match found {
        Ok(Some(v)) => Ok(v),
        Ok(None) => Err("Could not determine Java version."@),
        Err(e) => Err(e),
    }
}

/// What a version or a refusal stands for.
pub open spec fn version_view(out: Result<String, String>) -> Result<Seq<char>, Seq<char>> {
    match out {
        Ok(v) => Ok(v@),
        Err(e) => Err(e@),
    }
}

/// The version that the search `found` gave, or why there is none.
pub fn java_version_from(found: Result<Option<String>, String>) -> (out: Result<String, String>)
    ensures
        version_view(out) == version_found(search_view(found)),
{
    match found {
        Ok(Some(v)) => Ok(v),
        Ok(None) => Err(String::from_str("Could not determine Java version.")),
        Err(e) => Err(e),
    }
}

/// The version of the toolchain that printed `output`.
pub fn get_java_version(output: &str) -> (out: Result<String, String>)
    ensures
        version_view(out) == version_found(first_group_of(version_pattern(), output@)),
{
    java_version_from(first_group("(\\d+\\.\\d+\\.\\d+.*\\w)", output))
}

} // verus!
