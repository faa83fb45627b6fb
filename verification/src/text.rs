//! Character-level operations on strings.
//!
//! Every function here is stated over the sequence of characters of its
//! arguments, so that the rest of the crate can reason about names, versions
//! and placeholders as plain sequences.

use vstd::prelude::*;
use vstd::std_specs::iter::IteratorSpec;
use vstd::string::StringExecFns;

verus! {

/// `String::push` appends one character to the end of the string.
pub assume_specification[ String::push ](s: &mut String, c: char)
    ensures
        final(s)@ == old(s)@.push(c),
;

/// `pat` occurs in `s` starting at index `i`.
pub open spec fn is_match_at(s: Seq<char>, pat: Seq<char>, i: int) -> bool {
    &&& 0 <= i
    &&& i + pat.len() <= s.len()
    &&& s.subrange(i, i + pat.len()) =~= pat
}

/// `pat` occurs somewhere in `s`.
pub open spec fn contains_sub(s: Seq<char>, pat: Seq<char>) -> bool {
    exists|i: int| is_match_at(s, pat, i)
}

/// `to`, then each character of `s` followed by `to`.
pub open spec fn interleave(s: Seq<char>, to: Seq<char>) -> Seq<char>
    decreases s.len(),
{
    if s.len() == 0 {
        to
    } else {
        to + seq![s[0]] + interleave(s.skip(1), to)
    }
}

/// `s` with every occurrence of `pat` replaced by `to`, scanning from the left
/// and never matching inside a replaced occurrence.  An empty pattern matches
/// before every character and at the end.
pub open spec fn replace_all(s: Seq<char>, pat: Seq<char>, to: Seq<char>) -> Seq<char>
    decreases s.len(),
{
    if pat.len() == 0 {
        interleave(s, to)
    } else if s.len() == 0 {
        s
    } else if is_match_at(s, pat, 0) {
        to + replace_all(s.skip(pat.len() as int), pat, to)
    } else {
        seq![s[0]] + replace_all(s.skip(1), pat, to)
    }
}

/// The index of the first character of `s` that is in `seps`, or the length
/// of `s` when there is none.
pub open spec fn first_sep(s: Seq<char>, seps: Seq<char>) -> nat
    decreases s.len(),
{
    if s.len() == 0 {
        0
    } else if seps.contains(s[0]) {
        0
    } else {
        1 + first_sep(s.skip(1), seps)
    }
}

/// The pieces of `s` between the characters that are in `seps`.  There is
/// always at least one piece; two separators in a row enclose an empty piece.
pub open spec fn split_any(s: Seq<char>, seps: Seq<char>) -> Seq<Seq<char>>
    decreases s.len(),
{
    let i = first_sep(s, seps);
    if i >= s.len() {
        seq![s]
    } else {
        seq![s.take(i as int)] + split_any(s.skip(i as int + 1), seps)
    }
}

/// The pieces `parts` written one after another with `sep` between them.
pub open spec fn join(parts: Seq<Seq<char>>, sep: Seq<char>) -> Seq<char>
    decreases parts.len(),
{
    if parts.len() == 0 {
        Seq::empty()
    } else if parts.len() == 1 {
        parts[0]
    } else {
        join(parts.drop_last(), sep) + sep + parts.last()
    }
}

/// The lower-case form of an ASCII letter; any other character unchanged.
pub open spec fn ascii_lower(c: char) -> char {
    if 'A' <= c <= 'Z' {
        ((c as u8) + 32) as char
    } else {
        c
    }
}

/// `s` with every ASCII upper-case letter made lower-case.
pub open spec fn ascii_lowercase(s: Seq<char>) -> Seq<char> {
    s.map_values(|c: char| ascii_lower(c))
}

/// `c` is one of the ten ASCII digits.
pub open spec fn is_digit(c: char) -> bool {
    '0' <= c <= '9'
}

/// `c` is an ASCII letter.
pub open spec fn is_alpha(c: char) -> bool {
    ('a' <= c <= 'z') || ('A' <= c <= 'Z')
}

/// The number that the decimal digits `digits` write.
pub open spec fn decimal_value(digits: Seq<char>) -> nat
    decreases digits.len(),
{
    if digits.len() == 0 {
        0
    } else {
        10 * decimal_value(digits.drop_last()) + ((digits.last() as u8) - ('0' as u8)) as nat
    }
}

/// `first_sep` is the position `k` when no separator comes before `k` and
/// `k` is a separator or the end.
pub proof fn lemma_first_sep(s: Seq<char>, seps: Seq<char>, k: int)
    requires
        0 <= k <= s.len(),
        forall|j: int| 0 <= j < k ==> !seps.contains(#[trigger] s[j]),
        k == s.len() || seps.contains(s[k]),
    ensures
        first_sep(s, seps) == k,
    decreases k,
{
    if k > 0 {
        assert(!seps.contains(s[0]));
        assert forall|j: int| 0 <= j < k - 1 implies !seps.contains(#[trigger] s.skip(1)[j]) by {
            assert(s.skip(1)[j] == s[j + 1]);
        }
        lemma_first_sep(s.skip(1), seps, k - 1);
    }
}

/// A split always has at least one piece.
pub proof fn lemma_split_nonempty(s: Seq<char>, seps: Seq<char>)
    ensures
        split_any(s, seps).len() > 0,
{
}

/// The index of the first occurrence of `pat` in `s`, or the length of `s`
/// when there is none.
pub open spec fn first_match(s: Seq<char>, pat: Seq<char>) -> nat
    decreases s.len(),
{
    if s.len() == 0 {
        0
    } else if is_match_at(s, pat, 0) {
        0
    } else {
        1 + first_match(s.skip(1), pat)
    }
}

/// `first_match` is the position `k` when `pat` does not occur at any index
/// before `k` and occurs at `k`, or `k` is the end.
pub proof fn lemma_first_match(s: Seq<char>, pat: Seq<char>, k: int)
    requires
        0 <= k <= s.len(),
        forall|j: int| 0 <= j < k ==> !is_match_at(s, pat, j),
        k == s.len() || is_match_at(s, pat, k),
    ensures
        first_match(s, pat) == k,
    decreases k,
{
    if k > 0 {
        assert(!is_match_at(s, pat, 0));
        assert forall|j: int| 0 <= j < k - 1 implies !is_match_at(s.skip(1), pat, j) by {
            if is_match_at(s.skip(1), pat, j) {
                assert(s.skip(1).subrange(j, j + pat.len()) =~= s.subrange(
                    j + 1,
                    j + 1 + pat.len(),
                ));
                assert(is_match_at(s, pat, j + 1));
            }
        }
        if k < s.len() {
            assert(s.skip(1).subrange(k - 1, k - 1 + pat.len()) =~= s.subrange(k, k + pat.len()));
        }
        lemma_first_match(s.skip(1), pat, k - 1);
    }
}

/// Replacing what does not occur changes nothing.
pub proof fn lemma_replace_absent(s: Seq<char>, pat: Seq<char>, to: Seq<char>)
    requires
        pat.len() > 0,
        !contains_sub(s, pat),
    ensures
        replace_all(s, pat, to) == s,
    decreases s.len(),
{
    if s.len() > 0 {
        assert(!is_match_at(s, pat, 0));
        assert(!contains_sub(s.skip(1), pat)) by {
            if contains_sub(s.skip(1), pat) {
                let j = choose|j: int| is_match_at(s.skip(1), pat, j);
                assert(s.skip(1).subrange(j, j + pat.len()) =~= s.subrange(
                    j + 1,
                    j + 1 + pat.len(),
                ));
                assert(is_match_at(s, pat, j + 1));
            }
        }
        lemma_replace_absent(s.skip(1), pat, to);
        assert(seq![s[0]] + s.skip(1) =~= s);
    }
}

/// Replacing the whole of a text gives the replacement.
pub proof fn lemma_replace_whole(pat: Seq<char>, to: Seq<char>)
    requires
        pat.len() > 0,
    ensures
        replace_all(pat, pat, to) == to,
{
    assert(pat.subrange(0, pat.len() as int) =~= pat);
    assert(is_match_at(pat, pat, 0));
    assert(pat.skip(pat.len() as int).len() == 0);
    assert(to + replace_all(pat.skip(pat.len() as int), pat, to) =~= to);
}

/// The characters of `s`, in order.
pub fn to_chars(s: &str) -> (out: Vec<char>)
    ensures
        out@ == s@,
{
    let mut out: Vec<char> = Vec::new();
    let mut it = s.chars();
    loop
        invariant
            out@ + it.remaining() == s@,
        ensures
            out@ == s@,
        decreases s@.len() - out@.len(),
    {
        match it.next() {
            Some(c) => {
                assert(out@.push(c) + it.remaining() =~= s@);
                out.push(c);
            },
            None => {
                assert(out@ =~= s@);
                break ;
            },
        }
    }
    out
}

/// The string made of the characters `chars`.
pub fn from_chars(chars: &Vec<char>) -> (out: String)
    ensures
        out@ == chars@,
{
    let mut out = String::new();
    let mut i: usize = 0;
    while i < chars.len()
        invariant
            i <= chars.len(),
            out@ == chars@.take(i as int),
        decreases chars.len() - i,
    {
        out.push(chars[i]);
        i += 1;
    }
    out
}

/// Whether `a` and `b` hold the same characters.
pub fn chars_eq(a: &Vec<char>, b: &Vec<char>) -> (same: bool)
    ensures
        same == (a@ == b@),
{
    if a.len() != b.len() {
        return false;
    }
    let mut i: usize = 0;
    while i < a.len()
        invariant
            i <= a.len(),
            a.len() == b.len(),
            forall|j: int| 0 <= j < i ==> a@[j] == b@[j],
        decreases a.len() - i,
    {
        if a[i] != b[i] {
            return false;
        }
        i += 1;
    }
    assert(a@ =~= b@);
    true
}

/// Whether `a` and `b` hold the same characters.
pub fn str_eq(a: &str, b: &str) -> (same: bool)
    ensures
        same == (a@ == b@),
{
    let av = to_chars(a);
    let bv = to_chars(b);
    chars_eq(&av, &bv)
}

/// Whether `pat` occurs in `s` at index `i`.
pub fn matches_at(s: &Vec<char>, pat: &Vec<char>, i: usize) -> (found: bool)
    ensures
        found == is_match_at(s@, pat@, i as int),
{
    if pat.len() > s.len() || i > s.len() - pat.len() {
        return false;
    }
    let mut k: usize = 0;
    while k < pat.len()
        invariant
            k <= pat.len(),
            i + pat.len() <= s.len(),
            forall|j: int| 0 <= j < k ==> s@[i + j] == pat@[j],
        decreases pat.len() - k,
    {
        if s[i + k] != pat[k] {
            assert(s@.subrange(i as int, i + pat.len())[k as int] == s@[i + k]);
            return false;
        }
        k += 1;
    }
    assert(s@.subrange(i as int, i + pat.len()) =~= pat@);
    true
}

/// Whether `s` begins with `pat`.
pub fn starts_with(s: &str, pat: &str) -> (found: bool)
    ensures
        found == pat@.is_prefix_of(s@),
{
    let sv = to_chars(s);
    let pv = to_chars(pat);
    matches_at(&sv, &pv, 0)
}

/// Whether `s` ends with `pat`.
pub fn ends_with(s: &str, pat: &str) -> (found: bool)
    ensures
        found == pat@.is_suffix_of(s@),
{
    let sv = to_chars(s);
    let pv = to_chars(pat);
    if pv.len() > sv.len() {
        return false;
    }
    matches_at(&sv, &pv, sv.len() - pv.len())
}

/// Whether `pat` occurs somewhere in `s`.
pub fn contains(s: &str, pat: &str) -> (found: bool)
    ensures
        found == contains_sub(s@, pat@),
{
    let sv = to_chars(s);
    let pv = to_chars(pat);
    if pv.len() > sv.len() {
        return false;
    }
    let last: usize = sv.len() - pv.len();
    let mut i: usize = 0;
    while i <= last
        invariant
            i <= last + 1,
            last == sv.len() - pv.len(),
            sv@ == s@,
            pv@ == pat@,
            forall|j: int| 0 <= j < i ==> !is_match_at(s@, pat@, j),
        decreases last + 1 - i,
    {
        if matches_at(&sv, &pv, i) {
            return true;
        }
        i += 1;
    }
    false
}

/// `s` with every occurrence of `pat` replaced by `to`.
pub fn replace(s: &str, pat: &str, to: &str) -> (out: String)
    ensures
        out@ == replace_all(s@, pat@, to@),
{
    let sv = to_chars(s);
    let pv = to_chars(pat);
    let mut out = String::new();
    let mut i: usize = 0;
    assert(s@.skip(0) =~= s@);
    if pv.len() == 0 {
        while i < sv.len()
            invariant
                i <= sv.len(),
                sv@ == s@,
                out@ + interleave(s@.skip(i as int), to@) == interleave(s@, to@),
            decreases sv.len() - i,
        {
            proof {
                let rest = s@.skip(i as int);
                assert(rest.skip(1) =~= s@.skip(i + 1));
                assert((out@ + to@).push(sv@[i as int]) + interleave(s@.skip(i + 1), to@) =~= out@
                    + interleave(rest, to@));
            }
            out.append(to);
            out.push(sv[i]);
            i += 1;
        }
        out.append(to);
        return out;
    }
    while i < sv.len()
        invariant
            i <= sv.len(),
            sv@ == s@,
            pv@ == pat@,
            pat@.len() > 0,
            out@ + replace_all(s@.skip(i as int), pat@, to@) == replace_all(s@, pat@, to@),
        decreases sv.len() - i,
    {
        let ghost rest = s@.skip(i as int);
        if matches_at(&sv, &pv, i) {
            proof {
                assert(rest.subrange(0, pat@.len() as int) =~= s@.subrange(
                    i as int,
                    i + pat@.len(),
                ));
                assert(is_match_at(rest, pat@, 0));
                assert(rest.skip(pat@.len() as int) =~= s@.skip(i + pat@.len()));
                assert(out@ + to@ + replace_all(s@.skip(i + pat@.len()), pat@, to@) =~= out@
                    + replace_all(rest, pat@, to@));
            }
            out.append(to);
            i += pv.len();
        } else {
            proof {
                if is_match_at(rest, pat@, 0) {
                    assert(rest.subrange(0, pat@.len() as int) =~= s@.subrange(
                        i as int,
                        i + pat@.len(),
                    ));
                }
                assert(!is_match_at(rest, pat@, 0));
                assert(rest.skip(1) =~= s@.skip(i + 1));
                assert(out@.push(sv@[i as int]) + replace_all(s@.skip(i + 1), pat@, to@) =~= out@
                    + replace_all(rest, pat@, to@));
            }
            out.push(sv[i]);
            i += 1;
        }
    }
    proof {
        assert(s@.skip(s@.len() as int).len() == 0);
        assert(out@ =~= out@ + replace_all(s@.skip(i as int), pat@, to@));
    }
    out
}

/// Whether `c` is one of the characters `set`.
pub fn contains_char(set: &Vec<char>, c: char) -> (found: bool)
    ensures
        found == set@.contains(c),
{
    let mut i: usize = 0;
    while i < set.len()
        invariant
            i <= set.len(),
            forall|j: int| 0 <= j < i ==> set@[j] != c,
        decreases set.len() - i,
    {
        if set[i] == c {
            return true;
        }
        i += 1;
    }
    false
}

/// The pieces of `s` between the characters that are in `seps`.
pub fn split(s: &str, seps: &Vec<char>) -> (out: Vec<String>)
    ensures
        out.deep_view() == split_any(s@, seps@),
{
    let sv = to_chars(s);
    let sepv = seps;
    let mut out: Vec<String> = Vec::new();
    let mut cur = String::new();
    let mut i: usize = 0;
    let ghost mut start: int = 0;
    assert(s@.skip(0) =~= s@);
    assert(out.deep_view() + split_any(s@, seps@) =~= split_any(s@, seps@));
    while i < sv.len()
        invariant
            0 <= start <= i <= sv.len(),
            sv@ == s@,
            sepv@ == seps@,
            cur@ == s@.subrange(start, i as int),
            forall|j: int| start <= j < i ==> !seps@.contains(#[trigger] s@[j]),
            out.deep_view() + split_any(s@.skip(start), seps@) == split_any(s@, seps@),
        decreases sv.len() - i,
    {
        let ghost rest = s@.skip(start);
        if contains_char(sepv, sv[i]) {
            let ghost before = out.deep_view();
            proof {
                assert forall|j: int| 0 <= j < i - start implies !seps@.contains(
                    #[trigger] rest[j],
                ) by {
                    assert(rest[j] == s@[start + j]);
                }
                lemma_first_sep(rest, seps@, i - start);
                assert(rest.take(i - start) =~= cur@);
                assert(rest.skip(i - start + 1) =~= s@.skip(i + 1));
            }
            out.push(cur);
            cur = String::new();
            proof {
                assert(out.deep_view() =~= before.push(rest.take(i - start)));
                assert(out.deep_view() + split_any(s@.skip(i + 1), seps@) =~= before + split_any(
                    rest,
                    seps@,
                ));
                start = i + 1;
            }
        } else {
            cur.push(sv[i]);
            assert(cur@ =~= s@.subrange(start, i + 1));
        }
        i += 1;
    }
    let ghost before = out.deep_view();
    let ghost rest = s@.skip(start);
    proof {
        assert forall|j: int| 0 <= j < rest.len() implies !seps@.contains(#[trigger] rest[j]) by {
            assert(rest[j] == s@[start + j]);
        }
        lemma_first_sep(rest, seps@, rest.len() as int);
        assert(rest =~= cur@);
    }
    out.push(cur);
    assert(out.deep_view() =~= before + split_any(rest, seps@));
    out
}

/// The strings `parts` written one after another with `sep` between them.
pub fn join_strings(parts: &Vec<String>, sep: &str) -> (out: String)
    ensures
        out@ == join(parts.deep_view(), sep@),
{
    let mut out = String::new();
    let mut i: usize = 0;
    assert(parts.deep_view().take(0) =~= Seq::<Seq<char>>::empty());
    while i < parts.len()
        invariant
            i <= parts.len(),
            out@ == join(parts.deep_view().take(i as int), sep@),
        decreases parts.len() - i,
    {
        proof {
            let next = parts.deep_view().take(i + 1);
            assert(next.drop_last() =~= parts.deep_view().take(i as int));
            assert(next.last() == parts@[i as int]@);
            if i == 0 {
                assert(out@ + parts@[0]@ =~= join(next, sep@));
            }
        }
        if i > 0 {
            out.append(sep);
        }
        out.append(parts[i].as_str());
        i += 1;
    }
    assert(parts.deep_view().take(parts.len() as int) =~= parts.deep_view());
    out
}

/// The lower-case form of an ASCII letter; any other character unchanged.
pub fn lower_char(c: char) -> (out: char)
    ensures
        out == ascii_lower(c),
{
    if c >= 'A' && c <= 'Z' {
        ((c as u8) + 32) as char
    } else {
        c
    }
}

/// `s` with every ASCII upper-case letter made lower-case.
pub fn to_ascii_lowercase(s: &str) -> (out: String)
    ensures
        out@ == ascii_lowercase(s@),
{
    let sv = to_chars(s);
    let mut out = String::new();
    let mut i: usize = 0;
    while i < sv.len()
        invariant
            i <= sv.len(),
            sv@ == s@,
            out@ == ascii_lowercase(s@).take(i as int),
        decreases sv.len() - i,
    {
        out.push(lower_char(sv[i]));
        assert(out@ =~= ascii_lowercase(s@).take(i + 1));
        i += 1;
    }
    assert(out@ =~= ascii_lowercase(s@));
    out
}

/// Whether `a` and `b` are the same once ASCII letters are made lower-case.
pub fn eq_ignore_ascii_case(a: &str, b: &str) -> (same: bool)
    ensures
        same == (ascii_lowercase(a@) == ascii_lowercase(b@)),
{
    let la = to_ascii_lowercase(a);
    let lb = to_ascii_lowercase(b);
    str_eq(la.as_str(), lb.as_str())
}

/// The index of the first character of `s` that is in `seps`, or the length
/// of `s`.
pub fn find_first(s: &Vec<char>, seps: &Vec<char>) -> (k: usize)
    ensures
        k == first_sep(s@, seps@),
        k <= s.len(),
{
    let mut i: usize = 0;
    while i < s.len()
        invariant
            i <= s.len(),
            forall|j: int| 0 <= j < i ==> !seps@.contains(#[trigger] s@[j]),
        decreases s.len() - i,
    {
        if contains_char(seps, s[i]) {
            proof {
                lemma_first_sep(s@, seps@, i as int);
            }
            return i;
        }
        i += 1;
    }
    proof {
        lemma_first_sep(s@, seps@, i as int);
    }
    i
}

/// The characters of `s` from index `from` up to index `to`, as a string.
pub fn slice_chars(s: &Vec<char>, from: usize, to: usize) -> (out: String)
    requires
        from <= to <= s.len(),
    ensures
        out@ == s@.subrange(from as int, to as int),
{
    let mut out = String::new();
    let mut i: usize = from;
    assert(out@ =~= s@.subrange(from as int, from as int));
    while i < to
        invariant
            from <= i <= to <= s.len(),
            out@ == s@.subrange(from as int, i as int),
        decreases to - i,
    {
        out.push(s[i]);
        assert(out@ =~= s@.subrange(from as int, i + 1));
        i += 1;
    }
    out
}

/// The index of the first occurrence of `pat` in `s`, or the length of `s`.
pub fn find_sub(s: &Vec<char>, pat: &Vec<char>) -> (k: usize)
    ensures
        k == first_match(s@, pat@),
        k <= s.len(),
{
    let mut i: usize = 0;
    while i < s.len()
        invariant
            i <= s.len(),
            forall|j: int| 0 <= j < i ==> !is_match_at(s@, pat@, j),
        decreases s.len() - i,
    {
        if matches_at(s, pat, i) {
            proof {
                lemma_first_match(s@, pat@, i as int);
            }
            return i;
        }
        i += 1;
    }
    proof {
        lemma_first_match(s@, pat@, i as int);
    }
    i
}

} // verus!
