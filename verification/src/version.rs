//! Ordering of version strings.
//!
//! A version is cut into tokens at `.`, `-` and `_`.  Each token has a leading
//! number, an alphabetic qualifier and a number that follows the qualifier.
//! Versions are compared token by token, the shorter one padded with empty
//! tokens, so that `1.0` and `1.0.0` are equal.

use crate::text::{
    ascii_lowercase, decimal_value, is_alpha, is_digit, split, split_any, str_eq, to_ascii_lowercase,
    to_chars,
};
use std::cmp::Ordering;
use vstd::prelude::*;

verus! {

/// A token of a version: leading number, qualifier, number after the qualifier.
pub type TokenView = (u64, Seq<char>, u64);

/// The characters at which a version is cut into tokens.
pub open spec fn separators() -> Seq<char> {
    seq!['.', '-', '_']
}

/// The rank of a qualifier, ASCII case ignored: pre-releases rank below the
/// release, service packs and unknown qualifiers above it.
pub open spec fn qualifier_rank_of(q: Seq<char>) -> int {
    let l = ascii_lowercase(q);
    if l == "snapshot"@ {
        1
    } else if l == "alpha"@ || l == "a"@ {
        2
    } else if l == "beta"@ || l == "b"@ {
        3
    } else if l == "milestone"@ || l == "m"@ {
        4
    } else if l == "rc"@ || l == "cr"@ {
        5
    } else if l == ""@ || l == "final"@ || l == "ga"@ || l == "release"@ {
        6
    } else if l == "sp"@ {
        7
    } else {
        8
    }
}

/// The ASCII digits of `s`, in order.
pub open spec fn digits_of(s: Seq<char>) -> Seq<char>
    decreases s.len(),
{
    if s.len() == 0 {
        s
    } else if is_digit(s.last()) {
        digits_of(s.drop_last()).push(s.last())
    } else {
        digits_of(s.drop_last())
    }
}

/// The ASCII letters of `s`, in order.
pub open spec fn letters_of(s: Seq<char>) -> Seq<char>
    decreases s.len(),
{
    if s.len() == 0 {
        s
    } else if is_alpha(s.last()) {
        letters_of(s.drop_last()).push(s.last())
    } else {
        letters_of(s.drop_last())
    }
}

/// The index of the first ASCII letter of `s`, or its length when it has none.
pub open spec fn first_alpha(s: Seq<char>) -> nat
    decreases s.len(),
{
    if s.len() == 0 {
        0
    } else if is_alpha(s[0]) {
        0
    } else {
        1 + first_alpha(s.skip(1))
    }
}

/// `n` when it fits in 64 bits, else zero.
pub open spec fn bounded(n: nat) -> u64 {
    if n <= u64::MAX {
        n as u64
    } else {
        0
    }
}

/// The token that the characters `t` write: the digits before the first letter
/// as a number, all the letters, and the digits from the first letter on as a
/// number.  A number that does not fit in 64 bits counts as zero, and so does
/// a missing one.  Characters that are neither digit nor letter are ignored.
pub open spec fn token_of(t: Seq<char>) -> TokenView {
    let k = first_alpha(t) as int;
    (
        bounded(decimal_value(digits_of(t.take(k)))),
        letters_of(t),
        bounded(decimal_value(digits_of(t.skip(k)))),
    )
}

/// The tokens of the version `v`.
pub open spec fn tokens_of(v: Seq<char>) -> Seq<TokenView> {
    split_any(v, separators()).map_values(|t: Seq<char>| token_of(t))
}

/// The token that stands in for a missing position.
pub open spec fn padding() -> TokenView {
    (0u64, Seq::<char>::empty(), 0u64)
}

/// The token of `tokens` at position `i`, or the padding beyond its end.
pub open spec fn token_at(tokens: Seq<TokenView>, i: int) -> TokenView {
    if 0 <= i < tokens.len() {
        tokens[i]
    } else {
        padding()
    }
}

/// The sign of `a - b`.
pub open spec fn sign(a: int, b: int) -> int {
    if a < b {
        -1
    } else if a == b {
        0
    } else {
        1
    }
}

/// Dictionary order of two character sequences: -1, 0 or 1.
pub open spec fn lexical_order(a: Seq<char>, b: Seq<char>) -> int
    decreases a.len(),
{
    if a.len() == 0 && b.len() == 0 {
        0
    } else if a.len() == 0 {
        -1
    } else if b.len() == 0 {
        1
    } else if a[0] != b[0] {
        sign(a[0] as int, b[0] as int)
    } else {
        lexical_order(a.skip(1), b.skip(1))
    }
}

/// The order of two tokens: by number, then by the rank of the qualifier, then
/// by the number after the qualifier, then by the qualifier's spelling.
pub open spec fn token_order(a: TokenView, b: TokenView) -> int {
    if a.0 != b.0 {
        sign(a.0 as int, b.0 as int)
    } else if qualifier_rank_of(a.1) != qualifier_rank_of(b.1) {
        sign(qualifier_rank_of(a.1), qualifier_rank_of(b.1))
    } else if a.2 != b.2 {
        sign(a.2 as int, b.2 as int)
    } else {
        lexical_order(a.1, b.1)
    }
}

/// The order of two token lists on the positions from `i` up to `n`: that of
/// the first position where the tokens differ, or 0.
pub open spec fn order_between(a: Seq<TokenView>, b: Seq<TokenView>, i: int, n: int) -> int
    decreases n - i,
{
    if i >= n {
        0
    } else if token_order(token_at(a, i), token_at(b, i)) != 0 {
        token_order(token_at(a, i), token_at(b, i))
    } else {
        order_between(a, b, i + 1, n)
    }
}

/// The longer of two lengths.
pub open spec fn longer(a: int, b: int) -> int {
    if a >= b {
        a
    } else {
        b
    }
}

/// The order of two token lists, the shorter padded to the length of the longer.
pub open spec fn tokens_order(a: Seq<TokenView>, b: Seq<TokenView>) -> int {
    order_between(a, b, 0, longer(a.len() as int, b.len() as int))
}

/// The order of two versions: -1 when `v1` is older, 0 when they are the same
/// version, 1 when `v1` is newer.
#[verifier::opaque]
pub open spec fn version_order(v1: Seq<char>, v2: Seq<char>) -> int {
    tokens_order(tokens_of(v1), tokens_of(v2))
}

/// `first_alpha` is the position `k` when no letter comes before `k` and `k`
/// is a letter or the end.
pub proof fn lemma_first_alpha(s: Seq<char>, k: int)
    requires
        0 <= k <= s.len(),
        forall|j: int| 0 <= j < k ==> !is_alpha(#[trigger] s[j]),
        k == s.len() || is_alpha(s[k]),
    ensures
        first_alpha(s) == k,
    decreases k,
{
    if k > 0 {
        assert(!is_alpha(s[0]));
        assert forall|j: int| 0 <= j < k - 1 implies !is_alpha(#[trigger] s.skip(1)[j]) by {
            assert(s.skip(1)[j] == s[j + 1]);
        }
        lemma_first_alpha(s.skip(1), k - 1);
    }
}

/// The rank of the qualifier `q`.
pub fn qualifier_rank(q: &str) -> (rank: i32)
    ensures
        rank == qualifier_rank_of(q@),
{
    let lower = to_ascii_lowercase(q);
    let l = lower.as_str();
    if str_eq(l, "snapshot") {
        1
    } else if str_eq(l, "alpha") || str_eq(l, "a") {
        2
    } else if str_eq(l, "beta") || str_eq(l, "b") {
        3
    } else if str_eq(l, "milestone") || str_eq(l, "m") {
        4
    } else if str_eq(l, "rc") || str_eq(l, "cr") {
        5
    } else if str_eq(l, "") || str_eq(l, "final") || str_eq(l, "ga") || str_eq(l, "release") {
        6
    } else if str_eq(l, "sp") {
        7
    } else {
        8
    }
}

/// Whether `c` is an ASCII digit.
pub fn is_ascii_digit(c: char) -> (yes: bool)
    ensures
        yes == is_digit(c),
{
    c >= '0' && c <= '9'
}

/// Whether `c` is an ASCII letter.
pub fn is_ascii_alphabetic(c: char) -> (yes: bool)
    ensures
        yes == is_alpha(c),
{
    (c >= 'a' && c <= 'z') || (c >= 'A' && c <= 'Z')
}

/// What a running number is for the digits read so far: the number itself
/// while it fits in 64 bits, nothing once it no longer does.
pub open spec fn tracks(acc: Option<u64>, digits: Seq<char>) -> bool {
    match acc {
        Some(v) => v == decimal_value(digits),
        None => decimal_value(digits) > u64::MAX,
    }
}

fn push_digit(acc: Option<u64>, c: char, Ghost(digits): Ghost<Seq<char>>) -> (out: Option<u64>)
    requires
        is_digit(c),
        tracks(acc, digits),
    ensures
        tracks(out, digits.push(c)),
{
    proof {
        assert(digits.push(c).drop_last() =~= digits);
        assert(digits.push(c).last() == c);
    }
    let d: u64 = ((c as u8) - 48) as u64;
    match acc {
        Some(v) => {
            if v > (u64::MAX - d) / 10 {
                None
            } else {
                Some(v * 10 + d)
            }
        },
        None => None,
    }
}

fn settle(acc: Option<u64>, Ghost(digits): Ghost<Seq<char>>) -> (out: u64)
    requires
        tracks(acc, digits),
    ensures
        out == bounded(decimal_value(digits)),
{
    match acc {
        Some(v) => v,
        None => 0,
    }
}

/// The token that `token` writes.
pub fn split_token(token: &str) -> (out: (u64, String, u64))
    ensures
        out.deep_view() == token_of(token@),
{
    let tv = to_chars(token);
    let mut number: Option<u64> = Some(0);
    let mut letters = String::new();
    let mut qualifier_number: Option<u64> = Some(0);
    let mut i: usize = 0;
    assert(token@.take(0) =~= Seq::<char>::empty());
    while i < tv.len() && !is_ascii_alphabetic(tv[i])
        invariant
            i <= tv.len(),
            tv@ == token@,
            forall|j: int| 0 <= j < i ==> !is_alpha(#[trigger] token@[j]),
            tracks(number, digits_of(token@.take(i as int))),
            letters_of(token@.take(i as int)) == Seq::<char>::empty(),
        decreases tv.len() - i,
    {
        let c = tv[i];
        proof {
            assert(token@.take(i + 1).drop_last() =~= token@.take(i as int));
            assert(token@.take(i + 1).last() == c);
        }
        if is_ascii_digit(c) {
            number = push_digit(number, c, Ghost(digits_of(token@.take(i as int))));
        }
        i += 1;
    }
    let k: usize = i;
    proof {
        lemma_first_alpha(token@, k as int);
        assert(token@.subrange(k as int, k as int) =~= Seq::<char>::empty());
    }
    while i < tv.len()
        invariant
            k <= i <= tv.len(),
            tv@ == token@,
            letters@ == letters_of(token@.take(i as int)),
            tracks(qualifier_number, digits_of(token@.subrange(k as int, i as int))),
        decreases tv.len() - i,
    {
        let c = tv[i];
        proof {
            assert(token@.take(i + 1).drop_last() =~= token@.take(i as int));
            assert(token@.take(i + 1).last() == c);
            assert(token@.subrange(k as int, i + 1).drop_last() =~= token@.subrange(
                k as int,
                i as int,
            ));
            assert(token@.subrange(k as int, i + 1).last() == c);
        }
        if is_ascii_alphabetic(c) {
            letters.push(c);
        } else if is_ascii_digit(c) {
            qualifier_number =
            push_digit(
                qualifier_number,
                c,
                Ghost(digits_of(token@.subrange(k as int, i as int))),
            );
        }
        i += 1;
    }
    proof {
        assert(token@.take(tv.len() as int) =~= token@);
        assert(token@.subrange(k as int, tv.len() as int) =~= token@.skip(k as int));
    }
    let n = settle(number, Ghost(digits_of(token@.take(k as int))));
    let qn = settle(qualifier_number, Ghost(digits_of(token@.skip(k as int))));
    (n, letters, qn)
}

/// The tokens of the version `v`.
pub fn extract_tokens(v: &str) -> (out: Vec<(u64, String, u64)>)
    ensures
        out.deep_view() == tokens_of(v@),
{
    let mut seps: Vec<char> = Vec::new();
    seps.push('.');
    seps.push('-');
    seps.push('_');
    assert(seps@ =~= separators());
    let pieces = split(v, &seps);
    let mut out: Vec<(u64, String, u64)> = Vec::new();
    let mut i: usize = 0;
    while i < pieces.len()
        invariant
            i <= pieces.len(),
            pieces.deep_view() == split_any(v@, separators()),
            out.deep_view() == tokens_of(v@).take(i as int),
        decreases pieces.len() - i,
    {
        let ghost before = out.deep_view();
        let token = split_token(pieces[i].as_str());
        assert(pieces.deep_view()[i as int] == pieces@[i as int]@);
        out.push(token);
        assert(out.deep_view() =~= before.push(token_of(pieces@[i as int]@)));
        assert(out.deep_view() =~= tokens_of(v@).take(i + 1));
        i += 1;
    }
    assert(out.deep_view() =~= tokens_of(v@));
    out
}

fn lexical_sign(a: &Vec<char>, b: &Vec<char>) -> (out: i8)
    ensures
        out == lexical_order(a@, b@),
{
    let mut i: usize = 0;
    assert(a@.skip(0) =~= a@ && b@.skip(0) =~= b@);
    loop
        invariant
            i <= a.len(),
            i <= b.len(),
            lexical_order(a@, b@) == lexical_order(a@.skip(i as int), b@.skip(i as int)),
        decreases a.len() - i,
    {
        if i == a.len() && i == b.len() {
            return 0;
        } else if i == a.len() {
            return -1;
        } else if i == b.len() {
            return 1;
        } else if a[i] != b[i] {
            assert(a@.skip(i as int)[0] == a@[i as int]);
            assert(b@.skip(i as int)[0] == b@[i as int]);
            if a[i] < b[i] {
                return -1;
            } else {
                return 1;
            }
        }
        proof {
            assert(a@.skip(i as int)[0] == a@[i as int]);
            assert(b@.skip(i as int)[0] == b@[i as int]);
            assert(a@.skip(i as int).skip(1) =~= a@.skip(i + 1));
            assert(b@.skip(i as int).skip(1) =~= b@.skip(i + 1));
        }
        i += 1;
    }
}

fn token_sign(a: &(u64, String, u64), b: &(u64, String, u64)) -> (out: i8)
    ensures
        out == token_order(a.deep_view(), b.deep_view()),
{
    if a.0 != b.0 {
        return if a.0 < b.0 {
            -1
        } else {
            1
        };
    }
    let ra = qualifier_rank(a.1.as_str());
    let rb = qualifier_rank(b.1.as_str());
    if ra != rb {
        return if ra < rb {
            -1
        } else {
            1
        };
    }
    if a.2 != b.2 {
        return if a.2 < b.2 {
            -1
        } else {
            1
        };
    }
    let av = to_chars(a.1.as_str());
    let bv = to_chars(b.1.as_str());
    lexical_sign(&av, &bv)
}

/// The order of two versions as a sign: -1, 0 or 1.
pub fn version_sign(v1: &str, v2: &str) -> (out: i8)
    ensures
        out == version_order(v1@, v2@),
{
    reveal(version_order);
    let tokens1 = extract_tokens(v1);
    let tokens2 = extract_tokens(v2);
    let n: usize = if tokens1.len() >= tokens2.len() {
        tokens1.len()
    } else {
        tokens2.len()
    };
    let pad: (u64, String, u64) = (0, String::new(), 0);
    assert(pad.deep_view() == padding());
    let mut i: usize = 0;
    while i < n
        invariant
            i <= n,
            n == longer(tokens1.len() as int, tokens2.len() as int),
            tokens1.deep_view() == tokens_of(v1@),
            tokens2.deep_view() == tokens_of(v2@),
            pad.deep_view() == padding(),
            version_order(v1@, v2@) == order_between(
                tokens_of(v1@),
                tokens_of(v2@),
                i as int,
                n as int,
            ),
        decreases n - i,
    {
        let a = if i < tokens1.len() {
            &tokens1[i]
        } else {
            &pad
        };
        let b = if i < tokens2.len() {
            &tokens2[i]
        } else {
            &pad
        };
        assert(a.deep_view() == token_at(tokens_of(v1@), i as int)) by {
            if i < tokens1.len() {
                assert(tokens1.deep_view()[i as int] == tokens1@[i as int].deep_view());
            }
        }
        assert(b.deep_view() == token_at(tokens_of(v2@), i as int)) by {
            if i < tokens2.len() {
                assert(tokens2.deep_view()[i as int] == tokens2@[i as int].deep_view());
            }
        }
        let c = token_sign(a, b);
        if c != 0 {
            return c;
        }
        i += 1;
    }
    0
}

/// Compares two versions: `Less` when `v1` is the older one.
pub fn compare_maven_versions(v1: &str, v2: &str) -> (out: Ordering)
    ensures
        match out {
            Ordering::Less => version_order(v1@, v2@) < 0,
            Ordering::Equal => version_order(v1@, v2@) == 0,
            Ordering::Greater => version_order(v1@, v2@) > 0,
        },
{
    let c = version_sign(v1, v2);
    if c < 0 {
        Ordering::Less
    } else if c == 0 {
        Ordering::Equal
    } else {
        Ordering::Greater
    }
}

/// Dictionary order read backwards is the opposite order.
pub proof fn lemma_lexical_order_antisymmetric(a: Seq<char>, b: Seq<char>)
    ensures
        lexical_order(a, b) == -lexical_order(b, a),
        -1 <= lexical_order(a, b) <= 1,
    decreases a.len(),
{
    if a.len() > 0 && b.len() > 0 && a[0] == b[0] {
        lemma_lexical_order_antisymmetric(a.skip(1), b.skip(1));
    }
}

/// Only equal sequences are equal in dictionary order.
pub proof fn lemma_lexical_order_zero(a: Seq<char>, b: Seq<char>)
    ensures
        lexical_order(a, b) == 0 <==> a == b,
    decreases a.len(),
{
    if a.len() > 0 && b.len() > 0 && a[0] == b[0] {
        lemma_lexical_order_zero(a.skip(1), b.skip(1));
        if a.skip(1) == b.skip(1) {
            assert(a =~= seq![a[0]] + a.skip(1));
            assert(b =~= seq![b[0]] + b.skip(1));
        }
        if a == b {
            assert(a.skip(1) == b.skip(1));
        }
    } else if a.len() == 0 && b.len() == 0 {
        assert(a =~= b);
    }
}

/// Dictionary order is transitive.
pub proof fn lemma_lexical_order_transitive(a: Seq<char>, b: Seq<char>, c: Seq<char>)
    requires
        lexical_order(a, b) < 0,
        lexical_order(b, c) < 0,
    ensures
        lexical_order(a, c) < 0,
    decreases a.len(),
{
    if a.len() > 0 && b.len() > 0 && c.len() > 0 && a[0] == b[0] && b[0] == c[0] {
        lemma_lexical_order_transitive(a.skip(1), b.skip(1), c.skip(1));
    }
}

/// Two tokens are equal in order only when they are the same token, and the
/// order of two tokens read backwards is the opposite order.
pub proof fn lemma_token_order_basics(a: TokenView, b: TokenView)
    ensures
        token_order(a, b) == -token_order(b, a),
        -1 <= token_order(a, b) <= 1,
        token_order(a, b) == 0 <==> a == b,
{
    lemma_lexical_order_antisymmetric(a.1, b.1);
    lemma_lexical_order_zero(a.1, b.1);
}

/// The order of tokens is transitive.
pub proof fn lemma_token_order_transitive(a: TokenView, b: TokenView, c: TokenView)
    requires
        token_order(a, b) < 0,
        token_order(b, c) < 0,
    ensures
        token_order(a, c) < 0,
{
    lemma_lexical_order_antisymmetric(a.1, b.1);
    lemma_lexical_order_antisymmetric(b.1, c.1);
    if lexical_order(a.1, b.1) < 0 && lexical_order(b.1, c.1) < 0 {
        lemma_lexical_order_transitive(a.1, b.1, c.1);
    }
    lemma_lexical_order_zero(a.1, b.1);
    lemma_lexical_order_zero(b.1, c.1);
}

/// Beyond the end of both lists there is only padding, which is equal.
pub proof fn lemma_order_beyond(a: Seq<TokenView>, b: Seq<TokenView>, i: int, n: int)
    requires
        i >= longer(a.len() as int, b.len() as int),
    ensures
        order_between(a, b, i, n) == 0,
    decreases n - i,
{
    if i < n {
        lemma_order_beyond(a, b, i + 1, n);
    }
}

/// Comparing further than the longer list changes nothing.
pub proof fn lemma_order_extend(a: Seq<TokenView>, b: Seq<TokenView>, i: int, n: int, m: int)
    requires
        longer(a.len() as int, b.len() as int) <= n <= m,
    ensures
        order_between(a, b, i, n) == order_between(a, b, i, m),
    decreases m - i,
{
    if i >= n {
        lemma_order_beyond(a, b, i, m);
    } else {
        lemma_order_extend(a, b, i + 1, n, m);
    }
}

/// On a common range, the order read backwards is the opposite order.
pub proof fn lemma_order_between_antisymmetric(
    a: Seq<TokenView>,
    b: Seq<TokenView>,
    i: int,
    n: int,
)
    ensures
        order_between(a, b, i, n) == -order_between(b, a, i, n),
        -1 <= order_between(a, b, i, n) <= 1,
    decreases n - i,
{
    if i < n {
        lemma_token_order_basics(token_at(a, i), token_at(b, i));
        lemma_order_between_antisymmetric(a, b, i + 1, n);
    }
}

/// On a common range, the order is transitive, and two steps of which one is
/// strict make a strict step.
pub proof fn lemma_order_between_transitive(
    a: Seq<TokenView>,
    b: Seq<TokenView>,
    c: Seq<TokenView>,
    i: int,
    n: int,
)
    requires
        order_between(a, b, i, n) <= 0,
        order_between(b, c, i, n) <= 0,
    ensures
        order_between(a, c, i, n) <= 0,
        order_between(a, c, i, n) == 0 ==> order_between(a, b, i, n) == 0 && order_between(
            b,
            c,
            i,
            n,
        ) == 0,
    decreases n - i,
{
    if i < n {
        let ta = token_at(a, i);
        let tb = token_at(b, i);
        let tc = token_at(c, i);
        lemma_token_order_basics(ta, tb);
        lemma_token_order_basics(tb, tc);
        lemma_token_order_basics(ta, tc);
        if token_order(ta, tb) != 0 && token_order(tb, tc) != 0 {
            lemma_token_order_transitive(ta, tb, tc);
        } else if token_order(ta, tb) == 0 && token_order(tb, tc) == 0 {
            lemma_order_between_transitive(a, b, c, i + 1, n);
        }
    }
}

/// No version is older than itself.
pub proof fn lemma_version_order_reflexive(v: Seq<char>)
    ensures
        version_order(v, v) == 0,
{
    reveal(version_order);
    let t = tokens_of(v);
    lemma_order_between_antisymmetric(t, t, 0, longer(t.len() as int, t.len() as int));
}

/// If `a` is older than `b` then `b` is newer than `a`, and the other way
/// round; if they are equal one way, they are equal the other way.
pub proof fn lemma_version_order_antisymmetric(a: Seq<char>, b: Seq<char>)
    ensures
        version_order(a, b) == -version_order(b, a),
        -1 <= version_order(a, b) <= 1,
{
    reveal(version_order);
    let ta = tokens_of(a);
    let tb = tokens_of(b);
    lemma_order_between_antisymmetric(ta, tb, 0, longer(ta.len() as int, tb.len() as int));
}

/// If `a` is not newer than `b` and `b` is not newer than `c`, then `a` is not
/// newer than `c`; and if `a` and `c` are equal, then all three are.
pub proof fn lemma_version_order_transitive(a: Seq<char>, b: Seq<char>, c: Seq<char>)
    requires
        version_order(a, b) <= 0,
        version_order(b, c) <= 0,
    ensures
        version_order(a, c) <= 0,
        version_order(a, c) == 0 ==> version_order(a, b) == 0 && version_order(b, c) == 0,
{
    reveal(version_order);
    let ta = tokens_of(a);
    let tb = tokens_of(b);
    let tc = tokens_of(c);
    let n = longer(longer(ta.len() as int, tb.len() as int), tc.len() as int);
    lemma_order_extend(ta, tb, 0, longer(ta.len() as int, tb.len() as int), n);
    lemma_order_extend(tb, tc, 0, longer(tb.len() as int, tc.len() as int), n);
    lemma_order_extend(ta, tc, 0, longer(ta.len() as int, tc.len() as int), n);
    lemma_order_between_transitive(ta, tb, tc, 0, n);
}

} // verus!
