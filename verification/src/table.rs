//! Ordered tables keyed by strings.
//!
//! A table is a list of `(key, value)` pairs.  Looking a key up finds the
//! first pair with that key, so a table whose keys are all different behaves
//! as a map that remembers the order in which its keys arrived.

use crate::text::str_eq;
use vstd::prelude::*;

verus! {

/// The position of the first pair of `table` with the key `key`, or the
/// length of `table` when no pair has it.
pub open spec fn key_index<V>(table: Seq<(Seq<char>, V)>, key: Seq<char>) -> nat
    decreases table.len(),
{
    if table.len() == 0 {
        0
    } else if table[0].0 == key {
        0
    } else {
        1 + key_index(table.skip(1), key)
    }
}

/// Whether some pair of `table` has the key `key`.
pub open spec fn has_key<V>(table: Seq<(Seq<char>, V)>, key: Seq<char>) -> bool {
    key_index(table, key) < table.len()
}

/// The value of the first pair of `table` with the key `key`.
pub open spec fn lookup<V>(table: Seq<(Seq<char>, V)>, key: Seq<char>) -> Option<V> {
    if has_key(table, key) {
        Some(table[key_index(table, key) as int].1)
    } else {
        None
    }
}

/// `table` with `key` bound to `value`: in place where the key was there,
/// at the end where it was not.
pub open spec fn put<V>(table: Seq<(Seq<char>, V)>, key: Seq<char>, value: V) -> Seq<
    (Seq<char>, V),
> {
    if has_key(table, key) {
        table.update(key_index(table, key) as int, (key, value))
    } else {
        table.push((key, value))
    }
}

/// `table` with `key` bound to `value` at the end, unless the key was there.
pub open spec fn put_if_absent<V>(table: Seq<(Seq<char>, V)>, key: Seq<char>, value: V) -> Seq<
    (Seq<char>, V),
> {
    if has_key(table, key) {
        table
    } else {
        table.push((key, value))
    }
}

/// `table` after `put` of each pair of `pairs`, in order.
pub open spec fn put_all<V>(table: Seq<(Seq<char>, V)>, pairs: Seq<(Seq<char>, V)>) -> Seq<
    (Seq<char>, V),
>
    decreases pairs.len(),
{
    if pairs.len() == 0 {
        table
    } else {
        put(put_all(table, pairs.drop_last()), pairs.last().0, pairs.last().1)
    }
}

/// `table` after `put_if_absent` of each pair of `pairs`, in order.
pub open spec fn put_all_absent<V>(table: Seq<(Seq<char>, V)>, pairs: Seq<(Seq<char>, V)>) -> Seq<
    (Seq<char>, V),
>
    decreases pairs.len(),
{
    if pairs.len() == 0 {
        table
    } else {
        put_if_absent(put_all_absent(table, pairs.drop_last()), pairs.last().0, pairs.last().1)
    }
}

/// No two pairs of `table` have the same key.
pub open spec fn distinct_keys<V>(table: Seq<(Seq<char>, V)>) -> bool {
    forall|i: int, j: int|
        0 <= i < j < table.len() ==> (#[trigger] table[i]).0 != (#[trigger] table[j]).0
}

/// `key_index` is the position `i` when no pair before `i` has the key and
/// the pair at `i` has it, or `i` is the end.
pub proof fn lemma_key_index<V>(table: Seq<(Seq<char>, V)>, key: Seq<char>, i: int)
    requires
        0 <= i <= table.len(),
        forall|j: int| 0 <= j < i ==> (#[trigger] table[j]).0 != key,
        i == table.len() || table[i].0 == key,
    ensures
        key_index(table, key) == i,
    decreases i,
{
    if i > 0 {
        assert(table[0].0 != key);
        assert forall|j: int| 0 <= j < i - 1 implies (#[trigger] table.skip(1)[j]).0 != key by {
            assert(table.skip(1)[j] == table[j + 1]);
        }
        lemma_key_index(table.skip(1), key, i - 1);
    }
}

/// What `key_index` finds: no pair before it has the key, and the pair at it
/// has the key unless it is the end.
pub proof fn lemma_key_index_found<V>(table: Seq<(Seq<char>, V)>, key: Seq<char>)
    ensures
        key_index(table, key) <= table.len(),
        forall|j: int| 0 <= j < key_index(table, key) ==> (#[trigger] table[j]).0 != key,
        has_key(table, key) ==> table[key_index(table, key) as int].0 == key,
    decreases table.len(),
{
    if table.len() > 0 && table[0].0 != key {
        lemma_key_index_found(table.skip(1), key);
        let k = key_index(table.skip(1), key);
        assert forall|j: int| 0 <= j < k + 1 implies (#[trigger] table[j]).0 != key by {
            if j > 0 {
                assert(table.skip(1)[j - 1] == table[j]);
            }
        }
        if k < table.skip(1).len() {
            assert(table.skip(1)[k as int] == table[k as int + 1]);
        }
    }
}

/// After `put`, the key is bound to the value, every other key is bound as
/// before, and distinct keys stay distinct.
pub proof fn lemma_put<V>(table: Seq<(Seq<char>, V)>, key: Seq<char>, value: V, other: Seq<char>)
    ensures
        lookup(put(table, key, value), key) == Some(value),
        other != key ==> lookup(put(table, key, value), other) == lookup(table, other),
        distinct_keys(table) ==> distinct_keys(put(table, key, value)),
{
    let after = put(table, key, value);
    let i = key_index(table, key) as int;
    lemma_key_index_found(table, key);
    lemma_key_index_found(table, other);
    assert forall|j: int| 0 <= j < i implies (#[trigger] after[j]).0 != key by {
        assert(after[j] == table[j]);
    }
    lemma_key_index(after, key, i);
    if other != key {
        let o = key_index(table, other) as int;
        assert forall|j: int| 0 <= j < o implies (#[trigger] after[j]).0 != other by {
            if j < table.len() {
                assert(after[j].0 == table[j].0);
            }
        }
        if o < table.len() {
            assert(after[o] == table[o]);
            lemma_key_index(after, other, o);
        } else {
            lemma_key_index(after, other, after.len() as int);
        }
    }
    if distinct_keys(table) {
        assert forall|a: int, b: int| 0 <= a < b < after.len() implies (#[trigger] after[a]).0 != (
        #[trigger] after[b]).0 by {
            if i < table.len() {
                assert(after[a].0 == table[a].0);
                assert(after[b].0 == table[b].0);
            } else if b < table.len() {
                assert(after[a] == table[a]);
                assert(after[b] == table[b]);
            } else {
                assert(after[a] == table[a]);
            }
        }
    }
}

/// After `put_if_absent`, a key that was bound is bound as before, the new
/// key is bound to the value if it was not bound, every other key is bound as
/// before, and distinct keys stay distinct.
pub proof fn lemma_put_if_absent<V>(
    table: Seq<(Seq<char>, V)>,
    key: Seq<char>,
    value: V,
    other: Seq<char>,
)
    ensures
        has_key(table, other) ==> lookup(put_if_absent(table, key, value), other) == lookup(
            table,
            other,
        ),
        !has_key(table, key) ==> lookup(put_if_absent(table, key, value), key) == Some(value),
        other != key ==> lookup(put_if_absent(table, key, value), other) == lookup(table, other),
        distinct_keys(table) ==> distinct_keys(put_if_absent(table, key, value)),
        has_key(put_if_absent(table, key, value), key),
{
    let after = put_if_absent(table, key, value);
    lemma_key_index_found(table, key);
    lemma_key_index_found(table, other);
    if !has_key(table, key) {
        let o = key_index(table, other) as int;
        assert forall|j: int| 0 <= j < table.len() implies (#[trigger] after[j]).0 != key by {
            assert(after[j] == table[j]);
        }
        lemma_key_index(after, key, table.len() as int);
        assert forall|j: int| 0 <= j < o implies (#[trigger] after[j]).0 != other by {
            assert(after[j] == table[j]);
        }
        if o < table.len() {
            assert(after[o] == table[o]);
            lemma_key_index(after, other, o);
        } else if other != key {
            lemma_key_index(after, other, after.len() as int);
        }
        if distinct_keys(table) {
            assert forall|a: int, b: int| 0 <= a < b < after.len() implies (#[trigger] after[a]).0
                != (#[trigger] after[b]).0 by {
                assert(after[a] == table[a]);
                if b < table.len() {
                    assert(after[b] == table[b]);
                }
            }
        }
    }
}

/// `put_all_absent` never rebinds a key that `table` binds.
pub proof fn lemma_put_all_absent_keeps<V>(
    table: Seq<(Seq<char>, V)>,
    pairs: Seq<(Seq<char>, V)>,
    key: Seq<char>,
)
    requires
        has_key(table, key),
    ensures
        has_key(put_all_absent(table, pairs), key),
        lookup(put_all_absent(table, pairs), key) == lookup(table, key),
    decreases pairs.len(),
{
    if pairs.len() > 0 {
        lemma_put_all_absent_keeps(table, pairs.drop_last(), key);
        lemma_put_if_absent(
            put_all_absent(table, pairs.drop_last()),
            pairs.last().0,
            pairs.last().1,
            key,
        );
    }
}

/// A key that `put_all_absent` binds was bound by `table` or is the key of one
/// of the pairs.
pub proof fn lemma_put_all_absent_keys<V>(
    table: Seq<(Seq<char>, V)>,
    pairs: Seq<(Seq<char>, V)>,
    key: Seq<char>,
)
    requires
        has_key(put_all_absent(table, pairs), key),
    ensures
        has_key(table, key) || exists|j: int| 0 <= j < pairs.len() && (#[trigger] pairs[j]).0 == key,
    decreases pairs.len(),
{
    if pairs.len() > 0 {
        let before = put_all_absent(table, pairs.drop_last());
        let last = pairs.last();
        if last.0 == key {
            assert(pairs[pairs.len() - 1].0 == key);
        } else {
            lemma_put_if_absent(before, last.0, last.1, key);
            lemma_key_index_found(before, key);
            lemma_key_index_found(put_if_absent(before, last.0, last.1), key);
            assert(has_key(before, key)) by {
                if !has_key(before, key) {
                    assert(lookup(before, key) is None);
                    assert(lookup(put_if_absent(before, last.0, last.1), key) is Some);
                }
            }
            lemma_put_all_absent_keys(table, pairs.drop_last(), key);
            if !has_key(table, key) {
                let j = choose|j: int|
                    0 <= j < pairs.drop_last().len() && (#[trigger] pairs.drop_last()[j]).0 == key;
                assert(pairs[j].0 == key);
            }
        }
    }
}

/// Where `table` does not bind a key, `put_all_absent` binds it to the value
/// of the first pair that has it.
pub proof fn lemma_first_binding_stands<V>(
    table: Seq<(Seq<char>, V)>,
    pairs: Seq<(Seq<char>, V)>,
    j: int,
)
    requires
        0 <= j < pairs.len(),
        !has_key(table, pairs[j].0),
        forall|e: int| 0 <= e < j ==> (#[trigger] pairs[e]).0 != pairs[j].0,
    ensures
        lookup(put_all_absent(table, pairs), pairs[j].0) == Some(pairs[j].1),
        has_key(put_all_absent(table, pairs), pairs[j].0),
    decreases pairs.len(),
{
    let before = put_all_absent(table, pairs.drop_last());
    let last = pairs.last();
    lemma_put_if_absent(before, last.0, last.1, pairs[j].0);
    if j == pairs.len() - 1 {
        if has_key(before, last.0) {
            lemma_put_all_absent_keys(table, pairs.drop_last(), last.0);
            let e = choose|e: int|
                0 <= e < pairs.drop_last().len() && (#[trigger] pairs.drop_last()[e]).0 == last.0;
            assert(pairs[e].0 == last.0);
        }
    } else {
        assert forall|e: int| 0 <= e < j implies (#[trigger] pairs.drop_last()[e]).0
            != pairs.drop_last()[j].0 by {
            assert(pairs.drop_last()[e] == pairs[e]);
        }
        lemma_first_binding_stands(table, pairs.drop_last(), j);
    }
}

/// The key of a pair of `table` is bound.
pub proof fn lemma_has_key_witness<V>(table: Seq<(Seq<char>, V)>, j: int)
    requires
        0 <= j < table.len(),
    ensures
        has_key(table, table[j].0),
{
    lemma_key_index_found(table, table[j].0);
}

/// A bound key is the key of some pair.
pub proof fn lemma_has_key_position<V>(table: Seq<(Seq<char>, V)>, key: Seq<char>) -> (j: int)
    requires
        has_key(table, key),
    ensures
        0 <= j < table.len(),
        table[j].0 == key,
{
    lemma_key_index_found(table, key);
    key_index(table, key) as int
}

/// `put_all_absent` keeps distinct keys distinct, and keeps the pairs of
/// `table` where they are.
pub proof fn lemma_put_all_absent_extends<V>(
    table: Seq<(Seq<char>, V)>,
    pairs: Seq<(Seq<char>, V)>,
)
    ensures
        distinct_keys(table) ==> distinct_keys(put_all_absent(table, pairs)),
        put_all_absent(table, pairs).len() >= table.len(),
        put_all_absent(table, pairs).take(table.len() as int) == table,
    decreases pairs.len(),
{
    if pairs.len() > 0 {
        let before = put_all_absent(table, pairs.drop_last());
        lemma_put_all_absent_extends(table, pairs.drop_last());
        lemma_put_if_absent(before, pairs.last().0, pairs.last().1, pairs.last().0);
        assert(put_all_absent(table, pairs).take(table.len() as int) =~= before.take(
            table.len() as int,
        ));
    } else {
        assert(table.take(table.len() as int) =~= table);
    }
}

/// After `put`, the bound keys are those bound before and the key put.
pub proof fn lemma_put_keys<V>(table: Seq<(Seq<char>, V)>, key: Seq<char>, value: V, other: Seq<char>)
    ensures
        has_key(put(table, key, value), other) <==> (has_key(table, other) || other == key),
{
    lemma_put(table, key, value, other);
}

/// The position of the first pair of `table` with the key `key`, or the
/// length of `table`.
pub fn find_key<V: DeepView>(table: &Vec<(String, V)>, key: &str) -> (i: usize)
    ensures
        i == key_index(table.deep_view(), key@),
        i <= table.len(),
{
    let mut i: usize = 0;
    while i < table.len()
        invariant
            i <= table.len(),
            forall|j: int| 0 <= j < i ==> (#[trigger] table.deep_view()[j]).0 != key@,
        decreases table.len() - i,
    {
        assert(table.deep_view()[i as int].0 == table@[i as int].0@);
        if str_eq(table[i].0.as_str(), key) {
            proof {
                lemma_key_index(table.deep_view(), key@, i as int);
            }
            return i;
        }
        i += 1;
    }
    proof {
        lemma_key_index(table.deep_view(), key@, i as int);
    }
    i
}

} // verus!
