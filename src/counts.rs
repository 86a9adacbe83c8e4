//! Counting tables: keys in the order they were first inserted, each with its
//! count. The frequency table, the corpus and the pair statistics are all of
//! this shape.

use vstd::prelude::*;

verus! {

/// Whether `k` is a key of `t`.
pub open spec fn has_key<K>(t: Seq<(K, nat)>, k: K) -> bool {
    exists|i: int| #![trigger t[i]] 0 <= i < t.len() && t[i].0 == k
}

/// The position of key `k` in `t` (meaningful when `has_key(t, k)`).
pub open spec fn key_index<K>(t: Seq<(K, nat)>, k: K) -> int {
    choose|i: int| #![trigger t[i]] 0 <= i < t.len() && t[i].0 == k
}

/// No key occurs twice in `t`.
pub open spec fn keys_distinct<K>(t: Seq<(K, nat)>) -> bool {
    forall|i: int, j: int| #![trigger t[i], t[j]] 0 <= i < j < t.len() ==> t[i].0 != t[j].0
}

/// `t` after counting `n` more occurrences of `k`: a known key keeps its
/// place, a new one goes last.
pub open spec fn add_count<K>(t: Seq<(K, nat)>, k: K, n: nat) -> Seq<(K, nat)> {
    if has_key(t, k) {
        let i = key_index(t, k);
        t.update(i, (k, t[i].1 + n))
    } else {
        t.push((k, n))
    }
}

/// The sum of all counts of `t`.
pub open spec fn count_total<K>(t: Seq<(K, nat)>) -> nat
    decreases t.len(),
{
    if t.len() == 0 {
        0
    } else {
        count_total(t.drop_last()) + t.last().1
    }
}

/// With distinct keys, the position of a key is the one where it stands.
pub proof fn lemma_key_index<K>(t: Seq<(K, nat)>, k: K, i: int)
    requires
        keys_distinct(t),
        0 <= i < t.len(),
        t[i].0 == k,
    ensures
        has_key(t, k),
        key_index(t, k) == i,
{
    assert(has_key(t, k));
    let j = key_index(t, k);
    if j != i {
        if j < i {
            assert(t[j].0 != t[i].0);
        } else {
            assert(t[i].0 != t[j].0);
        }
    }
}

/// Replacing one entry changes the total by the difference of the counts.
pub proof fn lemma_count_total_update<K>(t: Seq<(K, nat)>, i: int, e: (K, nat))
    requires
        0 <= i < t.len(),
    ensures
        count_total(t.update(i, e)) == count_total(t) - t[i].1 + e.1,
    decreases t.len(),
{
    let u = t.update(i, e);
    if i == t.len() - 1 {
        assert(u.drop_last() =~= t.drop_last());
    } else {
        assert(u.drop_last() =~= t.drop_last().update(i, e));
        lemma_count_total_update(t.drop_last(), i, e);
    }
}

/// Appending an entry adds its count to the total.
pub proof fn lemma_count_total_push<K>(t: Seq<(K, nat)>, e: (K, nat))
    ensures
        count_total(t.push(e)) == count_total(t) + e.1,
{
    assert(t.push(e).drop_last() =~= t);
}

/// No count exceeds the total.
pub proof fn lemma_count_le_total<K>(t: Seq<(K, nat)>, i: int)
    requires
        0 <= i < t.len(),
    ensures
        t[i].1 <= count_total(t),
    decreases t.len(),
{
    if i < t.len() - 1 {
        lemma_count_le_total(t.drop_last(), i);
    }
}

/// Counting keeps the keys distinct, adds `n` to the total and grows the
/// table only for a new key.
pub proof fn lemma_add_count<K>(t: Seq<(K, nat)>, k: K, n: nat)
    requires
        keys_distinct(t),
    ensures
        keys_distinct(add_count(t, k, n)),
        count_total(add_count(t, k, n)) == count_total(t) + n,
        has_key(t, k) ==> add_count(t, k, n).len() == t.len(),
        !has_key(t, k) ==> add_count(t, k, n).len() == t.len() + 1,
        has_key(add_count(t, k, n), k),
{
    let r = add_count(t, k, n);
    if has_key(t, k) {
        let i = key_index(t, k);
        lemma_count_total_update(t, i, (k, t[i].1 + n));
        assert(r[i].0 == k);
    } else {
        lemma_count_total_push(t, (k, n));
        assert(r[t.len() as int].0 == k);
        assert forall|a: int, b: int| 0 <= a < b < r.len() implies r[a].0 != r[b].0 by {
            if b == t.len() {
                assert(t[a].0 != k);
            }
        }
    }
}

} // verus!
