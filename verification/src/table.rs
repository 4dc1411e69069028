//! Tables keyed by address: sequences of entries kept in ascending order of
//! address, so that no address has two entries.

use vstd::prelude::*;
use crate::order::{compare, precedes, Rank, lemma_precedes_asymmetric, lemma_precedes_connected, lemma_precedes_transitive};

verus! {

/// The entries are in strictly ascending order of address.
pub open spec fn sorted<T>(e: Seq<(Seq<char>, T)>) -> bool {
    forall|i: int, j: int| 0 <= i < j < e.len() ==> precedes(#[trigger] e[i].0, #[trigger] e[j].0)
}

/// The addresses of the entries, in their order.
pub open spec fn keys<T>(e: Seq<(Seq<char>, T)>) -> Seq<Seq<char>> {
    Seq::new(e.len(), |i: int| e[i].0)
}

/// What the table holds for `key`.
pub open spec fn find<T>(e: Seq<(Seq<char>, T)>, key: Seq<char>) -> Option<T>
    decreases e.len(),
{
    if e.len() == 0 {
        None
    } else if e.last().0 == key {
        Some(e.last().1)
    } else {
        find(e.drop_last(), key)
    }
}

/// The table with `value` for `key`: in place of what it held for `key`, or
/// as a new entry where the order puts `key`.
pub open spec fn put<T>(e: Seq<(Seq<char>, T)>, key: Seq<char>, value: T) -> Seq<(Seq<char>, T)>
    decreases e.len(),
{
    if e.len() == 0 {
        seq![(key, value)]
    } else if e.last().0 == key {
        e.drop_last().push((key, value))
    } else if precedes(e.last().0, key) {
        e.push((key, value))
    } else {
        put(e.drop_last(), key, value).push(e.last())
    }
}

/// The table without its entry for `key`.
pub open spec fn cut<T>(e: Seq<(Seq<char>, T)>, key: Seq<char>) -> Seq<(Seq<char>, T)>
    decreases e.len(),
{
    if e.len() == 0 {
        e
    } else if e.last().0 == key {
        e.drop_last()
    } else {
        cut(e.drop_last(), key).push(e.last())
    }
}

/// In a sorted table the entry at `i` is what the table holds for its key.
pub proof fn lemma_find_at<T>(e: Seq<(Seq<char>, T)>, i: int)
    requires
        sorted(e),
        0 <= i < e.len(),
    ensures
        find(e, e[i].0) == Some(e[i].1),
    decreases e.len(),
{
    if i < e.len() - 1 {
        lemma_precedes_asymmetric(e[i].0, e.last().0);
        lemma_find_at(e.drop_last(), i);
    }
}

/// A key that no entry has is not found.
pub proof fn lemma_find_absent<T>(e: Seq<(Seq<char>, T)>, key: Seq<char>)
    requires
        forall|i: int| 0 <= i < e.len() ==> (#[trigger] e[i]).0 != key,
    ensures
        find(e, key) is None,
    decreases e.len(),
{
    if e.len() > 0 {
        lemma_find_absent(e.drop_last(), key);
    }
}

/// What is found is the value of some entry with that key.
pub proof fn lemma_find_some<T>(e: Seq<(Seq<char>, T)>, key: Seq<char>) -> (i: int)
    requires
        find(e, key) is Some,
    ensures
        0 <= i < e.len(),
        e[i].0 == key,
        find(e, key) == Some(e[i].1),
    decreases e.len(),
{
    if e.last().0 == key {
        e.len() - 1
    } else {
        lemma_find_some(e.drop_last(), key)
    }
}

/// Putting a key that the table lacks inserts the entry at the place where
/// the keys before it precede it and those from there on follow it.
pub proof fn lemma_put_inserts<T>(e: Seq<(Seq<char>, T)>, key: Seq<char>, value: T, p: int)
    requires
        0 <= p <= e.len(),
        forall|i: int| 0 <= i < p ==> precedes((#[trigger] e[i]).0, key),
        forall|i: int| p <= i < e.len() ==> precedes(key, (#[trigger] e[i]).0),
    ensures
        put(e, key, value) == e.insert(p, (key, value)),
    decreases e.len(),
{
    if e.len() == 0 {
        assert(e.insert(p, (key, value)) =~= seq![(key, value)]);
    } else if p == e.len() {
        lemma_precedes_asymmetric(e.last().0, key);
        assert(e.insert(p, (key, value)) =~= e.push((key, value)));
    } else {
        lemma_precedes_asymmetric(key, e.last().0);
        lemma_put_inserts(e.drop_last(), key, value, p);
        assert(e.insert(p, (key, value)) =~= e.drop_last().insert(p, (key, value)).push(e.last()));
    }
}

/// Putting a key that the table has at `i` replaces the entry at `i`.
pub proof fn lemma_put_replaces<T>(e: Seq<(Seq<char>, T)>, key: Seq<char>, value: T, i: int)
    requires
        sorted(e),
        0 <= i < e.len(),
        e[i].0 == key,
    ensures
        put(e, key, value) == e.update(i, (key, value)),
    decreases e.len(),
{
    if i == e.len() - 1 {
        assert(e.update(i, (key, value)) =~= e.drop_last().push((key, value)));
    } else {
        lemma_precedes_asymmetric(e[i].0, e.last().0);
        lemma_put_replaces(e.drop_last(), key, value, i);
        assert(e.update(i, (key, value)) =~= e.drop_last().update(i, (key, value)).push(e.last()));
    }
}

/// Cutting a key that the table has at `i` removes the entry at `i`.
pub proof fn lemma_cut_removes<T>(e: Seq<(Seq<char>, T)>, key: Seq<char>, i: int)
    requires
        sorted(e),
        0 <= i < e.len(),
        e[i].0 == key,
    ensures
        cut(e, key) == e.remove(i),
    decreases e.len(),
{
    if i == e.len() - 1 {
        assert(e.remove(i) =~= e.drop_last());
    } else {
        lemma_precedes_asymmetric(e[i].0, e.last().0);
        lemma_cut_removes(e.drop_last(), key, i);
        assert(e.remove(i) =~= e.drop_last().remove(i).push(e.last()));
    }
}

/// Cutting a key that no entry has changes nothing.
pub proof fn lemma_cut_absent<T>(e: Seq<(Seq<char>, T)>, key: Seq<char>)
    requires
        find(e, key) is None,
    ensures
        cut(e, key) == e,
    decreases e.len(),
{
    if e.len() > 0 {
        lemma_cut_absent(e.drop_last(), key);
        assert(e.drop_last().push(e.last()) =~= e);
    }
}

/// After a put the table holds the value for the key, and for every other
/// key what it held before.
pub proof fn lemma_find_put<T>(e: Seq<(Seq<char>, T)>, key: Seq<char>, value: T, other: Seq<char>)
    ensures
        find(put(e, key, value), other) == if other == key {
            Some(value)
        } else {
            find(e, other)
        },
    decreases e.len(),
{
    if e.len() == 0 {
        assert(seq![(key, value)].drop_last() =~= e);
    } else if e.last().0 == key {
        assert(e.drop_last().push((key, value)).drop_last() =~= e.drop_last());
    } else if precedes(e.last().0, key) {
        assert(e.push((key, value)).drop_last() =~= e);
    } else {
        lemma_find_put(e.drop_last(), key, value, other);
        assert(put(e.drop_last(), key, value).push(e.last()).drop_last() =~= put(
            e.drop_last(),
            key,
            value,
        ));
    }
}

/// Every entry after a put is the entry that was put or an entry from
/// before.
pub proof fn lemma_put_entries<T>(e: Seq<(Seq<char>, T)>, key: Seq<char>, value: T)
    ensures
        forall|j: int|
            0 <= j < put(e, key, value).len() ==> (#[trigger] put(e, key, value)[j]) == (key, value)
                || exists|i: int| 0 <= i < e.len() && e[i] == put(e, key, value)[j],
    decreases e.len(),
{
    let r = put(e, key, value);
    if e.len() == 0 {
    } else if e.last().0 == key {
        assert forall|j: int| 0 <= j < r.len() implies (#[trigger] r[j]) == (key, value)
            || exists|i: int| 0 <= i < e.len() && e[i] == r[j] by {
            if j < r.len() - 1 {
                assert(e[j] == r[j]);
            }
        }
    } else if precedes(e.last().0, key) {
        assert forall|j: int| 0 <= j < r.len() implies (#[trigger] r[j]) == (key, value)
            || exists|i: int| 0 <= i < e.len() && e[i] == r[j] by {
            if j < r.len() - 1 {
                assert(e[j] == r[j]);
            }
        }
    } else {
        let q = put(e.drop_last(), key, value);
        lemma_put_entries(e.drop_last(), key, value);
        assert forall|j: int| 0 <= j < r.len() implies (#[trigger] r[j]) == (key, value)
            || exists|i: int| 0 <= i < e.len() && e[i] == r[j] by {
            if j < r.len() - 1 {
                assert(r[j] == q[j]);
                if q[j] != (key, value) {
                    let i = choose|i: int| 0 <= i < e.drop_last().len() && e.drop_last()[i] == q[j];
                    assert(e[i] == r[j]);
                }
            } else {
                assert(e[e.len() - 1] == r[j]);
            }
        }
    }
}

/// A put keeps a sorted table sorted.
pub proof fn lemma_put_sorted<T>(e: Seq<(Seq<char>, T)>, key: Seq<char>, value: T)
    requires
        sorted(e),
    ensures
        sorted(put(e, key, value)),
    decreases e.len(),
{
    let r = put(e, key, value);
    if e.len() == 0 {
    } else if e.last().0 == key {
    } else if precedes(e.last().0, key) {
        assert forall|i: int, j: int| 0 <= i < j < r.len() implies precedes(
            #[trigger] r[i].0,
            #[trigger] r[j].0,
        ) by {
            if j == r.len() - 1 && i < e.len() - 1 {
                lemma_precedes_transitive(e[i].0, e.last().0, key);
            }
        }
    } else {
        let q = put(e.drop_last(), key, value);
        lemma_put_sorted(e.drop_last(), key, value);
        lemma_put_entries(e.drop_last(), key, value);
        lemma_precedes_connected(e.last().0, key);
        assert forall|i: int, j: int| 0 <= i < j < r.len() implies precedes(
            #[trigger] r[i].0,
            #[trigger] r[j].0,
        ) by {
            if j == r.len() - 1 {
                assert(r[i] == q[i]);
                if q[i] != (key, value) {
                    let k = choose|k: int| 0 <= k < e.drop_last().len() && e.drop_last()[k] == q[i];
                    assert(precedes(e[k].0, e[e.len() - 1].0));
                }
            } else {
                assert(r[i] == q[i] && r[j] == q[j]);
            }
        }
    }
}

/// Putting a key that the table lacks and cutting it again gives the table
/// back.
pub proof fn lemma_cut_put<T>(e: Seq<(Seq<char>, T)>, key: Seq<char>, value: T)
    requires
        find(e, key) is None,
    ensures
        cut(put(e, key, value), key) == e,
    decreases e.len(),
{
    if e.len() == 0 {
        assert(seq![(key, value)].drop_last() =~= e);
    } else if precedes(e.last().0, key) {
        assert(e.push((key, value)).drop_last() =~= e);
    } else {
        let q = put(e.drop_last(), key, value);
        lemma_cut_put(e.drop_last(), key, value);
        assert(q.push(e.last()).drop_last() =~= q);
        assert(e.drop_last().push(e.last()) =~= e);
    }
}

/// The addresses of a vector of strings.
pub open spec fn views(keys: Seq<String>) -> Seq<Seq<char>> {
    Seq::new(keys.len(), |i: int| keys[i]@)
}

/// The addresses strictly ascend.
pub open spec fn ascending_keys(keys: Seq<String>) -> bool {
    forall|i: int, j: int| 0 <= i < j < keys.len() ==> precedes(#[trigger] keys[i]@, #[trigger] keys[j]@)
}

/// Searches the ascending `keys` for `key`, by bisection. Returns whether it
/// is there, and its index: where it is, or where it would have to be
/// inserted.
pub fn locate(keys: &Vec<String>, key: &str) -> (r: (bool, usize))
    requires
        ascending_keys(keys@),
    ensures
        r.1 <= keys.len(),
        r.0 ==> r.1 < keys.len() && keys[r.1 as int]@ == key@,
        forall|i: int| 0 <= i < r.1 ==> precedes(#[trigger] keys[i]@, key@),
        forall|i: int| r.1 <= i < keys.len() && !(r.0 && i == r.1) ==> precedes(key@, #[trigger] keys[i]@),
{
    let mut lo: usize = 0;
    let mut hi: usize = keys.len();
    while lo < hi
        invariant
            ascending_keys(keys@),
            lo <= hi <= keys.len(),
            forall|i: int| 0 <= i < lo ==> precedes(#[trigger] keys[i]@, key@),
            forall|i: int| hi <= i < keys.len() ==> precedes(key@, #[trigger] keys[i]@),
        decreases hi - lo,
    {
        let mid: usize = lo + (hi - lo) / 2;
        match compare(keys[mid].as_str(), key) {
            Rank::Before => {
                assert forall|i: int| 0 <= i < mid + 1 implies precedes(#[trigger] keys[i]@, key@) by {
                    if i < mid {
                        lemma_precedes_transitive(keys[i]@, keys[mid as int]@, key@);
                    }
                }
                lo = mid + 1;
            },
            Rank::After => {
                assert forall|i: int| mid <= i < keys.len() implies precedes(key@, #[trigger] keys[i]@) by {
                    if mid < i {
                        lemma_precedes_transitive(key@, keys[mid as int]@, keys[i]@);
                    }
                }
                hi = mid;
            },
            Rank::Same => {
                return (true, mid);
            },
        }
    }
    (false, lo)
}

} // verus!
