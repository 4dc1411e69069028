//! What holds of the tracker beyond the contract of a single operation:
//! what was recorded stays as it was, a second write at the same version replaces
//! the first, an exclusion can be undone, and the pages of holders follow
//! one another without gap or overlap.

use vstd::prelude::*;
use crate::contract::{debit, exclusion, inclusion, on_ledger, transfer};
use crate::error::Failure;
use crate::history::{admits, ascending, latest, record, value_at, Checkpoint, lemma_record_ascending, lemma_value_at_admitted, lemma_value_at_record};
use crate::ledger::{after, history_of, page, lemma_filter_suffix, lemma_history_admits, lemma_history_ascending};
use crate::order::{precedes, strictly_ascending, lemma_precedes_irreflexive, lemma_precedes_transitive};
use crate::state::{ConfigView, StoreView, lemma_admits_later, lemma_with_balance_ok, lemma_with_supply_ok};
use crate::table::{keys, put, lemma_cut_put, lemma_find_put};

verus! {

/// Where no checkpoint is later than now, the value now is the value as of
/// now and as of every later time.
pub proof fn current_value_is_value_as_of_now(h: Seq<Checkpoint>, now: u64, later: u64)
    requires
        admits(h, now),
        now <= later,
    ensures
        latest(h) == value_at(h, now),
        latest(h) == value_at(h, later),
{
    lemma_value_at_admitted(h, now);
    lemma_value_at_admitted(h, later);
}

/// A write does not change the value as of any earlier version.
pub proof fn write_keeps_earlier_values(h: Seq<Checkpoint>, version: u64, value: u128, earlier: u64)
    requires
        admits(h, version),
        earlier < version,
    ensures
        value_at(record(h, version, value), earlier) == value_at(h, earlier),
{
    lemma_value_at_record(h, version, value, earlier);
}

/// A leg of a transfer at `version` changes no balance and no supply as of
/// an earlier version.
proof fn lemma_leg_keeps_earlier(
    s: StoreView,
    key: Seq<char>,
    version: u64,
    value: u128,
    addr: Seq<char>,
    earlier: u64,
)
    requires
        s.ok(),
        s.last_version <= version,
        earlier < version,
    ensures
        value_at(history_of(s.with_balance(key, version, value).balances, addr), earlier)
            == value_at(history_of(s.balances, addr), earlier),
        value_at(s.with_supply(version, value).supply, earlier) == value_at(s.supply, earlier),
{
    lemma_admits_later(s, s.last_version, version);
    let h = history_of(s.balances, key);
    lemma_history_admits(s.balances, key, version);
    lemma_find_put(s.balances, key, record(h, version, value), addr);
    lemma_value_at_record(h, version, value, earlier);
    lemma_value_at_record(s.supply, version, value, earlier);
}

/// History is immutable. A transfer at a version not before the last one
/// changes neither the balance of any address nor the total supply as of
/// any earlier version.
pub proof fn transfer_keeps_history(
    s: StoreView,
    cfg: ConfigView,
    from: Seq<char>,
    to: Seq<char>,
    amount: u128,
    version: u64,
    addr: Seq<char>,
    earlier: u64,
)
    requires
        s.ok(),
        s.last_version <= version,
        earlier < version,
        transfer(s, cfg, from, to, amount, version) is Ok,
    ensures
        value_at(
            history_of(transfer(s, cfg, from, to, amount, version)->Ok_0.balances, addr),
            earlier,
        ) == value_at(history_of(s.balances, addr), earlier),
        value_at(transfer(s, cfg, from, to, amount, version)->Ok_0.supply, earlier) == value_at(
            s.supply,
            earlier,
        ),
{
    let d = debit(s, cfg, from, amount, version)->Ok_0;
    if on_ledger(s, cfg, from) {
        let value = (latest(history_of(s.balances, from)) - amount) as u128;
        lemma_leg_keeps_earlier(s, from, version, value, addr, earlier);
        lemma_with_balance_ok(s, from, version, value);
    } else {
        let value = (latest(s.supply) + amount) as u128;
        lemma_leg_keeps_earlier(s, from, version, value, addr, earlier);
        lemma_with_supply_ok(s, version, value);
    }
    if on_ledger(d, cfg, to) {
        let value = (latest(history_of(d.balances, to)) + amount) as u128;
        lemma_leg_keeps_earlier(d, to, version, value, addr, earlier);
    } else {
        let value = (latest(d.supply) - amount) as u128;
        lemma_leg_keeps_earlier(d, to, version, value, addr, earlier);
    }
}

/// A transfer of more than the balance of its sender fails with an
/// underflow; one from the mint address or an excluded wallet that would
/// take the supply beyond the largest number fails with an overflow.
pub proof fn overdraft_is_rejected(
    s: StoreView,
    cfg: ConfigView,
    from: Seq<char>,
    to: Seq<char>,
    amount: u128,
    version: u64,
)
    ensures
        on_ledger(s, cfg, from) && latest(history_of(s.balances, from)) < amount ==> transfer(
            s,
            cfg,
            from,
            to,
            amount,
            version,
        ) == Err::<StoreView, Failure>(Failure::ArithmeticUnderflow),
        !on_ledger(s, cfg, from) && latest(s.supply) + amount > u128::MAX ==> transfer(
            s,
            cfg,
            from,
            to,
            amount,
            version,
        ) == Err::<StoreView, Failure>(Failure::ArithmeticOverflow),
{
}

/// A second write at the same version replaces the first: the history is
/// the one that the second write alone would have left, and it holds one
/// checkpoint for that version.
pub proof fn second_write_replaces_first(h: Seq<Checkpoint>, version: u64, first: u128, second: u128)
    requires
        ascending(h),
        admits(h, version),
    ensures
        record(record(h, version, first), version, second) == record(h, version, second),
        ascending(record(h, version, second)),
        latest(record(h, version, second)) == second,
{
    lemma_record_ascending(h, version, second);
    let a = record(h, version, first);
    assert(a.drop_last() =~= if h.len() > 0 && h.last().version == version {
        h.drop_last()
    } else {
        h
    });
    assert(record(a, version, second) =~= record(h, version, second));
}

/// Putting a value for a key twice leaves what the second put alone would
/// have left.
pub proof fn lemma_put_put<T>(e: Seq<(Seq<char>, T)>, key: Seq<char>, first: T, second: T)
    ensures
        put(put(e, key, first), key, second) == put(e, key, second),
    decreases e.len(),
{
    if e.len() == 0 {
        assert(seq![(key, first)].drop_last() =~= e);
        assert(e.push((key, second)) =~= seq![(key, second)]);
    } else if e.last().0 == key {
        assert(e.drop_last().push((key, first)).drop_last() =~= e.drop_last());
    } else if precedes(e.last().0, key) {
        assert(e.push((key, first)).drop_last() =~= e);
    } else {
        let q = put(e.drop_last(), key, first);
        lemma_put_put(e.drop_last(), key, first, second);
        assert(q.push(e.last()).drop_last() =~= q);
    }
}

/// A second write of a balance at the same version replaces the first.
pub proof fn second_balance_replaces_first(
    s: StoreView,
    key: Seq<char>,
    version: u64,
    first: u128,
    second: u128,
)
    requires
        s.ok(),
        s.last_version <= version,
    ensures
        s.with_balance(key, version, first).with_balance(key, version, second) == s.with_balance(
            key,
            version,
            second,
        ),
{
    let h = history_of(s.balances, key);
    lemma_admits_later(s, s.last_version, version);
    lemma_history_admits(s.balances, key, version);
    lemma_history_ascending(s.balances, key);
    lemma_find_put(s.balances, key, record(h, version, first), key);
    second_write_replaces_first(h, version, first, second);
    lemma_put_put(s.balances, key, record(h, version, first), record(h, version, second));
}

/// An exclusion that succeeded is undone by the inclusion of the same
/// address: the store is again what it was. A second exclusion of the
/// address fails meanwhile, and so does a second inclusion afterwards.
pub proof fn exclusion_round_trip(
    s: StoreView,
    sender: Seq<char>,
    addr: Seq<char>,
    memo: Seq<char>,
    other: Seq<char>,
)
    requires
        exclusion(s, sender, addr, memo) is Ok,
    ensures
        inclusion(exclusion(s, sender, addr, memo)->Ok_0, sender, addr) == Ok::<
            StoreView,
            Failure,
        >(s),
        exclusion(exclusion(s, sender, addr, memo)->Ok_0, sender, addr, other) == Err::<
            StoreView,
            Failure,
        >(Failure::TokenAlreadyWhitelisted),
        inclusion(s, sender, addr) == Err::<StoreView, Failure>(Failure::TokenNotFound),
{
    lemma_find_put(s.excluded, addr, memo, addr);
    lemma_cut_put(s.excluded, addr, memo);
}

/// The holders of a store that is in order strictly ascend.
pub proof fn holders_ascend(s: StoreView)
    requires
        s.ok(),
    ensures
        strictly_ascending(keys(s.balances)),
{
}

/// The index from which on the ascending `keys` lie after `start`.
pub proof fn lemma_boundary(keys: Seq<Seq<char>>, start: Option<Seq<char>>) -> (p: int)
    requires
        strictly_ascending(keys),
    ensures
        0 <= p <= keys.len(),
        forall|i: int| 0 <= i < p ==> !after(start, #[trigger] keys[i]),
        forall|i: int| p <= i < keys.len() ==> after(start, #[trigger] keys[i]),
        keys.filter(|k: Seq<char>| after(start, k)) == keys.skip(p),
    decreases keys.len(),
{
    let pred = |k: Seq<char>| after(start, k);
    let p = if keys.len() == 0 {
        0
    } else {
        let q = lemma_boundary(keys.drop_last(), start);
        if q < keys.len() - 1 {
            assert(after(start, keys.drop_last()[q]));
            if start is Some {
                lemma_precedes_transitive(start->0, keys[q], keys.last());
            }
            q
        } else if after(start, keys.last()) {
            q
        } else {
            q + 1
        }
    };
    assert forall|i: int| 0 <= i < p implies !pred(#[trigger] keys[i]) by {
        if i < keys.len() - 1 {
            assert(keys[i] == keys.drop_last()[i]);
        }
    }
    assert forall|i: int| p <= i < keys.len() implies pred(#[trigger] keys[i]) by {
        if i < keys.len() - 1 {
            assert(keys[i] == keys.drop_last()[i]);
        }
    }
    lemma_filter_suffix(keys, pred, p);
    p
}

/// A page holds as many holders as the limit allows and as there are after
/// the bound; asked from the start, the lesser of the limit and the number
/// of holders. Its addresses strictly ascend, and all lie after the bound.
pub proof fn page_is_bounded_and_ascending(keys: Seq<Seq<char>>, start: Option<Seq<char>>, limit: nat)
    requires
        strictly_ascending(keys),
    ensures
        page(keys, start, limit).len() == if limit < keys.filter(|k: Seq<char>| after(start, k)).len() {
            limit
        } else {
            keys.filter(|k: Seq<char>| after(start, k)).len()
        },
        page(keys, None, limit).len() == if limit < keys.len() {
            limit
        } else {
            keys.len()
        },
        strictly_ascending(page(keys, start, limit)),
        forall|i: int|
            0 <= i < page(keys, start, limit).len() ==> after(start, #[trigger] page(keys, start, limit)[i]),
{
    let p = lemma_boundary(keys, start);
    let q = lemma_boundary(keys, None);
    assert(q == 0) by {
        if q > 0 {
            assert(!after(None, keys[0]));
        }
    }
    let pg = page(keys, start, limit);
    assert forall|i: int, j: int| 0 <= i < j < pg.len() implies precedes(
        #[trigger] pg[i],
        #[trigger] pg[j],
    ) by {
        assert(pg[i] == keys[p + i] && pg[j] == keys[p + j]);
    }
    assert forall|i: int| 0 <= i < pg.len() implies after(start, #[trigger] pg[i]) by {
        assert(pg[i] == keys[p + i]);
    }
}

/// Chained pages neither overlap nor leave a gap: a page, followed by the
/// page that starts after its last address, is the page of both limits
/// together.
pub proof fn chained_pages_join(keys: Seq<Seq<char>>, start: Option<Seq<char>>, k: nat, m: nat)
    requires
        strictly_ascending(keys),
        page(keys, start, k).len() > 0,
    ensures
        page(keys, start, k) + page(keys, Some(page(keys, start, k).last()), m) == page(
            keys,
            start,
            k + m,
        ),
{
    let p = lemma_boundary(keys, start);
    let first = page(keys, start, k);
    let n = first.len() as int;
    let last = first.last();
    assert(last == keys[p + n - 1]);
    let next = Some(last);
    let q = lemma_boundary(keys, next);
    assert(q == p + n) by {
        if q < p + n {
            assert(after(next, keys[p + n - 1]));
            lemma_precedes_irreflexive(last);
        }
        if q > p + n {
            assert(!after(next, keys[p + n]));
            assert(precedes(keys[p + n - 1], keys[p + n]));
        }
    }
    assert(first + page(keys, next, m) =~= page(keys, start, k + m));
}

} // verus!
