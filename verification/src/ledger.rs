//! The balance ledger: for every holder the history of its balance.
//!
//! A holder is an address whose balance was written at least once; its entry
//! is never deleted. The holders are kept in ascending order of address.

use vstd::prelude::*;
use crate::history::{admits, ascending, latest, record, value_at, Checkpoint, VersionedValue};
use crate::order::{compare, precedes, Rank, lemma_precedes_asymmetric, lemma_precedes_irreflexive, lemma_precedes_transitive};
use crate::table::{ascending_keys, find, keys, locate, put, sorted, views, lemma_find_absent, lemma_find_at, lemma_find_some, lemma_put_inserts, lemma_put_replaces};

verus! {

/// The history that the ledger holds for `key`; empty where it holds none.
pub open spec fn history_of(e: Seq<(Seq<char>, Seq<Checkpoint>)>, key: Seq<char>) -> Seq<
    Checkpoint,
> {
    match find(e, key) {
        Some(h) => h,
        None => Seq::empty(),
    }
}

/// The entries are sorted by address, and each history is in ascending order
/// of version and holds at least one checkpoint.
pub open spec fn ledger_ok(e: Seq<(Seq<char>, Seq<Checkpoint>)>) -> bool {
    &&& sorted(e)
    &&& forall|i: int| 0 <= i < e.len() ==> ascending((#[trigger] e[i]).1) && e[i].1.len() > 0
}

/// No checkpoint of any holder is later than `version`.
pub open spec fn ledger_admits(e: Seq<(Seq<char>, Seq<Checkpoint>)>, version: u64) -> bool {
    forall|i: int| 0 <= i < e.len() ==> admits((#[trigger] e[i]).1, version)
}

/// `key` lies after the exclusive lower bound `start`; without a bound every
/// key does.
pub open spec fn after(start: Option<Seq<char>>, key: Seq<char>) -> bool {
    match start {
        Some(s) => precedes(s, key),
        None => true,
    }
}

/// The page of at most `limit` keys that follow `start`, in the order of
/// `keys`.
pub open spec fn page(keys: Seq<Seq<char>>, start: Option<Seq<char>>, limit: nat) -> Seq<
    Seq<char>,
> {
    let rest = keys.filter(|k: Seq<char>| after(start, k));
    if limit < rest.len() {
        rest.take(limit as int)
    } else {
        rest
    }
}

/// Where a predicate fails on the first `p` elements and holds from there
/// on, filtering by it leaves the elements from `p` on.
pub proof fn lemma_filter_suffix<A>(s: Seq<A>, pred: spec_fn(A) -> bool, p: int)
    requires
        0 <= p <= s.len(),
        forall|i: int| 0 <= i < p ==> !pred(#[trigger] s[i]),
        forall|i: int| p <= i < s.len() ==> pred(#[trigger] s[i]),
    ensures
        s.filter(pred) == s.skip(p),
    decreases s.len(),
{
    reveal(Seq::filter);
    if s.len() == 0 {
        assert(s.filter(pred) =~= s.skip(p));
    } else if p == s.len() {
        lemma_filter_suffix(s.drop_last(), pred, p - 1);
        assert(s.drop_last().skip(p - 1) =~= s.skip(p));
    } else {
        lemma_filter_suffix(s.drop_last(), pred, p);
        assert(s.drop_last().skip(p).push(s.last()) =~= s.skip(p));
    }
}

/// What a vector of addresses, each with the checkpoints of its balance,
/// holds.
pub open spec fn histories(v: Seq<(String, Vec<Checkpoint>)>) -> Seq<(Seq<char>, Seq<Checkpoint>)> {
    Seq::new(v.len(), |i: int| (v[i].0@, v[i].1@))
}

/// A copy of the checkpoints.
fn copy_of(checkpoints: &Vec<Checkpoint>) -> (r: Vec<Checkpoint>)
    ensures
        r@ == checkpoints@,
{
    let mut r: Vec<Checkpoint> = Vec::new();
    let mut i: usize = 0;
    while i < checkpoints.len()
        invariant
            i <= checkpoints@.len(),
            r@ == checkpoints@.take(i as int),
        decreases checkpoints@.len() - i,
    {
        r.push(checkpoints[i]);
        assert(checkpoints@.take(i + 1) =~= checkpoints@.take(i as int).push(checkpoints@[i as int]));
        i += 1;
    }
    assert(checkpoints@.take(i as int) =~= checkpoints@);
    r
}

/// Where the ledger admits a version, so does the history of every key.
pub proof fn lemma_history_admits(
    e: Seq<(Seq<char>, Seq<Checkpoint>)>,
    key: Seq<char>,
    version: u64,
)
    requires
        ledger_admits(e, version),
    ensures
        admits(history_of(e, key), version),
{
    if find(e, key) is Some {
        let i = lemma_find_some(e, key);
        assert(admits(e[i].1, version));
    }
}

/// The history of a key in a well-formed ledger is in ascending order.
pub proof fn lemma_history_ascending(e: Seq<(Seq<char>, Seq<Checkpoint>)>, key: Seq<char>)
    requires
        ledger_ok(e),
    ensures
        ascending(history_of(e, key)),
{
    if find(e, key) is Some {
        let i = lemma_find_some(e, key);
        assert(ascending(e[i].1));
    }
}

/// The balance histories of all holders.
#[derive(Clone, Debug, PartialEq, Eq)]
pub struct BalanceLedger {
    holders: Vec<String>,
    histories: Vec<VersionedValue>,
}

impl View for BalanceLedger {
    type V = Seq<(Seq<char>, Seq<Checkpoint>)>;

    closed spec fn view(&self) -> Seq<(Seq<char>, Seq<Checkpoint>)> {
        Seq::new(self.holders@.len(), |i: int| (self.holders@[i]@, self.histories@[i]@))
    }
}

impl BalanceLedger {
    /// Every holder has its history, the holders strictly ascend, and every
    /// history is well formed and not empty.
    pub closed spec fn wf(&self) -> bool {
        &&& self.holders@.len() == self.histories@.len()
        &&& ascending_keys(self.holders@)
        &&& forall|i: int|
            0 <= i < self.histories@.len() ==> (#[trigger] self.histories@[i]).wf()
                && self.histories@[i]@.len() > 0
    }

    /// What a well-formed ledger holds is sorted by address and made of
    /// well-formed histories.
    pub proof fn lemma_ok(&self)
        requires
            self.wf(),
        ensures
            ledger_ok(self@),
    {
        assert forall|i: int| 0 <= i < self@.len() implies ascending((#[trigger] self@[i]).1)
            && self@[i].1.len() > 0 by {
            assert(self.histories@[i].wf());
        }
    }

    /// A ledger without holders.
    pub fn new() -> (r: Self)
        ensures
            r.wf(),
            r@ == Seq::<(Seq<char>, Seq<Checkpoint>)>::empty(),
    {
        let r = BalanceLedger { holders: Vec::new(), histories: Vec::new() };
        assert(r@ =~= Seq::<(Seq<char>, Seq<Checkpoint>)>::empty());
        r
    }

    /// The ledger with the given entries, if their addresses strictly
    /// ascend and each history is in ascending order of version and not
    /// empty.
    pub fn from_entries(entries: &Vec<(String, Vec<Checkpoint>)>) -> (r: Option<Self>)
        ensures
            r is Some <==> ledger_ok(histories(entries@)),
            r matches Some(l) ==> l.wf() && l@ == histories(entries@),
    {
        let ghost e = histories(entries@);
        let mut l = BalanceLedger { holders: Vec::new(), histories: Vec::new() };
        let mut i: usize = 0;
        while i < entries.len()
            invariant
                e == histories(entries@),
                i <= entries@.len(),
                l.holders@.len() == i,
                l.histories@.len() == i,
                forall|j: int|
                    0 <= j < i ==> (#[trigger] l.holders@[j])@ == entries@[j].0@ && l.histories@[j]@
                        == entries@[j].1@,
                l.wf(),
            decreases entries@.len() - i,
        {
            assert(e[i as int].1 == entries@[i as int].1@);
            if i > 0 {
                match compare(entries[i - 1].0.as_str(), entries[i].0.as_str()) {
                    Rank::Before => {},
                    _ => {
                        assert(e[i - 1].0 == entries@[i - 1].0@ && e[i as int].0
                            == entries@[i as int].0@);
                        return None;
                    },
                }
            }
            if entries[i].1.len() == 0 {
                return None;
            }
            let h = match VersionedValue::from_checkpoints(copy_of(&entries[i].1)) {
                Some(h) => h,
                None => {
                    return None;
                },
            };
            proof {
                assert forall|j: int| 0 <= j < i implies precedes(
                    #[trigger] l.holders@[j]@,
                    entries@[i as int].0@,
                ) by {
                    if j < i - 1 {
                        lemma_precedes_transitive(
                            l.holders@[j]@,
                            l.holders@[i - 1]@,
                            entries@[i as int].0@,
                        );
                    }
                }
            }
            l.holders.push(entries[i].0.clone());
            l.histories.push(h);
            i += 1;
        }
        assert(l@ =~= e);
        proof {
            l.lemma_ok();
        }
        Some(l)
    }

    /// All holders with the checkpoints of their balances, in ascending
    /// order of address.
    pub fn entries(&self) -> (r: Vec<(String, Vec<Checkpoint>)>)
        requires
            self.wf(),
        ensures
            histories(r@) == self@,
    {
        let mut r: Vec<(String, Vec<Checkpoint>)> = Vec::new();
        let mut i: usize = 0;
        while i < self.holders.len()
            invariant
                self.wf(),
                i <= self.holders@.len(),
                r@.len() == i,
                forall|j: int|
                    0 <= j < i ==> (#[trigger] r@[j]).0@ == self.holders@[j]@ && r@[j].1@
                        == self.histories@[j]@,
            decreases self.holders@.len() - i,
        {
            r.push((self.holders[i].clone(), self.histories[i].checkpoints()));
            i += 1;
        }
        assert(histories(r@) =~= self@);
        r
    }

    /// Whether no checkpoint of any holder is later than `version`.
    pub fn admits(&self, version: u64) -> (r: bool)
        requires
            self.wf(),
        ensures
            r == ledger_admits(self@, version),
    {
        let mut i: usize = 0;
        while i < self.histories.len()
            invariant
                self.wf(),
                i <= self.histories@.len(),
                forall|j: int| 0 <= j < i ==> admits(#[trigger] self.histories@[j]@, version),
            decreases self.histories@.len() - i,
        {
            if !self.histories[i].admits(version) {
                assert(self@[i as int].1 == self.histories@[i as int]@);
                return false;
            }
            i += 1;
        }
        assert forall|j: int| 0 <= j < self@.len() implies admits(
            (#[trigger] self@[j]).1,
            version,
        ) by {
            assert(admits(self.histories@[j]@, version));
        }
        true
    }

    /// The number of holders.
    pub fn len(&self) -> (n: usize)
        requires
            self.wf(),
        ensures
            n == self@.len(),
    {
        self.holders.len()
    }

    /// The history of `key`, if `key` is a holder.
    pub fn get(&self, key: &str) -> (r: Option<&VersionedValue>)
        requires
            self.wf(),
        ensures
            match r {
                Some(h) => find(self@, key@) == Some(h@) && h.wf(),
                None => find(self@, key@) is None,
            },
    {
        let (found, i) = locate(&self.holders, key);
        proof {
            self.lemma_located(key@, found, i as int);
        }
        if found {
            Some(&self.histories[i])
        } else {
            None
        }
    }

    /// The latest balance of `key`, zero if `key` is no holder.
    pub fn read_current(&self, key: &str) -> (r: u128)
        requires
            self.wf(),
        ensures
            r == latest(history_of(self@, key@)),
    {
        match self.get(key) {
            Some(h) => h.read_current(),
            None => 0,
        }
    }

    /// The balance of `key` as of `version`, zero if it had none by then.
    pub fn read_at(&self, key: &str, version: u64) -> (r: u128)
        requires
            self.wf(),
        ensures
            r == value_at(history_of(self@, key@), version),
    {
        match self.get(key) {
            Some(h) => h.read_at(version),
            None => 0,
        }
    }

    /// Records that the balance of `key` at `version` is `value`. Makes
    /// `key` a holder if it was none.
    pub fn write(&mut self, key: &str, version: u64, value: u128)
        requires
            old(self).wf(),
            admits(history_of(old(self)@, key@), version),
        ensures
            final(self).wf(),
            final(self)@ == put(
                old(self)@,
                key@,
                record(history_of(old(self)@, key@), version, value),
            ),
    {
        let (found, i) = locate(&self.holders, key);
        proof {
            self.lemma_located(key@, found, i as int);
        }
        if found {
            self.histories[i].write(version, value);
            proof {
                lemma_put_replaces(old(self)@, key@, self.histories@[i as int]@, i as int);
                assert(self@ =~= old(self)@.update(i as int, (key@, self.histories@[i as int]@)));
            }
        } else {
            let mut h = VersionedValue::new();
            h.write(version, value);
            proof {
                lemma_put_inserts(old(self)@, key@, h@, i as int);
            }
            self.holders.insert(i, key.to_owned());
            self.histories.insert(i, h);
            assert(self@ =~= old(self)@.insert(i as int, (key@, h@)));
        }
    }

    /// Applies `f` to the latest balance of `key` and, if it succeeds,
    /// writes the result at `version`. If `f` fails its error is handed on
    /// and nothing changes.
    pub fn update<E, F: FnOnce(u128) -> Result<u128, E>>(
        &mut self,
        key: &str,
        version: u64,
        f: F,
    ) -> (r: Result<u128, E>)
        requires
            old(self).wf(),
            admits(history_of(old(self)@, key@), version),
            f.requires((latest(history_of(old(self)@, key@)),)),
        ensures
            final(self).wf(),
            f.ensures((latest(history_of(old(self)@, key@)),), r),
            match r {
                Ok(value) => final(self)@ == put(
                    old(self)@,
                    key@,
                    record(history_of(old(self)@, key@), version, value),
                ),
                Err(_) => final(self)@ == old(self)@,
            },
    {
        match f(self.read_current(key)) {
            Ok(value) => {
                self.write(key, version, value);
                Ok(value)
            },
            Err(e) => Err(e),
        }
    }

    /// At most `limit` holders that follow `start_after`, or from the first
    /// holder on where no bound is given, in ascending order of address.
    pub fn holders_after(&self, start_after: Option<&str>, limit: usize) -> (r: Vec<String>)
        requires
            self.wf(),
        ensures
            views(r@) == page(
                keys(self@),
                match start_after {
                    Some(s) => Some(s@),
                    None => None,
                },
                limit as nat,
            ),
    {
        let ghost start: Option<Seq<char>> = match start_after {
            Some(s) => Some(s@),
            None => None,
        };
        let n = self.holders.len();
        let first: usize = match start_after {
            Some(s) => {
                let (found, i) = locate(&self.holders, s);
                if found {
                    i + 1
                } else {
                    i
                }
            },
            None => 0,
        };
        proof {
            let pred = |k: Seq<char>| after(start, k);
            assert forall|i: int| 0 <= i < first implies !pred(#[trigger] keys(self@)[i]) by {
                let s = start->0;
                if self.holders@[i]@ != s {
                    lemma_precedes_asymmetric(self.holders@[i]@, s);
                } else {
                    lemma_precedes_irreflexive(s);
                }
            }
            assert forall|i: int| first <= i < n implies pred(#[trigger] keys(self@)[i]) by {}
            lemma_filter_suffix(keys(self@), pred, first as int);
        }
        let count: usize = if limit < n - first {
            limit
        } else {
            n - first
        };
        let mut r: Vec<String> = Vec::new();
        let mut i: usize = 0;
        while i < count
            invariant
                self.wf(),
                n == self.holders@.len(),
                first + count <= n,
                i <= count,
                r@.len() == i,
                forall|j: int| 0 <= j < i ==> (#[trigger] r@[j])@ == self.holders@[first + j]@,
            decreases count - i,
        {
            r.push(self.holders[first + i].clone());
            i += 1;
        }
        assert(views(r@) =~= keys(self@).skip(first as int).take(count as int));
        assert(limit >= n - first ==> keys(self@).skip(first as int).take(count as int) =~= keys(
            self@,
        ).skip(first as int));
        r
    }

    /// What `locate` reports of the holders, said of the entries.
    proof fn lemma_located(&self, key: Seq<char>, found: bool, i: int)
        requires
            self.wf(),
            0 <= i <= self.holders@.len(),
            found ==> i < self.holders@.len() && self.holders@[i]@ == key,
            forall|j: int| 0 <= j < i ==> precedes(#[trigger] self.holders@[j]@, key),
            forall|j: int|
                i <= j < self.holders@.len() && !(found && j == i) ==> precedes(
                    key,
                    #[trigger] self.holders@[j]@,
                ),
        ensures
            sorted(self@),
            found ==> find(self@, key) == Some(self.histories@[i]@) && self@[i].0 == key
                && self.histories@[i].wf(),
            !found ==> find(self@, key) is None,
            !found ==> forall|j: int| 0 <= j < i ==> precedes((#[trigger] self@[j]).0, key),
            !found ==> forall|j: int| i <= j < self@.len() ==> precedes(key, (#[trigger] self@[j]).0),
    {
        if found {
            lemma_find_at(self@, i);
        } else {
            assert forall|j: int| 0 <= j < self@.len() implies (#[trigger] self@[j]).0 != key by {
                if j < i {
                    lemma_precedes_asymmetric(self.holders@[j]@, key);
                } else {
                    lemma_precedes_asymmetric(key, self.holders@[j]@);
                }
            }
            lemma_find_absent(self@, key);
        }
    }
}

} // verus!
