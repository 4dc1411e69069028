//! The registry of excluded wallets: addresses whose transfers are not
//! recorded in the ledger, each with a memo.

use vstd::prelude::*;
use crate::table::{ascending_keys, cut, find, locate, put, sorted, lemma_cut_absent, lemma_cut_removes, lemma_find_absent, lemma_find_at, lemma_put_inserts, lemma_put_replaces};
use crate::order::{compare, precedes, Rank, lemma_precedes_asymmetric, lemma_precedes_transitive};

verus! {

/// What a vector of pairs of strings holds.
pub open spec fn pairs(v: Seq<(String, String)>) -> Seq<(Seq<char>, Seq<char>)> {
    Seq::new(v.len(), |i: int| (v[i].0@, v[i].1@))
}

/// A map from address to memo, held in ascending order of address.
#[derive(Clone, Debug, PartialEq, Eq)]
pub struct ExcludedWallets {
    addrs: Vec<String>,
    memos: Vec<String>,
}

impl View for ExcludedWallets {
    type V = Seq<(Seq<char>, Seq<char>)>;

    closed spec fn view(&self) -> Seq<(Seq<char>, Seq<char>)> {
        Seq::new(self.addrs@.len(), |i: int| (self.addrs@[i]@, self.memos@[i]@))
    }
}

impl ExcludedWallets {
    /// Every address has its memo, and the addresses strictly ascend.
    pub closed spec fn wf(&self) -> bool {
        &&& self.addrs@.len() == self.memos@.len()
        &&& ascending_keys(self.addrs@)
    }

    /// The entries of a well-formed registry are sorted by address.
    pub proof fn lemma_sorted(&self)
        requires
            self.wf(),
        ensures
            sorted(self@),
    {
    }

    /// An empty registry.
    pub fn new() -> (r: Self)
        ensures
            r.wf(),
            r@ == Seq::<(Seq<char>, Seq<char>)>::empty(),
    {
        let r = ExcludedWallets { addrs: Vec::new(), memos: Vec::new() };
        assert(r@ =~= Seq::<(Seq<char>, Seq<char>)>::empty());
        r
    }

    /// The registry with the given entries, if their addresses strictly
    /// ascend.
    pub fn from_entries(entries: &Vec<(String, String)>) -> (r: Option<Self>)
        ensures
            r is Some <==> sorted(pairs(entries@)),
            r matches Some(w) ==> w.wf() && w@ == pairs(entries@),
    {
        let mut w = ExcludedWallets { addrs: Vec::new(), memos: Vec::new() };
        let mut i: usize = 0;
        while i < entries.len()
            invariant
                i <= entries@.len(),
                w.addrs@.len() == i,
                w.memos@.len() == i,
                forall|j: int|
                    0 <= j < i ==> (#[trigger] w.addrs@[j])@ == entries@[j].0@ && w.memos@[j]@
                        == entries@[j].1@,
                w.wf(),
            decreases entries@.len() - i,
        {
            if i > 0 {
                match compare(entries[i - 1].0.as_str(), entries[i].0.as_str()) {
                    Rank::Before => {},
                    _ => {
                        proof {
                            let e = pairs(entries@);
                            assert(e[i - 1].0 == entries@[i - 1].0@ && e[i as int].0
                                == entries@[i as int].0@);
                        }
                        return None;
                    },
                }
            }
            proof {
                assert forall|j: int| 0 <= j < i implies precedes(
                    #[trigger] w.addrs@[j]@,
                    entries@[i as int].0@,
                ) by {
                    if j < i - 1 {
                        lemma_precedes_transitive(
                            w.addrs@[j]@,
                            w.addrs@[i - 1]@,
                            entries@[i as int].0@,
                        );
                    }
                }
            }
            w.addrs.push(entries[i].0.clone());
            w.memos.push(entries[i].1.clone());
            i += 1;
        }
        assert(w@ =~= pairs(entries@));
        Some(w)
    }

    /// The number of excluded addresses.
    pub fn len(&self) -> (n: usize)
        requires
            self.wf(),
        ensures
            n == self@.len(),
    {
        self.addrs.len()
    }

    /// Whether `addr` is excluded.
    pub fn contains_key(&self, addr: &str) -> (r: bool)
        requires
            self.wf(),
        ensures
            r == find(self@, addr@) is Some,
    {
        let (found, i) = locate(&self.addrs, addr);
        proof {
            self.lemma_located(addr@, found, i as int);
        }
        found
    }

    /// The memo of `addr`, if it is excluded.
    pub fn get(&self, addr: &str) -> (r: Option<&String>)
        requires
            self.wf(),
        ensures
            match r {
                Some(memo) => find(self@, addr@) == Some(memo@),
                None => find(self@, addr@) is None,
            },
    {
        let (found, i) = locate(&self.addrs, addr);
        proof {
            self.lemma_located(addr@, found, i as int);
        }
        if found {
            Some(&self.memos[i])
        } else {
            None
        }
    }

    /// Excludes `addr` with `memo`; a memo that it had is replaced and
    /// returned.
    pub fn insert(&mut self, addr: String, memo: String) -> (r: Option<String>)
        requires
            old(self).wf(),
        ensures
            final(self).wf(),
            final(self)@ == put(old(self)@, addr@, memo@),
            match r {
                Some(m) => find(old(self)@, addr@) == Some(m@),
                None => find(old(self)@, addr@) is None,
            },
    {
        let (found, i) = locate(&self.addrs, addr.as_str());
        proof {
            self.lemma_located(addr@, found, i as int);
        }
        if found {
            let mut memo = memo;
            std::mem::swap(&mut self.memos[i], &mut memo);
            proof {
                lemma_put_replaces(old(self)@, addr@, self.memos@[i as int]@, i as int);
                assert(self@ =~= old(self)@.update(i as int, (addr@, self.memos@[i as int]@)));
            }
            Some(memo)
        } else {
            proof {
                lemma_put_inserts(old(self)@, addr@, memo@, i as int);
            }
            self.addrs.insert(i, addr);
            self.memos.insert(i, memo);
            assert(self@ =~= old(self)@.insert(i as int, (addr@, memo@)));
            None
        }
    }

    /// Includes `addr` again; the memo that it had is returned.
    pub fn remove(&mut self, addr: &str) -> (r: Option<String>)
        requires
            old(self).wf(),
        ensures
            final(self).wf(),
            final(self)@ == cut(old(self)@, addr@),
            match r {
                Some(m) => find(old(self)@, addr@) == Some(m@),
                None => find(old(self)@, addr@) is None && final(self)@ == old(self)@,
            },
    {
        let (found, i) = locate(&self.addrs, addr);
        proof {
            self.lemma_located(addr@, found, i as int);
        }
        if found {
            proof {
                lemma_cut_removes(old(self)@, addr@, i as int);
            }
            self.addrs.remove(i);
            let memo = self.memos.remove(i);
            assert(self@ =~= old(self)@.remove(i as int));
            Some(memo)
        } else {
            proof {
                lemma_cut_absent(old(self)@, addr@);
            }
            None
        }
    }

    /// All excluded addresses with their memos, in ascending order of
    /// address.
    pub fn entries(&self) -> (r: Vec<(String, String)>)
        requires
            self.wf(),
        ensures
            pairs(r@) == self@,
    {
        let mut r: Vec<(String, String)> = Vec::new();
        let mut i: usize = 0;
        while i < self.addrs.len()
            invariant
                self.wf(),
                i <= self.addrs@.len(),
                r@.len() == i,
                forall|j: int| 0 <= j < i ==> (#[trigger] r@[j]).0@ == self@[j].0 && r@[j].1@ == self@[j].1,
            decreases self.addrs@.len() - i,
        {
            r.push((self.addrs[i].clone(), self.memos[i].clone()));
            i += 1;
        }
        assert(pairs(r@) =~= self@);
        r
    }

    /// What `locate` reports of the addresses, said of the entries.
    proof fn lemma_located(&self, addr: Seq<char>, found: bool, i: int)
        requires
            self.wf(),
            0 <= i <= self.addrs@.len(),
            found ==> i < self.addrs@.len() && self.addrs@[i]@ == addr,
            forall|j: int| 0 <= j < i ==> precedes(#[trigger] self.addrs@[j]@, addr),
            forall|j: int|
                i <= j < self.addrs@.len() && !(found && j == i) ==> precedes(
                    addr,
                    #[trigger] self.addrs@[j]@,
                ),
        ensures
            sorted(self@),
            found ==> find(self@, addr) == Some(self.memos@[i]@) && self@[i].0 == addr,
            !found ==> find(self@, addr) is None,
            !found ==> forall|j: int| 0 <= j < i ==> precedes((#[trigger] self@[j]).0, addr),
            !found ==> forall|j: int|
                i <= j < self@.len() ==> precedes(addr, (#[trigger] self@[j]).0),
    {
        if found {
            lemma_find_at(self@, i);
        } else {
            assert forall|j: int| 0 <= j < self@.len() implies (#[trigger] self@[j]).0 != addr by {
                if j < i {
                    lemma_precedes_asymmetric(self.addrs@[j]@, addr);
                } else {
                    lemma_precedes_asymmetric(addr, self.addrs@[j]@);
                }
            }
            lemma_find_absent(self@, addr);
        }
    }
}

} // verus!
