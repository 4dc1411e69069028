//! The state of the tracker: its configuration, the registry of excluded
//! wallets, the balance ledger and the history of the total supply.

use vstd::prelude::*;
use crate::history::{admits, ascending, record, Checkpoint, VersionedValue, lemma_record_ascending};
use crate::ledger::{histories, history_of, ledger_admits, ledger_ok, BalanceLedger, lemma_history_admits};
use crate::registry::{pairs, ExcludedWallets};
use crate::table::{cut, find, put, sorted, lemma_find_some, lemma_put_entries, lemma_put_sorted};

verus! {

/// The configuration, set when the tracker is created and never changed.
#[derive(Debug, PartialEq, Eq)]
pub struct Config {
    /// The tracked asset.
    pub d: String,
    /// The address through which the asset is minted and burned.
    pub m: String,
    /// The administrator.
    pub admin_addr: String,
}

/// What a configuration holds.
pub struct ConfigView {
    pub d: Seq<char>,
    pub m: Seq<char>,
    pub admin_addr: Seq<char>,
}

impl View for Config {
    type V = ConfigView;

    open spec fn view(&self) -> ConfigView {
        ConfigView { d: self.d@, m: self.m@, admin_addr: self.admin_addr@ }
    }
}

impl Clone for Config {
    fn clone(&self) -> (r: Self)
        ensures
            r@ == self@,
    {
        Config { d: self.d.clone(), m: self.m.clone(), admin_addr: self.admin_addr.clone() }
    }
}

/// The mutable part of the administration: the excluded wallets.
#[derive(Clone, Debug, PartialEq, Eq)]
pub struct State {
    pub excluded_wallets: ExcludedWallets,
}

/// What a store holds.
#[verifier::ext_equal]
pub struct StoreView {
    pub config: ConfigView,
    /// The excluded addresses with their memos, in ascending order.
    pub excluded: Seq<(Seq<char>, Seq<char>)>,
    /// The holders with the histories of their balances, in ascending order.
    pub balances: Seq<(Seq<char>, Seq<Checkpoint>)>,
    /// The history of the total supply.
    pub supply: Seq<Checkpoint>,
    /// The version of the last write; zero before the first.
    pub last_version: u64,
}

impl StoreView {
    /// No checkpoint in the store is later than `version`.
    pub open spec fn admits(self, version: u64) -> bool {
        admits(self.supply, version) && ledger_admits(self.balances, version)
    }

    /// The registry and the ledger are sorted by address, every history is in
    /// order, and no checkpoint is later than the last version.
    pub open spec fn ok(self) -> bool {
        &&& sorted(self.excluded)
        &&& ledger_ok(self.balances)
        &&& ascending(self.supply)
        &&& self.admits(self.last_version)
    }

    /// The store with `value` as the balance of `key` from `version` on.
    pub open spec fn with_balance(self, key: Seq<char>, version: u64, value: u128) -> StoreView {
        StoreView {
            balances: put(
                self.balances,
                key,
                record(history_of(self.balances, key), version, value),
            ),
            last_version: version,
            ..self
        }
    }

    /// The store with `value` as the total supply from `version` on.
    pub open spec fn with_supply(self, version: u64, value: u128) -> StoreView {
        StoreView { supply: record(self.supply, version, value), last_version: version, ..self }
    }
}

/// What a store put together from the given parts holds.
pub open spec fn restored(
    config: ConfigView,
    excluded: Seq<(String, String)>,
    balances: Seq<(String, Vec<Checkpoint>)>,
    supply: Seq<Checkpoint>,
    last_version: u64,
) -> StoreView {
    StoreView {
        config,
        excluded: pairs(excluded),
        balances: histories(balances),
        supply,
        last_version,
    }
}

/// A store that admits a version admits every later one.
pub proof fn lemma_admits_later(s: StoreView, version: u64, later: u64)
    requires
        s.admits(version),
        version <= later,
    ensures
        s.admits(later),
{
    assert forall|i: int| 0 <= i < s.balances.len() implies admits(
        (#[trigger] s.balances[i]).1,
        later,
    ) by {
        assert(admits(s.balances[i].1, version));
    }
}

/// Writing a balance at a version not before the last one keeps the store
/// in order.
pub proof fn lemma_with_balance_ok(s: StoreView, key: Seq<char>, version: u64, value: u128)
    requires
        s.ok(),
        s.last_version <= version,
    ensures
        s.with_balance(key, version, value).ok(),
{
    let h = history_of(s.balances, key);
    let r = record(h, version, value);
    let b = put(s.balances, key, r);
    lemma_admits_later(s, s.last_version, version);
    if find(s.balances, key) is Some {
        let i = lemma_find_some(s.balances, key);
        assert(ascending(s.balances[i].1) && admits(s.balances[i].1, version));
    }
    lemma_record_ascending(h, version, value);
    lemma_put_sorted(s.balances, key, r);
    lemma_put_entries(s.balances, key, r);
    assert forall|j: int| 0 <= j < b.len() implies ascending((#[trigger] b[j]).1) && b[j].1.len() > 0
        && admits(b[j].1, version) by {
        if b[j] != (key, r) {
            let i = choose|i: int| 0 <= i < s.balances.len() && s.balances[i] == b[j];
            assert(ascending(s.balances[i].1) && admits(s.balances[i].1, version));
        }
    }
}

/// Writing the supply at a version not before the last one keeps the store
/// in order.
pub proof fn lemma_with_supply_ok(s: StoreView, version: u64, value: u128)
    requires
        s.ok(),
        s.last_version <= version,
    ensures
        s.with_supply(version, value).ok(),
{
    lemma_admits_later(s, s.last_version, version);
    lemma_record_ascending(s.supply, version, value);
}

/// The whole state, as one value that every operation is handed.
#[derive(Clone, Debug, PartialEq, Eq)]
pub struct Store {
    config: Config,
    state: State,
    balances: BalanceLedger,
    total_supply_history: VersionedValue,
    last_version: u64,
}

impl View for Store {
    type V = StoreView;

    closed spec fn view(&self) -> StoreView {
        StoreView {
            config: self.config@,
            excluded: self.state.excluded_wallets@,
            balances: self.balances@,
            supply: self.total_supply_history@,
            last_version: self.last_version,
        }
    }
}

impl Store {
    /// The parts of the store are well formed.
    pub closed spec fn inv(&self) -> bool {
        &&& self.state.excluded_wallets.wf()
        &&& self.balances.wf()
        &&& self.total_supply_history.wf()
    }

    /// The store is well formed, and what it holds is in order.
    pub open spec fn wf(&self) -> bool {
        self.inv() && self@.ok()
    }

    /// A store with the given configuration, no excluded wallet, no holder
    /// and no supply.
    pub fn new(config: Config) -> (r: Self)
        ensures
            r.wf(),
            r@ == (StoreView {
                config: config@,
                excluded: Seq::empty(),
                balances: Seq::empty(),
                supply: Seq::empty(),
                last_version: 0,
            }),
    {
        Store {
            config,
            state: State { excluded_wallets: ExcludedWallets::new() },
            balances: BalanceLedger::new(),
            total_supply_history: VersionedValue::new(),
            last_version: 0,
        }
    }

    /// The store with the given parts, if they are in order: the form in
    /// which a store that was taken apart is put together again.
    pub fn restore(
        config: Config,
        excluded: &Vec<(String, String)>,
        balances: &Vec<(String, Vec<Checkpoint>)>,
        supply: Vec<Checkpoint>,
        last_version: u64,
    ) -> (r: Option<Self>)
        ensures
            r is Some <==> restored(config@, excluded@, balances@, supply@, last_version).ok(),
            r matches Some(s) ==> s.wf() && s@ == restored(
                config@,
                excluded@,
                balances@,
                supply@,
                last_version,
            ),
    {
        let excluded_wallets = match ExcludedWallets::from_entries(excluded) {
            Some(w) => w,
            None => {
                return None;
            },
        };
        let ledger = match BalanceLedger::from_entries(balances) {
            Some(l) => l,
            None => {
                return None;
            },
        };
        let total_supply_history = match VersionedValue::from_checkpoints(supply) {
            Some(h) => h,
            None => {
                return None;
            },
        };
        if !total_supply_history.admits(last_version) || !ledger.admits(last_version) {
            return None;
        }
        Some(
            Store {
                config,
                state: State { excluded_wallets },
                balances: ledger,
                total_supply_history,
                last_version,
            },
        )
    }

    /// The configuration.
    pub fn config(&self) -> (r: &Config)
        ensures
            r@ == self@.config,
    {
        &self.config
    }

    /// The registry of excluded wallets.
    pub fn state(&self) -> (r: &State)
        requires
            self.wf(),
        ensures
            r.excluded_wallets.wf(),
            r.excluded_wallets@ == self@.excluded,
    {
        &self.state
    }

    /// The balance ledger.
    pub fn balances(&self) -> (r: &BalanceLedger)
        requires
            self.wf(),
        ensures
            r.wf(),
            r@ == self@.balances,
    {
        &self.balances
    }

    /// The history of the total supply.
    pub fn total_supply_history(&self) -> (r: &VersionedValue)
        requires
            self.wf(),
        ensures
            r.wf(),
            r@ == self@.supply,
    {
        &self.total_supply_history
    }

    /// The version of the last write.
    pub fn last_version(&self) -> (r: u64)
        ensures
            r == self@.last_version,
    {
        self.last_version
    }

    /// Records `value` as the balance of `key` from `version` on.
    pub(crate) fn save_balance(&mut self, key: &str, version: u64, value: u128)
        requires
            old(self).wf(),
            old(self)@.last_version <= version,
        ensures
            final(self).wf(),
            final(self)@ == old(self)@.with_balance(key@, version, value),
    {
        proof {
            lemma_history_admits(self@.balances, key@, self.last_version);
            lemma_with_balance_ok(self@, key@, version, value);
        }
        self.balances.write(key, version, value);
        self.last_version = version;
    }

    /// Records `value` as the total supply from `version` on.
    pub(crate) fn save_supply(&mut self, version: u64, value: u128)
        requires
            old(self).wf(),
            old(self)@.last_version <= version,
        ensures
            final(self).wf(),
            final(self)@ == old(self)@.with_supply(version, value),
    {
        proof {
            lemma_with_supply_ok(self@, version, value);
        }
        self.total_supply_history.write(version, value);
        self.last_version = version;
    }

    /// Enters `addr` with `memo` in the registry of excluded wallets.
    pub(crate) fn exclude(&mut self, addr: String, memo: String)
        requires
            old(self).wf(),
        ensures
            final(self).wf(),
            final(self)@ == (StoreView {
                excluded: put(old(self)@.excluded, addr@, memo@),
                ..old(self)@
            }),
    {
        self.state.excluded_wallets.insert(addr, memo);
        proof {
            self.state.excluded_wallets.lemma_sorted();
        }
    }

    /// Takes `addr` out of the registry of excluded wallets. Returns whether
    /// it was there.
    pub(crate) fn readmit(&mut self, addr: &str) -> (r: bool)
        requires
            old(self).wf(),
        ensures
            final(self).wf(),
            r == find(old(self)@.excluded, addr@) is Some,
            !r ==> final(self)@ == old(self)@,
            final(self)@ == (StoreView {
                excluded: cut(old(self)@.excluded, addr@),
                ..old(self)@
            }),
    {
        let removed = self.state.excluded_wallets.remove(addr);
        proof {
            self.state.excluded_wallets.lemma_sorted();
        }
        removed.is_some()
    }
}

} // verus!
