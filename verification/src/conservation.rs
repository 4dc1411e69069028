//! Conservation: at every version the total supply equals the sum of the
//! balances of all holders, whatever transfers are accounted.

use vstd::prelude::*;
use crate::contract::{credit, debit, execution, notification, on_ledger, transfer};
use crate::history::{latest, record, value_at, Checkpoint, lemma_value_at_admitted, lemma_value_at_record};
use crate::ledger::{history_of, lemma_history_admits};
use crate::msg::{ExecuteMsg, SudoMsg};
use crate::order::{precedes, lemma_precedes_asymmetric, lemma_precedes_transitive};
use crate::state::{ConfigView, StoreView, lemma_admits_later, lemma_with_balance_ok, lemma_with_supply_ok};
use crate::table::{put, sorted, lemma_find_absent};

verus! {

/// The sum of the balances of all holders as of `version`.
pub open spec fn total_at(e: Seq<(Seq<char>, Seq<Checkpoint>)>, version: u64) -> int
    decreases e.len(),
{
    if e.len() == 0 {
        0
    } else {
        total_at(e.drop_last(), version) + value_at(e.last().1, version)
    }
}

/// By how much the total supply exceeds the sum of the balances as of
/// `version`.
pub open spec fn surplus(s: StoreView, version: u64) -> int {
    value_at(s.supply, version) - total_at(s.balances, version)
}

/// At every version the total supply is the sum of the balances.
pub open spec fn balanced(s: StoreView) -> bool {
    forall|version: u64| #[trigger] surplus(s, version) == 0
}

/// Putting a history for a key changes the sum by the difference between
/// the value of that history and the value of the one it replaces.
pub proof fn lemma_total_put(
    e: Seq<(Seq<char>, Seq<Checkpoint>)>,
    key: Seq<char>,
    h: Seq<Checkpoint>,
    version: u64,
)
    requires
        sorted(e),
    ensures
        total_at(put(e, key, h), version) == total_at(e, version) - value_at(
            history_of(e, key),
            version,
        ) + value_at(h, version),
    decreases e.len(),
{
    if e.len() == 0 {
        assert(seq![(key, h)].drop_last() =~= e);
    } else if e.last().0 == key {
        assert(e.drop_last().push((key, h)).drop_last() =~= e.drop_last());
    } else if precedes(e.last().0, key) {
        assert forall|i: int| 0 <= i < e.len() implies (#[trigger] e[i]).0 != key by {
            if i < e.len() - 1 {
                lemma_precedes_transitive(e[i].0, e.last().0, key);
            }
            lemma_precedes_asymmetric(e[i].0, key);
        }
        lemma_find_absent(e, key);
        assert(e.push((key, h)).drop_last() =~= e);
    } else {
        let q = put(e.drop_last(), key, h);
        lemma_total_put(e.drop_last(), key, h, version);
        assert(q.push(e.last()).drop_last() =~= q);
    }
}

/// The debit leg raises the surplus by the amount from `version` on, and
/// leaves it as it was before `version`.
pub proof fn lemma_debit_surplus(
    s: StoreView,
    cfg: ConfigView,
    from: Seq<char>,
    amount: u128,
    version: u64,
    at: u64,
)
    requires
        s.ok(),
        s.last_version <= version,
        debit(s, cfg, from, amount, version) is Ok,
    ensures
        debit(s, cfg, from, amount, version)->Ok_0.ok(),
        debit(s, cfg, from, amount, version)->Ok_0.last_version == version,
        surplus(debit(s, cfg, from, amount, version)->Ok_0, at) == surplus(s, at) + if at
            >= version {
            amount as int
        } else {
            0
        },
{
    lemma_admits_later(s, s.last_version, version);
    if on_ledger(s, cfg, from) {
        let h = history_of(s.balances, from);
        let value = (latest(h) - amount) as u128;
        lemma_history_admits(s.balances, from, version);
        lemma_with_balance_ok(s, from, version, value);
        lemma_total_put(s.balances, from, record(h, version, value), at);
        lemma_value_at_record(h, version, value, at);
        if at >= version {
            lemma_value_at_admitted(h, at);
        }
    } else {
        let value = (latest(s.supply) + amount) as u128;
        lemma_with_supply_ok(s, version, value);
        lemma_value_at_record(s.supply, version, value, at);
        if at >= version {
            lemma_value_at_admitted(s.supply, at);
        }
    }
}

/// The credit leg lowers the surplus by the amount from `version` on, and
/// leaves it as it was before `version`.
pub proof fn lemma_credit_surplus(
    s: StoreView,
    cfg: ConfigView,
    to: Seq<char>,
    amount: u128,
    version: u64,
    at: u64,
)
    requires
        s.ok(),
        s.last_version <= version,
        credit(s, cfg, to, amount, version) is Ok,
    ensures
        credit(s, cfg, to, amount, version)->Ok_0.ok(),
        credit(s, cfg, to, amount, version)->Ok_0.last_version == version,
        surplus(credit(s, cfg, to, amount, version)->Ok_0, at) == surplus(s, at) - if at >= version {
            amount as int
        } else {
            0
        },
{
    lemma_admits_later(s, s.last_version, version);
    if on_ledger(s, cfg, to) {
        let h = history_of(s.balances, to);
        let value = (latest(h) + amount) as u128;
        lemma_history_admits(s.balances, to, version);
        lemma_with_balance_ok(s, to, version, value);
        lemma_total_put(s.balances, to, record(h, version, value), at);
        lemma_value_at_record(h, version, value, at);
        if at >= version {
            lemma_value_at_admitted(h, at);
        }
    } else {
        let value = (latest(s.supply) - amount) as u128;
        lemma_with_supply_ok(s, version, value);
        lemma_value_at_record(s.supply, version, value, at);
        if at >= version {
            lemma_value_at_admitted(s.supply, at);
        }
    }
}

/// A transfer at a version not before the last one leaves the surplus of
/// every version as it was, and the store in order.
pub proof fn lemma_transfer_surplus(
    s: StoreView,
    cfg: ConfigView,
    from: Seq<char>,
    to: Seq<char>,
    amount: u128,
    version: u64,
    at: u64,
)
    requires
        s.ok(),
        s.last_version <= version,
        transfer(s, cfg, from, to, amount, version) is Ok,
    ensures
        transfer(s, cfg, from, to, amount, version)->Ok_0.ok(),
        transfer(s, cfg, from, to, amount, version)->Ok_0.last_version == version,
        surplus(transfer(s, cfg, from, to, amount, version)->Ok_0, at) == surplus(s, at),
{
    let debited = debit(s, cfg, from, amount, version)->Ok_0;
    lemma_debit_surplus(s, cfg, from, amount, version, at);
    lemma_credit_surplus(debited, cfg, to, amount, version, at);
}

/// A store without holders and without supply is balanced.
pub proof fn new_store_is_balanced(s: StoreView)
    requires
        s.balances.len() == 0,
        s.supply.len() == 0,
    ensures
        balanced(s),
{
}

/// Conservation. A transfer that is accounted at a version not before the
/// last one keeps a balanced store balanced: at every version, the total
/// supply is still the sum of the balances of all holders.
pub proof fn transfer_conserves(
    s: StoreView,
    cfg: ConfigView,
    from: Seq<char>,
    to: Seq<char>,
    amount: u128,
    version: u64,
)
    requires
        s.ok(),
        s.last_version <= version,
        balanced(s),
        transfer(s, cfg, from, to, amount, version) is Ok,
    ensures
        transfer(s, cfg, from, to, amount, version)->Ok_0.ok(),
        balanced(transfer(s, cfg, from, to, amount, version)->Ok_0),
{
    let t = transfer(s, cfg, from, to, amount, version)->Ok_0;
    lemma_transfer_surplus(s, cfg, from, to, amount, version, 0);
    assert forall|at: u64| #[trigger] surplus(t, at) == 0 by {
        lemma_transfer_surplus(s, cfg, from, to, amount, version, at);
        assert(surplus(s, at) == 0);
    }
}

/// Every notification that succeeds keeps a balanced store balanced.
pub proof fn notification_conserves(s: StoreView, version: u64, msg: SudoMsg)
    requires
        s.ok(),
        s.last_version <= version,
        balanced(s),
        notification(s, version, msg) is Ok,
    ensures
        balanced(notification(s, version, msg)->Ok_0),
{
    match msg {
        SudoMsg::BlockBeforeSend { from, to, amount } => {
            transfer_conserves(s, s.config, from@, to@, amount.amount, version);
        },
        SudoMsg::TrackBeforeSend { from, to, amount } => {},
    }
}

/// Every request of the administrator that succeeds keeps a balanced store
/// balanced: it touches neither the ledger nor the supply.
pub proof fn execution_conserves(s: StoreView, sender: Seq<char>, msg: ExecuteMsg)
    requires
        balanced(s),
        execution(s, sender, msg) is Ok,
    ensures
        balanced(execution(s, sender, msg)->Ok_0),
{
    let t = execution(s, sender, msg)->Ok_0;
    assert forall|at: u64| #[trigger] surplus(t, at) == 0 by {
        assert(surplus(s, at) == 0);
    }
}

} // verus!
