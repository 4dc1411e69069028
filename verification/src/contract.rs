//! The operations that change the state: creation, the administrator's
//! requests, and the accounting of transfers.
//!
//! A transfer is accounted in two legs. The debit leg takes the amount from
//! the balance of the sender; where the sender is the mint address or an
//! excluded wallet it adds the amount to the total supply instead. The credit
//! leg adds the amount to the balance of the receiver; where the receiver is
//! the mint address or an excluded wallet it takes the amount from the total
//! supply instead. Either both legs are recorded or none is.

use vstd::prelude::*;
use crate::conservation::{balanced, execution_conserves, transfer_conserves};
use crate::error::{ContractError, Failure};
use crate::functions::check_is_admin;
use crate::history::{latest, record};
use crate::ledger::history_of;
use crate::msg::{ExecuteMsg, InstantiateMsg, SudoMsg};
use crate::state::{Config, ConfigView, Store, StoreView};
use crate::table::{cut, find, put, lemma_find_put};

verus! {

/// An operation that was expected to give `expected` has returned `r` and
/// turned the store `before` into the store `after`: on success the store is
/// the expected one, on failure the error is the expected one and the store
/// is as it was.
pub open spec fn settles(
    expected: Result<StoreView, Failure>,
    r: Result<(), ContractError>,
    before: StoreView,
    after: StoreView,
) -> bool {
    match expected {
        Ok(s) => r is Ok && after == s,
        Err(e) => (r matches Err(err) && err@ == e) && after == before,
    }
}

/// The balance of `addr` is tracked in the ledger: `addr` is neither the mint
/// address `m` nor excluded.
pub open spec fn on_ledger(s: StoreView, cfg: ConfigView, addr: Seq<char>) -> bool {
    addr != cfg.m && find(s.excluded, addr) is None
}

/// The debit leg of a transfer of `amount` from `from` at `version`.
pub open spec fn debit(s: StoreView, cfg: ConfigView, from: Seq<char>, amount: u128, version: u64)
    -> Result<StoreView, Failure> {
    if on_ledger(s, cfg, from) {
        let balance = latest(history_of(s.balances, from));
        if balance < amount {
            Err(Failure::ArithmeticUnderflow)
        } else {
            Ok(s.with_balance(from, version, (balance - amount) as u128))
        }
    } else {
        let supply = latest(s.supply);
        if supply + amount > u128::MAX {
            Err(Failure::ArithmeticOverflow)
        } else {
            Ok(s.with_supply(version, (supply + amount) as u128))
        }
    }
}

/// The credit leg of a transfer of `amount` to `to` at `version`.
pub open spec fn credit(s: StoreView, cfg: ConfigView, to: Seq<char>, amount: u128, version: u64)
    -> Result<StoreView, Failure> {
    if on_ledger(s, cfg, to) {
        let balance = latest(history_of(s.balances, to));
        if balance + amount > u128::MAX {
            Err(Failure::ArithmeticOverflow)
        } else {
            Ok(s.with_balance(to, version, (balance + amount) as u128))
        }
    } else {
        let supply = latest(s.supply);
        if supply < amount {
            Err(Failure::ArithmeticUnderflow)
        } else {
            Ok(s.with_supply(version, (supply - amount) as u128))
        }
    }
}

/// A transfer: the debit leg, then the credit leg on what the debit leg left.
pub open spec fn transfer(
    s: StoreView,
    cfg: ConfigView,
    from: Seq<char>,
    to: Seq<char>,
    amount: u128,
    version: u64,
) -> Result<StoreView, Failure> {
    match debit(s, cfg, from, amount, version) {
        Ok(debited) => credit(debited, cfg, to, amount, version),
        Err(e) => Err(e),
    }
}

/// The exclusion of `addr` with `memo`, asked for by `sender`.
pub open spec fn exclusion(s: StoreView, sender: Seq<char>, addr: Seq<char>, memo: Seq<char>)
    -> Result<StoreView, Failure> {
    if sender != s.config.admin_addr {
        Err(Failure::Unauthorized)
    } else if find(s.excluded, addr) is Some {
        Err(Failure::TokenAlreadyWhitelisted)
    } else {
        Ok(StoreView { excluded: put(s.excluded, addr, memo), ..s })
    }
}

/// The end of the exclusion of `addr`, asked for by `sender`.
pub open spec fn inclusion(s: StoreView, sender: Seq<char>, addr: Seq<char>) -> Result<
    StoreView,
    Failure,
> {
    if sender != s.config.admin_addr {
        Err(Failure::Unauthorized)
    } else if find(s.excluded, addr) is None {
        Err(Failure::TokenNotFound)
    } else {
        Ok(StoreView { excluded: cut(s.excluded, addr), ..s })
    }
}

/// What a request of the administrator does.
pub open spec fn execution(s: StoreView, sender: Seq<char>, msg: ExecuteMsg) -> Result<
    StoreView,
    Failure,
> {
    match msg {
        ExecuteMsg::ExcludeWallet { addr, memo } => exclusion(s, sender, addr@, memo@),
        ExecuteMsg::IncludeWallet { addr } => inclusion(s, sender, addr@),
    }
}

/// What a notification at `version` does: a `BlockBeforeSend` of the tracked
/// asset is a transfer, one of another asset is refused, and a
/// `TrackBeforeSend` changes nothing.
pub open spec fn notification(s: StoreView, version: u64, msg: SudoMsg) -> Result<
    StoreView,
    Failure,
> {
    match msg {
        SudoMsg::BlockBeforeSend { from, to, amount } => if amount.denom@ != s.config.d {
            Err(Failure::InvalidDenom { expected_denom: s.config.d })
        } else {
            transfer(s, s.config, from@, to@, amount.amount, version)
        },
        SudoMsg::TrackBeforeSend { from, to, amount } => Ok(s),
    }
}

/// Creates the state of a tracker: the configuration that `msg` gives, no
/// excluded wallet, no holder and no supply.
pub fn instantiate(msg: InstantiateMsg) -> (r: Store)
    ensures
        r.wf(),
        r@ == (StoreView {
            config: ConfigView {
                d: msg.tracked_denom@,
                m: msg.tokenfactory_module_address@,
                admin_addr: msg.admin_addr@,
            },
            excluded: Seq::empty(),
            balances: Seq::empty(),
            supply: Seq::empty(),
            last_version: 0,
        }),
        balanced(r@),
{
    Store::new(
        Config {
            d: msg.tracked_denom,
            m: msg.tokenfactory_module_address,
            admin_addr: msg.admin_addr,
        },
    )
}

/// Carries out a request of the administrator.
pub fn execute(storage: &mut Store, sender: &str, msg: ExecuteMsg) -> (r: Result<
    (),
    ContractError,
>)
    requires
        old(storage).wf(),
    ensures
        final(storage).wf(),
        settles(execution(old(storage)@, sender@, msg), r, old(storage)@, final(storage)@),
        balanced(old(storage)@) ==> balanced(final(storage)@),
{
    proof {
        if execution(storage@, sender@, msg) is Ok && balanced(storage@) {
            execution_conserves(storage@, sender@, msg);
        }
    }
    match msg {
        ExecuteMsg::ExcludeWallet { addr, memo } => try_exclude_wallet(storage, sender, addr, memo),
        ExecuteMsg::IncludeWallet { addr } => try_include_wallet(storage, sender, addr),
    }
}

/// Excludes the wallet `addr` from the ledger, with a memo. Only the
/// administrator may do so, and only for a wallet that is not yet excluded.
pub fn try_exclude_wallet(storage: &mut Store, sender: &str, addr: String, memo: String) -> (r:
    Result<(), ContractError>)
    requires
        old(storage).wf(),
    ensures
        final(storage).wf(),
        settles(exclusion(old(storage)@, sender@, addr@, memo@), r, old(storage)@, final(storage)@),
{
    match check_is_admin(storage, sender) {
        Err(e) => {
            return Err(e);
        },
        Ok(_) => {},
    }
    if storage.state().excluded_wallets.contains_key(addr.as_str()) {
        return Err(ContractError::TokenAlreadyWhitelisted {  });
    }
    storage.exclude(addr, memo);
    Ok(())
}

/// Ends the exclusion of the wallet `addr`. Only the administrator may do
/// so, and only for a wallet that is excluded.
pub fn try_include_wallet(storage: &mut Store, sender: &str, addr: String) -> (r: Result<
    (),
    ContractError,
>)
    requires
        old(storage).wf(),
    ensures
        final(storage).wf(),
        settles(inclusion(old(storage)@, sender@, addr@), r, old(storage)@, final(storage)@),
{
    match check_is_admin(storage, sender) {
        Err(e) => {
            return Err(e);
        },
        Ok(_) => {},
    }
    if storage.readmit(addr.as_str()) {
        Ok(())
    } else {
        Err(ContractError::TokenNotFound {  })
    }
}

/// Takes a notification of the chain at the block time `block_seconds`,
/// which is not before that of the last recorded transfer.
pub fn sudo(storage: &mut Store, block_seconds: u64, msg: SudoMsg) -> (r: Result<(), ContractError>)
    requires
        old(storage).wf(),
        old(storage)@.last_version <= block_seconds,
    ensures
        final(storage).wf(),
        settles(notification(old(storage)@, block_seconds, msg), r, old(storage)@, final(storage)@),
        balanced(old(storage)@) ==> balanced(final(storage)@),
{
    match msg {
        SudoMsg::BlockBeforeSend { from, to, amount } => {
            let config = storage.config().clone();
            if !(amount.denom == config.d) {
                Err(ContractError::InvalidDenom { expected_denom: config.d })
            } else {
                track_balances(storage, block_seconds, &config, from, to, amount.amount)
            }
        },
        SudoMsg::TrackBeforeSend { from, to, amount } => Ok(()),
    }
}

/// Accounts the transfer of `amount` from `from` to `to` at the block time
/// `block_seconds`, which is not before that of the last recorded transfer.
/// Fails, and records nothing, where a balance or the supply would fall
/// below zero or exceed the largest 128-bit number.
pub fn track_balances(
    storage: &mut Store,
    block_seconds: u64,
    config: &Config,
    from: String,
    to: String,
    amount: u128,
) -> (r: Result<(), ContractError>)
    requires
        old(storage).wf(),
        old(storage)@.last_version <= block_seconds,
    ensures
        final(storage).wf(),
        settles(
            transfer(old(storage)@, config@, from@, to@, amount, block_seconds),
            r,
            old(storage)@,
            final(storage)@,
        ),
        on_ledger(old(storage)@, config@, from@) && latest(
            history_of(old(storage)@.balances, from@),
        ) < amount ==> (r matches Err(e) && e@ == Failure::ArithmeticUnderflow) && final(storage)@
            == old(storage)@,
        balanced(old(storage)@) ==> balanced(final(storage)@),
{
    proof {
        if transfer(storage@, config@, from@, to@, amount, block_seconds) is Ok && balanced(
            storage@,
        ) {
            transfer_conserves(storage@, config@, from@, to@, amount, block_seconds);
        }
    }
    let from_tracked = !(from == config.m) && !storage.state().excluded_wallets.contains_key(
        from.as_str(),
    );
    let to_tracked = !(to == config.m) && !storage.state().excluded_wallets.contains_key(
        to.as_str(),
    );
    // Both legs are computed before either is recorded.
    let debited: u128 = if from_tracked {
        match storage.balances().read_current(from.as_str()).checked_sub(amount) {
            Some(v) => v,
            None => {
                return Err(ContractError::ArithmeticUnderflow {  });
            },
        }
    } else {
        match storage.total_supply_history().read_current().checked_add(amount) {
            Some(v) => v,
            None => {
                return Err(ContractError::ArithmeticOverflow {  });
            },
        }
    };
    proof {
        let h = history_of(storage@.balances, from@);
        lemma_find_put(
            storage@.balances,
            from@,
            record(h, block_seconds, debited),
            to@,
        );
    }
    // The credit leg reads what the debit leg leaves.
    let credited: u128 = if to_tracked {
        let balance = if from_tracked && from == to {
            debited
        } else {
            storage.balances().read_current(to.as_str())
        };
        match balance.checked_add(amount) {
            Some(v) => v,
            None => {
                return Err(ContractError::ArithmeticOverflow {  });
            },
        }
    } else {
        let supply = if from_tracked {
            storage.total_supply_history().read_current()
        } else {
            debited
        };
        match supply.checked_sub(amount) {
            Some(v) => v,
            None => {
                return Err(ContractError::ArithmeticUnderflow {  });
            },
        }
    };
    if from_tracked {
        storage.save_balance(from.as_str(), block_seconds, debited);
    } else {
        storage.save_supply(block_seconds, debited);
    }
    if to_tracked {
        storage.save_balance(to.as_str(), block_seconds, credited);
    } else {
        storage.save_supply(block_seconds, credited);
    }
    Ok(())
}

} // verus!
