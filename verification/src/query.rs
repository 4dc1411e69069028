//! The queries: balances and the total supply as of now or of an earlier
//! time, the holders page by page, the excluded wallets, the configuration.
//! None of them changes the state.

use vstd::prelude::*;
use crate::history::{latest, value_at, Checkpoint};
use crate::ledger::{history_of, page};
use crate::msg::{ConfigResponse, ExcludedWalletsResponse, HolderBalanceResponse, ListHoldersResponse, QueryMsg, QueryReply};
use crate::registry::pairs;
use crate::state::{Store, StoreView};
use crate::table::{keys, views};

verus! {

/// The value of the history `h` at `timestamp`, asked at the time `now`: the
/// latest value where the timestamp is omitted or is `now`, otherwise the
/// value as of the timestamp.
pub open spec fn as_of(h: Seq<Checkpoint>, now: u64, timestamp: Option<u64>) -> u128 {
    match timestamp {
        Some(t) => if t == now {
            latest(h)
        } else {
            value_at(h, t)
        },
        None => latest(h),
    }
}

/// The number of holders in a page where the query gives no limit.
pub const DEFAULT_LIMIT: u32 = 10;

/// The limit of a page of holders.
pub open spec fn limit_of(limit: Option<u32>) -> nat {
    match limit {
        Some(n) => n as nat,
        None => DEFAULT_LIMIT as nat,
    }
}

/// The addresses of the page of holders that follows `start_after`.
pub open spec fn holders_page(s: StoreView, start_after: Option<String>, limit: Option<u32>) -> Seq<
    Seq<char>,
> {
    page(
        keys(s.balances),
        match start_after {
            Some(a) => Some(a@),
            None => None,
        },
        limit_of(limit),
    )
}

/// `r` lists the page of holders that follows `start_after`, each with its
/// balance at `timestamp`.
pub open spec fn lists(
    r: ListHoldersResponse,
    s: StoreView,
    now: u64,
    start_after: Option<String>,
    limit: Option<u32>,
    timestamp: Option<u64>,
) -> bool {
    let p = holders_page(s, start_after, limit);
    &&& r.holders@.len() == p.len()
    &&& forall|i: int|
        0 <= i < p.len() ==> (#[trigger] r.holders@[i]).address@ == p[i] && r.holders@[i].balance
            == as_of(history_of(s.balances, p[i]), now, timestamp)
}

/// The balance of `address` at `timestamp`, asked at the block time
/// `block_seconds`. Zero where the address had no balance by then.
pub fn balance_at(storage: &Store, block_seconds: u64, address: String, timestamp: Option<u64>) -> (r:
    u128)
    requires
        storage.wf(),
    ensures
        r == as_of(history_of(storage@.balances, address@), block_seconds, timestamp),
{
    let time = timestamp.unwrap_or(block_seconds);
    if time == block_seconds {
        storage.balances().read_current(address.as_str())
    } else {
        storage.balances().read_at(address.as_str(), time)
    }
}

/// The total supply at `timestamp`, asked at the block time `block_seconds`.
pub fn total_supply_at(storage: &Store, block_seconds: u64, timestamp: Option<u64>) -> (r: u128)
    requires
        storage.wf(),
    ensures
        r == as_of(storage@.supply, block_seconds, timestamp),
{
    let time = timestamp.unwrap_or(block_seconds);
    if time == block_seconds {
        storage.total_supply_history().read_current()
    } else {
        storage.total_supply_history().read_at(time)
    }
}

/// At most `limit` holders (ten if omitted) that follow `start_after`, in
/// ascending order of address, each with its balance at `timestamp`. Every
/// address whose balance was ever written is a holder, also one whose
/// balance is zero.
pub fn query_list_holders(
    storage: &Store,
    block_seconds: u64,
    start_after: Option<String>,
    limit: Option<u32>,
    timestamp: Option<u64>,
) -> (r: ListHoldersResponse)
    requires
        storage.wf(),
    ensures
        lists(r, storage@, block_seconds, start_after, limit, timestamp),
{
    let count: u32 = limit.unwrap_or(DEFAULT_LIMIT);
    let names = storage.balances().holders_after(
        match &start_after {
            Some(a) => Some(a.as_str()),
            None => None,
        },
        count as usize,
    );
    let ghost p = holders_page(storage@, start_after, limit);
    assert(p == views(names@));
    let mut holders: Vec<HolderBalanceResponse> = Vec::new();
    let mut i: usize = 0;
    while i < names.len()
        invariant
            storage.wf(),
            i <= names@.len(),
            p.len() == names@.len(),
            forall|j: int| 0 <= j < p.len() ==> names@[j]@ == #[trigger] p[j],
            holders@.len() == i,
            forall|j: int|
                0 <= j < i ==> (#[trigger] holders@[j]).address@ == p[j] && holders@[j].balance
                    == as_of(history_of(storage@.balances, p[j]), block_seconds, timestamp),
        decreases names@.len() - i,
    {
        let address = names[i].clone();
        let balance = balance_at(storage, block_seconds, names[i].clone(), timestamp);
        holders.push(HolderBalanceResponse { address, balance });
        i += 1;
    }
    ListHoldersResponse { holders }
}

/// All excluded wallets with their memos.
pub fn query_excludedwallets(storage: &Store) -> (r: ExcludedWalletsResponse)
    requires
        storage.wf(),
    ensures
        pairs(r.excludedwallets@) == storage@.excluded,
{
    ExcludedWalletsResponse { excludedwallets: storage.state().excluded_wallets.entries() }
}

/// Answers `msg` at the block time `block_seconds`.
pub fn query(storage: &Store, block_seconds: u64, msg: QueryMsg) -> (r: QueryReply)
    requires
        storage.wf(),
    ensures
        match msg {
            QueryMsg::BalanceAt { address, timestamp } => r matches QueryReply::Balance(b) && b
                == as_of(history_of(storage@.balances, address@), block_seconds, timestamp),
            QueryMsg::TotalSupplyAt { timestamp } => r matches QueryReply::TotalSupply(t) && t
                == as_of(storage@.supply, block_seconds, timestamp),
            QueryMsg::GetHolders { from, limit, timestamp } => r matches QueryReply::Holders(l)
                && lists(l, storage@, block_seconds, from, limit, timestamp),
            QueryMsg::Config {  } => r matches QueryReply::Config(c) && c.tracked_denom@
                == storage@.config.d && c.token_factory_module@ == storage@.config.m,
            QueryMsg::GetExcludedWallets {  } => r matches QueryReply::ExcludedWallets(w) && pairs(
                w.excludedwallets@,
            ) == storage@.excluded,
        },
{
    match msg {
        QueryMsg::BalanceAt { address, timestamp } => QueryReply::Balance(
            balance_at(storage, block_seconds, address, timestamp),
        ),
        QueryMsg::TotalSupplyAt { timestamp } => QueryReply::TotalSupply(
            total_supply_at(storage, block_seconds, timestamp),
        ),
        QueryMsg::GetHolders { from, limit, timestamp } => QueryReply::Holders(
            query_list_holders(storage, block_seconds, from, limit, timestamp),
        ),
        QueryMsg::Config {  } => {
            let config = storage.config();
            QueryReply::Config(
                ConfigResponse {
                    tracked_denom: config.d.clone(),
                    token_factory_module: config.m.clone(),
                },
            )
        },
        QueryMsg::GetExcludedWallets {  } => QueryReply::ExcludedWallets(
            query_excludedwallets(storage),
        ),
    }
}

} // verus!
