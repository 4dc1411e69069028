//! The messages that the tracker takes and the answers that it gives.

use vstd::prelude::*;

verus! {

/// What creates a tracker: the asset to track, the address through which the
/// asset is minted and burned, and the administrator.
#[derive(Clone, Debug, PartialEq, Eq)]
pub struct InstantiateMsg {
    pub tracked_denom: String,
    pub tokenfactory_module_address: String,
    pub admin_addr: String,
}

/// The administrator's requests.
#[derive(Clone, Debug, PartialEq, Eq)]
pub enum ExecuteMsg {
    ExcludeWallet { addr: String, memo: String },
    IncludeWallet { addr: String },
}

/// An amount of an asset.
#[derive(Clone, Debug, PartialEq, Eq)]
pub struct Coin {
    pub denom: String,
    pub amount: u128,
}

/// The notifications of transfers. Only `BlockBeforeSend` is recorded.
#[derive(Clone, Debug, PartialEq, Eq)]
pub enum SudoMsg {
    BlockBeforeSend { from: String, to: String, amount: Coin },
    TrackBeforeSend { from: String, to: String, amount: Coin },
}

/// A holder and its balance.
#[derive(Clone, Debug, PartialEq, Eq)]
pub struct HolderBalanceResponse {
    pub address: String,
    pub balance: u128,
}

/// A page of holders, in ascending order of address.
#[derive(Clone, Debug, PartialEq, Eq)]
pub struct ListHoldersResponse {
    pub holders: Vec<HolderBalanceResponse>,
}

/// The queries. A `timestamp` that is omitted stands for the current time.
#[derive(Clone, Debug, PartialEq, Eq)]
pub enum QueryMsg {
    /// The balance of the given address at the given timestamp.
    BalanceAt { address: String, timestamp: Option<u64> },
    /// The total supply at the given timestamp.
    TotalSupplyAt { timestamp: Option<u64> },
    Config {  },
    /// At most `limit` holders (ten if omitted) after the address `from`,
    /// each with its balance at the given timestamp.
    GetHolders { from: Option<String>, limit: Option<u32>, timestamp: Option<u64> },
    GetExcludedWallets {  },
}

/// The public part of the configuration; the administrator is left out.
#[derive(Clone, Debug, PartialEq, Eq)]
pub struct ConfigResponse {
    /// Tracked denom
    pub tracked_denom: String,
    /// Token factory module address
    pub token_factory_module: String,
}

/// The excluded wallets, each with its memo, in ascending order of address.
#[derive(Clone, Debug, PartialEq, Eq)]
pub struct ExcludedWalletsResponse {
    pub excludedwallets: Vec<(String, String)>,
}

/// The answer to a query, one variant for each query.
#[derive(Clone, Debug, PartialEq, Eq)]
pub enum QueryReply {
    Balance(u128),
    TotalSupply(u128),
    Config(ConfigResponse),
    Holders(ListHoldersResponse),
    ExcludedWallets(ExcludedWalletsResponse),
}

} // verus!
