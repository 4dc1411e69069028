//! Historical balances and circulating supply of one fungible asset.
//!
//! The crate records, for every transfer it is told about, the balance of the
//! sender and of the receiver and the aggregate supply, each as a history of
//! checkpoints indexed by a version (a block time), so that any of them can be
//! read as of any earlier version.

pub mod conservation;
pub mod contract;
pub mod error;
pub mod functions;
pub mod history;
pub mod laws;
pub mod ledger;
pub mod msg;
pub mod order;
pub mod query;
pub mod registry;
pub mod state;
pub mod table;
