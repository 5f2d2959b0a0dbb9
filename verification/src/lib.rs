//! The core of an off-chain indexer for a staking and delegation protocol
//! whose state lives in cells of a UTXO-style chain.
//!
//! - [`delta`], [`codec`], [`kvdb`]: the wire forms of what the key-value
//!   store keeps.
//! - [`chain`], [`sync`]: what a transaction means to the indexer, when the
//!   next block is pulled, and what a new epoch or a changed stake or
//!   delegate cell makes the stores do.
//! - [`stake_smt`]: the aggregation of a batch of stake cells into the stake
//!   tree, from the leaves to the layout of the transaction.
//! - [`smt`], [`history`], [`history_store`]: the leaves of the trees, and
//!   the history with the totals of each address.
//! - [`api`], [`tx_types`], [`types`], [`addr_map`], [`hash`]: the values
//!   that the others work on.

pub mod addr_map;
pub mod api;
pub mod chain;
pub mod codec;
pub mod delta;
pub mod hash;
pub mod history;
pub mod history_store;
pub mod kvdb;
pub mod smt;
pub mod stake_smt;
pub mod sync;
pub mod tx_types;
pub mod types;
