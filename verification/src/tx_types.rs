//! The plain values that the transaction builders work on.

use crate::addr_map::AddrMap;
use crate::types::{H160, H256};
use vstd::prelude::*;

verus! {

/// The number of epochs after which a change that was handed in takes
/// effect.
pub const INAUGURATION: u64 = 2;

/// The width of the amount at the start of the data of a token cell.
pub const TOKEN_BYTES: usize = 16;

pub type Epoch = u64;

pub type Amount = u128;

pub type Staker = H160;

pub type PrivateKey = H256;

/// Whether a staker that left the top set had a leaf in the stake tree
/// before.
pub type InStakeSmt = bool;

/// The stakers that an aggregation took out of the top set.
pub type NonTopStakers = AddrMap<InStakeSmt>;

/// The chain that the service follows.
#[derive(Clone, Copy, Debug, PartialEq, Eq, Structural)]
pub enum NetworkType {
    Mainnet,
    Testnet,
}

/// The change of stake that a stake cell asks for.
#[derive(Clone, Copy, Debug, PartialEq, Eq, Structural)]
pub struct StakeItem {
    pub is_increase: bool,
    pub amount: Amount,
    pub inauguration_epoch: Epoch,
}

impl Default for StakeItem {
    fn default() -> (item: StakeItem)
        ensures
            item == (StakeItem { is_increase: false, amount: 0, inauguration_epoch: 0 }),
    {
        StakeItem { is_increase: false, amount: 0, inauguration_epoch: 0 }
    }
}

/// The change of delegation to one staker that a delegate cell asks for.
#[derive(Clone, Copy, Debug, PartialEq, Eq)]
pub struct DelegateItem {
    pub staker: Staker,
    pub total_amount: Amount,
    pub is_increase: bool,
    pub amount: Amount,
    pub inauguration_epoch: Epoch,
}

/// The identifiers that the single-cell stake builders need.
#[derive(Clone, Copy, Debug, PartialEq, Eq)]
pub struct StakeTypeIds {
    pub metadata_type_id: H256,
    pub checkpoint_type_id: H256,
    pub xudt_owner: H256,
}

/// The identifiers that the stake aggregation needs.
#[derive(Clone, Copy, Debug, PartialEq, Eq)]
pub struct StakeSmtTypeIds {
    pub metadata_type_id: H256,
    pub stake_smt_type_id: H256,
    pub checkpoint_type_id: H256,
    pub xudt_owner: H256,
}

/// The identifiers that the delegate aggregation needs.
#[derive(Clone, Copy, Debug, PartialEq, Eq)]
pub struct DelegateSmtTypeIds {
    pub metadata_type_id: H256,
    pub delegate_smt_type_id: H256,
    pub checkpoint_type_id: H256,
    pub xudt_owner: H256,
}

/// One leaf update of a tree: an amount to add to, or to take from, the
/// leaf of `user`.
#[derive(Clone, Copy, Debug, PartialEq, Eq)]
pub struct UserAmount {
    pub user: H160,
    pub amount: Amount,
    pub is_increase: bool,
}

/// A leaf of the stake tree, as the witness of an aggregation lists it.
#[derive(Clone, Copy, Debug, PartialEq, Eq)]
pub struct StakeInfo {
    pub addr: H160,
    pub amount: Amount,
}

/// The place of a cell on chain: the transaction that made it and its index
/// among that transaction's outputs.
#[derive(Clone, Copy, Debug, PartialEq, Eq)]
pub struct OutPoint {
    pub tx_hash: H256,
    pub index: u32,
}

/// A live stake cell: where it is, whose it is, the change that its payload
/// asks for, and its data as it stands on chain.
#[derive(Debug, PartialEq, Eq)]
pub struct Cell {
    pub out_point: OutPoint,
    pub staker: Staker,
    pub item: StakeItem,
    pub output_data: Vec<u8>,
}

/// Why a transaction could not be built.
#[derive(Clone, Copy, Debug, PartialEq, Eq)]
pub enum CkbTxErr {
    /// A staker without a leaf asks for a decrease; the flag is the
    /// direction that was asked for.
    Increase(bool),
    /// A cell that the transaction must spend was not handed in.
    CellNotFound(Staker),
    /// The data of a cell is shorter than the amount that starts it.
    Decode,
    /// A stake cell holds less than what is to be withdrawn from it.
    Underflow(Staker),
    /// An amount would pass the largest amount that 128 bits hold.
    Overflow(Staker),
}

} // verus!
