//! The identifiers of the protocol's scripts on chain, a plain picture of a
//! transaction, and the classifier that tells what a transaction means to
//! the indexer.

use crate::tx_types::{DelegateSmtTypeIds, NetworkType, StakeSmtTypeIds, StakeTypeIds};
use crate::types::{bytes_equal, H256};
use vstd::prelude::*;

verus! {

/// The identifiers that tell the protocol's cells from all others. They are
/// set once, when the service starts.
#[derive(Debug, PartialEq, Eq)]
pub struct ChainIds {
    pub network_type: NetworkType,
    pub axon_token_args: Vec<u8>,
    pub xudt_owner: H256,
    pub issuance_type_id: H256,
    pub metadata_type_id: H256,
    pub metadata_code_hash: H256,
    pub checkpoint_type_id: H256,
    pub stake_at_code_hash: H256,
    pub delegate_at_code_hash: H256,
    pub stake_smt_code_hash: H256,
    pub delegate_smt_code_hash: H256,
}

/// The bundle of identifiers that the service works with from its start on.
pub fn init_static_variables(
    network_type: NetworkType,
    axon_token_type_args: Vec<u8>,
    xudt_owner: H256,
    issuance_type_id: H256,
    metadata_type_id: H256,
    metadata_code_hash: H256,
    checkpoint_type_id: H256,
    stake_at_code_hash: H256,
    stake_smt_type_id: H256,
    delegate_at_code_hash: H256,
    delegate_smt_type_id: H256,
) -> (ids: ChainIds)
    ensures
        ids.network_type == network_type,
        ids.axon_token_args == axon_token_type_args,
        ids.xudt_owner == xudt_owner,
        ids.issuance_type_id == issuance_type_id,
        ids.metadata_type_id == metadata_type_id,
        ids.metadata_code_hash == metadata_code_hash,
        ids.checkpoint_type_id == checkpoint_type_id,
        ids.stake_at_code_hash == stake_at_code_hash,
        ids.stake_smt_code_hash == stake_smt_type_id,
        ids.delegate_at_code_hash == delegate_at_code_hash,
        ids.delegate_smt_code_hash == delegate_smt_type_id,
{
    ChainIds {
        network_type,
        axon_token_args: axon_token_type_args,
        xudt_owner,
        issuance_type_id,
        metadata_type_id,
        metadata_code_hash,
        checkpoint_type_id,
        stake_at_code_hash,
        delegate_at_code_hash,
        stake_smt_code_hash: stake_smt_type_id,
        delegate_smt_code_hash: delegate_smt_type_id,
    }
}

/// The identifiers that the single-cell stake builders need.
pub fn stake_type_ids(ids: &ChainIds) -> (type_ids: StakeTypeIds)
    ensures
        type_ids == (StakeTypeIds {
            metadata_type_id: ids.metadata_type_id,
            checkpoint_type_id: ids.checkpoint_type_id,
            xudt_owner: ids.xudt_owner,
        }),
{
    StakeTypeIds {
        metadata_type_id: ids.metadata_type_id,
        checkpoint_type_id: ids.checkpoint_type_id,
        xudt_owner: ids.xudt_owner,
    }
}

/// The identifiers that the stake aggregation needs.
pub fn stake_smt_type_ids(ids: &ChainIds) -> (type_ids: StakeSmtTypeIds)
    ensures
        type_ids == (StakeSmtTypeIds {
            metadata_type_id: ids.metadata_type_id,
            stake_smt_type_id: ids.stake_smt_code_hash,
            checkpoint_type_id: ids.checkpoint_type_id,
            xudt_owner: ids.xudt_owner,
        }),
{
    StakeSmtTypeIds {
        metadata_type_id: ids.metadata_type_id,
        stake_smt_type_id: ids.stake_smt_code_hash,
        checkpoint_type_id: ids.checkpoint_type_id,
        xudt_owner: ids.xudt_owner,
    }
}

/// The identifiers that the delegate aggregation needs.
pub fn delegate_smt_type_ids(ids: &ChainIds) -> (type_ids: DelegateSmtTypeIds)
    ensures
        type_ids == (DelegateSmtTypeIds {
            metadata_type_id: ids.metadata_type_id,
            delegate_smt_type_id: ids.delegate_smt_code_hash,
            checkpoint_type_id: ids.checkpoint_type_id,
            xudt_owner: ids.xudt_owner,
        }),
{
    DelegateSmtTypeIds {
        metadata_type_id: ids.metadata_type_id,
        delegate_smt_type_id: ids.delegate_smt_code_hash,
        checkpoint_type_id: ids.checkpoint_type_id,
        xudt_owner: ids.xudt_owner,
    }
}

/// A lock or type script, by the hash of its code and its arguments.
#[derive(Debug, PartialEq, Eq)]
pub struct Script {
    pub code_hash: H256,
    pub args: Vec<u8>,
}

/// An output cell of a transaction: its lock, and its type if it has one.
#[derive(Debug, PartialEq, Eq)]
pub struct CellOutput {
    pub lock: Script,
    pub type_: Option<Script>,
}

/// What the indexer reads of a transaction: its hash, its outputs and the
/// data of each output.
#[derive(Debug, PartialEq, Eq)]
pub struct Transaction {
    pub hash: H256,
    pub outputs: Vec<CellOutput>,
    pub outputs_data: Vec<Vec<u8>>,
}

/// What a transaction means to the indexer.
#[derive(Clone, Copy, Debug, PartialEq, Eq, Structural)]
pub enum TxKind {
    /// The metadata cell was made anew, and with it a new epoch began. The
    /// number is the index of that cell among the outputs; its data holds
    /// the epoch.
    EpochRollover(usize),
    /// An aggregation of stake cells into the stake tree.
    AggregationStake,
    /// An aggregation of delegate cells into the delegate tree.
    AggregationDelegate,
    /// A staker changed its stake cell, which is the output at this index.
    StakeUpdate(usize),
    /// A delegator changed its delegate cell, which is the output at this
    /// index.
    DelegateUpdate(usize),
    /// Nothing that concerns the indexer.
    Ignored,
}

/// Whether `output` is the metadata cell: its type has the metadata code
/// and the metadata type id as arguments.
pub open spec fn is_metadata_cell(ids: &ChainIds, output: &CellOutput) -> bool {
    output.type_ matches Some(t) && t.code_hash == ids.metadata_code_hash && t.args@
        == ids.metadata_type_id@
}

/// Whether `output` is a token cell under the lock with the code
/// `lock_code`.
pub open spec fn is_token_cell(ids: &ChainIds, output: &CellOutput, lock_code: H256) -> bool {
    output.type_ matches Some(t) && t.args@ == ids.axon_token_args@ && output.lock.code_hash
        == lock_code
}

/// Whether `output` is a cell of a tree with the code `tree_code`: its type
/// has that code and the issuance type id as arguments.
pub open spec fn is_tree_cell(ids: &ChainIds, output: &CellOutput, tree_code: H256) -> bool {
    output.type_ matches Some(t) && t.code_hash == tree_code && t.args@ == ids.issuance_type_id@
}

/// Whether `i` is the index of the first output that `found` marks.
pub open spec fn is_first(found: Seq<bool>, i: int) -> bool {
    0 <= i < found.len() && found[i] && forall|j: int| 0 <= j < i ==> !found[j]
}

/// Whether `found` marks no output.
pub open spec fn no_match(found: Seq<bool>) -> bool {
    forall|j: int| 0 <= j < found.len() ==> !found[j]
}

/// For each output, whether it is the metadata cell.
pub open spec fn metadata_cells(ids: &ChainIds, tx: &Transaction) -> Seq<bool> {
    Seq::new(tx.outputs@.len(), |i: int| is_metadata_cell(ids, &tx.outputs@[i]))
}

/// For each output, whether it is a stake cell.
pub open spec fn stake_at_cells(ids: &ChainIds, tx: &Transaction) -> Seq<bool> {
    Seq::new(tx.outputs@.len(), |i: int| is_token_cell(ids, &tx.outputs@[i], ids.stake_at_code_hash))
}

/// For each output, whether it is a delegate cell.
pub open spec fn delegate_at_cells(ids: &ChainIds, tx: &Transaction) -> Seq<bool> {
    Seq::new(
        tx.outputs@.len(),
        |i: int| is_token_cell(ids, &tx.outputs@[i], ids.delegate_at_code_hash),
    )
}

/// For each output, whether it is the cell of the stake tree.
pub open spec fn stake_smt_cells(ids: &ChainIds, tx: &Transaction) -> Seq<bool> {
    Seq::new(tx.outputs@.len(), |i: int| is_tree_cell(ids, &tx.outputs@[i], ids.stake_smt_code_hash))
}

/// For each output, whether it is the cell of the delegate tree.
pub open spec fn delegate_smt_cells(ids: &ChainIds, tx: &Transaction) -> Seq<bool> {
    Seq::new(
        tx.outputs@.len(),
        |i: int| is_tree_cell(ids, &tx.outputs@[i], ids.delegate_smt_code_hash),
    )
}

/// Whether `kind` is what the transaction means. A new epoch comes before
/// an aggregation, an aggregation of stake before one of delegation, and
/// both before the change of a single stake or delegate cell.
pub open spec fn is_kind_of(ids: &ChainIds, tx: &Transaction, kind: TxKind) -> bool {
    let metadata = metadata_cells(ids, tx);
    let stake = stake_at_cells(ids, tx);
    let delegate = delegate_at_cells(ids, tx);
    let stake_tree = !no_match(stake) && !no_match(stake_smt_cells(ids, tx));
    let delegate_tree = !no_match(delegate) && !no_match(delegate_smt_cells(ids, tx));
    match kind {
        TxKind::EpochRollover(i) => is_first(metadata, i as int),
        TxKind::AggregationStake => no_match(metadata) && stake_tree,
        TxKind::AggregationDelegate => no_match(metadata) && !stake_tree && delegate_tree,
        TxKind::StakeUpdate(i) => no_match(metadata) && !stake_tree && !delegate_tree && is_first(
            stake,
            i as int,
        ),
        TxKind::DelegateUpdate(i) => no_match(metadata) && !stake_tree && !delegate_tree
            && no_match(stake) && is_first(delegate, i as int),
        TxKind::Ignored => no_match(metadata) && no_match(stake) && no_match(delegate),
    }
}

/// A transaction has one meaning only.
pub proof fn lemma_one_kind(ids: &ChainIds, tx: &Transaction, a: TxKind, b: TxKind)
    requires
        is_kind_of(ids, tx, a),
        is_kind_of(ids, tx, b),
    ensures
        a == b,
{
    let metadata = metadata_cells(ids, tx);
    let stake = stake_at_cells(ids, tx);
    let delegate = delegate_at_cells(ids, tx);
    match (a, b) {
        (TxKind::EpochRollover(i), TxKind::EpochRollover(j)) => {
            lemma_first_is_one(metadata, i as int, j as int);
        },
        (TxKind::StakeUpdate(i), TxKind::StakeUpdate(j)) => {
            lemma_first_is_one(stake, i as int, j as int);
        },
        (TxKind::DelegateUpdate(i), TxKind::DelegateUpdate(j)) => {
            lemma_first_is_one(delegate, i as int, j as int);
        },
        _ => {},
    }
}

/// There is one first marked output at most.
proof fn lemma_first_is_one(found: Seq<bool>, i: int, j: int)
    requires
        is_first(found, i),
        is_first(found, j),
    ensures
        i == j,
{
}

impl Script {
    /// Whether the script has the code `code_hash` and the arguments
    /// `args`.
    pub fn is(&self, code_hash: &H256, args: &[u8]) -> (same: bool)
        ensures
            same == (self.code_hash == *code_hash && self.args@ == args@),
    {
        self.code_hash.equals(code_hash) && bytes_equal(self.args.as_slice(), args)
    }
}

impl ChainIds {
    /// Whether `output` is the metadata cell.
    pub fn is_metadata_cell(&self, output: &CellOutput) -> (found: bool)
        ensures
            found == is_metadata_cell(self, output),
    {
        match &output.type_ {
            Some(t) => t.is(&self.metadata_code_hash, self.metadata_type_id.0.as_slice()),
            None => false,
        }
    }

    /// Whether `output` is a token cell under the lock with the code
    /// `lock_code`.
    pub fn is_token_cell(&self, output: &CellOutput, lock_code: &H256) -> (found: bool)
        ensures
            found == is_token_cell(self, output, *lock_code),
    {
        match &output.type_ {
            Some(t) => bytes_equal(t.args.as_slice(), self.axon_token_args.as_slice())
                && output.lock.code_hash.equals(lock_code),
            None => false,
        }
    }

    /// Whether `output` is a cell of the tree with the code `tree_code`.
    pub fn is_tree_cell(&self, output: &CellOutput, tree_code: &H256) -> (found: bool)
        ensures
            found == is_tree_cell(self, output, *tree_code),
    {
        match &output.type_ {
            Some(t) => t.is(tree_code, self.issuance_type_id.0.as_slice()),
            None => false,
        }
    }
}

} // verus!
