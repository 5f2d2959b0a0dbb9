//! The decisions of the chain synchronizer: when to pull the next block,
//! what each transaction of a block means, and what a new epoch, a changed
//! stake cell or a changed delegate cell makes the stores do.

use crate::chain::{
    delegate_at_cells, delegate_smt_cells, is_first, is_kind_of, is_tree_cell, metadata_cells,
    no_match, stake_at_cells, stake_smt_cells, ChainIds, Transaction, TxKind,
};
use crate::delta::{DelegateDelta, DelegateDeltas, Delta};
use crate::history::TransactionHistory;
use crate::stake_smt::{parse_token_data, token_total};
use crate::tx_types::{Amount, Epoch, Staker, UserAmount};
use crate::types::{H160, H256};
use vstd::prelude::*;

verus! {

/// The number of blocks that the synchronizer stays behind the tip, so
/// that a block which it reads is not taken back.
pub const CONFIRMATION_LAG: u64 = 24;

/// The seconds that the synchronizer waits where no block is ready.
pub const POLL_INTERVAL_SECS: u64 = 3;

/// What the synchronizer does next.
#[derive(Clone, Copy, Debug, PartialEq, Eq, Structural)]
pub enum PullAction {
    /// Fetch the block with this number and work through it.
    Fetch(u64),
    /// Wait this many seconds, then ask for the tip again.
    Sleep(u64),
}

/// Why a transaction could not be worked through.
#[derive(Clone, Copy, Debug, PartialEq, Eq, Structural)]
pub enum SyncError {
    /// Cell data or a value of the key-value store is malformed.
    Decode,
    /// A decrease asks for more than the leaf holds.
    Underflow,
    /// A total would pass the largest amount that 128 bits hold.
    Overflow,
}

/// One thing that a handler asks of the stores. A handler's list is
/// carried out in its order.
#[derive(Clone, Copy, Debug, PartialEq, Eq)]
pub enum SyncAction {
    /// Begin the epoch in the stake tree.
    NewEpochStakeSmt(Epoch),
    /// Begin the epoch in the delegate tree.
    NewEpochDelegateSmt(Epoch),
    /// Write the epoch marker of the key-value store.
    PutCurrentEpoch(Epoch),
    /// Add the record to the transaction history.
    InsertHistory(TransactionHistory),
    /// Apply the update to the stake tree at the epoch.
    InsertStakeSmt { epoch: Epoch, update: UserAmount },
    /// Apply the update to the leaves of the staker in the delegate tree at
    /// the epoch.
    InsertDelegateSmt { epoch: Epoch, staker: Staker, update: UserAmount },
    /// Write the staker's last delta to the key-value store.
    PutStakerStatus { staker: Staker, delta: Delta },
}

/// Whether the action changes a tree or the key-value store.
pub open spec fn is_mutation(action: SyncAction) -> bool {
    !(action is InsertHistory)
}

/// Whether a record of the history comes before every change of a tree or
/// of the key-value store.
pub open spec fn history_comes_first(actions: Seq<SyncAction>) -> bool {
    forall|j: int|
        0 <= j < actions.len() && is_mutation(#[trigger] actions[j]) ==> exists|i: int|
            0 <= i < j && #[trigger] actions[i] is InsertHistory
}

/// The total of a leaf after the change `delta`, where `leaf` is what it
/// held, if it was there.
pub open spec fn changed_total(leaf: Option<Amount>, delta: Delta) -> int {
    let held: int = match leaf {
        Some(amount) => amount as int,
        None => 0,
    };
    held + delta.signed()
}

/// The record of the history for a change: the new total of the leaf under
/// the operation with the code `operation`, and the direction of the
/// change as its event. Numbers are cut to the width of their fields.
pub open spec fn change_record(
    id: i64,
    tx_hash: H256,
    address: H160,
    operation: u32,
    total: Amount,
    is_increase: bool,
    epoch: Epoch,
    timestamp: u64,
    block_number: u64,
) -> TransactionHistory {
    TransactionHistory {
        id,
        tx_hash,
        tx_block: block_number as i64,
        address,
        amount: (total as u64) as i64,
        operation,
        event: if is_increase {
            1
        } else {
            0
        },
        epoch: epoch as i64,
        status: None,
        timestamp: timestamp as i64,
    }
}

/// The state of the synchronizer: the identifiers that it knows the
/// protocol's cells by, the number of the next block, and the current
/// epoch.
#[derive(Debug)]
pub struct Synchronization {
    ids: ChainIds,
    current_number: u64,
    current_epoch: u64,
}

impl Synchronization {
    /// The identifiers of the protocol's cells.
    pub closed spec fn ids(&self) -> &ChainIds {
        &self.ids
    }

    /// The number of the block that is pulled next.
    pub closed spec fn spec_current_number(&self) -> u64 {
        self.current_number
    }

    /// The epoch that was last seen to begin.
    pub closed spec fn spec_current_epoch(&self) -> u64 {
        self.current_epoch
    }

    /// A synchronizer that goes on after the latest block of the history,
    /// or starts at `start_number` where the history is empty.
    pub fn new(
        ids: ChainIds,
        latest_block: Option<u64>,
        start_number: u64,
        current_epoch: u64,
    ) -> (sync: Synchronization)
        ensures
            *sync.ids() == ids,
            sync.spec_current_epoch() == current_epoch,
            sync.spec_current_number() == match latest_block {
                Some(number) => number,
                None => start_number,
            },
    {
        let current_number = match latest_block {
            Some(number) => number,
            None => start_number,
        };
        Synchronization { ids, current_number, current_epoch }
    }

    /// The number of the block that is pulled next.
    #[verifier::when_used_as_spec(spec_current_number)]
    pub fn current_number(&self) -> (number: u64)
        ensures
            number == self.spec_current_number(),
    {
        self.current_number
    }

    /// The epoch that was last seen to begin.
    #[verifier::when_used_as_spec(spec_current_epoch)]
    pub fn current_epoch(&self) -> (epoch: u64)
        ensures
            epoch == self.spec_current_epoch(),
    {
        self.current_epoch
    }

    /// What to do once the chain was asked for its tip. The next block is
    /// fetched only where the tip is more than 24 blocks beyond it. Where
    /// it is not, or where the chain gave no answer, the synchronizer waits
    /// 3 seconds.
    pub fn run(&self, tip: Option<u64>) -> (action: PullAction)
        ensures
            action == match tip {
                Some(t) => if t - CONFIRMATION_LAG > self.current_number() {
                    PullAction::Fetch(self.current_number())
                } else {
                    PullAction::Sleep(POLL_INTERVAL_SECS)
                },
                None => PullAction::Sleep(POLL_INTERVAL_SECS),
            },
    {
        match tip {
            Some(t) => {
                if t > CONFIRMATION_LAG && t - CONFIRMATION_LAG > self.current_number {
                    PullAction::Fetch(self.current_number)
                } else {
                    PullAction::Sleep(POLL_INTERVAL_SECS)
                }
            },
            None => PullAction::Sleep(POLL_INTERVAL_SECS),
        }
    }

    /// Moves on to the next block, once the block that was fetched is
    /// worked through.
    pub fn advance(&mut self)
        requires
            old(self).current_number() < u64::MAX,
        ensures
            final(self).current_number() == old(self).current_number() + 1,
            final(self).current_epoch() == old(self).current_epoch(),
            final(self).ids() == old(self).ids(),
    {
        self.current_number = self.current_number + 1;
    }

    /// The index of the first output that is the metadata cell.
    pub fn get_metadata_cell_index(&self, tx: &Transaction) -> (index: Option<usize>)
        ensures
            index matches Some(i) ==> is_first(metadata_cells(self.ids(), tx), i as int),
            index is None ==> no_match(metadata_cells(self.ids(), tx)),
    {
        let n: usize = tx.outputs.len();
        let mut i: usize = 0;
        while i < n
            invariant
                i <= n,
                n == tx.outputs@.len(),
                forall|j: int| 0 <= j < i ==> !metadata_cells(self.ids(), tx)[j],
            decreases n - i,
        {
            if self.ids.is_metadata_cell(&tx.outputs[i]) {
                return Some(i);
            }
            i = i + 1;
        }
        None
    }

    /// The index of the first output that is a stake cell.
    pub fn get_stake_tx_stake_at_cell_index(&self, tx: &Transaction) -> (index: Option<usize>)
        ensures
            index matches Some(i) ==> is_first(stake_at_cells(self.ids(), tx), i as int),
            index is None ==> no_match(stake_at_cells(self.ids(), tx)),
    {
        let n: usize = tx.outputs.len();
        let mut i: usize = 0;
        while i < n
            invariant
                i <= n,
                n == tx.outputs@.len(),
                forall|j: int| 0 <= j < i ==> !stake_at_cells(self.ids(), tx)[j],
            decreases n - i,
        {
            if self.ids.is_token_cell(&tx.outputs[i], &self.ids.stake_at_code_hash) {
                return Some(i);
            }
            i = i + 1;
        }
        None
    }

    /// The index of the first output that is a delegate cell.
    pub fn get_delegate_tx_delegate_at_index(&self, tx: &Transaction) -> (index: Option<usize>)
        ensures
            index matches Some(i) ==> is_first(delegate_at_cells(self.ids(), tx), i as int),
            index is None ==> no_match(delegate_at_cells(self.ids(), tx)),
    {
        let n: usize = tx.outputs.len();
        let mut i: usize = 0;
        while i < n
            invariant
                i <= n,
                n == tx.outputs@.len(),
                forall|j: int| 0 <= j < i ==> !delegate_at_cells(self.ids(), tx)[j],
            decreases n - i,
        {
            if self.ids.is_token_cell(&tx.outputs[i], &self.ids.delegate_at_code_hash) {
                return Some(i);
            }
            i = i + 1;
        }
        None
    }

    /// Whether some output is the cell of the tree with the code
    /// `tree_code`.
    fn has_tree_cell(&self, tx: &Transaction, tree_code: &H256) -> (found: bool)
        ensures
            found == !no_match(
                Seq::new(
                    tx.outputs@.len(),
                    |i: int| is_tree_cell(self.ids(), &tx.outputs@[i], *tree_code),
                ),
            ),
    {
        let ghost marks = Seq::new(
            tx.outputs@.len(),
            |i: int| is_tree_cell(self.ids(), &tx.outputs@[i], *tree_code),
        );
        let n: usize = tx.outputs.len();
        let mut i: usize = 0;
        while i < n
            invariant
                i <= n,
                n == tx.outputs@.len(),
                marks == Seq::new(
                    tx.outputs@.len(),
                    |i: int| is_tree_cell(self.ids(), &tx.outputs@[i], *tree_code),
                ),
                forall|j: int| 0 <= j < i ==> !marks[j],
            decreases n - i,
        {
            if self.ids.is_tree_cell(&tx.outputs[i], tree_code) {
                assert(marks[i as int]);
                return true;
            }
            i = i + 1;
        }
        false
    }

    /// Whether the transaction aggregates stake cells into the stake tree:
    /// it has a stake cell and the cell of the stake tree among its
    /// outputs.
    pub fn is_update_stake_smt_tx(&self, tx: &Transaction) -> (found: bool)
        ensures
            found == (!no_match(stake_at_cells(self.ids(), tx)) && !no_match(
                stake_smt_cells(self.ids(), tx),
            )),
    {
        match self.get_stake_tx_stake_at_cell_index(tx) {
            Some(i) => {
                assert(stake_at_cells(self.ids(), tx)[i as int]);
                self.has_tree_cell(tx, &self.ids.stake_smt_code_hash)
            },
            None => false,
        }
    }

    /// Whether the transaction aggregates delegate cells into the delegate
    /// tree: it has a delegate cell and the cell of the delegate tree among
    /// its outputs.
    pub fn is_delegate_smt_tx(&self, tx: &Transaction) -> (found: bool)
        ensures
            found == (!no_match(delegate_at_cells(self.ids(), tx)) && !no_match(
                delegate_smt_cells(self.ids(), tx),
            )),
    {
        match self.get_delegate_tx_delegate_at_index(tx) {
            Some(i) => {
                assert(delegate_at_cells(self.ids(), tx)[i as int]);
                self.has_tree_cell(tx, &self.ids.delegate_smt_code_hash)
            },
            None => false,
        }
    }

    /// What the transaction means to the indexer.
    pub fn classify(&self, tx: &Transaction) -> (kind: TxKind)
        ensures
            is_kind_of(self.ids(), tx, kind),
    {
        if let Some(i) = self.get_metadata_cell_index(tx) {
            return TxKind::EpochRollover(i);
        }
        if self.is_update_stake_smt_tx(tx) {
            return TxKind::AggregationStake;
        }
        if self.is_delegate_smt_tx(tx) {
            return TxKind::AggregationDelegate;
        }
        if let Some(i) = self.get_stake_tx_stake_at_cell_index(tx) {
            return TxKind::StakeUpdate(i);
        }
        if let Some(i) = self.get_delegate_tx_delegate_at_index(tx) {
            return TxKind::DelegateUpdate(i);
        }
        TxKind::Ignored
    }

    /// What each transaction of a block means, in the order of the block.
    pub fn parse_block(&self, transactions: &Vec<Transaction>) -> (kinds: Vec<TxKind>)
        ensures
            kinds@.len() == transactions@.len(),
            forall|i: int|
                0 <= i < kinds@.len() ==> is_kind_of(self.ids(), &transactions@[i], #[trigger] kinds@[i]),
    {
        let mut kinds: Vec<TxKind> = Vec::new();
        let n: usize = transactions.len();
        let mut i: usize = 0;
        while i < n
            invariant
                i <= n,
                n == transactions@.len(),
                kinds@.len() == i,
                forall|j: int|
                    0 <= j < i ==> is_kind_of(self.ids(), &transactions@[j], #[trigger] kinds@[j]),
            decreases n - i,
        {
            let kind = self.classify(&transactions[i]);
            kinds.push(kind);
            i = i + 1;
        }
        kinds
    }

    /// Takes note of the epoch that began, and asks both trees to begin
    /// it and the key-value store to keep it.
    pub fn handle_new_epoch(&mut self, new_epoch: u64) -> (actions: Vec<SyncAction>)
        ensures
            final(self).current_epoch() == new_epoch,
            final(self).current_epoch() == epoch_after(old(self).current_epoch(), seq![new_epoch]),
            final(self).current_number() == old(self).current_number(),
            final(self).ids() == old(self).ids(),
            actions@ == seq![
                SyncAction::NewEpochStakeSmt(new_epoch),
                SyncAction::NewEpochDelegateSmt(new_epoch),
                SyncAction::PutCurrentEpoch(new_epoch),
            ],
    {
        self.current_epoch = new_epoch;
        let mut actions: Vec<SyncAction> = Vec::new();
        actions.push(SyncAction::NewEpochStakeSmt(new_epoch));
        actions.push(SyncAction::NewEpochDelegateSmt(new_epoch));
        actions.push(SyncAction::PutCurrentEpoch(new_epoch));
        assert(actions@ =~= seq![
            SyncAction::NewEpochStakeSmt(new_epoch),
            SyncAction::NewEpochDelegateSmt(new_epoch),
            SyncAction::PutCurrentEpoch(new_epoch),
        ]);
        actions
    }

    /// What the stores do for a changed stake cell, in this order: the
    /// record of the history with the staker's new total, the update of
    /// the leaf in the stake tree at the current epoch, and the staker's
    /// last delta in the key-value store.
    pub open spec fn stake_actions(
        &self,
        tx_hash: H256,
        staker: Staker,
        delta: Delta,
        leaf: Option<Amount>,
        latest_id: i64,
        timestamp: u64,
        block_number: u64,
    ) -> Seq<SyncAction> {
        seq![
            SyncAction::InsertHistory(
                change_record(
                    (latest_id + 1) as i64,
                    tx_hash,
                    staker,
                    0,
                    changed_total(leaf, delta) as u128,
                    delta.is_increase,
                    self.current_epoch(),
                    timestamp,
                    block_number,
                ),
            ),
            SyncAction::InsertStakeSmt {
                epoch: self.current_epoch(),
                update: UserAmount { user: staker, amount: delta.amount, is_increase: true },
            },
            SyncAction::PutStakerStatus { staker, delta },
        ]
    }

    /// Works through a changed stake cell of `staker` that asks for the
    /// change `delta`, where the stake tree holds `leaf` for the staker
    /// at the current epoch and `latest_id` is the number of the last
    /// record of the history. A decrease below zero and a total beyond 128
    /// bits are refused.
    pub fn handle_stake_tx(
        &self,
        tx_hash: H256,
        staker: Staker,
        delta: Delta,
        leaf: Option<Amount>,
        latest_id: i64,
        timestamp: u64,
        block_number: u64,
    ) -> (res: Result<Vec<SyncAction>, SyncError>)
        requires
            latest_id < i64::MAX,
        ensures
            changed_total(leaf, delta) < 0 ==> res is Err && res->Err_0 == SyncError::Underflow,
            changed_total(leaf, delta) > u128::MAX ==> res is Err && res->Err_0
                == SyncError::Overflow,
            0 <= changed_total(leaf, delta) <= u128::MAX ==> res is Ok && res->Ok_0@
                == self.stake_actions(
                tx_hash,
                staker,
                delta,
                leaf,
                latest_id,
                timestamp,
                block_number,
            ),
    {
        let total = match new_total(leaf, delta) {
            Ok(total) => total,
            Err(e) => {
                return Err(e);
            },
        };
        let record = new_record(
            latest_id + 1,
            tx_hash,
            staker,
            0,
            total,
            delta.is_increase,
            self.current_epoch,
            timestamp,
            block_number,
        );
        let mut actions: Vec<SyncAction> = Vec::new();
        actions.push(SyncAction::InsertHistory(record));
        actions.push(
            SyncAction::InsertStakeSmt {
                epoch: self.current_epoch,
                update: UserAmount { user: staker, amount: delta.amount, is_increase: true },
            },
        );
        actions.push(SyncAction::PutStakerStatus { staker, delta });
        proof {
            assert(actions@ =~= self.stake_actions(
                tx_hash,
                staker,
                delta,
                leaf,
                latest_id,
                timestamp,
                block_number,
            ));
        }
        Ok(actions)
    }

    /// What the stores do for one change of a delegate cell, in this
    /// order: the record of the history with the new total that the
    /// delegator has with the staker, and the update of the delegator's
    /// leaf under the staker in the delegate tree at the current epoch.
    pub open spec fn delegate_actions(
        &self,
        tx_hash: H256,
        delegator: H160,
        item: DelegateDelta,
        leaf: Option<Amount>,
        latest_id: i64,
        timestamp: u64,
        block_number: u64,
    ) -> Seq<SyncAction> {
        seq![
            SyncAction::InsertHistory(
                change_record(
                    (latest_id + 1) as i64,
                    tx_hash,
                    delegator,
                    1,
                    changed_total(leaf, item.delta) as u128,
                    item.delta.is_increase,
                    self.current_epoch(),
                    timestamp,
                    block_number,
                ),
            ),
            SyncAction::InsertDelegateSmt {
                epoch: self.current_epoch(),
                staker: item.staker,
                update: UserAmount { user: delegator, amount: item.delta.amount, is_increase: true },
            },
        ]
    }

    /// Works through one change `item` of a changed delegate cell of
    /// `delegator`, where the delegate tree holds `leaf` for the
    /// delegator under the staker at the current epoch and `latest_id` is
    /// the number of the last record of the history. A decrease below zero
    /// and a total beyond 128 bits are refused.
    pub fn handle_delegate_tx(
        &self,
        tx_hash: H256,
        delegator: H160,
        item: DelegateDelta,
        leaf: Option<Amount>,
        latest_id: i64,
        timestamp: u64,
        block_number: u64,
    ) -> (res: Result<Vec<SyncAction>, SyncError>)
        requires
            latest_id < i64::MAX,
        ensures
            changed_total(leaf, item.delta) < 0 ==> res is Err && res->Err_0
                == SyncError::Underflow,
            changed_total(leaf, item.delta) > u128::MAX ==> res is Err && res->Err_0
                == SyncError::Overflow,
            0 <= changed_total(leaf, item.delta) <= u128::MAX ==> res is Ok && res->Ok_0@
                == self.delegate_actions(
                tx_hash,
                delegator,
                item,
                leaf,
                latest_id,
                timestamp,
                block_number,
            ),
    {
        let total = match new_total(leaf, item.delta) {
            Ok(total) => total,
            Err(e) => {
                return Err(e);
            },
        };
        let record = new_record(
            latest_id + 1,
            tx_hash,
            delegator,
            1,
            total,
            item.delta.is_increase,
            self.current_epoch,
            timestamp,
            block_number,
        );
        let mut actions: Vec<SyncAction> = Vec::new();
        actions.push(SyncAction::InsertHistory(record));
        actions.push(
            SyncAction::InsertDelegateSmt {
                epoch: self.current_epoch,
                staker: item.staker,
                update: UserAmount { user: delegator, amount: item.delta.amount, is_increase: true },
            },
        );
        proof {
            assert(actions@ =~= self.delegate_actions(
                tx_hash,
                delegator,
                item,
                leaf,
                latest_id,
                timestamp,
                block_number,
            ));
        }
        Ok(actions)
    }

    /// In what a handler asks for a changed stake or delegate cell, the
    /// record of the history comes before every change of a tree or of the
    /// key-value store.
    pub proof fn lemma_history_before_mutation(
        &self,
        tx_hash: H256,
        address: H160,
        item: DelegateDelta,
        leaf: Option<Amount>,
        latest_id: i64,
        timestamp: u64,
        block_number: u64,
    )
        ensures
            history_comes_first(
                self.stake_actions(
                    tx_hash,
                    address,
                    item.delta,
                    leaf,
                    latest_id,
                    timestamp,
                    block_number,
                ),
            ),
            history_comes_first(
                self.delegate_actions(
                    tx_hash,
                    address,
                    item,
                    leaf,
                    latest_id,
                    timestamp,
                    block_number,
                ),
            ),
    {
        let stake = self.stake_actions(
            tx_hash,
            address,
            item.delta,
            leaf,
            latest_id,
            timestamp,
            block_number,
        );
        assert forall|j: int| 0 <= j < stake.len() && is_mutation(#[trigger] stake[j]) implies exists|
            i: int,
        | 0 <= i < j && #[trigger] stake[i] is InsertHistory by {
            assert(stake[0] is InsertHistory);
        }
        let delegate = self.delegate_actions(
            tx_hash,
            address,
            item,
            leaf,
            latest_id,
            timestamp,
            block_number,
        );
        assert forall|j: int|
            0 <= j < delegate.len() && is_mutation(#[trigger] delegate[j]) implies exists|i: int|
            0 <= i < j && #[trigger] delegate[i] is InsertHistory by {
            assert(delegate[0] is InsertHistory);
        }
    }
}

/// The epoch of a synchronizer that started in the epoch `start` and has
/// since handled the epochs of `seen`, in their order: the last of them.
pub open spec fn epoch_after(start: u64, seen: Seq<u64>) -> u64 {
    if seen.len() == 0 {
        start
    } else {
        seen.last()
    }
}

/// Whether the epochs that begin on chain never fall, from `start` on.
pub open spec fn epochs_never_fall(start: u64, seen: Seq<u64>) -> bool {
    &&& forall|i: int| 0 <= i < seen.len() ==> start <= #[trigger] seen[i]
    &&& forall|i: int, j: int| 0 <= i <= j < seen.len() ==> #[trigger] seen[i] <= #[trigger] seen[j]
}

/// As long as the epochs that begin on chain never fall, the current epoch
/// never falls: after more of them are handled it is at least what it was
/// after fewer.
pub proof fn lemma_epoch_never_falls(start: u64, seen: Seq<u64>, earlier: int, later: int)
    requires
        epochs_never_fall(start, seen),
        0 <= earlier <= later <= seen.len(),
    ensures
        epoch_after(start, seen.take(earlier)) <= epoch_after(start, seen.take(later)),
{
    if later > 0 {
        assert(seen.take(later).last() == seen[later - 1]);
        if earlier > 0 {
            assert(seen.take(earlier).last() == seen[earlier - 1]);
        }
    }
}

/// The new total of a leaf after the change `delta`, where `leaf` is what
/// it held, if it was there.
pub fn new_total(leaf: Option<Amount>, delta: Delta) -> (res: Result<Amount, SyncError>)
    ensures
        changed_total(leaf, delta) < 0 ==> res == Err::<Amount, SyncError>(SyncError::Underflow),
        changed_total(leaf, delta) > u128::MAX ==> res == Err::<Amount, SyncError>(
            SyncError::Overflow,
        ),
        0 <= changed_total(leaf, delta) <= u128::MAX ==> res == Ok::<Amount, SyncError>(
            changed_total(leaf, delta) as u128,
        ),
{
    let held: Amount = match leaf {
        Some(amount) => amount,
        None => 0,
    };
    if delta.is_increase {
        match held.checked_add(delta.amount) {
            Some(total) => Ok(total),
            None => Err(SyncError::Overflow),
        }
    } else if delta.amount > held {
        Err(SyncError::Underflow)
    } else {
        Ok(held - delta.amount)
    }
}

/// The record of the history for a change.
fn new_record(
    id: i64,
    tx_hash: H256,
    address: H160,
    operation: u32,
    total: Amount,
    is_increase: bool,
    epoch: Epoch,
    timestamp: u64,
    block_number: u64,
) -> (record: TransactionHistory)
    ensures
        record == change_record(
            id,
            tx_hash,
            address,
            operation,
            total,
            is_increase,
            epoch,
            timestamp,
            block_number,
        ),
{
    let low: u64 = #[verifier::truncate] (total as u64);
    TransactionHistory {
        id,
        tx_hash,
        tx_block: #[verifier::truncate] (block_number as i64),
        address,
        amount: #[verifier::truncate] (low as i64),
        operation,
        event: if is_increase {
            1
        } else {
            0
        },
        epoch: #[verifier::truncate] (epoch as i64),
        status: None,
        timestamp: #[verifier::truncate] (timestamp as i64),
    }
}

/// The amount that the data of the output at `index` starts with, and the
/// payload after it. It is refused where the transaction has no data at
/// that index, or fewer than 16 bytes of it.
pub fn cell_data(tx: &Transaction, index: usize) -> (res: Result<(Amount, Vec<u8>), SyncError>)
    ensures
        index < tx.outputs_data@.len() && tx.outputs_data@[index as int]@.len() >= 16 ==> res is Ok
            && res->Ok_0.0 == token_total(tx.outputs_data@[index as int]@) && res->Ok_0.1@
            == tx.outputs_data@[index as int]@.subrange(
            16,
            tx.outputs_data@[index as int]@.len() as int,
        ),
        !(index < tx.outputs_data@.len() && tx.outputs_data@[index as int]@.len() >= 16) ==> res
            is Err && res->Err_0 == SyncError::Decode,
{
    if index >= tx.outputs_data.len() {
        return Err(SyncError::Decode);
    }
    match parse_token_data(tx.outputs_data[index].as_slice()) {
        Ok(parsed) => Ok(parsed),
        Err(_) => Err(SyncError::Decode),
    }
}

/// The deltas that the key-value store keeps for a delegator once a
/// changed delegate cell with changes for `stakers` is worked through:
/// those that it held, and for each staker that was not among them a delta
/// of nothing.
pub open spec fn merged_status(held: Map<H160, DelegateDelta>, stakers: Seq<Staker>) -> Map<
    H160,
    DelegateDelta,
>
    decreases stakers.len(),
{
    if stakers.len() == 0 {
        held
    } else {
        let before = merged_status(held, stakers.drop_last());
        let staker = stakers.last();
        if before.contains_key(staker) {
            before
        } else {
            before.insert(
                staker,
                DelegateDelta { staker, delta: Delta { is_increase: false, amount: 0 } },
            )
        }
    }
}

/// The deltas to keep for a delegator whose changed cell holds changes
/// for `stakers`, where `raw` is what the key-value store holds for the
/// delegator. A value that cannot be decoded is refused.
pub fn delegate_status(
    raw: Option<&[u8]>,
    stakers: &Vec<Staker>,
) -> (res: Result<DelegateDeltas, SyncError>)
    ensures
        match raw {
            None => res is Ok && res->Ok_0.wf() && res->Ok_0@ == merged_status(
                Map::empty(),
                stakers@,
            ),
            Some(bytes) => match DelegateDeltas::decode_outcome(bytes@) {
                Some(held) => res is Ok && res->Ok_0.wf() && res->Ok_0@ == merged_status(
                    held,
                    stakers@,
                ),
                None => res is Err && res->Err_0 == SyncError::Decode,
            },
        },
{
    let mut status = match raw {
        None => DelegateDeltas::new(),
        Some(bytes) => match DelegateDeltas::decode(bytes) {
            Ok(held) => held,
            Err(_) => {
                return Err(SyncError::Decode);
            },
        },
    };
    let ghost held = status@;
    let n: usize = stakers.len();
    let mut i: usize = 0;
    proof {
        assert(stakers@.take(0) =~= Seq::<Staker>::empty());
    }
    while i < n
        invariant
            i <= n,
            n == stakers@.len(),
            status.wf(),
            status@ == merged_status(held, stakers@.take(i as int)),
        decreases n - i,
    {
        let staker: Staker = stakers[i];
        proof {
            assert(stakers@.take(i + 1).drop_last() =~= stakers@.take(i as int));
            assert(stakers@.take(i + 1).last() == staker);
        }
        if !status.contains_key(&staker) {
            status.insert(DelegateDelta { staker, delta: Delta { is_increase: false, amount: 0 } });
        }
        i = i + 1;
    }
    proof {
        assert(stakers@.take(n as int) =~= stakers@);
    }
    Ok(status)
}

} // verus!
