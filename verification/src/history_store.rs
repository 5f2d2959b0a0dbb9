//! The history store held in memory: the records of the history in the
//! order in which they came, and the totals of each address.

use crate::addr_map::{lemma_key_index, AddrMap};
use crate::history::{
    add_delegate_amount, add_stake_amount, amount_total, get_amount_by_epoch, in_page,
    insert_history, on_page, redeem_delegate_amount, redeem_stake_amount, stored_amount,
    StorageError, TotalAmount, TransactionHistory,
};
use crate::types::H160;
use vstd::prelude::*;

verus! {

/// What a query asks of a record. A field that is not set asks nothing.
#[derive(Clone, Copy, Debug, PartialEq, Eq)]
pub struct Query {
    pub address: Option<H160>,
    pub operation: Option<u32>,
    pub event: Option<u32>,
    pub epoch: Option<u64>,
    /// The number of records before the page, and the size of the page.
    pub page: Option<(u64, u64)>,
}

/// Whether the record is one that the query asks for.
pub open spec fn matches_query(r: TransactionHistory, q: Query) -> bool {
    &&& q.address matches Some(address) ==> r.address == address
    &&& q.operation matches Some(operation) ==> r.operation == operation
    &&& q.event matches Some(event) ==> r.event == event
    &&& q.epoch matches Some(epoch) ==> r.epoch as int == epoch as int
    &&& q.page matches Some((offset, limit)) ==> on_page(r.id, offset, limit)
}

/// The records that the query asks for, in the order in which they stand.
pub open spec fn selected(records: Seq<TransactionHistory>, q: Query) -> Seq<TransactionHistory>
    decreases records.len(),
{
    if records.len() == 0 {
        Seq::empty()
    } else if matches_query(records.last(), q) {
        selected(records.drop_last(), q).push(records.last())
    } else {
        selected(records.drop_last(), q)
    }
}

/// Every record that a query selects is one of the records, and is asked
/// for by the query.
pub proof fn lemma_selected_are_records(records: Seq<TransactionHistory>, q: Query, i: int)
    requires
        0 <= i < selected(records, q).len(),
    ensures
        records.contains(selected(records, q)[i]),
        matches_query(selected(records, q)[i], q),
    decreases records.len(),
{
    let head = records.drop_last();
    if matches_query(records.last(), q) && i == selected(head, q).len() {
        assert(records[records.len() - 1] == records.last());
    } else {
        lemma_selected_are_records(head, q, i);
        let j = choose|j: int| 0 <= j < head.len() && head[j] == selected(head, q)[i];
        assert(records[j] == head[j]);
    }
}

/// Whether two records tell of the same change: the same transaction, the
/// same address and the same operation.
pub open spec fn same_change(a: TransactionHistory, b: TransactionHistory) -> bool {
    a.tx_hash == b.tx_hash && a.address == b.address && a.operation == b.operation
}

/// Whether the numbers of the records strictly ascend.
pub open spec fn ids_ascend(records: Seq<TransactionHistory>) -> bool {
    forall|i: int, j: int| 0 <= i < j < records.len() ==> (#[trigger] records[i]).id < (
    #[trigger] records[j]).id
}

/// The history and the totals of every address.
#[derive(Debug)]
pub struct HistoryStore {
    records: Vec<TransactionHistory>,
    totals: AddrMap<TotalAmount>,
}

impl HistoryStore {
    /// The records of the history, in the order in which they came.
    pub closed spec fn records(&self) -> Seq<TransactionHistory> {
        self.records@
    }

    /// The totals of each address of which the history tells.
    pub closed spec fn totals(&self) -> Map<H160, TotalAmount> {
        self.totals@
    }

    /// What holds of every store that this module hands out: the numbers
    /// of the records strictly ascend, no change is recorded twice, and
    /// each row of totals stands under its own address.
    pub closed spec fn wf(&self) -> bool {
        &&& self.totals.wf()
        &&& ids_ascend(self.records@)
        &&& forall|i: int, j: int|
            0 <= i < j < self.records@.len() ==> !same_change(
                #[trigger] self.records@[i],
                #[trigger] self.records@[j],
            )
        &&& forall|address: H160| #[trigger]
            self.totals@.contains_key(address) ==> self.totals@[address].address == address
    }

    /// The number of the last record, or 0 for an empty history.
    pub open spec fn last_id(&self) -> i64 {
        if self.records().len() == 0 {
            0
        } else {
            self.records().last().id
        }
    }

    /// Whether the change that `record` tells of is recorded already.
    pub open spec fn is_recorded(&self, record: TransactionHistory) -> bool {
        exists|i: int|
            0 <= i < self.records().len() && same_change(#[trigger] self.records()[i], record)
    }

    /// The totals of the address, if the store has a row for it.
    pub open spec fn status(&self, address: H160) -> Option<TotalAmount> {
        if self.totals().contains_key(address) {
            Some(self.totals()[address])
        } else {
            None
        }
    }

    /// A store without records.
    pub fn new() -> (store: HistoryStore)
        ensures
            store.wf(),
            store.records() == Seq::<TransactionHistory>::empty(),
            store.totals() == Map::<H160, TotalAmount>::empty(),
    {
        HistoryStore { records: Vec::new(), totals: AddrMap::new() }
    }

    /// The number of the last record, or 0 for an empty history.
    pub fn get_id(&self) -> (id: i64)
        requires
            self.wf(),
        ensures
            id == self.last_id(),
    {
        let n: usize = self.records.len();
        if n == 0 {
            0
        } else {
            self.records[n - 1].id
        }
    }

    /// The totals of the address, if the store has a row for it.
    pub fn get_status(&self, address: &H160) -> (status: Option<TotalAmount>)
        requires
            self.wf(),
        ensures
            status == self.status(*address),
    {
        match self.totals.get(address) {
            Some(total) => Some(*total),
            None => None,
        }
    }

    /// Whether the change that `record` tells of is recorded already.
    pub fn contains_change(&self, record: &TransactionHistory) -> (found: bool)
        requires
            self.wf(),
        ensures
            found == self.is_recorded(*record),
    {
        let n: usize = self.records.len();
        let mut i: usize = 0;
        while i < n
            invariant
                i <= n,
                n == self.records@.len(),
                forall|j: int| 0 <= j < i ==> !same_change(#[trigger] self.records@[j], *record),
            decreases n - i,
        {
            let held: TransactionHistory = self.records[i];
            if held.tx_hash.equals(&record.tx_hash) && held.address.equals(&record.address)
                && held.operation == record.operation {
                assert(same_change(self.records()[i as int], *record));
                return true;
            }
            i = i + 1;
        }
        false
    }

    /// Adds the record to the history and its amount to the totals of its
    /// address, both or neither. A change that is recorded already is
    /// passed over, and the result is `false`. A record whose number is
    /// not beyond the last one is refused, as is one that takes a total
    /// out of its range.
    pub fn insert_history(
        &mut self,
        record: TransactionHistory,
    ) -> (res: Result<bool, StorageError>)
        requires
            old(self).wf(),
        ensures
            final(self).wf(),
            res == old(self).insert_outcome(record),
            res == Ok::<bool, StorageError>(true) ==> final(self).records()
                == old(self).records().push(record) && final(self).totals()
                == old(self).totals().insert(
                record.address,
                TotalAmount::or_zero(old(self).status(record.address), record.address).credited(
                    record.operation,
                    record.amount as int,
                ),
            ),
            res != Ok::<bool, StorageError>(true) ==> final(self).records() == old(self).records()
                && final(self).totals() == old(self).totals(),
    {
        if self.contains_change(&record) {
            return Ok(false);
        }
        if self.records.len() > 0 && record.id <= self.get_id() {
            return Err(StorageError::IdNotAscending);
        }
        let status = self.get_status(&record.address);
        let total = match insert_history(status, &record) {
            Ok(upserted) => upserted.0,
            Err(e) => {
                return Err(e);
            },
        };
        proof {
            let after = self.records@.push(record);
            assert forall|i: int, j: int| 0 <= i < j < after.len() implies (#[trigger] after[i]).id < (
            #[trigger] after[j]).id by {
                if j == self.records@.len() {
                    assert(self.records@[i].id <= self.records@.last().id) by {
                        if i < self.records@.len() - 1 {
                            assert(self.records@[i].id < self.records@[self.records@.len() - 1].id);
                        }
                    }
                }
            }
            assert forall|i: int, j: int| 0 <= i < j < after.len() implies !same_change(
                #[trigger] after[i],
                #[trigger] after[j],
            ) by {
                if j == self.records@.len() {
                    assert(!same_change(self.records()[i], record));
                }
            }
        }
        self.records.push(record);
        self.totals.insert(record.address, total);
        Ok(true)
    }

    /// What [`HistoryStore::insert_history`] returns.
    pub open spec fn insert_outcome(&self, record: TransactionHistory) -> Result<bool, StorageError> {
        if self.is_recorded(record) {
            Ok(false)
        } else if self.records().len() > 0 && record.id <= self.last_id() {
            Err(StorageError::IdNotAscending)
        } else {
            match TotalAmount::or_zero(self.status(record.address), record.address).credit_outcome(
                record.operation,
                record.amount,
            ) {
                Ok(_) => Ok(true),
                Err(e) => Err(e),
            }
        }
    }
}

impl Query {
    /// The query that asks nothing.
    pub fn all() -> (q: Query)
        ensures
            q == (Query { address: None, operation: None, event: None, epoch: None, page: None }),
    {
        Query { address: None, operation: None, event: None, epoch: None, page: None }
    }

    /// Whether the record is one that the query asks for.
    pub fn matches(&self, r: &TransactionHistory) -> (found: bool)
        ensures
            found == matches_query(*r, *self),
    {
        let address = match &self.address {
            Some(address) => r.address.equals(address),
            None => true,
        };
        let operation = match self.operation {
            Some(operation) => r.operation == operation,
            None => true,
        };
        let event = match self.event {
            Some(event) => r.event == event,
            None => true,
        };
        let epoch = match self.epoch {
            Some(epoch) => r.epoch >= 0 && r.epoch as u64 == epoch,
            None => true,
        };
        let page = match self.page {
            Some((offset, limit)) => in_page(r.id, offset, limit),
            None => true,
        };
        address && operation && event && epoch && page
    }
}

impl HistoryStore {
    /// The records that the query asks for, in the order in which they
    /// came.
    pub fn select(&self, query: &Query) -> (found: Vec<TransactionHistory>)
        requires
            self.wf(),
        ensures
            found@ == selected(self.records(), *query),
    {
        let mut found: Vec<TransactionHistory> = Vec::new();
        let n: usize = self.records.len();
        let mut i: usize = 0;
        proof {
            assert(self.records@.take(0) =~= Seq::<TransactionHistory>::empty());
        }
        while i < n
            invariant
                i <= n,
                n == self.records@.len(),
                found@ == selected(self.records@.take(i as int), *query),
            decreases n - i,
        {
            let record: TransactionHistory = self.records[i];
            proof {
                assert(self.records@.take(i + 1).drop_last() =~= self.records@.take(i as int));
                assert(self.records@.take(i + 1).last() == record);
            }
            if query.matches(&record) {
                found.push(record);
            }
            i = i + 1;
        }
        proof {
            assert(self.records@.take(n as int) =~= self.records@);
        }
        found
    }

    /// The records of the address on the page after `offset` records of
    /// size `limit`.
    pub fn get_records_by_address(
        &self,
        addr: H160,
        offset: u64,
        limit: u64,
    ) -> (found: Vec<TransactionHistory>)
        requires
            self.wf(),
        ensures
            found@ == selected(
                self.records(),
                Query {
                    address: Some(addr),
                    operation: None,
                    event: None,
                    epoch: None,
                    page: Some((offset, limit)),
                },
            ),
    {
        self.select(
            &Query {
                address: Some(addr),
                operation: None,
                event: None,
                epoch: None,
                page: Some((offset, limit)),
            },
        )
    }

    /// The records of the address under the operation, and under the
    /// event if one is given, on the page after `offset` records of size
    /// `limit`.
    pub fn get_operation_history(
        &self,
        addr: H160,
        operation: u32,
        event: Option<u32>,
        offset: u64,
        limit: u64,
    ) -> (found: Vec<TransactionHistory>)
        requires
            self.wf(),
        ensures
            found@ == selected(
                self.records(),
                Query {
                    address: Some(addr),
                    operation: Some(operation),
                    event,
                    epoch: None,
                    page: Some((offset, limit)),
                },
            ),
    {
        self.select(
            &Query {
                address: Some(addr),
                operation: Some(operation),
                event,
                epoch: None,
                page: Some((offset, limit)),
            },
        )
    }

    /// The records under the operation on the page after `offset` records
    /// of size `limit`.
    pub fn get_stake_amount_by_epoch(
        &self,
        operation: u32,
        offset: u64,
        limit: u64,
    ) -> (found: Vec<TransactionHistory>)
        requires
            self.wf(),
        ensures
            found@ == selected(
                self.records(),
                Query {
                    address: None,
                    operation: Some(operation),
                    event: None,
                    epoch: None,
                    page: Some((offset, limit)),
                },
            ),
    {
        self.select(
            &Query {
                address: None,
                operation: Some(operation),
                event: None,
                epoch: None,
                page: Some((offset, limit)),
            },
        )
    }

    /// The rewards of the address on the page after `offset` records of
    /// size `limit`: its records under the operation with the code 2.
    pub fn get_reward_history(
        &self,
        addr: H160,
        offset: u64,
        limit: u64,
    ) -> (found: Vec<TransactionHistory>)
        requires
            self.wf(),
        ensures
            found@ == selected(
                self.records(),
                Query {
                    address: Some(addr),
                    operation: Some(2u32),
                    event: None,
                    epoch: None,
                    page: Some((offset, limit)),
                },
            ),
    {
        self.select(
            &Query {
                address: Some(addr),
                operation: Some(2u32),
                event: None,
                epoch: None,
                page: Some((offset, limit)),
            },
        )
    }

    /// What the records of the epoch under the operation amount to
    /// together, or nothing where 64 bits cannot hold the sum.
    pub fn get_amount_by_epoch(&self, epoch: u64, operation: u32) -> (sum: Option<u64>)
        requires
            self.wf(),
        ensures
            ({
                let found = selected(
                    self.records(),
                    Query {
                        address: None,
                        operation: Some(operation),
                        event: None,
                        epoch: Some(epoch),
                        page: None,
                    },
                );
                &&& amount_total(found) <= u64::MAX ==> sum == Some(amount_total(found) as u64)
                &&& amount_total(found) > u64::MAX ==> sum is None
            }),
    {
        let found = self.select(
            &Query {
                address: None,
                operation: Some(operation),
                event: None,
                epoch: Some(epoch),
                page: None,
            },
        );
        get_amount_by_epoch(&found)
    }

    /// The totals of the address, if the store has a row for it.
    pub fn get_address_state(&self, addr: &H160) -> (status: Option<TotalAmount>)
        requires
            self.wf(),
        ensures
            status == self.status(*addr),
    {
        self.get_status(addr)
    }

    /// Puts the row `total` under its address.
    fn put_totals(&mut self, total: TotalAmount)
        requires
            old(self).wf(),
        ensures
            final(self).wf(),
            final(self).records() == old(self).records(),
            final(self).totals() == old(self).totals().insert(total.address, total),
    {
        self.totals.insert(total.address, total);
    }

    /// Makes the row of an address of which nothing is known yet. The row
    /// of a known address is left as it is.
    pub fn insert_total_amount(&mut self, staker: H160)
        requires
            old(self).wf(),
        ensures
            final(self).wf(),
            final(self).records() == old(self).records(),
            final(self).totals() == old(self).totals().insert(
                staker,
                TotalAmount::or_zero(old(self).status(staker), staker),
            ),
    {
        let row = match self.get_status(&staker) {
            Some(total) => total,
            None => TotalAmount::insert_total_amount(staker),
        };
        self.put_totals(row);
    }

    /// Counts `amount` more in the stake of `staker`. On an error nothing
    /// is changed.
    pub fn add_stake_amount(&mut self, staker: H160, amount: u128) -> (res: Result<(), StorageError>)
        requires
            old(self).wf(),
        ensures
            final(self).wf(),
            final(self).records() == old(self).records(),
            match TotalAmount::or_zero(old(self).status(staker), staker).credit_outcome(
                0,
                stored_amount(amount),
            ) {
                Ok(total) => res is Ok && final(self).totals() == old(self).totals().insert(
                    staker,
                    total,
                ),
                Err(e) => res == Err::<(), StorageError>(e) && final(self).totals()
                    == old(self).totals(),
            },
    {
        match add_stake_amount(self.get_status(&staker), staker, amount) {
            Ok(total) => {
                self.put_totals(total);
                Ok(())
            },
            Err(e) => Err(e),
        }
    }

    /// Counts `amount` more in the delegation of `staker`. On an error
    /// nothing is changed.
    pub fn add_delegate_amount(
        &mut self,
        staker: H160,
        amount: u128,
    ) -> (res: Result<(), StorageError>)
        requires
            old(self).wf(),
        ensures
            final(self).wf(),
            final(self).records() == old(self).records(),
            match TotalAmount::or_zero(old(self).status(staker), staker).credit_outcome(
                1,
                stored_amount(amount),
            ) {
                Ok(total) => res is Ok && final(self).totals() == old(self).totals().insert(
                    staker,
                    total,
                ),
                Err(e) => res == Err::<(), StorageError>(e) && final(self).totals()
                    == old(self).totals(),
            },
    {
        match add_delegate_amount(self.get_status(&staker), staker, amount) {
            Ok(total) => {
                self.put_totals(total);
                Ok(())
            },
            Err(e) => Err(e),
        }
    }

    /// Moves `amount` from the stake of `staker` to what it can withdraw.
    /// On an error nothing is changed.
    pub fn redeem_stake_amount(
        &mut self,
        staker: H160,
        amount: u128,
    ) -> (res: Result<(), StorageError>)
        requires
            old(self).wf(),
        ensures
            final(self).wf(),
            final(self).records() == old(self).records(),
            match TotalAmount::or_zero(old(self).status(staker), staker).redeem_outcome(
                0,
                stored_amount(amount),
            ) {
                Ok(total) => res is Ok && final(self).totals() == old(self).totals().insert(
                    staker,
                    total,
                ),
                Err(e) => res == Err::<(), StorageError>(e) && final(self).totals()
                    == old(self).totals(),
            },
    {
        match redeem_stake_amount(self.get_status(&staker), staker, amount) {
            Ok(total) => {
                self.put_totals(total);
                Ok(())
            },
            Err(e) => Err(e),
        }
    }

    /// Moves `amount` from the delegation of `staker` to what it can
    /// withdraw. On an error nothing is changed.
    pub fn redeem_delegate_amount(
        &mut self,
        staker: H160,
        amount: u128,
    ) -> (res: Result<(), StorageError>)
        requires
            old(self).wf(),
        ensures
            final(self).wf(),
            final(self).records() == old(self).records(),
            match TotalAmount::or_zero(old(self).status(staker), staker).redeem_outcome(
                1,
                stored_amount(amount),
            ) {
                Ok(total) => res is Ok && final(self).totals() == old(self).totals().insert(
                    staker,
                    total,
                ),
                Err(e) => res == Err::<(), StorageError>(e) && final(self).totals()
                    == old(self).totals(),
            },
    {
        match redeem_delegate_amount(self.get_status(&staker), staker, amount) {
            Ok(total) => {
                self.put_totals(total);
                Ok(())
            },
            Err(e) => Err(e),
        }
    }
}

/// Whether the record `a` comes before the record `b` where the newest
/// stand first: by the later time, and for the same time by the lower
/// number.
pub open spec fn newer(a: TransactionHistory, b: TransactionHistory) -> bool {
    a.timestamp > b.timestamp || (a.timestamp == b.timestamp && a.id < b.id)
}

/// Whether the newest records stand first.
pub open spec fn newest_first(records: Seq<TransactionHistory>) -> bool {
    forall|i: int, j: int|
        0 <= i < j < records.len() ==> newer(#[trigger] records[i], #[trigger] records[j])
}

/// The records that a query selects from a history with ascending numbers
/// have ascending numbers.
pub proof fn lemma_selected_ascend(records: Seq<TransactionHistory>, q: Query)
    requires
        ids_ascend(records),
    ensures
        ids_ascend(selected(records, q)),
    decreases records.len(),
{
    if records.len() > 0 {
        let head = records.drop_last();
        assert(ids_ascend(head)) by {
            assert forall|i: int, j: int| 0 <= i < j < head.len() implies (#[trigger] head[i]).id < (
            #[trigger] head[j]).id by {
                assert(head[i] == records[i]);
                assert(head[j] == records[j]);
            }
        }
        lemma_selected_ascend(head, q);
        let chosen = selected(records, q);
        if matches_query(records.last(), q) {
            assert forall|i: int, j: int| 0 <= i < j < chosen.len() implies (
            #[trigger] chosen[i]).id < (#[trigger] chosen[j]).id by {
                if j == chosen.len() - 1 {
                    lemma_selected_are_records(head, q, i);
                    let k = choose|k: int| 0 <= k < head.len() && head[k] == selected(head, q)[i];
                    assert(records[k] == head[k]);
                    assert(records[k].id < records[records.len() - 1].id);
                } else {
                    assert(chosen[i] == selected(head, q)[i]);
                    assert(chosen[j] == selected(head, q)[j]);
                }
            }
        }
    }
}

/// The place of the record that comes first where the newest stand first.
fn newest(records: &Vec<TransactionHistory>) -> (m: usize)
    requires
        records@.len() > 0,
        ids_ascend(records@),
    ensures
        m < records@.len(),
        forall|j: int|
            0 <= j < records@.len() && j != m ==> newer(records@[m as int], #[trigger] records@[j]),
{
    let n: usize = records.len();
    let mut m: usize = 0;
    let mut i: usize = 1;
    while i < n
        invariant
            1 <= i <= n,
            n == records@.len(),
            m < i,
            forall|j: int| 0 <= j < m ==> (#[trigger] records@[j]).timestamp < records@[m as int].timestamp,
            forall|j: int|
                m <= j < i ==> (#[trigger] records@[j]).timestamp <= records@[m as int].timestamp,
        decreases n - i,
    {
        if records[i].timestamp > records[m].timestamp {
            m = i;
        }
        i = i + 1;
    }
    proof {
        assert forall|j: int| 0 <= j < records@.len() && j != m implies newer(
            records@[m as int],
            #[trigger] records@[j],
        ) by {
            if m < j {
                assert(records@[m as int].id < records@[j].id);
            }
        }
    }
    m
}

/// Whether the row `a` comes before the row `b` where the largest stakes
/// stand first: by the larger stake, and for the same stake by the
/// address.
pub open spec fn outranks(a: TotalAmount, b: TotalAmount) -> bool {
    a.stake_amount > b.stake_amount || (a.stake_amount == b.stake_amount && a.address.key()
        < b.address.key())
}

/// The place of the row that comes first where the largest stakes stand
/// first.
fn largest(rows: &AddrMap<TotalAmount>) -> (m: usize)
    requires
        rows.wf(),
        rows.entries().len() > 0,
        forall|i: int|
            0 <= i < rows.entries().len() ==> (#[trigger] rows.entries()[i]).1.address
                == rows.entries()[i].0,
    ensures
        m < rows.entries().len(),
        forall|j: int|
            0 <= j < rows.entries().len() && j != m ==> outranks(
                rows.entries()[m as int].1,
                (#[trigger] rows.entries()[j]).1,
            ),
{
    let n: usize = rows.len();
    let mut m: usize = 0;
    let mut best: i64 = rows.value_at(0).stake_amount;
    let mut i: usize = 1;
    while i < n
        invariant
            1 <= i <= n,
            n == rows.entries().len(),
            rows.wf(),
            m < i,
            best == rows.entries()[m as int].1.stake_amount,
            forall|j: int| 0 <= j < m ==> (#[trigger] rows.entries()[j]).1.stake_amount < best,
            forall|j: int| m <= j < i ==> (#[trigger] rows.entries()[j]).1.stake_amount <= best,
        decreases n - i,
    {
        let stake: i64 = rows.value_at(i).stake_amount;
        if stake > best {
            m = i;
            best = stake;
        }
        i = i + 1;
    }
    proof {
        let s = rows.entries();
        assert forall|j: int| 0 <= j < s.len() && j != m implies outranks(
            s[m as int].1,
            (#[trigger] s[j]).1,
        ) by {
            if m < j {
                assert(s[m as int].0.key() < s[j].0.key());
            }
        }
    }
    m
}

impl HistoryStore {
    /// The largest block number of the history, if it has a record.
    pub fn get_latest_block_number(&self) -> (latest: Option<u64>)
        requires
            self.wf(),
        ensures
            self.records().len() == 0 ==> latest is None,
            self.records().len() > 0 ==> latest is Some && (exists|i: int|
                0 <= i < self.records().len() && (#[trigger] self.records()[i]).tx_block as u64
                    == latest->Some_0 && forall|j: int|
                    0 <= j < self.records().len() ==> (#[trigger] self.records()[j]).tx_block
                        <= self.records()[i].tx_block),
    {
        let n: usize = self.records.len();
        if n == 0 {
            return None;
        }
        let mut m: usize = 0;
        let mut i: usize = 1;
        while i < n
            invariant
                1 <= i <= n,
                n == self.records@.len(),
                m < i,
                forall|j: int|
                    0 <= j < i ==> (#[trigger] self.records@[j]).tx_block
                        <= self.records@[m as int].tx_block,
            decreases n - i,
        {
            if self.records[i].tx_block > self.records[m].tx_block {
                m = i;
            }
            i = i + 1;
        }
        Some(#[verifier::truncate] (self.records[m].tx_block as u64))
    }

    /// The records on the page after `offset` records of size `limit`,
    /// the newest first.
    pub fn get_latest_stake_transactions(
        &self,
        offset: u64,
        limit: u64,
    ) -> (found: Vec<TransactionHistory>)
        requires
            self.wf(),
        ensures
            newest_first(found@),
            found@.len() == self.page(offset, limit).len(),
            forall|r: TransactionHistory| #[trigger]
                found@.contains(r) <==> self.page(offset, limit).contains(r),
    {
        let mut rest = self.select(
            &Query {
                address: None,
                operation: None,
                event: None,
                epoch: None,
                page: Some((offset, limit)),
            },
        );
        let ghost page = rest@;
        proof {
            lemma_selected_ascend(
                self.records(),
                Query {
                    address: None,
                    operation: None,
                    event: None,
                    epoch: None,
                    page: Some((offset, limit)),
                },
            );
        }
        let mut found: Vec<TransactionHistory> = Vec::new();
        while rest.len() > 0
            invariant
                page == self.page(offset, limit),
                ids_ascend(rest@),
                newest_first(found@),
                found@.len() + rest@.len() == page.len(),
                forall|r: TransactionHistory| #[trigger]
                    page.contains(r) <==> found@.contains(r) || rest@.contains(r),
                forall|i: int, j: int|
                    0 <= i < found@.len() && 0 <= j < rest@.len() ==> newer(
                        #[trigger] found@[i],
                        #[trigger] rest@[j],
                    ),
            decreases rest@.len(),
        {
            let m = newest(&rest);
            let ghost before = rest@;
            let ghost sorted = found@;
            let record = rest.remove(m);
            found.push(record);
            proof {
                assert(record == before[m as int]);
                assert(ids_ascend(rest@)) by {
                    assert forall|i: int, j: int| 0 <= i < j < rest@.len() implies (
                    #[trigger] rest@[i]).id < (#[trigger] rest@[j]).id by {
                        let a = if i < m { i } else { i + 1 };
                        let b = if j < m { j } else { j + 1 };
                        assert(rest@[i] == before[a]);
                        assert(rest@[j] == before[b]);
                    }
                }
                assert forall|i: int, j: int|
                    0 <= i < found@.len() && 0 <= j < rest@.len() implies newer(
                    #[trigger] found@[i],
                    #[trigger] rest@[j],
                ) by {
                    let b = if j < m { j } else { j + 1 };
                    assert(rest@[j] == before[b]);
                    if i < sorted.len() {
                        assert(found@[i] == sorted[i]);
                    }
                }
                assert(newest_first(found@)) by {
                    assert forall|i: int, j: int| 0 <= i < j < found@.len() implies newer(
                        #[trigger] found@[i],
                        #[trigger] found@[j],
                    ) by {
                        assert(found@[i] == sorted[i]);
                        if j < sorted.len() {
                            assert(found@[j] == sorted[j]);
                        }
                    }
                }
                assert forall|r: TransactionHistory| #[trigger]
                    page.contains(r) <==> found@.contains(r) || rest@.contains(r) by {
                    if found@.contains(r) {
                        let i = choose|i: int| 0 <= i < found@.len() && found@[i] == r;
                        if i < sorted.len() {
                            assert(sorted[i] == r);
                            assert(sorted.contains(r));
                        } else {
                            assert(before.contains(r));
                        }
                    }
                    if rest@.contains(r) {
                        let j = choose|j: int| 0 <= j < rest@.len() && rest@[j] == r;
                        let b = if j < m { j } else { j + 1 };
                        assert(before[b] == r);
                        assert(before.contains(r));
                    }
                    if sorted.contains(r) {
                        let i = choose|i: int| 0 <= i < sorted.len() && sorted[i] == r;
                        assert(found@[i] == r);
                    }
                    if before.contains(r) {
                        let b = choose|b: int| 0 <= b < before.len() && before[b] == r;
                        if b == m {
                            assert(found@[sorted.len() as int] == r);
                        } else {
                            let j = if b < m { b } else { b - 1 };
                            assert(rest@[j] == r);
                        }
                    }
                }
            }
        }
        found
    }

    /// The records on the page after `offset` records of size `limit`, in
    /// the order in which they came.
    pub open spec fn page(&self, offset: u64, limit: u64) -> Seq<TransactionHistory> {
        selected(
            self.records(),
            Query {
                address: None,
                operation: None,
                event: None,
                epoch: None,
                page: Some((offset, limit)),
            },
        )
    }

    /// The newest record of the address, if it has one.
    pub fn get_latest_stake_transaction_by_address(
        &self,
        address: H160,
    ) -> (latest: Option<TransactionHistory>)
        requires
            self.wf(),
        ensures
            ({
                let own = selected(
                    self.records(),
                    Query {
                        address: Some(address),
                        operation: None,
                        event: None,
                        epoch: None,
                        page: None,
                    },
                );
                &&& own.len() == 0 ==> latest is None
                &&& own.len() > 0 ==> latest is Some && own.contains(latest->Some_0) && forall|
                    r: TransactionHistory,
                |
                    own.contains(r) && r != latest->Some_0 ==> newer(latest->Some_0, r)
            }),
    {
        let query = Query {
            address: Some(address),
            operation: None,
            event: None,
            epoch: None,
            page: None,
        };
        let own = self.select(&query);
        if own.len() == 0 {
            return None;
        }
        proof {
            lemma_selected_ascend(self.records(), query);
        }
        let m = newest(&own);
        proof {
            assert(own@.contains(own@[m as int]));
            assert forall|r: TransactionHistory|
                own@.contains(r) && r != own@[m as int] implies newer(own@[m as int], r) by {
                let j = choose|j: int| 0 <= j < own@.len() && own@[j] == r;
                assert(newer(own@[m as int], own@[j]));
            }
        }
        Some(own[m])
    }

    /// The rows of the `limit` addresses with the largest stakes, the
    /// largest first; all rows where there are no more than `limit`.
    pub fn get_top_stake_address(&self, limit: u64) -> (top: Vec<TotalAmount>)
        requires
            self.wf(),
        ensures
            top@.len() == if self.totals().dom().len() <= limit {
                self.totals().dom().len()
            } else {
                limit as nat
            },
            forall|i: int|
                0 <= i < top@.len() ==> self.totals().contains_key((#[trigger] top@[i]).address)
                    && self.totals()[top@[i].address] == top@[i],
            forall|i: int, j: int|
                0 <= i < j < top@.len() ==> outranks(#[trigger] top@[i], #[trigger] top@[j]),
            forall|i: int, address: H160|
                0 <= i < top@.len() && self.totals().contains_key(address) && !is_among(
                    top@,
                    address,
                ) ==> outranks(#[trigger] top@[i], #[trigger] self.totals()[address]),
    {
        let ghost all = self.totals@;
        let mut rest = self.totals.duplicate();
        let n: usize = rest.len();
        let count: usize = if (n as u64) <= limit {
            n
        } else {
            limit as usize
        };
        let mut top: Vec<TotalAmount> = Vec::new();
        proof {
            self.totals.lemma_finite();
            assert(all.remove_keys(Set::new(|a: H160| is_among(top@, a))) =~= all);
        }
        while top.len() < count
            invariant
                count <= n,
                n == all.dom().len(),
                all.dom().finite(),
                all == self.totals(),
                forall|address: H160| #[trigger]
                    all.contains_key(address) ==> all[address].address == address,
                rest.wf(),
                top@.len() <= count,
                rest@.dom().len() == n - top@.len(),
                rest@ == all.remove_keys(Set::new(|a: H160| is_among(top@, a))),
                forall|i: int|
                    0 <= i < top@.len() ==> all.contains_key((#[trigger] top@[i]).address)
                        && all[top@[i].address] == top@[i],
                forall|i: int, j: int|
                    0 <= i < j < top@.len() ==> outranks(#[trigger] top@[i], #[trigger] top@[j]),
                forall|i: int, address: H160|
                    0 <= i < top@.len() && rest@.contains_key(address) ==> outranks(
                        #[trigger] top@[i],
                        #[trigger] rest@[address],
                    ),
            decreases count - top@.len(),
        {
            proof {
                rest.lemma_finite();
                assert forall|i: int| 0 <= i < rest.entries().len() implies (
                #[trigger] rest.entries()[i]).1.address == rest.entries()[i].0 by {
                    crate::addr_map::lemma_entry(rest.entries(), i);
                    assert(rest@.contains_key(rest.entries()[i].0));
                }
            }
            let ghost before = rest@;
            let ghost before_entries = rest.entries();
            let ghost chosen = top@;
            let m = largest(&rest);
            let address = rest.key_at(m);
            let row: TotalAmount = *rest.value_at(m);
            rest.remove(&address);
            top.push(row);
            proof {
                assert(row == all[address]);
                assert(row.address == address);
                assert(!is_among(chosen, address)) by {
                    if is_among(chosen, address) {
                        assert(!before.contains_key(address));
                    }
                }
                assert forall|a: H160| is_among(top@, a) <==> is_among(chosen, a) || a
                    == address by {
                    if is_among(top@, a) {
                        let i = choose|i: int| 0 <= i < top@.len() && (#[trigger] top@[i]).address == a;
                        if i < chosen.len() {
                            assert(chosen[i] == top@[i]);
                        }
                    }
                    if is_among(chosen, a) {
                        let i = choose|i: int|
                            0 <= i < chosen.len() && (#[trigger] chosen[i]).address == a;
                        assert(top@[i] == chosen[i]);
                    }
                    if a == address {
                        assert(top@[chosen.len() as int].address == a);
                    }
                }
                assert(rest@ =~= all.remove_keys(Set::new(|a: H160| is_among(top@, a))));
                assert(rest@.dom() =~= before.dom().remove(address));
                assert forall|i: int|
                    0 <= i < top@.len() implies all.contains_key((#[trigger] top@[i]).address)
                    && all[top@[i].address] == top@[i] by {
                    if i < chosen.len() {
                        assert(top@[i] == chosen[i]);
                    }
                }
                assert forall|i: int, j: int| 0 <= i < j < top@.len() implies outranks(
                    #[trigger] top@[i],
                    #[trigger] top@[j],
                ) by {
                    assert(top@[i] == chosen[i]);
                    if j < chosen.len() {
                        assert(top@[j] == chosen[j]);
                    } else {
                        assert(outranks(chosen[i], before[address]));
                    }
                }
                assert forall|i: int, a: H160|
                    0 <= i < top@.len() && rest@.contains_key(a) implies outranks(
                    #[trigger] top@[i],
                    #[trigger] rest@[a],
                ) by {
                    assert(before.contains_key(a));
                    if i < chosen.len() {
                        assert(top@[i] == chosen[i]);
                        assert(outranks(chosen[i], before[a]));
                    } else {
                        let j = lemma_key_index(before_entries, a);
                        assert(j != m);
                        assert(outranks(before_entries[m as int].1, before_entries[j].1));
                    }
                }
            }
        }
        proof {
            assert forall|i: int, address: H160|
                0 <= i < top@.len() && all.contains_key(address) && !is_among(
                    top@,
                    address,
                ) implies outranks(#[trigger] top@[i], #[trigger] all[address]) by {
                assert(rest@.contains_key(address));
                assert(outranks(top@[i], rest@[address]));
            }
        }
        top
    }
}

/// Whether one of the rows is the row of the address.
pub open spec fn is_among(rows: Seq<TotalAmount>, address: H160) -> bool {
    exists|i: int| 0 <= i < rows.len() && (#[trigger] rows[i]).address == address
}

} // verus!
