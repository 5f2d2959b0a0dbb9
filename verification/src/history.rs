//! The rules of the relational store: what a record of the history does to
//! the totals of its address, how stake moves to what can be withdrawn,
//! and which records a page holds.

use crate::api::{RewardState, StakeState};
use crate::types::{H160, H256};
use vstd::prelude::*;

verus! {

/// A record of the transaction history. Records are only ever added.
#[derive(Clone, Copy, Debug, PartialEq, Eq)]
pub struct TransactionHistory {
    pub id: i64,
    pub tx_hash: H256,
    pub tx_block: i64,
    pub address: H160,
    pub amount: i64,
    pub operation: u32,
    pub event: u32,
    pub epoch: i64,
    pub status: Option<u32>,
    pub timestamp: i64,
}

/// The totals of one address.
#[derive(Clone, Copy, Debug, PartialEq, Eq)]
pub struct TotalAmount {
    pub address: H160,
    pub stake_amount: i64,
    pub delegate_amount: i64,
    pub withdrawable_amount: i64,
    pub reward_lock_amount: i64,
    pub reward_unlock_amount: i64,
}

/// Why the store refuses a change.
#[derive(Clone, Copy, Debug, PartialEq, Eq, Structural)]
pub enum StorageError {
    /// A total would leave the range of 64 bits with a sign.
    AmountOverflow,
    /// The number of a record is not beyond that of the last record.
    IdNotAscending,
}

/// Whether `value` is an amount that 64 bits with a sign hold.
pub open spec fn fits_i64(value: int) -> bool {
    i64::MIN <= value <= i64::MAX
}

impl TotalAmount {
    /// The totals of an address of which nothing is known yet.
    pub open spec fn zero(address: H160) -> TotalAmount {
        TotalAmount {
            address,
            stake_amount: 0,
            delegate_amount: 0,
            withdrawable_amount: 0,
            reward_lock_amount: 0,
            reward_unlock_amount: 0,
        }
    }

    /// What is staked, delegated and ready to be withdrawn, together.
    pub open spec fn held(&self) -> int {
        self.stake_amount + self.delegate_amount + self.withdrawable_amount
    }

    /// The totals of an address of which nothing is known yet.
    pub fn insert_total_amount(address: H160) -> (total: TotalAmount)
        ensures
            total == Self::zero(address),
    {
        TotalAmount {
            address,
            stake_amount: 0,
            delegate_amount: 0,
            withdrawable_amount: 0,
            reward_lock_amount: 0,
            reward_unlock_amount: 0,
        }
    }

    /// The totals, or those of the address `address` if there are none yet.
    pub open spec fn or_zero(status: Option<TotalAmount>, address: H160) -> TotalAmount {
        match status {
            Some(total) => total,
            None => Self::zero(address),
        }
    }

    /// The totals after `amount` is added to the field that the operation
    /// with the code `operation` counts in: 0 the stake, 1 the delegation,
    /// 2 the locked reward. Any other code changes nothing.
    pub open spec fn credited(self, operation: u32, amount: int) -> TotalAmount {
        if operation == 0 {
            TotalAmount { stake_amount: (self.stake_amount + amount) as i64, ..self }
        } else if operation == 1 {
            TotalAmount { delegate_amount: (self.delegate_amount + amount) as i64, ..self }
        } else if operation == 2 {
            TotalAmount { reward_lock_amount: (self.reward_lock_amount + amount) as i64, ..self }
        } else {
            self
        }
    }

    /// The field that the operation with the code `operation` counts in, or
    /// zero for a code that counts nowhere.
    pub open spec fn field(self, operation: u32) -> int {
        if operation == 0 {
            self.stake_amount as int
        } else if operation == 1 {
            self.delegate_amount as int
        } else if operation == 2 {
            self.reward_lock_amount as int
        } else {
            0
        }
    }

    /// The totals after `amount` is added to the field of `operation`. It
    /// is refused where the field cannot hold the sum.
    pub fn credit(self, operation: u32, amount: i64) -> (res: Result<TotalAmount, StorageError>)
        ensures
            operation <= 2 && !fits_i64(self.field(operation) + amount) ==> res == Err::<
                TotalAmount,
                StorageError,
            >(StorageError::AmountOverflow),
            operation > 2 || fits_i64(self.field(operation) + amount) ==> res == Ok::<
                TotalAmount,
                StorageError,
            >(self.credited(operation, amount as int)),
    {
        if operation == 0 {
            match self.stake_amount.checked_add(amount) {
                Some(sum) => Ok(TotalAmount { stake_amount: sum, ..self }),
                None => Err(StorageError::AmountOverflow),
            }
        } else if operation == 1 {
            match self.delegate_amount.checked_add(amount) {
                Some(sum) => Ok(TotalAmount { delegate_amount: sum, ..self }),
                None => Err(StorageError::AmountOverflow),
            }
        } else if operation == 2 {
            match self.reward_lock_amount.checked_add(amount) {
                Some(sum) => Ok(TotalAmount { reward_lock_amount: sum, ..self }),
                None => Err(StorageError::AmountOverflow),
            }
        } else {
            Ok(self)
        }
    }

    /// The totals after `amount` has moved from the field of `operation`,
    /// 0 for the stake and 1 for the delegation, to what can be withdrawn.
    pub open spec fn redeemed(self, operation: u32, amount: int) -> TotalAmount {
        if operation == 0 {
            TotalAmount {
                stake_amount: (self.stake_amount - amount) as i64,
                withdrawable_amount: (self.withdrawable_amount + amount) as i64,
                ..self
            }
        } else {
            TotalAmount {
                delegate_amount: (self.delegate_amount - amount) as i64,
                withdrawable_amount: (self.withdrawable_amount + amount) as i64,
                ..self
            }
        }
    }

    /// Moves `amount` from the stake, for the code 0, or from the
    /// delegation, for the code 1, to what can be withdrawn. It is refused
    /// where a field cannot hold the result.
    pub fn redeem(self, operation: u32, amount: i64) -> (res: Result<TotalAmount, StorageError>)
        requires
            operation <= 1,
        ensures
            fits_i64(self.field(operation) - amount) && fits_i64(self.withdrawable_amount + amount)
                ==> res == Ok::<TotalAmount, StorageError>(self.redeemed(operation, amount as int)),
            !(fits_i64(self.field(operation) - amount) && fits_i64(
                self.withdrawable_amount + amount,
            )) ==> res == Err::<TotalAmount, StorageError>(StorageError::AmountOverflow),
    {
        let source: i64 = if operation == 0 {
            self.stake_amount
        } else {
            self.delegate_amount
        };
        match (source.checked_sub(amount), self.withdrawable_amount.checked_add(amount)) {
            (Some(left), Some(ready)) => {
                if operation == 0 {
                    Ok(TotalAmount { stake_amount: left, withdrawable_amount: ready, ..self })
                } else {
                    Ok(TotalAmount { delegate_amount: left, withdrawable_amount: ready, ..self })
                }
            },
            _ => Err(StorageError::AmountOverflow),
        }
    }
}

/// A move from the stake or the delegation to what can be withdrawn keeps
/// what the address holds in all.
pub proof fn lemma_redeem_conserves(total: TotalAmount, operation: u32, amount: i64)
    requires
        operation <= 1,
        fits_i64(total.field(operation) - amount),
        fits_i64(total.withdrawable_amount + amount),
    ensures
        total.redeemed(operation, amount as int).held() == total.held(),
{
}

/// The totals of the address of `tx_record` once the record is in the
/// history: the row that is there, or a new one, with the record's amount
/// added to the field of its operation. The flag says whether the row is
/// new.
pub fn insert_history(
    status: Option<TotalAmount>,
    tx_record: &TransactionHistory,
) -> (res: Result<(TotalAmount, bool), StorageError>)
    ensures
        res == match TotalAmount::or_zero(status, tx_record.address).credit_outcome(
            tx_record.operation,
            tx_record.amount,
        ) {
            Ok(total) => Ok::<(TotalAmount, bool), StorageError>((total, status is None)),
            Err(e) => Err::<(TotalAmount, bool), StorageError>(e),
        },
{
    let row = match status {
        Some(total) => total,
        None => TotalAmount::insert_total_amount(tx_record.address),
    };
    match row.credit(tx_record.operation, tx_record.amount) {
        Ok(total) => Ok((total, status.is_none())),
        Err(e) => Err(e),
    }
}

impl TotalAmount {
    /// What [`TotalAmount::credit`] returns.
    pub open spec fn credit_outcome(self, operation: u32, amount: i64) -> Result<
        TotalAmount,
        StorageError,
    > {
        if operation <= 2 && !fits_i64(self.field(operation) + amount) {
            Err(StorageError::AmountOverflow)
        } else {
            Ok(self.credited(operation, amount as int))
        }
    }

    /// What [`TotalAmount::redeem`] returns.
    pub open spec fn redeem_outcome(self, operation: u32, amount: i64) -> Result<
        TotalAmount,
        StorageError,
    > {
        if fits_i64(self.field(operation) - amount) && fits_i64(self.withdrawable_amount + amount) {
            Ok(self.redeemed(operation, amount as int))
        } else {
            Err(StorageError::AmountOverflow)
        }
    }
}

/// The low 64 bits of `amount`, read with a sign, as the store counts an
/// amount.
pub open spec fn stored_amount(amount: u128) -> i64 {
    amount as i64
}

/// The totals of `staker` after `amount` more is staked.
pub fn add_stake_amount(
    status: Option<TotalAmount>,
    staker: H160,
    amount: u128,
) -> (res: Result<TotalAmount, StorageError>)
    ensures
        res == TotalAmount::or_zero(status, staker).credit_outcome(0, stored_amount(amount)),
{
    let row = match status {
        Some(total) => total,
        None => TotalAmount::insert_total_amount(staker),
    };
    row.credit(0, #[verifier::truncate] (amount as i64))
}

/// The totals of `staker` after `amount` more is delegated.
pub fn add_delegate_amount(
    status: Option<TotalAmount>,
    staker: H160,
    amount: u128,
) -> (res: Result<TotalAmount, StorageError>)
    ensures
        res == TotalAmount::or_zero(status, staker).credit_outcome(1, stored_amount(amount)),
{
    let row = match status {
        Some(total) => total,
        None => TotalAmount::insert_total_amount(staker),
    };
    row.credit(1, #[verifier::truncate] (amount as i64))
}

/// The totals of `staker` after `amount` of its stake is redeemed: it
/// leaves the stake and can be withdrawn.
pub fn redeem_stake_amount(
    status: Option<TotalAmount>,
    staker: H160,
    amount: u128,
) -> (res: Result<TotalAmount, StorageError>)
    ensures
        res == TotalAmount::or_zero(status, staker).redeem_outcome(0, stored_amount(amount)),
{
    let row = match status {
        Some(total) => total,
        None => TotalAmount::insert_total_amount(staker),
    };
    row.redeem(0, #[verifier::truncate] (amount as i64))
}

/// The totals of `staker` after `amount` of its delegation is redeemed: it
/// leaves the delegation and can be withdrawn.
pub fn redeem_delegate_amount(
    status: Option<TotalAmount>,
    staker: H160,
    amount: u128,
) -> (res: Result<TotalAmount, StorageError>)
    ensures
        res == TotalAmount::or_zero(status, staker).redeem_outcome(1, stored_amount(amount)),
{
    let row = match status {
        Some(total) => total,
        None => TotalAmount::insert_total_amount(staker),
    };
    row.redeem(1, #[verifier::truncate] (amount as i64))
}

/// Whether the record with the number `id` is on the page that comes after
/// `offset` records and holds `limit`: whether `id` lies in `(offset,
/// offset + limit]`.
pub open spec fn on_page(id: i64, offset: u64, limit: u64) -> bool {
    offset < id <= offset + limit
}

/// Whether the record with the number `id` is on the page that comes after
/// `offset` records and holds `limit`.
pub fn in_page(id: i64, offset: u64, limit: u64) -> (inside: bool)
    ensures
        inside == on_page(id, offset, limit),
{
    id > 0 && (id as u128) > offset as u128 && (id as u128) <= offset as u128 + limit as u128
}

/// The bounds of the cursor that reads the page after `offset` records of
/// size `limit`: the numbers strictly between them are those of the page.
/// There are none where the upper bound is beyond 64 bits.
pub fn cursor_bounds(offset: u64, limit: u64) -> (bounds: Option<(u64, u64)>)
    ensures
        offset + limit + 1 <= u64::MAX ==> bounds == Some((offset, (offset + limit + 1) as u64)),
        offset + limit + 1 > u64::MAX ==> bounds is None,
        bounds matches Some((after, before)) ==> forall|id: i64|
            (after < id < before) <==> #[trigger] on_page(id, offset, limit),
{
    match offset.checked_add(limit) {
        Some(last) => match last.checked_add(1) {
            Some(before) => Some((offset, before)),
            None => None,
        },
        None => None,
    }
}

/// The exact sum of the amounts of `records`, each read as 64 bits
/// without a sign.
pub open spec fn amount_total(records: Seq<TransactionHistory>) -> int
    decreases records.len(),
{
    if records.len() == 0 {
        0
    } else {
        amount_total(records.drop_last()) + (records.last().amount as u64) as int
    }
}

/// What the records of one epoch and operation amount to together, or
/// nothing where 64 bits cannot hold the sum.
pub fn get_amount_by_epoch(records: &Vec<TransactionHistory>) -> (sum: Option<u64>)
    ensures
        amount_total(records@) <= u64::MAX ==> sum == Some(amount_total(records@) as u64),
        amount_total(records@) > u64::MAX ==> sum is None,
{
    let mut sum: u64 = 0;
    let n: usize = records.len();
    let mut i: usize = 0;
    proof {
        assert(records@.take(0) =~= Seq::<TransactionHistory>::empty());
    }
    while i < n
        invariant
            i <= n,
            n == records@.len(),
            sum == amount_total(records@.take(i as int)),
        decreases n - i,
    {
        let amount: u64 = #[verifier::truncate] (records[i].amount as u64);
        proof {
            assert(records@.take(i + 1).drop_last() =~= records@.take(i as int));
            assert(records@.take(i + 1).last() == records@[i as int]);
        }
        match sum.checked_add(amount) {
            Some(next) => {
                sum = next;
            },
            None => {
                proof {
                    lemma_amount_total_grows(records@, i + 1);
                }
                return None;
            },
        }
        i = i + 1;
    }
    proof {
        assert(records@.take(n as int) =~= records@);
    }
    Some(sum)
}

/// The sum of the first records is at most the sum of all.
proof fn lemma_amount_total_grows(records: Seq<TransactionHistory>, n: int)
    requires
        0 <= n <= records.len(),
    ensures
        amount_total(records.take(n)) <= amount_total(records),
    decreases records.len(),
{
    if n == records.len() {
        assert(records.take(n) =~= records);
    } else {
        assert(records.drop_last().take(n) =~= records.take(n));
        lemma_amount_total_grows(records.drop_last(), n);
    }
}

/// The totals of an address as the interface shows them: each amount as
/// 64 bits without a sign, and the sum of what is staked, delegated and
/// ready to be withdrawn. Nothing is known of an address without a row.
pub fn stake_state(status: Option<TotalAmount>) -> (state: StakeState)
    ensures
        status is None ==> state == (StakeState {
            total_amount: 0,
            stake_amount: 0,
            delegate_amount: 0,
            withdrawable_amount: 0,
        }),
        status matches Some(t) ==> state == (StakeState {
            total_amount: (t.stake_amount.wrapping_add(t.delegate_amount).wrapping_add(
                t.withdrawable_amount,
            )) as u64,
            stake_amount: t.stake_amount as u64,
            delegate_amount: t.delegate_amount as u64,
            withdrawable_amount: t.withdrawable_amount as u64,
        }),
        status matches Some(t) ==> (0 <= t.stake_amount && 0 <= t.delegate_amount && 0
            <= t.withdrawable_amount && t.held() <= i64::MAX ==> state.total_amount == t.held()
            && state.stake_amount == t.stake_amount && state.delegate_amount == t.delegate_amount
            && state.withdrawable_amount == t.withdrawable_amount),
{
    match status {
        None => StakeState {
            total_amount: 0,
            stake_amount: 0,
            delegate_amount: 0,
            withdrawable_amount: 0,
        },
        Some(t) => StakeState {
            total_amount: #[verifier::truncate] (t.stake_amount.wrapping_add(
                t.delegate_amount,
            ).wrapping_add(t.withdrawable_amount) as u64),
            stake_amount: #[verifier::truncate] (t.stake_amount as u64),
            delegate_amount: #[verifier::truncate] (t.delegate_amount as u64),
            withdrawable_amount: #[verifier::truncate] (t.withdrawable_amount as u64),
        },
    }
}

/// The rewards of an address as the interface shows them.
pub fn reward_state(status: Option<TotalAmount>) -> (state: RewardState)
    ensures
        status is None ==> state == (RewardState { lock_amount: 0, unlock_amount: 0 }),
        status matches Some(t) ==> state == (RewardState {
            lock_amount: t.reward_lock_amount as u64,
            unlock_amount: t.reward_unlock_amount as u64,
        }),
{
    match status {
        None => RewardState { lock_amount: 0, unlock_amount: 0 },
        Some(t) => RewardState {
            lock_amount: #[verifier::truncate] (t.reward_lock_amount as u64),
            unlock_amount: #[verifier::truncate] (t.reward_unlock_amount as u64),
        },
    }
}

} // verus!
