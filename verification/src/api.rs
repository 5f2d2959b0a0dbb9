//! The values that the query interface hands out.

use crate::tx_types::{DelegateItem, Epoch, StakeItem, Staker, INAUGURATION};
use crate::types::{H160, H256};
use vstd::prelude::*;

verus! {

/// What a staker asks of those who delegate to it.
#[derive(Clone, Copy, Debug, PartialEq, Eq)]
pub struct DelegateRequirement {
    pub threshold: u64,
    pub max_delegator_size: u32,
    pub commission_rate: u8,
}

/// What a staker asks of those who delegate to it, from the numbers that
/// its requirement cell holds. The threshold is cut to its low 64 bits.
pub fn delegate_requirement(
    threshold: u128,
    max_delegator_size: u32,
    commission_rate: u8,
) -> (req: DelegateRequirement)
    ensures
        req == (DelegateRequirement {
            threshold: threshold as u64,
            max_delegator_size,
            commission_rate,
        }),
        threshold <= u64::MAX ==> req.threshold == threshold,
{
    DelegateRequirement {
        threshold: #[verifier::truncate] (threshold as u64),
        max_delegator_size,
        commission_rate,
    }
}

/// A page of a listing: its number, counted from zero, and its size.
#[derive(Clone, Copy, Debug, PartialEq, Eq, Structural)]
pub struct Pagination {
    pub page: u64,
    pub limit: u64,
}

impl Pagination {
    /// The number of records that come before the page.
    pub open spec fn spec_offset(&self) -> int {
        self.page * self.limit
    }

    /// The number of records that come before the page.
    pub fn offset(&self) -> (offset: u64)
        requires
            self.spec_offset() <= u64::MAX,
        ensures
            offset == self.spec_offset(),
    {
        self.page * self.limit
    }

    /// The number of records that come before the page, or nothing where
    /// 64 bits cannot hold it.
    pub fn checked_offset(&self) -> (offset: Option<u64>)
        ensures
            self.spec_offset() <= u64::MAX ==> offset == Some(self.spec_offset() as u64),
            self.spec_offset() > u64::MAX ==> offset is None,
    {
        self.page.checked_mul(self.limit)
    }

    /// The size of the page.
    pub fn limit(&self) -> (limit: u64)
        ensures
            limit == self.limit,
    {
        self.limit
    }
}

/// The records of one page, with their number.
#[derive(Debug, PartialEq, Eq)]
pub struct PaginationResult<T> {
    pub total: u64,
    pub data: Vec<T>,
}

impl<T> PaginationResult<T> {
    /// The page that holds the records `data`.
    pub fn new(data: Vec<T>) -> (page: PaginationResult<T>)
        ensures
            page.total == data@.len(),
            page.data == data,
    {
        PaginationResult { total: data.len() as u64, data }
    }
}

/// Where the chain stands.
#[derive(Clone, Copy, Debug, PartialEq, Eq)]
pub struct ChainState {
    pub epoch: u64,
    pub period: u64,
    pub block_number: u64,
    pub total_stake_amount: u64,
}

impl Default for ChainState {
    fn default() -> (state: ChainState)
        ensures
            state == (ChainState { epoch: 0, period: 0, block_number: 0, total_stake_amount: 0 }),
    {
        ChainState { epoch: 0, period: 0, block_number: 0, total_stake_amount: 0 }
    }
}

/// What a record of the history tells of.
#[derive(Clone, Copy, Debug, PartialEq, Eq, Structural)]
pub enum HistoryEvent {
    Add,
    Redeem,
    Withdraw,
}

impl HistoryEvent {
    /// The code under which the event is stored.
    pub open spec fn code(self) -> u32 {
        match self {
            HistoryEvent::Add => 0,
            HistoryEvent::Redeem => 1,
            HistoryEvent::Withdraw => 2,
        }
    }

    /// The code under which the event is stored.
    pub fn to_u32(self) -> (code: u32)
        ensures
            code == self.code(),
    {
        match self {
            HistoryEvent::Add => 0,
            HistoryEvent::Redeem => 1,
            HistoryEvent::Withdraw => 2,
        }
    }

    /// The event that is stored under `value`.
    pub fn from_u32(value: u32) -> (event: HistoryEvent)
        requires
            value <= 2,
        ensures
            event.code() == value,
    {
        if value == 0 {
            HistoryEvent::Add
        } else if value == 1 {
            HistoryEvent::Redeem
        } else {
            HistoryEvent::Withdraw
        }
    }

    /// The event that is stored under `value`, if it is the code of one.
    pub fn try_from_u32(value: u32) -> (event: Option<HistoryEvent>)
        ensures
            value <= 2 ==> event is Some && event->Some_0.code() == value,
            value > 2 ==> event is None,
    {
        if value <= 2 {
            Some(HistoryEvent::from_u32(value))
        } else {
            None
        }
    }
}

impl From<HistoryEvent> for u32 {
    fn from(value: HistoryEvent) -> (code: u32) {
        value.to_u32()
    }
}

impl vstd::std_specs::convert::FromSpecImpl<HistoryEvent> for u32 {
    open spec fn obeys_from_spec() -> bool {
        true
    }

    open spec fn from_spec(value: HistoryEvent) -> u32 {
        value.code()
    }
}

/// What an amount of the history belongs to.
#[derive(Clone, Copy, Debug, PartialEq, Eq, Structural)]
pub enum OperationType {
    Stake,
    Delegate,
    Reward,
}

impl OperationType {
    /// The code under which the operation is stored.
    pub open spec fn code(self) -> u32 {
        match self {
            OperationType::Stake => 0,
            OperationType::Delegate => 1,
            OperationType::Reward => 2,
        }
    }

    /// The code under which the operation is stored.
    pub fn to_u32(self) -> (code: u32)
        ensures
            code == self.code(),
    {
        match self {
            OperationType::Stake => 0,
            OperationType::Delegate => 1,
            OperationType::Reward => 2,
        }
    }

    /// The operation that is stored under `value`.
    pub fn from_u32(value: u32) -> (operation: OperationType)
        requires
            value <= 2,
        ensures
            operation.code() == value,
    {
        if value == 0 {
            OperationType::Stake
        } else if value == 1 {
            OperationType::Delegate
        } else {
            OperationType::Reward
        }
    }

    /// The operation that is stored under `value`, if it is the code of
    /// one.
    pub fn try_from_u32(value: u32) -> (operation: Option<OperationType>)
        ensures
            value <= 2 ==> operation is Some && operation->Some_0.code() == value,
            value > 2 ==> operation is None,
    {
        if value <= 2 {
            Some(OperationType::from_u32(value))
        } else {
            None
        }
    }
}

impl From<OperationType> for u32 {
    fn from(value: OperationType) -> (code: u32) {
        value.to_u32()
    }
}

impl vstd::std_specs::convert::FromSpecImpl<OperationType> for u32 {
    open spec fn obeys_from_spec() -> bool {
        true
    }

    open spec fn from_spec(value: OperationType) -> u32 {
        value.code()
    }
}

/// How far an operation has come.
#[derive(Clone, Copy, Debug, PartialEq, Eq, Structural)]
pub enum OperationStatus {
    Success,
    Pending,
    Failed,
}

impl OperationStatus {
    /// The code under which the status is stored.
    pub open spec fn code(self) -> u32 {
        match self {
            OperationStatus::Success => 0,
            OperationStatus::Pending => 1,
            OperationStatus::Failed => 2,
        }
    }

    /// The status that is stored under `value`.
    pub fn from_u32(value: u32) -> (status: OperationStatus)
        requires
            value <= 2,
        ensures
            status.code() == value,
    {
        if value == 0 {
            OperationStatus::Success
        } else if value == 1 {
            OperationStatus::Pending
        } else {
            OperationStatus::Failed
        }
    }

    /// The status that is stored under `value`, if it is the code of one.
    pub fn try_from_u32(value: u32) -> (status: Option<OperationStatus>)
        ensures
            value <= 2 ==> status is Some && status->Some_0.code() == value,
            value > 2 ==> status is None,
    {
        if value <= 2 {
            Some(OperationStatus::from_u32(value))
        } else {
            None
        }
    }
}

/// Whether a reward can be taken out yet.
#[derive(Clone, Copy, Debug, PartialEq, Eq, Structural)]
pub enum LockStatusType {
    Lock,
    Unlock,
}

impl LockStatusType {
    /// The code under which the status is stored.
    pub open spec fn code(self) -> u32 {
        match self {
            LockStatusType::Lock => 0,
            LockStatusType::Unlock => 1,
        }
    }

    /// The status that is stored under `value`.
    pub fn from_u32(value: u32) -> (status: LockStatusType)
        requires
            value <= 1,
        ensures
            status.code() == value,
    {
        if value == 0 {
            LockStatusType::Lock
        } else {
            LockStatusType::Unlock
        }
    }

    /// The status that is stored under `value`, if it is the code of one.
    pub fn try_from_u32(value: u32) -> (status: Option<LockStatusType>)
        ensures
            value <= 1 ==> status is Some && status->Some_0.code() == value,
            value > 1 ==> status is None,
    {
        if value <= 1 {
            Some(LockStatusType::from_u32(value))
        } else {
            None
        }
    }
}

/// The amount staked in one epoch, in decimal digits.
#[derive(Debug, PartialEq, Eq)]
pub struct StakeAmount {
    pub epoch: u64,
    pub amount: String,
}

/// The amount of one address, which is given in hexadecimal digits.
#[derive(Debug, PartialEq, Eq)]
pub struct AddressAmount {
    pub address: String,
    pub amount: u64,
}

/// The totals of one address.
#[derive(Clone, Copy, Debug, PartialEq, Eq, Structural)]
pub struct StakeState {
    pub total_amount: u64,
    pub stake_amount: u64,
    pub delegate_amount: u64,
    pub withdrawable_amount: u64,
}

/// One transaction of an entry of the history.
#[derive(Clone, Copy, Debug, PartialEq, Eq)]
pub struct HistoryTransactions {
    pub hash: H256,
    pub status: OperationStatus,
    pub timestamp: u64,
}

/// An entry of the history of one address.
#[derive(Debug, PartialEq, Eq)]
pub struct StakeHistory {
    pub id: String,
    pub amount: u32,
    pub event: HistoryEvent,
    pub status: OperationStatus,
    pub transactions: Vec<HistoryTransactions>,
}

/// The rewards of one address.
#[derive(Clone, Copy, Debug, PartialEq, Eq, Structural)]
pub struct RewardState {
    pub lock_amount: u64,
    pub unlock_amount: u64,
}

/// Where a reward came from.
#[derive(Clone, Copy, Debug, PartialEq, Eq)]
pub struct RewardFrom {
    pub reward_type: OperationType,
    pub address: H160,
    pub amount: u64,
}

/// A reward of one epoch.
#[derive(Clone, Copy, Debug, PartialEq, Eq)]
pub struct RewardHistory {
    pub epoch: u64,
    pub amount: u64,
    pub locked: bool,
    pub from: RewardFrom,
}

/// A transaction that changed a stake.
#[derive(Clone, Copy, Debug, PartialEq, Eq)]
pub struct StakeTransaction {
    pub timestamp: u64,
    pub hash: H256,
    pub amount: u64,
    pub status: OperationStatus,
}

/// One change of delegation, as a caller of the interface asks for it.
#[derive(Clone, Copy, Debug, PartialEq, Eq)]
pub struct DelegateRequest {
    pub staker: Staker,
    pub amount: u64,
    pub is_increase: bool,
}

/// The change of stake that a caller asks for in the epoch
/// `current_epoch`: it takes effect two epochs later.
pub fn stake_request(current_epoch: Epoch, amount: u64, is_increase: bool) -> (item: StakeItem)
    requires
        current_epoch + INAUGURATION <= u64::MAX,
    ensures
        item == (StakeItem {
            is_increase,
            amount: amount as u128,
            inauguration_epoch: (current_epoch + INAUGURATION) as u64,
        }),
{
    StakeItem {
        is_increase,
        amount: amount as u128,
        inauguration_epoch: current_epoch + INAUGURATION,
    }
}

/// The change of delegation that `request` asks for in the epoch
/// `current_epoch`.
pub open spec fn delegate_item_of(current_epoch: Epoch, request: DelegateRequest) -> DelegateItem {
    DelegateItem {
        staker: request.staker,
        total_amount: request.amount as u128,
        is_increase: request.is_increase,
        amount: request.amount as u128,
        inauguration_epoch: (current_epoch + INAUGURATION) as u64,
    }
}

/// The changes of delegation that a caller asks for in the epoch
/// `current_epoch`, one for each request and in their order.
pub fn delegate_requests(
    current_epoch: Epoch,
    requests: &Vec<DelegateRequest>,
) -> (items: Vec<DelegateItem>)
    requires
        current_epoch + INAUGURATION <= u64::MAX,
    ensures
        items@ == requests@.map_values(|r: DelegateRequest| delegate_item_of(current_epoch, r)),
{
    let mut items: Vec<DelegateItem> = Vec::new();
    let n: usize = requests.len();
    let mut i: usize = 0;
    while i < n
        invariant
            i <= n,
            n == requests@.len(),
            current_epoch + INAUGURATION <= u64::MAX,
            items@ == requests@.take(i as int).map_values(
                |r: DelegateRequest| delegate_item_of(current_epoch, r),
            ),
        decreases n - i,
    {
        let request: DelegateRequest = requests[i];
        proof {
            assert(requests@.take(i + 1).map_values(
                |r: DelegateRequest| delegate_item_of(current_epoch, r),
            ) =~= requests@.take(i as int).map_values(
                |r: DelegateRequest| delegate_item_of(current_epoch, r),
            ).push(delegate_item_of(current_epoch, request)));
        }
        items.push(
            DelegateItem {
                staker: request.staker,
                total_amount: request.amount as u128,
                is_increase: request.is_increase,
                amount: request.amount as u128,
                inauguration_epoch: current_epoch + INAUGURATION,
            },
        );
        i = i + 1;
    }
    proof {
        assert(requests@.take(n as int) =~= requests@);
    }
    items
}

} // verus!
