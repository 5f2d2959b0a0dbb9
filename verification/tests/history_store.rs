use spark::history::{StorageError, TotalAmount, TransactionHistory};
use spark::history_store::{HistoryStore, Query};
use spark::types::{H160, H256};

fn addr(byte: u8) -> H160 {
    H160([byte; 20])
}

fn record(id: i64, tx: u8, address: u8, operation: u32, amount: i64) -> TransactionHistory {
    TransactionHistory {
        id,
        tx_hash: H256([tx; 32]),
        tx_block: 100 + id,
        address: addr(address),
        amount,
        operation,
        event: (id % 2) as u32,
        epoch: 3 + id / 4,
        status: None,
        timestamp: 1000 + id,
    }
}

fn totals(address: u8, stake: i64, delegate: i64, withdrawable: i64) -> TotalAmount {
    TotalAmount {
        address: addr(address),
        stake_amount: stake,
        delegate_amount: delegate,
        withdrawable_amount: withdrawable,
        reward_lock_amount: 0,
        reward_unlock_amount: 0,
    }
}

fn filled() -> HistoryStore {
    let mut store = HistoryStore::new();
    let rows = [
        record(1, 1, 0xA, 0, 500),
        record(2, 2, 0xB, 0, 70),
        record(3, 3, 0xA, 1, 30),
        record(4, 4, 0xA, 0, 200),
        record(5, 5, 0xC, 0, 900),
        record(6, 6, 0xB, 2, 8),
        record(7, 7, 0xA, 0, -100),
    ];
    for row in rows {
        assert_eq!(store.insert_history(row), Ok(true));
    }
    store
}

fn ids(records: &[TransactionHistory]) -> Vec<i64> {
    records.iter().map(|r| r.id).collect()
}

#[test]
fn a_new_store_is_empty() {
    let store = HistoryStore::new();
    assert_eq!(store.get_id(), 0);
    assert_eq!(store.get_status(&addr(1)), None);
    assert_eq!(store.get_latest_block_number(), None);
    assert!(store.select(&Query::all()).is_empty());
    assert!(store.get_top_stake_address(5).is_empty());
    assert_eq!(store.get_latest_stake_transaction_by_address(addr(1)), None);
}

#[test]
fn insert_history_appends_and_sums_the_totals() {
    let store = filled();
    assert_eq!(store.get_id(), 7);
    assert_eq!(ids(&store.select(&Query::all())), vec![1, 2, 3, 4, 5, 6, 7]);
    assert_eq!(store.get_status(&addr(0xA)), Some(totals(0xA, 600, 30, 0)));
    assert_eq!(store.get_status(&addr(0xC)), Some(totals(0xC, 900, 0, 0)));
    let b = TotalAmount { reward_lock_amount: 8, ..totals(0xB, 70, 0, 0) };
    assert_eq!(store.get_address_state(&addr(0xB)), Some(b));
    assert_eq!(store.get_status(&addr(0xD)), None);
}

#[test]
fn insert_history_passes_over_a_change_that_is_recorded() {
    let mut store = filled();
    // The same transaction, address and operation, whatever else differs.
    assert_eq!(store.insert_history(record(8, 4, 0xA, 0, 999)), Ok(false));
    assert_eq!(store.get_id(), 7);
    assert_eq!(store.get_status(&addr(0xA)), Some(totals(0xA, 600, 30, 0)));
    // Another operation of the same transaction is another change.
    assert_eq!(store.insert_history(record(8, 4, 0xA, 1, 5)), Ok(true));
    assert_eq!(store.get_status(&addr(0xA)), Some(totals(0xA, 600, 35, 0)));
}

#[test]
fn insert_history_refuses_a_number_that_does_not_ascend() {
    let mut store = filled();
    assert_eq!(store.insert_history(record(7, 9, 0xA, 0, 1)), Err(StorageError::IdNotAscending));
    assert_eq!(store.insert_history(record(3, 9, 0xA, 0, 1)), Err(StorageError::IdNotAscending));
    assert_eq!(store.get_id(), 7);
    assert_eq!(store.get_status(&addr(0xA)), Some(totals(0xA, 600, 30, 0)));
    assert_eq!(store.insert_history(record(9, 9, 0xA, 0, 1)), Ok(true));
    assert_eq!(store.get_id(), 9);
}

#[test]
fn insert_history_adds_the_record_and_the_totals_or_neither() {
    let mut store = HistoryStore::new();
    assert_eq!(store.insert_history(record(1, 1, 0xA, 0, i64::MAX)), Ok(true));
    assert_eq!(store.insert_history(record(2, 2, 0xA, 0, 1)), Err(StorageError::AmountOverflow));
    assert_eq!(store.get_id(), 1);
    assert_eq!(store.get_status(&addr(0xA)), Some(totals(0xA, i64::MAX, 0, 0)));
    assert_eq!(store.select(&Query::all()).len(), 1);
}

#[test]
fn the_first_record_may_have_any_number() {
    let mut store = HistoryStore::new();
    assert_eq!(store.insert_history(record(-5, 1, 0xA, 0, 1)), Ok(true));
    assert_eq!(store.get_id(), -5);
    assert_eq!(store.insert_history(record(-5, 2, 0xA, 0, 1)), Err(StorageError::IdNotAscending));
    assert_eq!(store.insert_history(record(-4, 2, 0xA, 0, 1)), Ok(true));
}

#[test]
fn records_by_address_come_in_pages() {
    let store = filled();
    assert_eq!(ids(&store.get_records_by_address(addr(0xA), 0, 100)), vec![1, 3, 4, 7]);
    assert_eq!(ids(&store.get_records_by_address(addr(0xA), 1, 3)), vec![3, 4]);
    assert_eq!(ids(&store.get_records_by_address(addr(0xA), 4, 3)), vec![7]);
    assert_eq!(ids(&store.get_records_by_address(addr(0xA), 0, 1)), vec![1]);
    assert!(store.get_records_by_address(addr(0xA), 7, 10).is_empty());
    assert!(store.get_records_by_address(addr(0xD), 0, 100).is_empty());
}

#[test]
fn operation_history_filters_by_operation_and_event() {
    let store = filled();
    assert_eq!(ids(&store.get_operation_history(addr(0xA), 0, None, 0, 100)), vec![1, 4, 7]);
    assert_eq!(ids(&store.get_operation_history(addr(0xA), 0, Some(1), 0, 100)), vec![1, 7]);
    assert_eq!(ids(&store.get_operation_history(addr(0xA), 0, Some(0), 0, 100)), vec![4]);
    assert_eq!(ids(&store.get_operation_history(addr(0xA), 1, None, 0, 100)), vec![3]);
    assert_eq!(ids(&store.get_operation_history(addr(0xA), 0, None, 1, 5)), vec![4]);
}

#[test]
fn records_by_operation_come_in_pages() {
    let store = filled();
    assert_eq!(ids(&store.get_stake_amount_by_epoch(0, 0, 100)), vec![1, 2, 4, 5, 7]);
    assert_eq!(ids(&store.get_stake_amount_by_epoch(0, 2, 3)), vec![4, 5]);
    assert_eq!(ids(&store.get_stake_amount_by_epoch(2, 0, 100)), vec![6]);
}

#[test]
fn reward_history_is_the_history_of_rewards() {
    let store = filled();
    assert_eq!(ids(&store.get_reward_history(addr(0xB), 0, 100)), vec![6]);
    assert!(store.get_reward_history(addr(0xA), 0, 100).is_empty());
}

#[test]
fn amount_by_epoch_sums_one_epoch_and_operation() {
    let store = filled();
    // Records 1 to 3 are of epoch 3, records 4 to 7 of epoch 4.
    assert_eq!(store.get_amount_by_epoch(3, 0), Some(570));
    assert_eq!(store.get_amount_by_epoch(3, 1), Some(30));
    assert_eq!(store.get_amount_by_epoch(4, 2), Some(8));
    assert_eq!(store.get_amount_by_epoch(5, 0), Some(0));
    // An amount below zero is read without its sign, so the sum passes 64 bits.
    assert_eq!(store.get_amount_by_epoch(4, 0), None);
}

#[test]
fn latest_block_number_is_the_largest() {
    let mut store = HistoryStore::new();
    let mut early = record(1, 1, 0xA, 0, 1);
    early.tx_block = 77;
    let mut late = record(2, 2, 0xA, 0, 1);
    late.tx_block = 12;
    store.insert_history(early).unwrap();
    store.insert_history(late).unwrap();
    assert_eq!(store.get_latest_block_number(), Some(77));
}

#[test]
fn latest_transactions_come_newest_first() {
    let mut store = HistoryStore::new();
    let times = [50, 70, 70, 10, 90];
    for (i, time) in times.iter().enumerate() {
        let mut r = record(i as i64 + 1, i as u8, 0xA, 0, 1);
        r.timestamp = *time;
        store.insert_history(r).unwrap();
    }
    assert_eq!(ids(&store.get_latest_stake_transactions(0, 100)), vec![5, 2, 3, 1, 4]);
    assert_eq!(ids(&store.get_latest_stake_transactions(1, 3)), vec![2, 3, 4]);
    assert!(store.get_latest_stake_transactions(5, 3).is_empty());
}

#[test]
fn latest_transaction_of_an_address() {
    let mut store = HistoryStore::new();
    let rows = [(1, 0xA, 50), (2, 0xB, 99), (3, 0xA, 70), (4, 0xA, 70), (5, 0xA, 10)];
    for (id, address, time) in rows {
        let mut r = record(id, id as u8, address, 0, 1);
        r.timestamp = time;
        store.insert_history(r).unwrap();
    }
    assert_eq!(store.get_latest_stake_transaction_by_address(addr(0xA)).unwrap().id, 3);
    assert_eq!(store.get_latest_stake_transaction_by_address(addr(0xB)).unwrap().id, 2);
    assert_eq!(store.get_latest_stake_transaction_by_address(addr(0xC)), None);
}

#[test]
fn top_stake_addresses_come_largest_first() {
    let store = filled();
    let top = store.get_top_stake_address(2);
    assert_eq!(top, vec![totals(0xC, 900, 0, 0), totals(0xA, 600, 30, 0)]);
    let all = store.get_top_stake_address(10);
    assert_eq!(all.len(), 3);
    assert_eq!(all[2].address, addr(0xB));
    assert!(store.get_top_stake_address(0).is_empty());
}

#[test]
fn equal_stakes_rank_by_address() {
    let mut store = HistoryStore::new();
    store.add_stake_amount(addr(3), 5).unwrap();
    store.add_stake_amount(addr(1), 5).unwrap();
    store.add_stake_amount(addr(2), 5).unwrap();
    store.add_stake_amount(addr(4), 6).unwrap();
    let top = store.get_top_stake_address(3);
    assert_eq!(
        top.iter().map(|t| t.address).collect::<Vec<_>>(),
        vec![addr(4), addr(1), addr(2)]
    );
}

#[test]
fn totals_move_between_stake_and_what_can_be_withdrawn() {
    let mut store = HistoryStore::new();
    store.insert_total_amount(addr(1));
    assert_eq!(store.get_status(&addr(1)), Some(totals(1, 0, 0, 0)));
    store.add_stake_amount(addr(1), 100).unwrap();
    store.add_delegate_amount(addr(1), 40).unwrap();
    store.redeem_stake_amount(addr(1), 30).unwrap();
    store.redeem_delegate_amount(addr(1), 15).unwrap();
    assert_eq!(store.get_status(&addr(1)), Some(totals(1, 70, 25, 45)));
    // A row that is there is left as it is.
    store.insert_total_amount(addr(1));
    assert_eq!(store.get_status(&addr(1)), Some(totals(1, 70, 25, 45)));
    assert_eq!(
        store.add_stake_amount(addr(1), i64::MAX as u128),
        Err(StorageError::AmountOverflow)
    );
    assert_eq!(store.get_status(&addr(1)), Some(totals(1, 70, 25, 45)));
}

#[test]
fn query_matches_every_field_that_is_set() {
    let r = record(5, 1, 0xA, 0, 1);
    assert!(Query::all().matches(&r));
    let q = Query { address: Some(addr(0xA)), operation: Some(0), ..Query::all() };
    assert!(q.matches(&r));
    assert!(!Query { address: Some(addr(0xB)), ..q }.matches(&r));
    assert!(!Query { operation: Some(1), ..q }.matches(&r));
    assert!(Query { event: Some(1), ..q }.matches(&r));
    assert!(!Query { event: Some(0), ..q }.matches(&r));
    assert!(Query { epoch: Some(4), ..q }.matches(&r));
    assert!(!Query { epoch: Some(3), ..q }.matches(&r));
    assert!(Query { page: Some((4, 1)), ..q }.matches(&r));
    assert!(!Query { page: Some((5, 1)), ..q }.matches(&r));
    let mut negative = r;
    negative.epoch = -1;
    assert!(!Query { epoch: Some(u64::MAX), ..Query::all() }.matches(&negative));
}
