use spark::addr_map::AddrMap;
use spark::stake_smt::{
    parse_token_data, token_cell_data, CellDep, Collected, PlannedInput, PlannedOutput,
    PlannedWitness, StakeSmtTxBuilder, StakeTally, TokenInput,
};
use spark::tx_types::{Cell, CkbTxErr, OutPoint, StakeInfo, StakeItem, StakeSmtTypeIds, UserAmount};
use spark::types::{H160, H256};

fn addr(byte: u8) -> H160 {
    H160([byte; 20])
}

fn out_point(tag: u8) -> OutPoint {
    OutPoint { tx_hash: H256([tag; 32]), index: tag as u32 }
}

fn type_ids() -> StakeSmtTypeIds {
    StakeSmtTypeIds {
        metadata_type_id: H256([1; 32]),
        stake_smt_type_id: H256([2; 32]),
        checkpoint_type_id: H256([3; 32]),
        xudt_owner: H256([4; 32]),
    }
}

fn stake_cell(staker: u8, total: u128, is_increase: bool, amount: u128, epoch: u64) -> Cell {
    Cell {
        out_point: out_point(staker),
        staker: addr(staker),
        item: StakeItem { is_increase, amount, inauguration_epoch: epoch },
        output_data: token_cell_data(total, &[0xde, 0xad]),
    }
}

fn leaves(entries: &[(u8, u128)]) -> AddrMap<u128> {
    let mut map = AddrMap::new();
    for (staker, amount) in entries {
        map.insert(addr(*staker), *amount);
    }
    map
}

fn builder(epoch: u64, quorum: u16, cells: Vec<Cell>) -> StakeSmtTxBuilder {
    StakeSmtTxBuilder::new(H256([9; 32]), epoch, type_ids(), quorum, cells)
}

fn entries_of(map: &AddrMap<u128>) -> Vec<(H160, u128)> {
    (0..map.len()).map(|i| (map.key_at(i), *map.value_at(i))).collect()
}

fn withdraw_cells(entries: &[(u8, u128)]) -> AddrMap<TokenInput> {
    let mut map = AddrMap::new();
    for (staker, total) in entries {
        map.insert(
            addr(*staker),
            TokenInput { out_point: out_point(staker.wrapping_add(100)), total: *total },
        );
    }
    map
}

#[test]
fn token_cell_data_starts_with_the_amount() {
    let data = token_cell_data(500, &[7, 8, 9]);
    let mut expected = 500u128.to_le_bytes().to_vec();
    expected.extend_from_slice(&[7, 8, 9]);
    assert_eq!(data, expected);
    assert_eq!(parse_token_data(&data), Ok((500, vec![7u8, 8, 9])));
}

#[test]
fn parse_token_data_of_sixteen_bytes_has_no_payload() {
    assert_eq!(parse_token_data(&[0xffu8; 16]), Ok((u128::MAX, Vec::<u8>::new())));
}

#[test]
fn parse_token_data_refuses_short_data() {
    assert_eq!(parse_token_data(&[0u8; 15]), Err(CkbTxErr::Decode));
    assert_eq!(parse_token_data(&[]), Err(CkbTxErr::Decode));
}

#[test]
fn parse_stake_data_splits_amount_and_payload() {
    let b = builder(10, 10, vec![]);
    let cell = stake_cell(1, 1234, true, 1, 12);
    assert_eq!(b.parse_stake_data(&cell), Ok((1234, vec![0xdeu8, 0xad])));
    let short = Cell { output_data: vec![1, 2, 3], ..stake_cell(1, 0, true, 1, 12) };
    assert_eq!(b.parse_stake_data(&short), Err(CkbTxErr::Decode));
}

#[test]
fn single_stake_increase() {
    let b = builder(10, 10, vec![stake_cell(0xAA, 500, true, 500, 12)]);
    let old_smt = leaves(&[]);
    let collected = b.collect(&old_smt).unwrap();
    assert_eq!(entries_of(&collected.new_smt), vec![(addr(0xAA), 500)]);
    assert!(collected.statistics.non_top_stakers.is_empty());
    assert!(collected.statistics.withdraw_amounts.is_empty());
    assert!(collected.pending.is_empty());
    assert_eq!(
        collected.inputs_stake_cells.get(&addr(0xAA)),
        Some(&TokenInput { out_point: out_point(0xAA), total: 500 })
    );
    let root = H256([0x77; 32]);
    let (plan, non_top) = b.build_tx(out_point(0), root, &collected, &withdraw_cells(&[])).unwrap();
    assert!(non_top.is_empty());
    assert_eq!(
        plan.inputs,
        vec![
            PlannedInput::StakeSmt(out_point(0)),
            PlannedInput::StakeAt(addr(0xAA), out_point(0xAA)),
        ]
    );
    assert_eq!(
        plan.outputs,
        vec![
            PlannedOutput::StakeSmt(root),
            PlannedOutput::StakeAt { staker: addr(0xAA), amount: 500 },
        ]
    );
    assert_eq!(
        plan.witnesses,
        vec![
            PlannedWitness::StakeSmt,
            PlannedWitness::StakeLock,
            PlannedWitness::CapacityProvider,
        ]
    );
    assert_eq!(
        plan.cell_deps,
        vec![
            CellDep::OmniEthLock,
            CellDep::Secp256k1Lock,
            CellDep::XudtType,
            CellDep::AlwaysSuccessLock,
            CellDep::StakeLock,
            CellDep::StakeSmtType,
            CellDep::Checkpoint,
            CellDep::Metadata,
        ]
    );
}

#[test]
fn partial_unstake() {
    let b = builder(10, 10, vec![stake_cell(0xAA, 500, false, 200, 12)]);
    let old_smt = leaves(&[(0xAA, 500)]);
    let collected = b.collect(&old_smt).unwrap();
    assert_eq!(entries_of(&collected.new_smt), vec![(addr(0xAA), 300)]);
    assert_eq!(entries_of(&collected.statistics.withdraw_amounts), vec![(addr(0xAA), 200)]);
    assert!(collected.statistics.non_top_stakers.is_empty());
    let (plan, _) = b
        .build_tx(out_point(0), H256([1; 32]), &collected, &withdraw_cells(&[(0xAA, 40)]))
        .unwrap();
    assert_eq!(
        plan.inputs,
        vec![
            PlannedInput::StakeSmt(out_point(0)),
            PlannedInput::StakeAt(addr(0xAA), out_point(0xAA)),
            PlannedInput::WithdrawAt(addr(0xAA), out_point(0xAA_u8.wrapping_add(100))),
        ]
    );
    assert_eq!(
        plan.outputs,
        vec![
            PlannedOutput::StakeSmt(H256([1; 32])),
            PlannedOutput::StakeAt { staker: addr(0xAA), amount: 300 },
            PlannedOutput::WithdrawAt { staker: addr(0xAA), epoch: 12, amount: 200, total: 240 },
        ]
    );
    assert_eq!(
        plan.witnesses,
        vec![
            PlannedWitness::StakeSmt,
            PlannedWitness::StakeLock,
            PlannedWitness::WithdrawLock,
            PlannedWitness::CapacityProvider,
        ]
    );
    assert_eq!(plan.cell_deps.len(), 9);
    assert_eq!(plan.cell_deps[8], CellDep::WithdrawLock);
}

#[test]
fn overshoot_unstake() {
    let b = builder(10, 10, vec![stake_cell(0xAA, 500, false, 900, 12)]);
    let old_smt = leaves(&[(0xAA, 500)]);
    let collected = b.collect(&old_smt).unwrap();
    assert_eq!(entries_of(&collected.statistics.withdraw_amounts), vec![(addr(0xAA), 500)]);
    assert_eq!(entries_of(&collected.new_smt), vec![(addr(0xAA), 500)]);
}

#[test]
fn unstake_of_the_whole_leaf_withdraws_it_and_leaves_the_leaf() {
    let b = builder(10, 10, vec![stake_cell(0xAA, 500, false, 500, 12)]);
    let collected = b.collect(&leaves(&[(0xAA, 500)])).unwrap();
    assert_eq!(entries_of(&collected.statistics.withdraw_amounts), vec![(addr(0xAA), 500)]);
    assert_eq!(entries_of(&collected.new_smt), vec![(addr(0xAA), 500)]);
}

#[test]
fn eviction_fetches_the_cells_of_stakers_that_leave() {
    let b = builder(10, 1, vec![stake_cell(0xE0, 25, true, 25, 12)]);
    let old_smt = leaves(&[(0xA0, 10), (0xB0, 20), (0xC0, 30), (0xD0, 40)]);
    let mut collected = b.collect(&old_smt).unwrap();
    assert_eq!(
        entries_of(&collected.new_smt),
        vec![(addr(0xC0), 30), (addr(0xD0), 40), (addr(0xE0), 25)]
    );
    let non_top = &collected.statistics.non_top_stakers;
    assert_eq!(non_top.len(), 2);
    assert_eq!(non_top.get(&addr(0xA0)), Some(&true));
    assert_eq!(non_top.get(&addr(0xB0)), Some(&true));
    assert_eq!(
        entries_of(&collected.statistics.withdraw_amounts),
        vec![(addr(0xA0), 10), (addr(0xB0), 20)]
    );
    assert_eq!(collected.pending, vec![addr(0xA0), addr(0xB0)]);
    // Nothing can be laid out while cells are pending.
    assert_eq!(
        b.build_tx(out_point(0), H256([1; 32]), &collected, &withdraw_cells(&[])).unwrap_err(),
        CkbTxErr::CellNotFound(addr(0xA0))
    );
    assert_eq!(collected.supply(&stake_cell(0xB0, 20, false, 0, 0)), Ok(true));
    assert_eq!(collected.pending, vec![addr(0xA0)]);
    assert_eq!(collected.supply(&stake_cell(0xB0, 20, false, 0, 0)), Ok(false));
    assert_eq!(collected.supply(&stake_cell(0xA0, 10, false, 0, 0)), Ok(true));
    assert!(collected.pending.is_empty());
    let (plan, non_top) = b
        .build_tx(
            out_point(0),
            H256([1; 32]),
            &collected,
            &withdraw_cells(&[(0xA0, 0), (0xB0, 5)]),
        )
        .unwrap();
    assert_eq!(non_top.len(), 2);
    assert_eq!(plan.inputs.len(), 6);
    assert_eq!(
        plan.outputs,
        vec![
            PlannedOutput::StakeSmt(H256([1; 32])),
            PlannedOutput::StakeAt { staker: addr(0xA0), amount: 0 },
            PlannedOutput::WithdrawAt { staker: addr(0xA0), epoch: 12, amount: 10, total: 10 },
            PlannedOutput::StakeAt { staker: addr(0xB0), amount: 0 },
            PlannedOutput::WithdrawAt { staker: addr(0xB0), epoch: 12, amount: 20, total: 25 },
            PlannedOutput::StakeAt { staker: addr(0xE0), amount: 25 },
        ]
    );
}

#[test]
fn eviction_of_the_single_lowest_staker() {
    // Four leaves, room for three: the new entrant ranks second, the
    // lowest leaf leaves.
    let b = builder(10, 1, vec![stake_cell(0xE0, 25, true, 25, 12)]);
    let old_smt = leaves(&[(0xB0, 20), (0xC0, 30), (0xD0, 40)]);
    let collected = b.collect(&old_smt).unwrap();
    assert_eq!(
        entries_of(&collected.new_smt),
        vec![(addr(0xC0), 30), (addr(0xD0), 40), (addr(0xE0), 25)]
    );
    assert_eq!(collected.statistics.non_top_stakers.len(), 1);
    assert_eq!(collected.statistics.non_top_stakers.get(&addr(0xB0)), Some(&true));
    assert_eq!(collected.pending, vec![addr(0xB0)]);
}

#[test]
fn a_new_entrant_that_misses_the_top_changes_nothing_on_chain() {
    let b = builder(10, 1, vec![stake_cell(0xE0, 5, true, 5, 12)]);
    let old_smt = leaves(&[(0xB0, 20), (0xC0, 30), (0xD0, 40)]);
    let collected = b.collect(&old_smt).unwrap();
    assert_eq!(
        entries_of(&collected.new_smt),
        vec![(addr(0xB0), 20), (addr(0xC0), 30), (addr(0xD0), 40)]
    );
    assert_eq!(collected.statistics.non_top_stakers.get(&addr(0xE0)), Some(&false));
    assert!(collected.inputs_stake_cells.is_empty());
    assert!(collected.statistics.withdraw_amounts.is_empty());
    assert!(collected.pending.is_empty());
}

#[test]
fn an_evicted_staker_with_a_cell_in_the_batch_needs_no_fetch() {
    let b = builder(
        10,
        1,
        vec![stake_cell(0xA0, 10, false, 3, 12), stake_cell(0xE0, 25, true, 25, 12)],
    );
    let old_smt = leaves(&[(0xA0, 10), (0xB0, 20), (0xC0, 30)]);
    let collected = b.collect(&old_smt).unwrap();
    assert_eq!(collected.statistics.non_top_stakers.get(&addr(0xA0)), Some(&true));
    assert!(collected.pending.is_empty());
    // The whole leaf that the tree held is withdrawn.
    assert_eq!(collected.statistics.withdraw_amounts.get(&addr(0xA0)), Some(&10));
    assert!(collected.inputs_stake_cells.contains_key(&addr(0xA0)));
    assert!(!collected.new_smt.contains_key(&addr(0xA0)));
}

#[test]
fn equal_amounts_rank_by_address() {
    let b = builder(10, 1, vec![]);
    let old_smt = leaves(&[(4, 7), (2, 7), (3, 7), (1, 7), (5, 7)]);
    let mut new_smt = old_smt.duplicate();
    let non_top = b.collect_non_top_stakers(&old_smt, &mut new_smt);
    assert_eq!(non_top.len(), 2);
    assert_eq!(non_top.get(&addr(1)), Some(&true));
    assert_eq!(non_top.get(&addr(2)), Some(&true));
    assert_eq!(entries_of(&new_smt), vec![(addr(3), 7), (addr(4), 7), (addr(5), 7)]);
}

#[test]
fn collect_non_top_stakers_keeps_all_within_the_top_count() {
    let b = builder(10, 1, vec![]);
    let old_smt = leaves(&[(1, 1), (2, 2), (3, 3)]);
    let mut new_smt = old_smt.duplicate();
    let non_top = b.collect_non_top_stakers(&old_smt, &mut new_smt);
    assert!(non_top.is_empty());
    assert_eq!(entries_of(&new_smt), entries_of(&old_smt));
}

#[test]
fn collect_non_top_stakers_with_quorum_zero_removes_all() {
    let b = builder(10, 0, vec![]);
    let old_smt = leaves(&[(1, 1)]);
    let mut new_smt = leaves(&[(1, 1), (2, 2)]);
    let non_top = b.collect_non_top_stakers(&old_smt, &mut new_smt);
    assert!(new_smt.is_empty());
    assert_eq!(non_top.get(&addr(1)), Some(&true));
    assert_eq!(non_top.get(&addr(2)), Some(&false));
}

#[test]
fn removed_stakers_hold_no_more_than_retained_ones() {
    let b = builder(10, 2, vec![]);
    let all: Vec<(u8, u128)> =
        vec![(1, 50), (2, 10), (3, 70), (4, 10), (5, 90), (6, 30), (7, 80), (8, 20), (9, 60)];
    let old_smt = leaves(&all);
    let mut new_smt = old_smt.duplicate();
    let non_top = b.collect_non_top_stakers(&old_smt, &mut new_smt);
    assert_eq!(new_smt.len(), 6);
    assert_eq!(non_top.len(), 3);
    for i in 0..non_top.len() {
        let removed = *old_smt.get(&non_top.key_at(i)).unwrap();
        for j in 0..new_smt.len() {
            assert!(removed <= *new_smt.value_at(j));
        }
    }
    assert!(non_top.contains_key(&addr(2)));
    assert!(non_top.contains_key(&addr(4)));
    assert!(non_top.contains_key(&addr(8)));
}

#[test]
fn stale_candidate_is_passed_over() {
    let b = builder(10, 10, vec![stake_cell(0xAA, 500, true, 500, 11)]);
    let old_smt = leaves(&[(0xBB, 5)]);
    let collected = b.collect(&old_smt).unwrap();
    assert_eq!(entries_of(&collected.new_smt), vec![(addr(0xBB), 5)]);
    assert!(collected.inputs_stake_cells.is_empty());
    assert!(collected.statistics.withdraw_amounts.is_empty());
    assert!(collected.statistics.non_top_stakers.is_empty());
}

#[test]
fn a_candidate_for_a_later_epoch_is_applied() {
    let b = builder(10, 10, vec![stake_cell(0xAA, 500, true, 500, 13)]);
    let collected = b.collect(&leaves(&[])).unwrap();
    assert_eq!(entries_of(&collected.new_smt), vec![(addr(0xAA), 500)]);
}

#[test]
fn increase_adds_to_the_leaf() {
    let b = builder(10, 10, vec![stake_cell(0xAA, 700, true, 200, 12)]);
    let collected = b.collect(&leaves(&[(0xAA, 500)])).unwrap();
    assert_eq!(entries_of(&collected.new_smt), vec![(addr(0xAA), 700)]);
    assert!(collected.statistics.withdraw_amounts.is_empty());
}

#[test]
fn deltas_of_one_staker_apply_in_order_and_the_last_cell_stays() {
    let first = stake_cell(0xAA, 1, true, 100, 12);
    let mut second = stake_cell(0xAA, 2, false, 30, 12);
    second.out_point = out_point(0x55);
    let b = builder(10, 10, vec![first, second]);
    let collected = b.collect(&leaves(&[])).unwrap();
    assert_eq!(entries_of(&collected.new_smt), vec![(addr(0xAA), 70)]);
    assert_eq!(entries_of(&collected.statistics.withdraw_amounts), vec![(addr(0xAA), 30)]);
    assert_eq!(
        collected.inputs_stake_cells.get(&addr(0xAA)),
        Some(&TokenInput { out_point: out_point(0x55), total: 2 })
    );
}

#[test]
fn a_decrease_without_a_leaf_is_refused() {
    let b = builder(10, 10, vec![stake_cell(0xAA, 500, false, 1, 12)]);
    assert_eq!(b.collect(&leaves(&[])).unwrap_err(), CkbTxErr::Increase(false));
}

#[test]
fn a_cell_without_an_amount_is_refused_even_if_stale() {
    let mut cell = stake_cell(0xAA, 500, true, 1, 11);
    cell.output_data = vec![0u8; 15];
    let b = builder(10, 10, vec![cell]);
    assert_eq!(b.collect(&leaves(&[])).unwrap_err(), CkbTxErr::Decode);
}

#[test]
fn an_increase_beyond_the_largest_amount_is_refused() {
    let b = builder(10, 10, vec![stake_cell(0xAA, 0, true, 1, 12)]);
    assert_eq!(
        b.collect(&leaves(&[(0xAA, u128::MAX)])).unwrap_err(),
        CkbTxErr::Overflow(addr(0xAA))
    );
}

#[test]
fn the_first_error_in_the_batch_is_reported() {
    let b = builder(
        10,
        10,
        vec![
            stake_cell(0x01, 0, true, 1, 12),
            stake_cell(0x02, 0, false, 1, 12),
            Cell { output_data: vec![], ..stake_cell(0x03, 0, true, 1, 12) },
        ],
    );
    assert_eq!(b.collect(&leaves(&[])).unwrap_err(), CkbTxErr::Increase(false));
}

#[test]
fn tally_apply_leaves_the_tally_alone_on_an_error() {
    let mut tally = StakeTally::new(&leaves(&[(1, 10)]));
    assert_eq!(tally.apply(&stake_cell(2, 0, false, 1, 12), 10), Err(CkbTxErr::Increase(false)));
    assert_eq!(entries_of(&tally.new_smt), vec![(addr(1), 10)]);
    assert!(tally.inputs_stake_cells.is_empty());
    assert_eq!(tally.apply(&stake_cell(2, 0, true, 4, 12), 10), Ok(()));
    assert_eq!(entries_of(&tally.new_smt), vec![(addr(1), 10), (addr(2), 4)]);
}

#[test]
fn tally_apply_at_the_last_epochs_does_not_wrap() {
    let mut tally = StakeTally::new(&leaves(&[]));
    // The threshold u64::MAX + 2 is beyond every epoch a cell can name.
    assert_eq!(tally.apply(&stake_cell(2, 0, true, 4, u64::MAX), u64::MAX), Ok(()));
    assert!(tally.new_smt.is_empty());
}

#[test]
fn a_withdrawal_without_a_withdraw_cell_is_refused() {
    let b = builder(10, 10, vec![stake_cell(0xAA, 500, false, 200, 12)]);
    let collected = b.collect(&leaves(&[(0xAA, 500)])).unwrap();
    assert_eq!(
        b.build_tx(out_point(0), H256([1; 32]), &collected, &withdraw_cells(&[])).unwrap_err(),
        CkbTxErr::CellNotFound(addr(0xAA))
    );
}

#[test]
fn a_withdrawal_of_more_than_the_cell_holds_is_refused() {
    let b = builder(10, 10, vec![stake_cell(0xAA, 100, false, 200, 12)]);
    let collected = b.collect(&leaves(&[(0xAA, 500)])).unwrap();
    assert_eq!(
        b.build_tx(out_point(0), H256([1; 32]), &collected, &withdraw_cells(&[(0xAA, 0)]))
            .unwrap_err(),
        CkbTxErr::Underflow(addr(0xAA))
    );
}

#[test]
fn a_withdraw_cell_that_cannot_hold_the_sum_is_refused() {
    let b = builder(10, 10, vec![stake_cell(0xAA, 500, false, 200, 12)]);
    let collected = b.collect(&leaves(&[(0xAA, 500)])).unwrap();
    assert_eq!(
        b.build_tx(
            out_point(0),
            H256([1; 32]),
            &collected,
            &withdraw_cells(&[(0xAA, u128::MAX - 199)]),
        )
        .unwrap_err(),
        CkbTxErr::Overflow(addr(0xAA))
    );
}

#[test]
fn fill_tx_leaves_the_transaction_alone_on_an_error() {
    let b = builder(
        10,
        10,
        vec![stake_cell(0x01, 50, true, 5, 12), stake_cell(0x02, 500, false, 200, 12)],
    );
    let collected = b.collect(&leaves(&[(0x02, 500)])).unwrap();
    let mut inputs = vec![PlannedInput::StakeSmt(out_point(0))];
    let mut outputs = vec![PlannedOutput::StakeSmt(H256([1; 32]))];
    let mut witnesses = vec![PlannedWitness::StakeSmt];
    let res = b.fill_tx(
        &collected.statistics,
        &collected.inputs_stake_cells,
        &withdraw_cells(&[]),
        &mut inputs,
        &mut outputs,
        &mut witnesses,
    );
    assert_eq!(res, Err(CkbTxErr::CellNotFound(addr(0x02))));
    assert_eq!(inputs, vec![PlannedInput::StakeSmt(out_point(0))]);
    assert_eq!(outputs, vec![PlannedOutput::StakeSmt(H256([1; 32]))]);
    assert_eq!(witnesses, vec![PlannedWitness::StakeSmt]);
}

#[test]
fn aggregation_conserves_what_the_cells_hold() {
    let b = builder(
        10,
        1,
        vec![
            stake_cell(0xA0, 100, false, 30, 12),
            stake_cell(0xB0, 200, true, 50, 12),
            stake_cell(0xC0, 300, false, 1000, 12),
            stake_cell(0xE0, 90, true, 90, 12),
        ],
    );
    let old_smt = leaves(&[(0xA0, 100), (0xB0, 150), (0xC0, 300), (0xD0, 1)]);
    let mut collected = b.collect(&old_smt).unwrap();
    assert_eq!(collected.pending, vec![addr(0xD0)]);
    assert_eq!(collected.supply(&stake_cell(0xD0, 1, false, 0, 0)), Ok(true));
    let cells = withdraw_cells(&[(0xA0, 7), (0xC0, 0), (0xD0, 11), (0xE0, 1000)]);
    let (plan, _) = b.build_tx(out_point(0), H256([1; 32]), &collected, &cells).unwrap();
    let mut spent: u128 = 0;
    for i in 0..collected.inputs_stake_cells.len() {
        let staker = collected.inputs_stake_cells.key_at(i);
        spent += collected.inputs_stake_cells.value_at(i).total;
        if collected.statistics.withdraw_amounts.contains_key(&staker) {
            spent += cells.get(&staker).unwrap().total;
        }
    }
    let mut made: u128 = 0;
    for output in &plan.outputs {
        match output {
            PlannedOutput::StakeSmt(_) => {}
            PlannedOutput::StakeAt { amount, .. } => made += amount,
            PlannedOutput::WithdrawAt { total, .. } => made += total,
        }
    }
    assert_eq!(spent, 100 + 7 + 200 + 300 + 0 + 1 + 11 + 90);
    assert_eq!(made, spent);
}

#[test]
fn supply_refuses_a_cell_without_an_amount() {
    let b = builder(10, 1, vec![stake_cell(0xE0, 25, true, 25, 12)]);
    let old_smt = leaves(&[(0xB0, 20), (0xC0, 30), (0xD0, 40)]);
    let mut collected: Collected = b.collect(&old_smt).unwrap();
    let bad = Cell { output_data: vec![1, 2], ..stake_cell(0xB0, 0, false, 0, 0) };
    assert_eq!(collected.supply(&bad), Err(CkbTxErr::Decode));
    assert_eq!(collected.pending, vec![addr(0xB0)]);
    assert!(!collected.inputs_stake_cells.contains_key(&addr(0xB0)));
}

#[test]
fn update_stake_smt_writes_every_leaf_as_an_increase() {
    let b = builder(10, 10, vec![]);
    let updates = b.update_stake_smt(&leaves(&[(2, 20), (1, 10)]));
    assert_eq!(
        updates,
        vec![
            UserAmount { user: addr(1), amount: 10, is_increase: true },
            UserAmount { user: addr(2), amount: 20, is_increase: true },
        ]
    );
    assert!(b.update_stake_smt(&leaves(&[])).is_empty());
}

#[test]
fn witness_leaves_lists_the_old_leaves() {
    let b = builder(10, 10, vec![]);
    assert_eq!(
        b.witness_leaves(&leaves(&[(2, 20), (1, 10)])),
        vec![StakeInfo { addr: addr(1), amount: 10 }, StakeInfo { addr: addr(2), amount: 20 }]
    );
}

#[test]
fn a_builder_keeps_what_it_was_made_with() {
    let b = builder(10, 7, vec![]);
    assert_eq!(b.kicker(), H256([9; 32]));
    assert_eq!(b.current_epoch(), 10);
    assert_eq!(b.quorum(), 7);
    assert_eq!(b.type_ids(), type_ids());
}
