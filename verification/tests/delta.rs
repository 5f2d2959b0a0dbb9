use spark::delta::{DecodeError, DelegateDelta, DelegateDeltas, Delta};
use spark::types::H160;

fn addr(byte: u8) -> H160 {
    H160([byte; 20])
}

#[test]
fn delta_encode_has_seventeen_bytes() {
    let d = Delta { is_increase: true, amount: 500 };
    let bytes = d.encode();
    assert_eq!(bytes.len(), 17);
    let mut expected = vec![0u8; 17];
    expected[1] = 0xf4;
    expected[2] = 0x01;
    assert_eq!(bytes, expected);
    assert_eq!(Delta::decode(&bytes), Ok(d));
}

#[test]
fn delta_encode_marks_a_decrease_with_one() {
    let d = Delta { is_increase: false, amount: 1 };
    let bytes = d.encode();
    assert_eq!(bytes[0], 1);
    assert_eq!(bytes[1], 1);
    assert_eq!(&bytes[2..], &[0u8; 15]);
}

#[test]
fn delta_round_trip_of_the_largest_amount() {
    let d = Delta { is_increase: false, amount: u128::MAX };
    let bytes = d.encode();
    assert_eq!(&bytes[1..], &[0xffu8; 16]);
    assert_eq!(Delta::decode(&bytes), Ok(d));
}

#[test]
fn delta_round_trip_keeps_every_byte_position() {
    let amount: u128 = 0x0102_0304_0506_0708_090a_0b0c_0d0e_0f10;
    let d = Delta { is_increase: true, amount };
    let bytes = d.encode();
    assert_eq!(bytes[1], 0x10);
    assert_eq!(bytes[16], 0x01);
    assert_eq!(&bytes[1..], &amount.to_le_bytes());
    assert_eq!(Delta::decode(&bytes), Ok(d));
}

#[test]
fn delta_decode_refuses_other_lengths() {
    assert_eq!(Delta::decode(&[0u8; 16]), Err(DecodeError::InvalidDeltaLength));
    assert_eq!(Delta::decode(&[0u8; 18]), Err(DecodeError::InvalidDeltaLength));
    assert_eq!(Delta::decode(&[]), Err(DecodeError::InvalidDeltaLength));
}

#[test]
fn delta_decode_reads_any_other_direction_byte_as_decrease() {
    let mut bytes = vec![0u8; 17];
    bytes[0] = 7;
    bytes[1] = 9;
    assert_eq!(Delta::decode(&bytes), Ok(Delta { is_increase: false, amount: 9 }));
}

#[test]
fn delta_default_is_a_decrease_of_nothing() {
    assert_eq!(Delta::default(), Delta { is_increase: false, amount: 0 });
}

#[test]
fn delta_from_flag_reads_one_as_increase() {
    assert_eq!(Delta::from_flag(1, 5), Delta { is_increase: true, amount: 5 });
    assert_eq!(Delta::from_flag(0, 5), Delta { is_increase: false, amount: 5 });
    assert_eq!(Delta::from_flag(2, 5), Delta { is_increase: false, amount: 5 });
}

#[test]
fn delta_amount_is_signed() {
    assert_eq!(Delta { is_increase: true, amount: 42 }.amount(), 42);
    assert_eq!(Delta { is_increase: false, amount: 42 }.amount(), -42);
    assert_eq!(Delta { is_increase: false, amount: 0 }.amount(), 0);
    assert_eq!(Delta { is_increase: true, amount: i64::MAX as u128 }.amount(), i64::MAX);
    assert_eq!(Delta { is_increase: false, amount: i64::MAX as u128 }.amount(), -i64::MAX);
}

#[test]
fn delta_amount_cuts_a_large_amount_to_its_low_bits() {
    assert_eq!(Delta { is_increase: true, amount: (1u128 << 64) + 3 }.amount(), 3);
    assert_eq!(Delta { is_increase: false, amount: (1u128 << 64) + 3 }.amount(), -3);
    assert_eq!(Delta { is_increase: true, amount: 1u128 << 63 }.amount(), i64::MIN);
    assert_eq!(Delta { is_increase: false, amount: 1u128 << 63 }.amount(), i64::MIN);
}

#[test]
fn delta_sub_is_signed_subtraction() {
    let inc = |amount| Delta { is_increase: true, amount };
    let dec = |amount| Delta { is_increase: false, amount };
    // (+5) - (+3) = +2
    assert_eq!(inc(5).sub(&inc(3)), inc(2));
    // (+3) - (+5) = -2
    assert_eq!(inc(3).sub(&inc(5)), dec(2));
    // (+5) - (-3) = +8
    assert_eq!(inc(5).sub(&dec(3)), inc(8));
    // (-5) - (+3) = -8
    assert_eq!(dec(5).sub(&inc(3)), dec(8));
    // (-5) - (-3) = -2
    assert_eq!(dec(5).sub(&dec(3)), dec(2));
    // (-3) - (-5) = +2
    assert_eq!(dec(3).sub(&dec(5)), inc(2));
}

#[test]
fn delta_sub_counts_zero_as_an_increase() {
    let inc = |amount| Delta { is_increase: true, amount };
    let dec = |amount| Delta { is_increase: false, amount };
    assert_eq!(inc(7).sub(&inc(7)), inc(0));
    assert_eq!(dec(7).sub(&dec(7)), inc(0));
    assert_eq!(dec(0).sub(&inc(0)), inc(0));
    assert_eq!(inc(0).sub(&dec(0)), inc(0));
}

#[test]
fn delta_sub_agrees_with_signed_numbers() {
    let values: [i64; 7] = [-9, -4, -1, 0, 1, 4, 9];
    for a in values {
        for b in values {
            let da = Delta { is_increase: a >= 0, amount: a.unsigned_abs() as u128 };
            let db = Delta { is_increase: b >= 0, amount: b.unsigned_abs() as u128 };
            assert_eq!(da.sub(&db).amount(), a - b);
        }
    }
}

#[test]
fn delta_checked_sub_refuses_what_does_not_fit() {
    let a = Delta { is_increase: true, amount: u128::MAX };
    let b = Delta { is_increase: false, amount: 1 };
    assert_eq!(a.checked_sub(&b), None);
    assert_eq!(b.checked_sub(&a), None);
    let c = Delta { is_increase: true, amount: 1 };
    assert_eq!(a.checked_sub(&c), Some(Delta { is_increase: true, amount: u128::MAX - 1 }));
    let d = Delta { is_increase: false, amount: 0 };
    assert_eq!(a.checked_sub(&d), Some(a));
}

#[test]
fn delegate_delta_encode_has_thirty_seven_bytes() {
    let d = DelegateDelta { staker: addr(0xAA), delta: Delta { is_increase: true, amount: 258 } };
    let bytes = d.encode();
    assert_eq!(bytes.len(), 37);
    assert_eq!(&bytes[..20], &[0xAAu8; 20]);
    assert_eq!(bytes[20], 0);
    assert_eq!(bytes[21], 2);
    assert_eq!(bytes[22], 1);
    assert_eq!(DelegateDelta::decode(&bytes), Ok(d));
}

#[test]
fn delegate_delta_decode_refuses_short_bytes_and_passes_over_a_tail() {
    let d = DelegateDelta { staker: addr(3), delta: Delta { is_increase: false, amount: 77 } };
    let mut bytes = d.encode();
    assert_eq!(DelegateDelta::decode(&bytes[..36]), Err(DecodeError::Truncated));
    bytes.push(0xEE);
    assert_eq!(DelegateDelta::decode(&bytes), Ok(d));
}

#[test]
fn delegate_delta_sub_keeps_the_staker() {
    let a = DelegateDelta { staker: addr(1), delta: Delta { is_increase: true, amount: 10 } };
    let b = DelegateDelta { staker: addr(1), delta: Delta { is_increase: true, amount: 4 } };
    let diff = a.sub(&b);
    assert_eq!(diff.staker, addr(1));
    assert_eq!(diff.delta, Delta { is_increase: true, amount: 6 });
}

#[test]
fn delegate_delta_default_is_all_zero() {
    let d = DelegateDelta::default();
    assert_eq!(d.staker, H160([0u8; 20]));
    assert_eq!(d.delta, Delta { is_increase: false, amount: 0 });
}

#[test]
fn delegate_deltas_encode_of_the_empty_map() {
    let m = DelegateDeltas::new();
    assert_eq!(m.len(), 0);
    assert_eq!(m.encode(), vec![0u8, 0, 0, 0]);
    let back = DelegateDeltas::decode(&[0u8, 0, 0, 0]).unwrap();
    assert_eq!(back.len(), 0);
}

#[test]
fn delegate_deltas_encode_in_the_order_of_the_stakers() {
    let mut m = DelegateDeltas::new();
    let c = DelegateDelta { staker: addr(0xCC), delta: Delta { is_increase: true, amount: 3 } };
    let a = DelegateDelta { staker: addr(0xAA), delta: Delta { is_increase: false, amount: 1 } };
    let b = DelegateDelta { staker: addr(0xBB), delta: Delta { is_increase: true, amount: 2 } };
    m.insert(c);
    m.insert(a);
    m.insert(b);
    assert_eq!(m.len(), 3);
    let bytes = m.encode();
    assert_eq!(bytes.len(), 4 + 37 * 3);
    assert_eq!(&bytes[..4], &[3u8, 0, 0, 0]);
    assert_eq!(&bytes[4..41], a.encode().as_slice());
    assert_eq!(&bytes[41..78], b.encode().as_slice());
    assert_eq!(&bytes[78..115], c.encode().as_slice());
    assert_eq!(m.record_at(0), a);
    assert_eq!(m.record_at(1), b);
    assert_eq!(m.record_at(2), c);
}

#[test]
fn delegate_deltas_order_goes_by_the_first_byte_that_differs() {
    let mut low = [0x10u8; 20];
    let mut high = [0x10u8; 20];
    low[19] = 0x01;
    high[0] = 0x11;
    high[19] = 0x00;
    let mut m = DelegateDeltas::new();
    m.insert(DelegateDelta { staker: H160(high), delta: Delta::default() });
    m.insert(DelegateDelta { staker: H160(low), delta: Delta::default() });
    assert_eq!(m.record_at(0).staker, H160(low));
    assert_eq!(m.record_at(1).staker, H160(high));
}

#[test]
fn delegate_deltas_round_trip() {
    let mut m = DelegateDeltas::new();
    for i in [9u8, 2, 200, 45, 1] {
        m.insert(DelegateDelta {
            staker: addr(i),
            delta: Delta { is_increase: i % 2 == 0, amount: (i as u128) << 70 },
        });
    }
    let bytes = m.encode();
    let back = DelegateDeltas::decode(&bytes).unwrap();
    assert_eq!(back.len(), 5);
    for i in 0..5 {
        assert_eq!(back.record_at(i), m.record_at(i));
    }
    assert_eq!(back.encode(), bytes);
    assert_eq!(back.get(&addr(200)), m.get(&addr(200)));
    assert!(back.contains_key(&addr(45)));
    assert!(!back.contains_key(&addr(46)));
    assert_eq!(back.get(&addr(46)), None);
}

#[test]
fn delegate_deltas_insert_replaces_the_record_of_a_staker() {
    let mut m = DelegateDeltas::new();
    m.insert(DelegateDelta { staker: addr(1), delta: Delta { is_increase: true, amount: 1 } });
    m.insert(DelegateDelta { staker: addr(1), delta: Delta { is_increase: false, amount: 9 } });
    assert_eq!(m.len(), 1);
    assert_eq!(m.get(&addr(1)).unwrap().delta, Delta { is_increase: false, amount: 9 });
}

#[test]
fn delegate_deltas_decode_keeps_the_later_of_two_records_of_one_staker() {
    let first = DelegateDelta { staker: addr(5), delta: Delta { is_increase: true, amount: 1 } };
    let second = DelegateDelta { staker: addr(5), delta: Delta { is_increase: true, amount: 2 } };
    let mut bytes = vec![2u8, 0, 0, 0];
    bytes.extend_from_slice(&first.encode());
    bytes.extend_from_slice(&second.encode());
    let m = DelegateDeltas::decode(&bytes).unwrap();
    assert_eq!(m.len(), 1);
    assert_eq!(m.get(&addr(5)), Some(second));
}

#[test]
fn delegate_deltas_decode_reads_records_in_any_order() {
    let high = DelegateDelta { staker: addr(9), delta: Delta { is_increase: true, amount: 1 } };
    let low = DelegateDelta { staker: addr(2), delta: Delta { is_increase: true, amount: 2 } };
    let mut bytes = vec![2u8, 0, 0, 0];
    bytes.extend_from_slice(&high.encode());
    bytes.extend_from_slice(&low.encode());
    let m = DelegateDeltas::decode(&bytes).unwrap();
    assert_eq!(m.record_at(0), low);
    assert_eq!(m.record_at(1), high);
}

#[test]
fn delegate_deltas_decode_refuses_truncated_bytes() {
    assert_eq!(DelegateDeltas::decode(&[]).unwrap_err(), DecodeError::Truncated);
    assert_eq!(DelegateDeltas::decode(&[1, 0, 0]).unwrap_err(), DecodeError::Truncated);
    let d = DelegateDelta { staker: addr(5), delta: Delta { is_increase: true, amount: 1 } };
    let mut bytes = vec![2u8, 0, 0, 0];
    bytes.extend_from_slice(&d.encode());
    assert_eq!(DelegateDeltas::decode(&bytes).unwrap_err(), DecodeError::Truncated);
    bytes.extend_from_slice(&d.encode()[..36]);
    assert_eq!(DelegateDeltas::decode(&bytes).unwrap_err(), DecodeError::Truncated);
    let huge = [0xffu8, 0xff, 0xff, 0xff, 0, 0, 0];
    assert_eq!(DelegateDeltas::decode(&huge).unwrap_err(), DecodeError::Truncated);
}

#[test]
fn delegate_deltas_decode_passes_over_a_tail() {
    let d = DelegateDelta { staker: addr(5), delta: Delta { is_increase: true, amount: 1 } };
    let mut bytes = vec![1u8, 0, 0, 0];
    bytes.extend_from_slice(&d.encode());
    bytes.extend_from_slice(&[1, 2, 3]);
    let m = DelegateDeltas::decode(&bytes).unwrap();
    assert_eq!(m.len(), 1);
    assert_eq!(m.get(&addr(5)), Some(d));
}

#[test]
fn delegate_deltas_default_is_empty() {
    let m = DelegateDeltas::default();
    assert_eq!(m.len(), 0);
}
