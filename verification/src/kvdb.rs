//! The layout of the key-value store: its columns, the key of the epoch
//! marker, and the marker's value.

use crate::codec::{
    le_bytes, le_decode, le_encode, le_nat, lemma_le_bytes, lemma_le_nat_bound, lemma_pow256_values,
};
use crate::delta::DecodeError;
use vstd::prelude::*;
use vstd::slice::slice_subrange;

verus! {

/// The column of the stakers: under each staker's address its last delta,
/// and under the reserved key the epoch marker.
pub const STAKE_COLUMN: &'static str = "c_stake";

/// The column of the delegators: under each delegator's address its deltas.
pub const DELEGATE_COLUMN: &'static str = "c_delegate";

/// The bytes of the reserved key, which spell `current_epoch`.
pub open spec fn current_epoch_key_bytes() -> Seq<u8> {
    seq![99u8, 117u8, 114u8, 114u8, 101u8, 110u8, 116u8, 95u8, 101u8, 112u8, 111u8, 99u8, 104u8]
}

/// The reserved key under which the epoch marker stands.
pub fn current_epoch_key() -> (key: Vec<u8>)
    ensures
        key@ == current_epoch_key_bytes(),
{
    let key: Vec<u8> = vec![99u8, 117u8, 114u8, 114u8, 101u8, 110u8, 116u8, 95u8, 101u8, 112u8, 111u8, 99u8, 104u8];
    assert(key@ =~= current_epoch_key_bytes());
    key
}

/// The value of the epoch marker: the epoch in 8 bytes, least significant
/// first.
pub fn insert_current_epoch(epoch: u64) -> (value: Vec<u8>)
    ensures
        value@ == le_bytes(epoch as nat, 8),
        value@.len() == 8,
{
    le_encode(epoch as u128, 8)
}

/// The epoch that the store holds: the one that the first 8 bytes of the
/// marker stand for, and 0 where there is no marker yet. A marker of fewer
/// than 8 bytes is refused.
pub fn get_current_epoch(value: Option<&[u8]>) -> (res: Result<u64, DecodeError>)
    ensures
        value is None ==> res == Ok::<u64, DecodeError>(0),
        value matches Some(v) ==> (v@.len() >= 8 ==> res == Ok::<u64, DecodeError>(
            le_nat(v@.subrange(0, 8)) as u64,
        )) && (v@.len() < 8 ==> res == Err::<u64, DecodeError>(DecodeError::Truncated)),
{
    match value {
        None => Ok(0),
        Some(v) => {
            if v.len() < 8 {
                Err(DecodeError::Truncated)
            } else {
                let epoch: u128 = le_decode(slice_subrange(v, 0, 8));
                proof {
                    lemma_le_nat_bound(v@.subrange(0, 8));
                    lemma_pow256_values();
                }
                Ok(epoch as u64)
            }
        },
    }
}

/// The epoch that is read back from the marker is the epoch that was
/// written to it.
pub proof fn lemma_epoch_marker_round_trip(epoch: u64)
    ensures
        le_bytes(epoch as nat, 8).len() == 8,
        le_nat(le_bytes(epoch as nat, 8).subrange(0, 8)) == epoch,
{
    lemma_le_bytes(epoch as nat, 8);
    lemma_pow256_values();
    assert(le_bytes(epoch as nat, 8).subrange(0, 8) =~= le_bytes(epoch as nat, 8));
}

} // verus!
