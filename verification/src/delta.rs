//! Signed changes of an amount and their wire form, as the key-value store
//! keeps them for each staker and delegator.

use crate::addr_map::{ascending, entries_map, index_of, lemma_entry, lemma_insert, AddrMap};
use crate::codec::{
    le_bytes, le_decode, le_encode, le_nat, lemma_le_bytes, lemma_le_nat_bound, lemma_pow256_values,
};
use crate::types::{h160_of, H160};
use vstd::pervasive::unreached;
use vstd::prelude::*;
use vstd::slice::slice_subrange;

verus! {

/// The width of an encoded [`Delta`].
pub const DELTA_WIRE_LEN: usize = 17;

/// The width of an encoded [`DelegateDelta`].
pub const DELEGATE_DELTA_WIRE_LEN: usize = 37;

/// Why a byte string is not the wire form of a value of this module.
#[derive(Clone, Copy, Debug, PartialEq, Eq)]
pub enum DecodeError {
    /// A delta does not have exactly 17 bytes.
    InvalidDeltaLength,
    /// The bytes end before the record or the list that they announce.
    Truncated,
}

/// A change of an amount: its direction and its size.
#[derive(Clone, Copy, Debug, PartialEq, Eq, Structural)]
pub struct Delta {
    pub is_increase: bool,
    pub amount: u128,
}

/// The wire form of a delta: one byte for the direction, 0 for an increase
/// and 1 for a decrease, then the amount in 16 bytes, least significant
/// first.
pub open spec fn delta_wire(d: Delta) -> Seq<u8> {
    seq![if d.is_increase { 0u8 } else { 1u8 }] + le_bytes(d.amount as nat, 16)
}

/// The delta that 17 bytes stand for. Any direction byte but 0 is a
/// decrease.
pub open spec fn delta_of_wire(bytes: Seq<u8>) -> Delta {
    Delta { is_increase: bytes[0] == 0, amount: le_nat(bytes.subrange(1, 17)) as u128 }
}

/// Decoding what was encoded gives the delta back, and the encoding has 17
/// bytes.
pub proof fn lemma_delta_round_trip(d: Delta)
    ensures
        delta_wire(d).len() == 17,
        delta_of_wire(delta_wire(d)) == d,
{
    lemma_le_bytes(d.amount as nat, 16);
    lemma_pow256_values();
    assert(delta_wire(d).subrange(1, 17) =~= le_bytes(d.amount as nat, 16));
}

impl Default for Delta {
    fn default() -> (d: Delta)
        ensures
            d == (Delta { is_increase: false, amount: 0 }),
    {
        Delta { is_increase: false, amount: 0 }
    }
}

impl Delta {
    /// The change as a signed number: `+amount` for an increase, `-amount`
    /// for a decrease.
    pub open spec fn signed(&self) -> int {
        if self.is_increase {
            self.amount as int
        } else {
            -(self.amount as int)
        }
    }

    /// The delta of a cell's payload, where the flag byte 1 marks an
    /// increase and any other value a decrease.
    pub fn from_flag(flag: u8, amount: u128) -> (d: Delta)
        ensures
            d == (Delta { is_increase: flag == 1, amount }),
    {
        Delta { is_increase: flag == 1, amount }
    }

    /// The signed change in 64 bits. It is exact where the amount fits;
    /// a larger amount is cut to its low 64 bits first, as a cast does.
    pub fn amount(&self) -> (signed: i64)
        ensures
            self.amount <= i64::MAX ==> signed == self.signed(),
            self.is_increase ==> signed == self.amount as i64,
            !self.is_increase && (self.amount as i64) != i64::MIN ==> signed == -(self.amount as i64),
            !self.is_increase && (self.amount as i64) == i64::MIN ==> signed == i64::MIN,
    {
        let low: i64 = #[verifier::truncate] (self.amount as i64);
        if self.is_increase {
            low
        } else if low == i64::MIN {
            i64::MIN
        } else {
            -low
        }
    }

    /// The wire form of the delta.
    pub fn encode(&self) -> (bytes: Vec<u8>)
        ensures
            bytes@ == delta_wire(*self),
            bytes@.len() == 17,
    {
        let mut bytes: Vec<u8> = Vec::new();
        bytes.push(if self.is_increase { 0u8 } else { 1u8 });
        let mut amount = le_encode(self.amount, 16);
        bytes.append(&mut amount);
        proof {
            lemma_le_bytes(self.amount as nat, 16);
            assert(bytes@ =~= delta_wire(*self));
        }
        bytes
    }

    /// The delta that `raw` stands for. Anything but 17 bytes is refused.
    pub fn decode(raw: &[u8]) -> (res: Result<Delta, DecodeError>)
        ensures
            raw@.len() == 17 ==> res == Ok::<Delta, DecodeError>(delta_of_wire(raw@)),
            raw@.len() != 17 ==> res == Err::<Delta, DecodeError>(DecodeError::InvalidDeltaLength),
    {
        if raw.len() != 17 {
            return Err(DecodeError::InvalidDeltaLength);
        }
        let amount = le_decode(slice_subrange(raw, 1, 17));
        Ok(Delta { is_increase: raw[0] == 0, amount })
    }

    /// Whether `self - other` fits in a delta: whether its size is at most
    /// the largest amount.
    pub open spec fn sub_fits(&self, other: &Delta) -> bool {
        -(u128::MAX as int) <= self.signed() - other.signed() <= u128::MAX as int
    }

    /// What [`Delta::sub`] returns: the signed difference, with a difference
    /// of zero counted as an increase.
    pub open spec fn sub_spec(&self, other: &Delta) -> Delta {
        let diff = self.signed() - other.signed();
        if diff >= 0 {
            Delta { is_increase: true, amount: diff as u128 }
        } else {
            Delta { is_increase: false, amount: (-diff) as u128 }
        }
    }

    /// The signed difference `self - other`, or nothing where its size is
    /// beyond the largest amount.
    pub fn checked_sub(&self, other: &Delta) -> (res: Option<Delta>)
        ensures
            self.sub_fits(other) ==> res == Some(self.sub_spec(other)),
            !self.sub_fits(other) ==> res is None,
    {
        if self.is_increase == other.is_increase {
            // The sizes subtract; the larger one decides the direction.
            if self.amount >= other.amount {
                let amount = self.amount - other.amount;
                Some(Delta { is_increase: self.is_increase || amount == 0, amount })
            } else {
                Some(Delta { is_increase: !self.is_increase, amount: other.amount - self.amount })
            }
        } else {
            // The sizes add; the direction is that of `self`.
            match self.amount.checked_add(other.amount) {
                Some(amount) => Some(Delta { is_increase: self.is_increase || amount == 0, amount }),
                None => None,
            }
        }
    }

    /// The signed difference `self - other`.
    pub fn sub(&self, other: &Delta) -> (diff: Delta)
        requires
            self.sub_fits(other),
        ensures
            diff == self.sub_spec(other),
            diff.signed() == self.signed() - other.signed(),
    {
        match self.checked_sub(other) {
            Some(diff) => diff,
            None => unreached(),
        }
    }
}

/// Subtraction of deltas is subtraction of the signed numbers that they
/// stand for, wherever the difference fits in a delta.
pub proof fn lemma_sub_is_signed_subtraction(a: Delta, b: Delta)
    requires
        a.sub_fits(&b),
    ensures
        a.sub_spec(&b).signed() == a.signed() - b.signed(),
{
}

/// The change that one delegator asks of the delegation to one staker.
#[derive(Clone, Copy, Debug, PartialEq, Eq)]
pub struct DelegateDelta {
    pub staker: H160,
    pub delta: Delta,
}

/// The wire form of a delegate delta: the 20 bytes of the staker, then the
/// delta.
pub open spec fn delegate_delta_wire(d: DelegateDelta) -> Seq<u8> {
    d.staker@ + delta_wire(d.delta)
}

/// The delegate delta that 37 bytes stand for.
pub open spec fn delegate_delta_of_wire(bytes: Seq<u8>) -> DelegateDelta {
    DelegateDelta {
        staker: h160_of(bytes.subrange(0, 20)),
        delta: delta_of_wire(bytes.subrange(20, 37)),
    }
}

/// Decoding what was encoded gives the delegate delta back, and the encoding
/// has 37 bytes.
pub proof fn lemma_delegate_delta_round_trip(d: DelegateDelta)
    ensures
        delegate_delta_wire(d).len() == 37,
        delegate_delta_of_wire(delegate_delta_wire(d)) == d,
{
    lemma_delta_round_trip(d.delta);
    H160::lemma_identity(d.staker, d.staker);
    let w = delegate_delta_wire(d);
    assert(w.subrange(0, 20) =~= d.staker@);
    assert(w.subrange(20, 37) =~= delta_wire(d.delta));
}

impl Default for DelegateDelta {
    fn default() -> (d: DelegateDelta)
        ensures
            d.staker@ == Seq::new(20, |i: int| 0u8),
            d.delta == (Delta { is_increase: false, amount: 0 }),
    {
        DelegateDelta { staker: H160::zero(), delta: Delta { is_increase: false, amount: 0 } }
    }
}

impl DelegateDelta {
    /// The wire form of the delegate delta.
    pub fn encode(&self) -> (bytes: Vec<u8>)
        ensures
            bytes@ == delegate_delta_wire(*self),
            bytes@.len() == 37,
    {
        let mut bytes = self.staker.to_vec();
        let mut delta = self.delta.encode();
        bytes.append(&mut delta);
        proof {
            H160::lemma_identity(self.staker, self.staker);
        }
        bytes
    }

    /// The delegate delta that the first 37 bytes of `raw` stand for. A
    /// shorter string is refused.
    pub fn decode(raw: &[u8]) -> (res: Result<DelegateDelta, DecodeError>)
        ensures
            raw@.len() >= 37 ==> res == Ok::<DelegateDelta, DecodeError>(
                delegate_delta_of_wire(raw@.subrange(0, 37)),
            ),
            raw@.len() < 37 ==> res == Err::<DelegateDelta, DecodeError>(DecodeError::Truncated),
    {
        if raw.len() < 37 {
            return Err(DecodeError::Truncated);
        }
        proof {
            assert(raw@.subrange(0, 37).subrange(0, 20) =~= raw@.subrange(0, 20));
            assert(raw@.subrange(0, 37).subrange(20, 37) =~= raw@.subrange(20, 37));
        }
        let staker = match H160::from_slice(slice_subrange(raw, 0, 20)) {
            Ok(staker) => staker,
            Err(_) => {
                return Err(DecodeError::Truncated);
            },
        };
        let delta = match Delta::decode(slice_subrange(raw, 20, 37)) {
            Ok(delta) => delta,
            Err(_) => {
                return Err(DecodeError::Truncated);
            },
        };
        Ok(DelegateDelta { staker, delta })
    }

    /// The difference of two changes of the delegation to one staker.
    pub fn sub(&self, other: &DelegateDelta) -> (diff: DelegateDelta)
        requires
            self.staker == other.staker,
            self.delta.sub_fits(&other.delta),
        ensures
            diff.staker == self.staker,
            diff.delta == self.delta.sub_spec(&other.delta),
            diff.delta.signed() == self.delta.signed() - other.delta.signed(),
    {
        DelegateDelta { staker: self.staker, delta: self.delta.sub(&other.delta) }
    }
}

/// The wire form of a list of records, one after the other.
pub open spec fn records_wire(s: Seq<(H160, DelegateDelta)>) -> Seq<u8>
    decreases s.len(),
{
    if s.len() == 0 {
        Seq::empty()
    } else {
        records_wire(s.drop_last()) + delegate_delta_wire(s.last().1)
    }
}

/// The wire form of the deltas of one delegator: the number of records in 4
/// bytes, least significant first, then the records in the order of their
/// stakers.
pub open spec fn deltas_wire(s: Seq<(H160, DelegateDelta)>) -> Seq<u8> {
    le_bytes(s.len(), 4) + records_wire(s)
}

/// The number of records that an encoded list announces.
pub open spec fn wire_count(raw: Seq<u8>) -> nat {
    le_nat(raw.subrange(0, 4))
}

/// The `i`-th record of an encoded list.
pub open spec fn wire_record(raw: Seq<u8>, i: int) -> DelegateDelta {
    delegate_delta_of_wire(raw.subrange(4 + 37 * i, 4 + 37 * i + 37))
}

/// The map that the first `n` records of an encoded list stand for. Where a
/// staker occurs twice, the later record stays.
pub open spec fn wire_map(raw: Seq<u8>, n: nat) -> Map<H160, DelegateDelta>
    decreases n,
{
    if n == 0 {
        Map::empty()
    } else {
        let d = wire_record(raw, n - 1);
        wire_map(raw, (n - 1) as nat).insert(d.staker, d)
    }
}

/// The records of a list lie in its wire form one after the other, each in
/// 37 bytes.
pub proof fn lemma_records_wire(s: Seq<(H160, DelegateDelta)>, i: int)
    requires
        0 <= i < s.len(),
    ensures
        records_wire(s).len() == 37 * s.len(),
        records_wire(s).subrange(37 * i, 37 * i + 37) == delegate_delta_wire(s[i].1),
    decreases s.len(),
{
    let t = s.drop_last();
    lemma_records_len(t);
    lemma_delegate_delta_round_trip(s.last().1);
    if i == s.len() - 1 {
        assert(records_wire(s).subrange(37 * i, 37 * i + 37) =~= delegate_delta_wire(s[i].1));
    } else {
        lemma_records_wire(t, i);
        assert(records_wire(s).subrange(37 * i, 37 * i + 37) =~= records_wire(t).subrange(
            37 * i,
            37 * i + 37,
        ));
    }
}

/// The wire form of a list of records has 37 bytes for each record.
pub proof fn lemma_records_len(s: Seq<(H160, DelegateDelta)>)
    ensures
        records_wire(s).len() == 37 * s.len(),
    decreases s.len(),
{
    if s.len() > 0 {
        lemma_records_len(s.drop_last());
        lemma_delegate_delta_round_trip(s.last().1);
    }
}

/// The last known deltas of one delegator, one for each staker. The map
/// hands its records out in the order of the stakers.
#[derive(Debug)]
pub struct DelegateDeltas {
    inner: AddrMap<DelegateDelta>,
}

impl View for DelegateDeltas {
    type V = Map<H160, DelegateDelta>;

    open spec fn view(&self) -> Map<H160, DelegateDelta> {
        entries_map(self.entries())
    }
}

impl DelegateDeltas {
    /// The records in the order of their stakers, each with its key.
    pub closed spec fn entries(&self) -> Seq<(H160, DelegateDelta)> {
        self.inner.entries()
    }

    /// What holds of every value that this module hands out: the stakers
    /// strictly ascend, and each record stands under its own staker.
    pub open spec fn wf(&self) -> bool {
        &&& ascending(self.entries())
        &&& forall|i: int|
            0 <= i < self.entries().len() ==> (#[trigger] self.entries()[i]).1.staker
                == self.entries()[i].0
    }

    /// The empty map.
    pub fn new() -> (deltas: DelegateDeltas)
        ensures
            deltas.wf(),
            deltas@ == Map::<H160, DelegateDelta>::empty(),
            deltas.entries().len() == 0,
    {
        DelegateDeltas { inner: AddrMap::new() }
    }

    /// The number of stakers.
    pub fn len(&self) -> (n: usize)
        requires
            self.wf(),
        ensures
            n == self@.dom().len(),
            n == self.entries().len(),
    {
        self.inner.len()
    }

    /// Whether the map holds a record for `staker`.
    pub fn contains_key(&self, staker: &H160) -> (found: bool)
        requires
            self.wf(),
        ensures
            found == self@.contains_key(*staker),
    {
        self.inner.contains_key(staker)
    }

    /// The record for `staker`, if there is one.
    pub fn get(&self, staker: &H160) -> (record: Option<DelegateDelta>)
        requires
            self.wf(),
        ensures
            self@.contains_key(*staker) ==> record == Some(self@[*staker]),
            !self@.contains_key(*staker) ==> record is None,
    {
        match self.inner.get(staker) {
            Some(record) => Some(*record),
            None => None,
        }
    }

    /// The `i`-th record in the order of the stakers.
    pub fn record_at(&self, i: usize) -> (record: DelegateDelta)
        requires
            self.wf(),
            i < self.entries().len(),
        ensures
            record == self.entries()[i as int].1,
            record.staker == self.entries()[i as int].0,
            self@.contains_key(record.staker),
            self@[record.staker] == record,
    {
        *self.inner.value_at(i)
    }

    /// Puts `record` under its staker, in place of the record that was
    /// there, if any.
    pub fn insert(&mut self, record: DelegateDelta)
        requires
            old(self).wf(),
        ensures
            final(self).wf(),
            final(self)@ == old(self)@.insert(record.staker, record),
    {
        let ghost before = self.entries();
        self.inner.insert(record.staker, record);
        proof {
            let after = self.entries();
            assert forall|i: int| 0 <= i < after.len() implies (#[trigger] after[i]).1.staker
                == after[i].0 by {
                lemma_entry(after, i);
                let k = after[i].0;
                if k != record.staker {
                    assert(entries_map(before).contains_key(k));
                    let j = index_of(before, k);
                    lemma_entry(before, j);
                }
            }
        }
    }

    /// The wire form of the map.
    pub fn encode(&self) -> (bytes: Vec<u8>)
        requires
            self.wf(),
        ensures
            bytes@ == deltas_wire(self.entries()),
            bytes@.len() == 4 + 37 * self.entries().len(),
    {
        let n: usize = self.inner.len();
        let mut bytes = le_encode(n as u128, 4);
        let mut i: usize = 0;
        proof {
            lemma_le_bytes(n as nat, 4);
            assert(self.entries().take(0) =~= Seq::<(H160, DelegateDelta)>::empty());
            assert(bytes@ =~= le_bytes(n as nat, 4) + records_wire(self.entries().take(0)));
        }
        while i < n
            invariant
                i <= n,
                n == self.entries().len(),
                self.wf(),
                bytes@ == le_bytes(n as nat, 4) + records_wire(self.entries().take(i as int)),
            decreases n - i,
        {
            let mut record = self.inner.value_at(i).encode();
            proof {
                let head = self.entries().take(i as int);
                let next = self.entries().take(i + 1);
                assert(next.drop_last() =~= head);
                assert(next.last() == self.entries()[i as int]);
                assert(le_bytes(n as nat, 4) + records_wire(head) + record@ =~= le_bytes(
                    n as nat,
                    4,
                ) + records_wire(next));
            }
            bytes.append(&mut record);
            i = i + 1;
        }
        proof {
            assert(self.entries().take(n as int) =~= self.entries());
            lemma_records_len(self.entries());
            lemma_le_bytes(n as nat, 4);
        }
        bytes
    }

    /// The map that `raw` stands for, or nothing where the bytes end before
    /// the last record that they announce.
    pub open spec fn decode_outcome(raw: Seq<u8>) -> Option<Map<H160, DelegateDelta>> {
        if raw.len() >= 4 && raw.len() >= 4 + 37 * wire_count(raw) {
            Some(wire_map(raw, wire_count(raw)))
        } else {
            None
        }
    }

    /// The map that `raw` stands for: the records that its first four bytes
    /// announce, read one after the other. Bytes that end before the last
    /// announced record are refused; bytes after it are not read.
    pub fn decode(raw: &[u8]) -> (res: Result<DelegateDeltas, DecodeError>)
        ensures
            raw@.len() >= 4 && raw@.len() >= 4 + 37 * wire_count(raw@) ==> res is Ok
                && res->Ok_0.wf() && res->Ok_0@ == wire_map(raw@, wire_count(raw@)),
            raw@.len() < 4 || raw@.len() < 4 + 37 * wire_count(raw@) ==> res == Err::<
                DelegateDeltas,
                DecodeError,
            >(DecodeError::Truncated),
    {
        if raw.len() < 4 {
            return Err(DecodeError::Truncated);
        }
        let announced: u128 = le_decode(slice_subrange(raw, 0, 4));
        proof {
            lemma_le_nat_bound(raw@.subrange(0, 4));
            lemma_pow256_values();
        }
        let len: usize = raw.len();
        let room: usize = (len - 4) / 37;
        if announced > room as u128 {
            return Err(DecodeError::Truncated);
        }
        let count: usize = announced as usize;
        let mut deltas = DelegateDeltas::new();
        let mut i: usize = 0;
        while i < count
            invariant
                i <= count,
                count == wire_count(raw@),
                len == raw@.len(),
                4 + 37 * count <= len,
                deltas.wf(),
                deltas@ == wire_map(raw@, i as nat),
            decreases count - i,
        {
            let offset: usize = 4 + i * 37;
            proof {
                assert(raw@.subrange(offset as int, offset + 37).subrange(0, 37) =~= raw@.subrange(
                    4 + 37 * i,
                    4 + 37 * i + 37,
                ));
            }
            match DelegateDelta::decode(slice_subrange(raw, offset, offset + 37)) {
                Ok(record) => {
                    deltas.insert(record);
                },
                Err(_) => {
                    return Err(DecodeError::Truncated);
                },
            }
            i = i + 1;
        }
        Ok(deltas)
    }
}

impl Default for DelegateDeltas {
    fn default() -> (deltas: DelegateDeltas)
        ensures
            deltas.wf(),
            deltas@ == Map::<H160, DelegateDelta>::empty(),
    {
        DelegateDeltas::new()
    }
}

/// Decoding the wire form of a map of at most `2^32 - 1` records gives the
/// map back. The wire form has `4 + 37 * n` bytes for `n` records, announces
/// `n`, and holds the records in the ascending order of their stakers.
pub proof fn lemma_deltas_round_trip(m: DelegateDeltas)
    requires
        m.wf(),
        m.entries().len() <= u32::MAX,
    ensures
        deltas_wire(m.entries()).len() == 4 + 37 * m.entries().len(),
        wire_count(deltas_wire(m.entries())) == m.entries().len(),
        wire_map(deltas_wire(m.entries()), m.entries().len()) == m@,
        forall|i: int|
            0 <= i < m.entries().len() ==> #[trigger] wire_record(deltas_wire(m.entries()), i)
                == m.entries()[i].1,
        forall|i: int, j: int|
            0 <= i < j < m.entries().len() ==> (#[trigger] wire_record(
                deltas_wire(m.entries()),
                i,
            )).staker.key() < (#[trigger] wire_record(deltas_wire(m.entries()), j)).staker.key(),
{
    let s = m.entries();
    let w = deltas_wire(s);
    lemma_le_bytes(s.len(), 4);
    lemma_pow256_values();
    lemma_records_len(s);
    assert(w.subrange(0, 4) =~= le_bytes(s.len(), 4));
    assert forall|i: int| 0 <= i < s.len() implies #[trigger] wire_record(w, i) == s[i].1 by {
        lemma_records_wire(s, i);
        assert(w.subrange(4 + 37 * i, 4 + 37 * i + 37) =~= records_wire(s).subrange(
            37 * i,
            37 * i + 37,
        ));
        lemma_delegate_delta_round_trip(s[i].1);
    }
    assert forall|i: int, j: int| 0 <= i < j < s.len() implies (#[trigger] wire_record(
        w,
        i,
    )).staker.key() < (#[trigger] wire_record(w, j)).staker.key() by {
        assert(s[i].0.key() < s[j].0.key());
    }
    lemma_wire_map_prefix(w, s, s.len());
    assert(s.take(s.len() as int) =~= s);
}

/// The first `n` records of a wire form that holds the records of `s` stand
/// for the first `n` entries of `s`.
proof fn lemma_wire_map_prefix(w: Seq<u8>, s: Seq<(H160, DelegateDelta)>, n: nat)
    requires
        ascending(s),
        n <= s.len(),
        forall|i: int| 0 <= i < s.len() ==> #[trigger] wire_record(w, i) == s[i].1,
        forall|i: int| 0 <= i < s.len() ==> (#[trigger] s[i]).1.staker == s[i].0,
    ensures
        wire_map(w, n) == entries_map(s.take(n as int)),
    decreases n,
{
    if n == 0 {
        assert(entries_map(s.take(0)) =~= Map::<H160, DelegateDelta>::empty());
    } else {
        lemma_wire_map_prefix(w, s, (n - 1) as nat);
        let head = s.take(n - 1);
        let d = s[n - 1].1;
        assert(wire_record(w, n - 1) == d);
        assert(d.staker == s[n - 1].0);
        assert forall|i: int| 0 <= i < head.len() implies (#[trigger] head[i]).0.key()
            < d.staker.key() by {
            assert(head[i] == s[i]);
            assert(s[i].0.key() < s[n - 1].0.key());
        }
        assert(ascending(head)) by {
            assert forall|i: int, j: int| 0 <= i < j < head.len() implies (#[trigger] head[i]).0.key()
                < (#[trigger] head[j]).0.key() by {
                assert(head[i] == s[i]);
                assert(head[j] == s[j]);
            }
        }
        lemma_insert(head, n - 1, d.staker, d);
        assert(head.insert(n - 1, (d.staker, d)) =~= s.take(n as int));
    }
}

} // verus!
