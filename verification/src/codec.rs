//! Little-endian integers of fixed width, as they stand in cell data and in
//! the key-value store.

use vstd::prelude::*;

verus! {

/// The number that a little-endian byte string stands for: the sum of
/// `s[i] * 256^i`.
pub open spec fn le_nat(s: Seq<u8>) -> nat
    decreases s.len(),
{
    if s.len() == 0 {
        0
    } else {
        s[0] as nat + 256 * le_nat(s.drop_first())
    }
}

/// `256^n`.
pub open spec fn pow256(n: nat) -> nat
    decreases n,
{
    if n == 0 {
        1
    } else {
        256 * pow256((n - 1) as nat)
    }
}

/// The `width` low bytes of `value`, least significant first.
pub open spec fn le_bytes(value: nat, width: nat) -> Seq<u8>
    decreases width,
{
    if width == 0 {
        Seq::empty()
    } else {
        seq![(value % 256) as u8] + le_bytes(value / 256, (width - 1) as nat)
    }
}

/// `le_bytes` gives `width` bytes, and they stand for `value` where `value`
/// fits in them.
pub proof fn lemma_le_bytes(value: nat, width: nat)
    ensures
        le_bytes(value, width).len() == width,
        value < pow256(width) ==> le_nat(le_bytes(value, width)) == value,
    decreases width,
{
    if width > 0 {
        lemma_le_bytes(value / 256, (width - 1) as nat);
        let head = seq![(value % 256) as u8];
        let tail = le_bytes(value / 256, (width - 1) as nat);
        assert((head + tail).drop_first() =~= tail);
        assert((head + tail)[0] == (value % 256) as u8);
    }
}

/// A byte string of length `n` stands for a number below `256^n`.
pub proof fn lemma_le_nat_bound(s: Seq<u8>)
    ensures
        le_nat(s) < pow256(s.len()),
    decreases s.len(),
{
    if s.len() > 0 {
        lemma_le_nat_bound(s.drop_first());
    }
}

/// The first powers of 256 that the fixed widths need.
pub proof fn lemma_pow256_values()
    ensures
        pow256(0) == 1,
        pow256(1) == 0x100,
        pow256(4) == 0x1_0000_0000,
        pow256(8) == 0x1_0000_0000_0000_0000,
        pow256(16) == 0x1_0000_0000_0000_0000_0000_0000_0000_0000,
{
    reveal_with_fuel(pow256, 17);
}

/// The `width` low bytes of `value`, least significant first.
pub fn le_encode(value: u128, width: usize) -> (out: Vec<u8>)
    ensures
        out@ == le_bytes(value as nat, width as nat),
        out@.len() == width,
{
    let mut out: Vec<u8> = Vec::new();
    let mut rest: u128 = value;
    let mut i: usize = 0;
    proof {
        assert(out@ + le_bytes(rest as nat, width as nat) =~= le_bytes(value as nat, width as nat));
    }
    while i < width
        invariant
            i <= width,
            out@.len() == i,
            out@ + le_bytes(rest as nat, (width - i) as nat) == le_bytes(value as nat, width as nat),
        decreases width - i,
    {
        let low: u8 = (rest % 256) as u8;
        let high: u128 = rest / 256;
        proof {
            let tail = le_bytes(high as nat, (width - i - 1) as nat);
            assert(le_bytes(rest as nat, (width - i) as nat) == seq![low] + tail);
            assert(out@.push(low) + tail =~= out@ + (seq![low] + tail));
        }
        out.push(low);
        rest = high;
        i = i + 1;
    }
    proof {
        assert(out@ + le_bytes(rest as nat, 0) =~= out@);
    }
    out
}

/// The number that the bytes of `bytes` stand for, least significant first.
pub fn le_decode(bytes: &[u8]) -> (value: u128)
    requires
        bytes@.len() <= 16,
    ensures
        value == le_nat(bytes@),
{
    let n: usize = bytes.len();
    let mut value: u128 = 0;
    let mut i: usize = n;
    proof {
        assert(bytes@.subrange(n as int, n as int) =~= Seq::<u8>::empty());
    }
    while i > 0
        invariant
            i <= n,
            n == bytes@.len(),
            n <= 16,
            value == le_nat(bytes@.subrange(i as int, n as int)),
        decreases i,
    {
        i = i - 1;
        proof {
            let tail = bytes@.subrange(i as int, n as int);
            assert(tail.drop_first() =~= bytes@.subrange(i + 1, n as int));
            lemma_le_nat_bound(tail.drop_first());
            lemma_le_nat_bound(tail);
            lemma_pow256_monotonic(tail.len(), 16);
            lemma_pow256_values();
        }
        value = value * 256 + bytes[i] as u128;
    }
    proof {
        assert(bytes@.subrange(0, n as int) =~= bytes@);
    }
    value
}

/// Powers of 256 grow with the exponent.
pub proof fn lemma_pow256_monotonic(a: nat, b: nat)
    requires
        a <= b,
    ensures
        pow256(a) <= pow256(b),
        pow256(a) >= 1,
    decreases b,
{
    if a < b {
        lemma_pow256_monotonic(a, (b - 1) as nat);
    } else if a > 0 {
        lemma_pow256_monotonic((a - 1) as nat, (a - 1) as nat);
    }
}

} // verus!
