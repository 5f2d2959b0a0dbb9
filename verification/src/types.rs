//! Fixed-width identifiers: 20-byte addresses and 32-byte hashes.

use vstd::prelude::*;

verus! {

/// The number that a big-endian byte string stands for. On strings of one
/// length its order is the lexicographic order of the bytes.
pub open spec fn be_nat(s: Seq<u8>) -> nat
    decreases s.len(),
{
    if s.len() == 0 {
        0
    } else {
        be_nat(s.drop_last()) * 256 + s.last() as nat
    }
}

/// Two byte strings of one length that stand for the same big-endian number
/// are equal.
pub proof fn lemma_be_nat_injective(a: Seq<u8>, b: Seq<u8>)
    requires
        a.len() == b.len(),
        be_nat(a) == be_nat(b),
    ensures
        a == b,
    decreases a.len(),
{
    if a.len() > 0 {
        lemma_be_nat_injective(a.drop_last(), b.drop_last());
        assert(a =~= a.drop_last().push(a.last()));
        assert(b =~= b.drop_last().push(b.last()));
    }
    assert(a =~= b);
}

/// Whether two byte strings hold the same bytes.
pub fn bytes_equal(a: &[u8], b: &[u8]) -> (same: bool)
    ensures
        same == (a@ == b@),
{
    if a.len() != b.len() {
        return false;
    }
    let n: usize = a.len();
    let mut i: usize = 0;
    while i < n
        invariant
            i <= n,
            n == a@.len(),
            n == b@.len(),
            forall|j: int| 0 <= j < i ==> a@[j] == b@[j],
        decreases n - i,
    {
        if a[i] != b[i] {
            return false;
        }
        i = i + 1;
    }
    assert(a@ =~= b@);
    true
}

/// Whether `a` comes before `b` in the lexicographic order of their bytes.
pub fn bytes_before(a: &[u8], b: &[u8]) -> (before: bool)
    requires
        a@.len() == b@.len(),
    ensures
        before == (be_nat(a@) < be_nat(b@)),
{
    let n: usize = a.len();
    let mut before: bool = false;
    let mut same: bool = true;
    let mut i: usize = 0;
    proof {
        assert(a@.take(0) =~= Seq::<u8>::empty());
        assert(b@.take(0) =~= Seq::<u8>::empty());
    }
    while i < n
        invariant
            i <= n,
            n == a@.len(),
            n == b@.len(),
            before == (be_nat(a@.take(i as int)) < be_nat(b@.take(i as int))),
            same == (be_nat(a@.take(i as int)) == be_nat(b@.take(i as int))),
        decreases n - i,
    {
        proof {
            assert(a@.take(i + 1).drop_last() =~= a@.take(i as int));
            assert(b@.take(i + 1).drop_last() =~= b@.take(i as int));
        }
        before = before || (same && a[i] < b[i]);
        same = same && a[i] == b[i];
        i = i + 1;
    }
    proof {
        assert(a@.take(n as int) =~= a@);
        assert(b@.take(n as int) =~= b@);
    }
    before
}

/// Why a byte string is not an identifier of the wanted width.
#[derive(Clone, Copy, Debug, PartialEq, Eq)]
pub enum FromSliceError {
    /// The string has this many bytes instead.
    InvalidLength(usize),
}

/// A 20-byte address.
#[derive(Clone, Copy, Debug, PartialEq, Eq, PartialOrd, Ord, Hash)]
pub struct H160(pub [u8; 20]);

impl View for H160 {
    type V = Seq<u8>;

    open spec fn view(&self) -> Seq<u8> {
        self.0@
    }
}

/// The address with the bytes `bytes`, for a string of 20 bytes.
pub open spec fn h160_of(bytes: Seq<u8>) -> H160 {
    choose|a: H160| a@ == bytes
}

impl H160 {
    /// The address as a number, most significant byte first. Addresses are
    /// ordered by it.
    pub open spec fn key(&self) -> nat {
        be_nat(self@)
    }

    /// Addresses with the same bytes, or the same key, are the same address.
    pub proof fn lemma_identity(a: H160, b: H160)
        ensures
            a@.len() == 20,
            (a@ == b@) <==> a == b,
            (a.key() == b.key()) <==> a == b,
            h160_of(a@) == a,
    {
        let c = h160_of(a@);
        assert(c@ == a@);
        assert(forall|i: int| 0 <= i < 20 ==> c.0[i] == a.0[i]) by {
            assert forall|i: int| 0 <= i < 20 implies c.0[i] == a.0[i] by {
                assert(c@[i] == a@[i]);
            }
        }
        assert(c.0 =~= a.0);
        if a@ == b@ {
            assert(forall|i: int| 0 <= i < 20 ==> a.0[i] == b.0[i]) by {
                assert forall|i: int| 0 <= i < 20 implies a.0[i] == b.0[i] by {
                    assert(a@[i] == b@[i]);
                }
            }
            assert(a.0 =~= b.0);
        }
        if a.key() == b.key() {
            lemma_be_nat_injective(a@, b@);
        }
    }

    /// The all-zero address.
    pub fn zero() -> (addr: H160)
        ensures
            addr@ == Seq::new(20, |i: int| 0u8),
    {
        let addr = H160([0u8;20]);
        assert(addr@ =~= Seq::new(20, |i: int| 0u8));
        addr
    }

    /// The address made of the 20 bytes of `bytes`; any other length is an
    /// error that carries the length.
    pub fn from_slice(bytes: &[u8]) -> (res: Result<H160, FromSliceError>)
        ensures
            bytes@.len() == 20 ==> res == Ok::<H160, FromSliceError>(h160_of(bytes@)) && res->Ok_0@
                == bytes@,
            bytes@.len() != 20 ==> res == Err::<H160, FromSliceError>(
                FromSliceError::InvalidLength(bytes@.len() as usize),
            ),
    {
        if bytes.len() != 20 {
            return Err(FromSliceError::InvalidLength(bytes.len()));
        }
        let mut raw: [u8; 20] = [0u8;20];
        let mut i: usize = 0;
        while i < 20
            invariant
                i <= 20,
                bytes@.len() == 20,
                forall|j: int| 0 <= j < i ==> raw@[j] == bytes@[j],
            decreases 20 - i,
        {
            raw[i] = bytes[i];
            i = i + 1;
        }
        let addr = H160(raw);
        proof {
            assert(addr@ =~= bytes@);
            Self::lemma_identity(addr, addr);
        }
        Ok(addr)
    }

    /// The 20 bytes of the address.
    pub fn to_vec(&self) -> (bytes: Vec<u8>)
        ensures
            bytes@ == self@,
    {
        let mut bytes: Vec<u8> = Vec::new();
        let mut i: usize = 0;
        while i < 20
            invariant
                i <= 20,
                bytes@.len() == i,
                forall|j: int| 0 <= j < i ==> bytes@[j] == self@[j],
            decreases 20 - i,
        {
            bytes.push(self.0[i]);
            i = i + 1;
        }
        assert(bytes@ =~= self@);
        bytes
    }

    /// Whether the two addresses are the same.
    pub fn equals(&self, other: &H160) -> (same: bool)
        ensures
            same == (*self == *other),
    {
        proof {
            Self::lemma_identity(*self, *other);
        }
        bytes_equal(self.0.as_slice(), other.0.as_slice())
    }

    /// Whether this address comes before `other` in the order of addresses.
    pub fn precedes(&self, other: &H160) -> (before: bool)
        ensures
            before == (self.key() < other.key()),
    {
        bytes_before(self.0.as_slice(), other.0.as_slice())
    }
}

/// A 32-byte hash: a transaction hash, a type id or a code hash.
#[derive(Clone, Copy, Debug, PartialEq, Eq, PartialOrd, Ord, Hash)]
pub struct H256(pub [u8; 32]);

impl View for H256 {
    type V = Seq<u8>;

    open spec fn view(&self) -> Seq<u8> {
        self.0@
    }
}

impl H256 {
    /// Hashes with the same bytes are the same hash.
    pub proof fn lemma_identity(a: H256, b: H256)
        ensures
            a@.len() == 32,
            (a@ == b@) <==> a == b,
    {
        if a@ == b@ {
            assert(forall|i: int| 0 <= i < 32 ==> a.0[i] == b.0[i]) by {
                assert forall|i: int| 0 <= i < 32 implies a.0[i] == b.0[i] by {
                    assert(a@[i] == b@[i]);
                }
            }
            assert(a.0 =~= b.0);
        }
    }

    /// The all-zero hash.
    pub fn zero() -> (hash: H256)
        ensures
            hash@ == Seq::new(32, |i: int| 0u8),
    {
        let hash = H256([0u8;32]);
        assert(hash@ =~= Seq::new(32, |i: int| 0u8));
        hash
    }

    /// Whether the two hashes are the same.
    pub fn equals(&self, other: &H256) -> (same: bool)
        ensures
            same == (*self == *other),
    {
        proof {
            Self::lemma_identity(*self, *other);
        }
        bytes_equal(self.0.as_slice(), other.0.as_slice())
    }
}

} // verus!
