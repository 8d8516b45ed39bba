//! A growable sequence of bits, stored most significant bit first in bytes.

use bitvec::order::Msb0;
use bitvec::vec::BitVec;
use vstd::arithmetic::power2::pow2;
use vstd::prelude::*;

verus! {

/// A bit vector suited to encoding and decoding quadtrees: bits are counted
/// from the most significant bit of each byte down.
///
/// It holds a `bitvec::vec::BitVec<Msb0, u8>`, of which the verifier sees
/// only the two names below.
#[verifier::external_body]
pub struct QuadtreeEncodeBitVec {
    bits: BitVec<Msb0, u8>,
}

/// The bits that a bit vector holds, in order.
pub uninterp spec fn bits_of(b: QuadtreeEncodeBitVec) -> Seq<bool>;

/// The position, within the first byte of its storage, of the first bit
/// that a bit vector holds.
pub uninterp spec fn head_of(b: QuadtreeEncodeBitVec) -> nat;

/// Bit `k` of `n`, counted from the least significant bit.
pub open spec fn bit_of(n: nat, k: nat) -> bool {
    (n / pow2(k)) % 2 == 1
}

/// Bit `j` of a byte, counted from the most significant bit.
pub open spec fn byte_bit(b: u8, j: nat) -> bool {
    bit_of(b as nat, (7 - j) as nat)
}

/// The bits of a sequence of bytes, each byte from its most significant bit
/// down.
pub open spec fn bits_of_bytes(bytes: Seq<u8>) -> Seq<bool> {
    Seq::new(8 * bytes.len(), |i: int| byte_bit(bytes[i / 8], (i % 8) as nat))
}

/// The most bits that a bit vector can hold.
pub open spec fn max_bits() -> nat {
    (usize::MAX / 8) as nat
}

/// The most bytes that a bit vector can be made of.
pub open spec fn max_bytes() -> nat {
    (usize::MAX / 64) as nat
}

/// `BitVec::new`: the new vector holds no bits, and its first bit will
/// stand at the front of a byte.
#[verifier::external_body]
fn raw_new() -> (b: QuadtreeEncodeBitVec)
    ensures
        bits_of(b) == Seq::<bool>::empty(),
        head_of(b) == 0,
{
    QuadtreeEncodeBitVec { bits: BitVec::new() }
}

/// `BitVec::push`: appends one bit and moves none. It panics on a vector
/// that holds more bits than `max_bits()`, and it must end below that.
#[verifier::external_body]
fn raw_push(b: &mut QuadtreeEncodeBitVec, bit: bool)
    requires
        bits_of(*old(b)).len() < max_bits(),
    ensures
        bits_of(*final(b)) == bits_of(*old(b)).push(bit),
        head_of(*final(b)) == head_of(*old(b)),
{
    b.bits.push(bit)
}

/// `BitSlice::len`, reached through the vector: the number of bits held.
#[verifier::external_body]
fn raw_len(b: &QuadtreeEncodeBitVec) -> (n: usize)
    ensures
        n == bits_of(*b).len(),
{
    b.bits.len()
}

/// `Index<usize>` of `BitVec`: the bit at an index below the length; it
/// panics on any other index.
#[verifier::external_body]
fn raw_get(b: &QuadtreeEncodeBitVec, i: usize) -> (bit: bool)
    requires
        i < bits_of(*b).len(),
    ensures
        bit == bits_of(*b)[i as int],
{
    b.bits[i]
}

/// `From<&[u8]>` of `BitVec`: a vector over a copy of the bytes, holding
/// all their bits from the most significant bit of the first byte on. It
/// panics on more than `max_bytes()` bytes.
#[verifier::external_body]
fn raw_from_bytes(bytes: &[u8]) -> (b: QuadtreeEncodeBitVec)
    requires
        bytes@.len() <= max_bytes(),
    ensures
        bits_of(b) == bits_of_bytes(bytes@),
        head_of(b) == 0,
{
    QuadtreeEncodeBitVec { bits: BitVec::from(bytes) }
}

/// `BitVec::as_slice`: the bytes that the bits are stored in, from the one
/// that holds the first bit to the one that holds the last. Bit `i` stands
/// `head_of + i` places from the most significant bit of the first byte.
/// Nothing is said of the places before the first and behind the last bit.
#[verifier::external_body]
fn raw_bytes(b: &QuadtreeEncodeBitVec) -> (bytes: Vec<u8>)
    ensures
        bytes@.len() == if bits_of(*b).len() == 0 {
            0
        } else {
            (head_of(*b) + bits_of(*b).len() + 7) / 8
        },
        forall|i: int|
            0 <= i < bits_of(*b).len() ==> byte_bit(
                bytes@[(head_of(*b) + i) / 8],
                ((head_of(*b) + i) % 8) as nat,
            ) == #[trigger] bits_of(*b)[i],
{
    b.bits.as_slice().to_vec()
}

impl View for QuadtreeEncodeBitVec {
    type V = Seq<bool>;

    /// The bits held, in order.
    open spec fn view(&self) -> Seq<bool> {
        bits_of(*self)
    }
}

impl QuadtreeEncodeBitVec {
    /// The first bit stands at the front of a byte.
    pub open spec fn aligned(&self) -> bool {
        head_of(*self) == 0
    }

    /// An empty bit vector.
    pub fn new() -> (b: Self)
        ensures
            b@ == Seq::<bool>::empty(),
            b.aligned(),
    {
        raw_new()
    }

    /// A bit vector of all the bits of `bytes`, from the most significant
    /// bit of the first byte on; of no more than `max_bytes()` bytes.
    pub fn from_bytes(bytes: &[u8]) -> (b: Self)
        requires
            bytes@.len() <= max_bytes(),
        ensures
            b@ == bits_of_bytes(bytes@),
            b.aligned(),
    {
        raw_from_bytes(bytes)
    }

    /// The number of bits held.
    pub fn len(&self) -> (n: usize)
        ensures
            n == self@.len(),
    {
        raw_len(self)
    }

    /// The bit at index `i`, if there is one.
    pub fn get(&self, i: usize) -> (r: Option<bool>)
        ensures
            r == if i < self@.len() {
                Some(self@[i as int])
            } else {
                None
            },
    {
        if i < raw_len(self) {
            Some(raw_get(self, i))
        } else {
            None
        }
    }

    /// Appends a bit to a vector that holds fewer than `max_bits()` bits.
    pub fn push(&mut self, bit: bool)
        requires
            old(self)@.len() < max_bits(),
        ensures
            final(self)@ == old(self)@.push(bit),
            final(self).aligned() == old(self).aligned(),
    {
        raw_push(self, bit)
    }

    /// The bytes that the bits are stored in. Of an aligned vector these are
    /// as many as hold its bits, and they begin with its bits; the places
    /// behind the last bit in the last byte may hold anything.
    pub fn to_bytes(&self) -> (bytes: Vec<u8>)
        ensures
            self.aligned() ==> {
                &&& bytes@.len() == (self@.len() + 7) / 8
                &&& bits_of_bytes(bytes@).take(self@.len() as int) == self@
            },
    {
        let bytes = raw_bytes(self);
        proof {
            if self.aligned() {
                assert(bits_of_bytes(bytes@).take(self@.len() as int) =~= self@);
            }
        }
        bytes
    }
}

} // verus!
