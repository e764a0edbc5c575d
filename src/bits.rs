use vstd::prelude::*;

use bitvec::vec::BitVec;

verus! {

/// A row bit-vector: bit `i` stands for row `i` of a relation. It holds a
/// bitvec `BitVec`, which Verus cannot declare (its parameters are bound by
/// bitvec's own traits).
#[verifier::external_body]
pub struct Bits {
    inner: BitVec,
}

/// The bits a bit-vector holds, in order.
pub uninterp spec fn bits_of(b: Bits) -> Seq<bool>;

/// The largest length a bit-vector is given here: bitvec refuses lengths past
/// `usize::MAX >> 3`, and this stays below that on 32-bit targets too.
pub const MAX_BITS: usize = 0x0fff_ffff;

/// Relies on `BitVec::repeat`: `len` copies of `bit`.
#[verifier::external_body]
pub fn repeat(bit: bool, len: usize) -> (r: Bits)
    requires
        len <= MAX_BITS,
    ensures
        bits_of(r) == Seq::new(len as nat, |i: int| bit),
{
    Bits { inner: BitVec::repeat(bit, len) }
}

/// Relies on `BitVec::len`: the number of bits held.
#[verifier::external_body]
pub fn len(b: &Bits) -> (r: usize)
    ensures
        r == bits_of(*b).len(),
{
    b.inner.len()
}

/// Relies on indexing a `BitSlice`: the bit at position `i`.
#[verifier::external_body]
pub fn get(b: &Bits, i: usize) -> (r: bool)
    requires
        i < bits_of(*b).len(),
    ensures
        r == bits_of(*b)[i as int],
{
    b.inner[i]
}

/// Relies on `BitSlice::set`: writes the bit at position `i`.
#[verifier::external_body]
pub fn set(b: &mut Bits, i: usize, value: bool)
    requires
        i < bits_of(*old(b)).len(),
    ensures
        bits_of(*final(b)) == bits_of(*old(b)).update(i as int, value),
{
    b.inner.set(i, value)
}

/// Relies on `BitVec::append`: moves the bits of `other` to the end of `b`.
#[verifier::external_body]
pub fn append(b: &mut Bits, other: &mut Bits)
    requires
        bits_of(*old(b)).len() + bits_of(*old(other)).len() <= MAX_BITS,
    ensures
        bits_of(*final(b)) == bits_of(*old(b)) + bits_of(*old(other)),
        bits_of(*final(other)) == Seq::<bool>::empty(),
{
    b.inner.append(&mut other.inner)
}

/// Relies on `BitAnd` for `BitVec`: keeps the length of `a`; a bit of `a`
/// past the end of `b` becomes 0.
#[verifier::external_body]
pub fn and(a: Bits, b: &Bits) -> (r: Bits)
    ensures
        bits_of(r) == Seq::new(
            bits_of(a).len(),
            |i: int| bits_of(a)[i] && i < bits_of(*b).len() && bits_of(*b)[i],
        ),
{
    Bits { inner: a.inner & &b.inner }
}

/// Relies on `PartialEq` for `BitVec`: equal lengths and equal bits.
#[verifier::external_body]
pub fn equal(a: &Bits, b: &Bits) -> (r: bool)
    ensures
        r == (bits_of(*a) == bits_of(*b)),
{
    a.inner == b.inner
}

/// Relies on `Clone` for `BitVec`: the same bits.
#[verifier::external_body]
pub fn copy(a: &Bits) -> (r: Bits)
    ensures
        bits_of(r) == bits_of(*a),
{
    Bits { inner: a.inner.clone() }
}

} // verus!
