//! The bit vector of the `bit_vec` crate, and what is taken for granted of
//! it.

use vstd::prelude::*;

verus! {

/// The bit vector of the `bit_vec` crate.
#[verifier::external_type_specification]
#[verifier::external_body]
#[verifier::reject_recursive_types(B)]
pub struct ExBitVec<B>(bit_vec::BitVec<B>);

/// The bits that a bit vector holds, in order.
pub uninterp spec fn bits(v: bit_vec::BitVec) -> Seq<bool>;

/// Calls `BitVec::from_elem`, which makes a vector of `nbits` bits that all
/// have the value `bit`.
#[verifier::external_body]
pub(crate) fn bits_from_elem(nbits: usize, bit: bool) -> (v: bit_vec::BitVec)
    ensures
        bits(v) == Seq::new(nbits as nat, |i: int| bit),
{
    bit_vec::BitVec::from_elem(nbits, bit)
}

/// Calls `BitVec::len`, the number of bits in the vector.
#[verifier::external_body]
pub(crate) fn bits_len(v: &bit_vec::BitVec) -> (n: usize)
    ensures
        n == bits(*v).len(),
{
    v.len()
}

/// Calls `BitVec::get`, which returns the bit at index `i`, or `None` where
/// the vector has no such index.
#[verifier::external_body]
pub(crate) fn bits_get(v: &bit_vec::BitVec, i: usize) -> (bit: Option<bool>)
    ensures
        bit == if i < bits(*v).len() {
            Some(bits(*v)[i as int])
        } else {
            None
        },
{
    v.get(i)
}

/// Calls `BitVec::set`, which gives the bit at index `i` the value `x` and
/// leaves the others as they are. It panics on an index that the vector
/// does not have.
#[verifier::external_body]
pub(crate) fn bits_set(v: &mut bit_vec::BitVec, i: usize, x: bool)
    requires
        i < bits(*old(v)).len(),
    ensures
        bits(*final(v)) == bits(*old(v)).update(i as int, x),
{
    v.set(i, x)
}

} // verus!
