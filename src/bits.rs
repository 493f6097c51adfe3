//! The growable bit vector of `bit-vec`, as seen by the proofs: a sequence
//! of booleans.
use bit_vec::BitVec;
use vstd::prelude::*;

verus! {

#[verifier::external_type_specification]
#[verifier::external_body]
#[verifier::reject_recursive_types(B)]
pub struct ExBitVec<B>(bit_vec::BitVec<B>);

/// The bits held by a `BitVec`, in order.
pub uninterp spec fn bits_of(v: BitVec) -> Seq<bool>;

/// Relies on `BitVec::new`: an empty vector.
#[verifier::external_body]
pub(crate) fn bits_new() -> (r: BitVec)
    ensures
        bits_of(r) == Seq::<bool>::empty(),
{
    BitVec::new()
}

/// Relies on `BitVec::len`: the number of bits held.
#[verifier::external_body]
pub(crate) fn bits_len(v: &BitVec) -> (r: usize)
    ensures
        r == bits_of(*v).len(),
{
    v.len()
}

/// Relies on `BitVec::push`: appends one bit. It panics only when the length
/// would overflow `usize`.
#[verifier::external_body]
pub(crate) fn bits_push(v: &mut BitVec, b: bool)
    requires
        bits_of(*old(v)).len() < usize::MAX,
    ensures
        bits_of(*final(v)) == bits_of(*old(v)).push(b),
{
    v.push(b)
}

/// Relies on `BitVec`'s `Index<usize>`: the bit at `i`, which must be in
/// bounds.
#[verifier::external_body]
pub(crate) fn bits_get(v: &BitVec, i: usize) -> (r: bool)
    requires
        i < bits_of(*v).len(),
    ensures
        r == bits_of(*v)[i as int],
{
    v[i]
}

} // verus!
