use vstd::prelude::*;
use bit_vec::BitVec;

verus! {

#[verifier::external_type_specification]
#[verifier::external_body]
#[verifier::reject_recursive_types(B)]
pub struct ExBitVec<B>(BitVec<B>);

/// The bits that a bit vector holds, in order.
pub uninterp spec fn bits_of(v: BitVec) -> Seq<bool>;

/// Relies on bit_vec::BitVec::from_elem: `n` bits, each equal to `bit`.
#[verifier::external_body]
pub(crate) fn bits_filled(n: usize, bit: bool) -> (r: BitVec)
    ensures
        bits_of(r) == Seq::new(n as nat, |_i: int| bit),
{
    BitVec::from_elem(n, bit)
}

/// Relies on bit_vec::BitVec::get: the bit at `i`, or `None` past the end.
#[verifier::external_body]
pub(crate) fn bits_get(v: &BitVec, i: usize) -> (r: Option<bool>)
    ensures
        (i as int) < bits_of(*v).len() ==> r == Some(bits_of(*v)[i as int]),
        (i as int) >= bits_of(*v).len() ==> r.is_none(),
{
    v.get(i)
}

/// Relies on bit_vec::BitVec::set: replaces the bit at `i`, which must exist.
#[verifier::external_body]
pub(crate) fn bits_set(v: &mut BitVec, i: usize, x: bool)
    requires
        (i as int) < bits_of(*old(v)).len(),
    ensures
        bits_of(*final(v)) == bits_of(*old(v)).update(i as int, x),
{
    v.set(i, x)
}

/// Relies on bit_vec::BitVec::clear: every bit becomes false, the length stays.
#[verifier::external_body]
pub(crate) fn bits_clear(v: &mut BitVec)
    ensures
        bits_of(*final(v)) == Seq::new(bits_of(*old(v)).len(), |_i: int| false),
{
    v.clear()
}

} // verus!
