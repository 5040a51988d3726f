//! Operand lists: a node's inputs, held in a fixed-capacity `arrayvec::ArrayVec`.
use arrayvec::ArrayVec;
use vstd::prelude::*;

verus! {

#[verifier::external_type_specification]
#[verifier::external_body]
#[verifier::reject_recursive_types(T)]
pub struct ExArrayVec<T, const CAP: usize>(ArrayVec<T, CAP>);

/// The operand indices that an operand list holds, in order.
pub uninterp spec fn operand_items(v: ArrayVec<usize, 2>) -> Seq<usize>;

/// Relies on `ArrayVec::new`: an empty vector.
#[verifier::external_body]
pub(crate) fn operands_new() -> (r: ArrayVec<usize, 2>)
    ensures
        operand_items(r) == Seq::<usize>::empty(),
{
    ArrayVec::new()
}

/// Relies on `ArrayVec::push`: appends at the end; it panics only when the
/// vector is full, which `requires` rules out.
#[verifier::external_body]
pub(crate) fn operands_push(v: &mut ArrayVec<usize, 2>, x: usize)
    requires
        operand_items(*old(v)).len() < 2,
    ensures
        operand_items(*final(v)) == operand_items(*old(v)).push(x),
{
    v.push(x)
}

/// Relies on `ArrayVec::len`: the number of elements, never above the capacity.
#[verifier::external_body]
pub(crate) fn operands_len(v: &ArrayVec<usize, 2>) -> (r: usize)
    ensures
        r == operand_items(*v).len(),
        r <= 2,
{
    v.len()
}

/// Relies on `ArrayVec::as_slice`: the elements in order.
#[verifier::external_body]
pub(crate) fn operand_at(v: &ArrayVec<usize, 2>, k: usize) -> (r: usize)
    requires
        k < operand_items(*v).len(),
    ensures
        r == operand_items(*v)[k as int],
{
    v.as_slice()[k]
}

} // verus!
