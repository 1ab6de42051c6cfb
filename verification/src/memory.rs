//! The memory that a histogram takes.
use vstd::prelude::*;

verus! {

/// The room that a vector has, by `Vec::capacity`: at least its length, and in bytes at
/// most `isize::MAX`, the limit beyond which a vector refuses to grow.
#[verifier::external_body]
pub(crate) fn capacity<T>(v: &Vec<T>) -> (r: usize)
    ensures
        v@.len() <= r,
        r * vstd::layout::size_of::<T>() <= isize::MAX,
{
    v.capacity()
}

/// The bytes that a backing holds on to which has room for `idx_capacity` indices of four
/// bytes each, and for `cnt_capacity` bytes of counts.
pub fn backing_size(idx_capacity: usize, cnt_capacity: usize) -> (r: usize)
    requires
        4 * idx_capacity + cnt_capacity <= usize::MAX,
    ensures
        r == 4 * idx_capacity + cnt_capacity,
{
    proof {
        broadcast use vstd::layout::layout_of_primitives;
    }
    idx_capacity * std::mem::size_of::<u32>() + cnt_capacity
}

} // verus!
