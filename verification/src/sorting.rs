//! Ordering points along one axis.

use vstd::prelude::*;
use crate::input::{keeps_order, sorted_on};
use crate::point::Point;

verus! {

/// Sorts the points in place by their coordinate on `axis`, with the standard
/// library's `sort_by_key` on slices. Not proved here, but taken from its
/// documentation: the result holds the same points, each as often as before;
/// it ascends on `axis`; the sort is stable, so points that are equal on
/// `axis` keep their order.
#[verifier::external_body]
pub(crate) fn sort_by_axis(arr: &mut Vec<Point>, axis: usize)
    requires
        axis < 2,
    ensures
        final(arr)@.to_multiset() == old(arr)@.to_multiset(),
        sorted_on(final(arr)@, axis as int),
        keeps_order(old(arr)@, final(arr)@, axis as int),
{
    arr.sort_by_key(|a| a.p[axis]);
}

} // verus!
