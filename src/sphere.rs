use crate::world::is_nearest;
use vstd::prelude::*;

verus! {

/// The root a sphere (still or moving) reports for a ray, given the two roots of
/// its quadratic (`near <= far`): the nearer one when it lies within
/// `[t_min, t_max]`, else the farther one when that does, else none.
pub fn nearest_root(near: u64, far: u64, t_min: u64, t_max: u64) -> (r: Option<u64>)
    ensures
        r == (if t_min <= near <= t_max {
            Some(near)
        } else if t_min <= far <= t_max {
            Some(far)
        } else {
            None::<u64>
        }),
{
    if near < t_min || near > t_max {
        if far < t_min || far > t_max {
            None
        } else {
            Some(far)
        }
    } else {
        Some(near)
    }
}

/// With ordered roots, the root chosen is the nearest of the two within the range:
/// a sphere answers queries as a hierarchy's or flat list's objects are expected
/// to.
pub proof fn lemma_nearest_root_is_nearest(near: u64, far: u64, t_min: u64, t_max: u64)
    requires
        near <= far,
    ensures
        is_nearest(
            set![near, far],
            t_min,
            t_max,
            if t_min <= near <= t_max {
                Some(near)
            } else if t_min <= far <= t_max {
                Some(far)
            } else {
                None::<u64>
            },
        ),
{
}

} // verus!
