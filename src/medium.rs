use crate::aabb::{key_max, key_min};
use vstd::prelude::*;

verus! {

/// The stretch of a ray that lies inside a participating medium and within the
/// query range. `entry` and `exit` are the parameters at which the ray enters and
/// leaves the medium's boundary; they are clipped to `[t_min, t_max]`, and the
/// stretch is empty (`None`) when nothing of it is left. A surviving entry is then
/// raised to `floor` (the key of parameter zero), so that the stretch never starts
/// behind the ray's origin.
pub fn medium_span(entry: u64, exit: u64, t_min: u64, t_max: u64, floor: u64) -> (r: Option<
    (u64, u64),
>)
    ensures
        r is None <==> key_max(entry, t_min) >= key_min(exit, t_max),
        r matches Some((a, b)) ==> a == key_max(key_max(entry, t_min), floor) && b == key_min(
            exit,
            t_max,
        ),
{
    let mut first = entry;
    let mut last = exit;
    if first < t_min {
        first = t_min;
    }
    if last > t_max {
        last = t_max;
    }
    if first >= last {
        return None;
    }
    if first < floor {
        first = floor;
    }
    Some((first, last))
}

} // verus!
