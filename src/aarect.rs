use vstd::prelude::*;

verus! {

/// Whether an axis-aligned rectangle reports a hit: the ray crosses the rectangle's
/// plane at parameter `t`, at in-plane coordinates `p`; the hit counts when `t` lies
/// within `[t_min, t_max]` and each coordinate within the rectangle's bounds
/// `[lo[k], hi[k]]`, edges included.
pub fn rect_hit(t: u64, t_min: u64, t_max: u64, p: [u64; 2], lo: [u64; 2], hi: [u64; 2]) -> (r:
    bool)
    ensures
        r == (t_min <= t <= t_max && lo@[0] <= p@[0] <= hi@[0] && lo@[1] <= p@[1] <= hi@[1]),
{
    if t < t_min || t > t_max {
        return false;
    }
    !(p[0] < lo[0] || p[0] > hi[0] || p[1] < lo[1] || p[1] > hi[1])
}

} // verus!
