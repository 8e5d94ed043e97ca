use vstd::prelude::*;

verus! {

/// The smaller of two keys.
pub open spec fn key_min(a: u64, b: u64) -> u64 {
    if a <= b {
        a
    } else {
        b
    }
}

/// The larger of two keys.
pub open spec fn key_max(a: u64, b: u64) -> u64 {
    if a <= b {
        b
    } else {
        a
    }
}

/// An axis-aligned bounding box: its two corners, one key per axis (x, y, z).
#[derive(Clone, Copy, Debug, PartialEq, Eq)]
pub struct AABB {
    pub min: [u64; 3],
    pub max: [u64; 3],
}

impl AABB {
    /// The lower corner lies below the upper one on every axis.
    pub open spec fn wf(&self) -> bool {
        forall|a: int| 0 <= a < 3 ==> self.min@[a] <= #[trigger] self.max@[a]
    }

    /// The point `p` (three keys) lies in the box, faces included.
    pub open spec fn contains_point(&self, p: Seq<u64>) -> bool {
        forall|a: int| 0 <= a < 3 ==> self.min@[a] <= #[trigger] p[a] <= self.max@[a]
    }

    /// Every point of `other` lies in this box.
    pub open spec fn encloses(&self, other: AABB) -> bool {
        forall|a: int|
            #![trigger other.min@[a]]
            #![trigger other.max@[a]]
            0 <= a < 3 ==> self.min@[a] <= other.min@[a] && other.max@[a] <= self.max@[a]
    }

    /// The corner of the box that takes the upper bound on the axes where `upper` is
    /// true and the lower bound on the others.
    pub open spec fn corner(&self, upper: Seq<bool>) -> Seq<u64> {
        Seq::new(3, |a: int| if upper[a] { self.max@[a] } else { self.min@[a] })
    }

    pub fn new(min: [u64; 3], max: [u64; 3]) -> (r: AABB)
        ensures
            r.min == min,
            r.max == max,
    {
        AABB { min, max }
    }

    pub fn max(&self) -> (r: [u64; 3])
        ensures
            r == self.max,
    {
        self.max
    }

    pub fn min(&self) -> (r: [u64; 3])
        ensures
            r == self.min,
    {
        self.min
    }

    /// The smallest box that holds both boxes: the per-axis minimum of the lower
    /// corners and the per-axis maximum of the upper corners.
    pub fn surrounding_box(&self, other: &AABB) -> (r: AABB)
        ensures
            is_union_of(r, *self, *other),
    {
        let mut min: [u64; 3] = [0, 0, 0];
        let mut max: [u64; 3] = [0, 0, 0];
        let mut a: usize = 0;
        while a < 3
            invariant
                0 <= a <= 3,
                forall|b: int|
                    0 <= b < a ==> #[trigger] min@[b] == key_min(self.min@[b], other.min@[b])
                        && max@[b] == key_max(self.max@[b], other.max@[b]),
            decreases 3 - a,
        {
            min[a] = if self.min[a] <= other.min[a] {
                self.min[a]
            } else {
                other.min[a]
            };
            max[a] = if self.max[a] <= other.max[a] {
                other.max[a]
            } else {
                self.max[a]
            };
            a = a + 1;
        }
        AABB { min, max }
    }
}

/// `r` is the union of `a` and `b`: per axis, the minimum of the lower corners and
/// the maximum of the upper corners.
pub open spec fn is_union_of(r: AABB, a: AABB, b: AABB) -> bool {
    forall|i: int|
        #![trigger r.min@[i]]
        #![trigger r.max@[i]]
        0 <= i < 3 ==> r.min@[i] == key_min(a.min@[i], b.min@[i]) && r.max@[i] == key_max(
            a.max@[i],
            b.max@[i],
        )
}

/// The union of two boxes holds both of them.
pub proof fn lemma_union_encloses(a: AABB, b: AABB, r: AABB)
    requires
        is_union_of(r, a, b),
    ensures
        r.encloses(a),
        r.encloses(b),
{
}

/// A box that holds a second box holds whatever the second one holds.
pub proof fn lemma_encloses_trans(a: AABB, b: AABB, c: AABB)
    requires
        a.encloses(b),
        b.encloses(c),
    ensures
        a.encloses(c),
{
    assert forall|i: int| 0 <= i < 3 implies a.min@[i] <= #[trigger] c.min@[i] && c.max@[i]
        <= a.max@[i] by {
        assert(a.min@[i] <= b.min@[i] && b.max@[i] <= a.max@[i]);
        assert(b.min@[i] <= c.min@[i] && c.max@[i] <= b.max@[i]);
    }
}

/// The surrounding box of two well-formed boxes is well formed and holds every corner
/// of both.
pub proof fn lemma_surrounding_box_encloses(a: AABB, b: AABB, r: AABB)
    requires
        a.wf(),
        b.wf(),
        is_union_of(r, a, b),
    ensures
        r.wf(),
        r.encloses(a),
        r.encloses(b),
        forall|upper: Seq<bool>|
            upper.len() == 3 ==> r.contains_point(#[trigger] a.corner(upper))
                && r.contains_point(b.corner(upper)),
{
    assert forall|upper: Seq<bool>| upper.len() == 3 implies r.contains_point(
        #[trigger] a.corner(upper),
    ) && r.contains_point(b.corner(upper)) by {
        assert forall|i: int| 0 <= i < 3 implies r.min@[i] <= #[trigger] a.corner(upper)[i]
            <= r.max@[i] by {
            assert(a.min@[i] <= a.max@[i]);
        }
        assert forall|i: int| 0 <= i < 3 implies r.min@[i] <= #[trigger] b.corner(upper)[i]
            <= r.max@[i] by {
            assert(b.min@[i] <= b.max@[i]);
        }
    }
    assert forall|i: int| 0 <= i < 3 implies r.min@[i] <= #[trigger] r.max@[i] by {
        assert(a.min@[i] <= a.max@[i]);
    }
}

/// The bounds of the parameter interval left after narrowing `[t_min, t_max]` to the
/// three slabs: the latest entry and the earliest exit.
pub open spec fn slab_entry(enter: Seq<u64>, t_min: u64) -> u64 {
    key_max(key_max(key_max(t_min, enter[0]), enter[1]), enter[2])
}

pub open spec fn slab_exit(leave: Seq<u64>, t_max: u64) -> u64 {
    key_min(key_min(key_min(t_max, leave[0]), leave[1]), leave[2])
}

/// The slab test of a ray against a box. For each axis, `enter[a]` and `leave[a]`
/// are the keys of the ray parameters at which the ray crosses the nearer and the
/// farther plane of that axis. The ray meets the box inside `(t_min, t_max)` when
/// the interval narrowed by all three slabs is not empty.
pub fn slab_hit(enter: [u64; 3], leave: [u64; 3], t_min: u64, t_max: u64) -> (r: bool)
    ensures
        r == (slab_entry(enter@, t_min) < slab_exit(leave@, t_max)),
{
    let mut lo = t_min;
    let mut hi = t_max;
    let mut a: usize = 0;
    while a < 3
        invariant
            0 <= a <= 3,
            a == 0 ==> lo == t_min && hi == t_max,
            a == 1 ==> lo == key_max(t_min, enter@[0]) && hi == key_min(t_max, leave@[0]),
            a == 2 ==> lo == key_max(key_max(t_min, enter@[0]), enter@[1]) && hi == key_min(
                key_min(t_max, leave@[0]),
                leave@[1],
            ),
            a == 3 ==> lo == slab_entry(enter@, t_min) && hi == slab_exit(leave@, t_max),
            a > 0 ==> lo < hi,
        decreases 3 - a,
    {
        if enter[a] > lo {
            lo = enter[a];
        }
        if leave[a] < hi {
            hi = leave[a];
        }
        if hi <= lo {
            return false;
        }
        a = a + 1;
    }
    true
}

} // verus!
