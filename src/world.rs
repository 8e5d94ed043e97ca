use crate::aabb::{key_max, key_min, lemma_encloses_trans, AABB};
use vstd::prelude::*;

verus! {

/// No parameter in `s` lies within `[lo, hi]`.
pub open spec fn misses(s: Set<u64>, lo: u64, hi: u64) -> bool {
    forall|t: u64| #[trigger] s.contains(t) ==> !(lo <= t <= hi)
}

/// `o` is the smallest parameter of `s` within `[lo, hi]`, or `None` when there is
/// none.
pub open spec fn is_nearest(s: Set<u64>, lo: u64, hi: u64, o: Option<u64>) -> bool {
    match o {
        None => misses(s, lo, hi),
        Some(t) => {
            &&& s.contains(t)
            &&& lo <= t <= hi
            &&& forall|u: u64| #[trigger] s.contains(u) && lo <= u <= hi ==> t <= u
        },
    }
}

/// A model of a scene's geometry along one ray: for each object, the set of ray
/// parameters (as keys) at which the ray meets it. `object_hit` follows the model
/// when it answers a query on object `i` over `[lo, hi]` with the nearest of them.
pub open spec fn hits_follow<H: Fn(usize, u64, u64) -> Option<u64>>(
    object_hit: H,
    model: spec_fn(usize) -> Set<u64>,
) -> bool {
    forall|i: usize, lo: u64, hi: u64, o: Option<u64>|
        #[trigger] object_hit.ensures((i, lo, hi), o) ==> is_nearest(model(i), lo, hi, o)
}

/// `r` is the nearest hit, within `[lo, hi]`, among the objects listed in `items`:
/// its parameter and an object met there, or `None` when the ray meets none of them.
pub open spec fn nearest_among(
    model: spec_fn(usize) -> Set<u64>,
    items: Seq<usize>,
    lo: u64,
    hi: u64,
    r: Option<(u64, usize)>,
) -> bool {
    match r {
        None => forall|x: usize| #[trigger] items.contains(x) ==> misses(model(x), lo, hi),
        Some((t, x)) => {
            &&& items.contains(x)
            &&& model(x).contains(t)
            &&& lo <= t <= hi
            &&& forall|y: usize, u: u64|
                #[trigger] items.contains(y) && #[trigger] model(y).contains(u) && lo <= u <= hi
                    ==> t <= u
        },
    }
}

/// The indices `0..n`, once each.
pub open spec fn all_objects(n: nat) -> Seq<usize> {
    Seq::new(n, |i: int| i as usize)
}

pub proof fn lemma_all_objects_contains(n: nat)
    ensures
        forall|x: usize| #[trigger] all_objects(n).contains(x) <==> x < n,
{
    assert forall|x: usize| x < n implies #[trigger] all_objects(n).contains(x) by {
        assert(all_objects(n)[x as int] == x);
    }
}

/// The nearest hit depends only on which objects are listed.
pub proof fn lemma_nearest_among_same_members(
    model: spec_fn(usize) -> Set<u64>,
    a: Seq<usize>,
    b: Seq<usize>,
    lo: u64,
    hi: u64,
    r: Option<(u64, usize)>,
)
    requires
        forall|x: usize| #[trigger] a.contains(x) <==> b.contains(x),
        nearest_among(model, a, lo, hi, r),
    ensures
        nearest_among(model, b, lo, hi, r),
{
    match r {
        None => {
            assert forall|x: usize| #[trigger] b.contains(x) implies misses(model(x), lo, hi) by {
                assert(a.contains(x));
            }
        },
        Some((t, x)) => {
            assert forall|y: usize, u: u64|
                #[trigger] b.contains(y) && #[trigger] model(y).contains(u) && lo <= u <= hi
                    implies t <= u by {
                assert(a.contains(y));
            }
        },
    }
}

/// The nearest hit among the `count` objects of a flat list, found by a linear scan
/// that narrows the upper bound to the best hit so far. `object_hit(i, lo, hi)`
/// answers for object `i` with the parameter of its nearest hit within `[lo, hi]`.
pub fn world_hit<H: Fn(usize, u64, u64) -> Option<u64>>(
    count: usize,
    t_min: u64,
    t_max: u64,
    object_hit: &H,
) -> (r: Option<(u64, usize)>)
    requires
        forall|i: usize, lo: u64, hi: u64| object_hit.requires((i, lo, hi)),
    ensures
        r matches Some((_, x)) ==> x < count,
        forall|model: spec_fn(usize) -> Set<u64>|
            #[trigger] hits_follow(*object_hit, model) ==> nearest_among(
                model,
                all_objects(count as nat),
                t_min,
                t_max,
                r,
            ),
{
    let mut best: Option<(u64, usize)> = None;
    let mut hi = t_max;
    let mut i: usize = 0;
    while i < count
        invariant
            i <= count,
            forall|i: usize, lo: u64, hi: u64| object_hit.requires((i, lo, hi)),
            hi == (match best {
                Some((t, _)) => t,
                None => t_max,
            }),
            best matches Some((_, x)) ==> x < i,
            forall|model: spec_fn(usize) -> Set<u64>|
                #[trigger] hits_follow(*object_hit, model) ==> nearest_among(
                    model,
                    all_objects(i as nat),
                    t_min,
                    t_max,
                    best,
                ),
        decreases count - i,
    {
        let o = object_hit(i, t_min, hi);
        let ghost prev = best;
        if let Some(t) = o {
            best = Some((t, i));
            hi = t;
        }
        proof {
            lemma_all_objects_contains(i as nat);
            lemma_all_objects_contains((i + 1) as nat);
            assert forall|model: spec_fn(usize) -> Set<u64>|
                #[trigger] hits_follow(*object_hit, model) implies nearest_among(
                model,
                all_objects((i + 1) as nat),
                t_min,
                t_max,
                best,
            ) by {
                assert(is_nearest(model(i), t_min, (match prev {
                    Some((t, _)) => t,
                    None => t_max,
                }), o));
                assert(nearest_among(model, all_objects(i as nat), t_min, t_max, prev));
                let old_items = all_objects(i as nat);
                let new_items = all_objects((i + 1) as nat);
                match best {
                    None => {
                        assert forall|x: usize| #[trigger] new_items.contains(x) implies misses(
                            model(x),
                            t_min,
                            t_max,
                        ) by {
                            if x < i {
                                assert(old_items.contains(x));
                            }
                        }
                    },
                    Some((t, x)) => {
                        assert(new_items.contains(x));
                        assert forall|y: usize, u: u64|
                            #[trigger] new_items.contains(y) && #[trigger] model(y).contains(u)
                                && t_min <= u <= t_max implies t <= u by {
                            if y < i {
                                assert(old_items.contains(y));
                            }
                        }
                    },
                }
            }
        }
        i = i + 1;
    }
    best
}

/// The two answers that meet the contract of a nearest-hit query over the same
/// objects and range agree: both miss, or both report the same parameter, at which
/// each reported object is met. So a hierarchy's query and a flat scan over the same
/// scene and ray report the same hit (up to which object is named when several are
/// met at exactly the same parameter).
pub proof fn lemma_bvh_agrees_with_flat(
    model: spec_fn(usize) -> Set<u64>,
    count: nat,
    lo: u64,
    hi: u64,
    flat: Option<(u64, usize)>,
    tree: Option<(u64, usize)>,
)
    requires
        nearest_among(model, all_objects(count), lo, hi, flat),
        nearest_among(model, all_objects(count), lo, hi, tree),
    ensures
        flat is None <==> tree is None,
        (flat, tree) matches (Some((t1, x1)), Some((t2, x2))) ==> t1 == t2 && model(x1).contains(
            t1,
        ) && model(x2).contains(t2),
{
    let all = all_objects(count);
    match (flat, tree) {
        (Some((t1, x1)), Some((t2, x2))) => {
            assert(t1 <= t2 && t2 <= t1) by {
                assert(all.contains(x1) && model(x1).contains(t1));
                assert(all.contains(x2) && model(x2).contains(t2));
            }
        },
        (Some((t1, x1)), None) => {
            assert(misses(model(x1), lo, hi));
        },
        (None, Some((t2, x2))) => {
            assert(misses(model(x2), lo, hi));
        },
        (None, None) => {},
    }
}

/// The per-axis minimum of the lower corners of a non-empty list of boxes.
pub open spec fn min_corner(boxes: Seq<AABB>, axis: int) -> u64
    decreases boxes.len(),
{
    if boxes.len() <= 1 {
        boxes[0].min@[axis]
    } else {
        key_min(min_corner(boxes.drop_last(), axis), boxes.last().min@[axis])
    }
}

/// The per-axis maximum of the upper corners of a non-empty list of boxes.
pub open spec fn max_corner(boxes: Seq<AABB>, axis: int) -> u64
    decreases boxes.len(),
{
    if boxes.len() <= 1 {
        boxes[0].max@[axis]
    } else {
        key_max(max_corner(boxes.drop_last(), axis), boxes.last().max@[axis])
    }
}

/// `r` is the bounding box of a non-empty list of boxes.
pub open spec fn bounds_all(r: AABB, boxes: Seq<AABB>) -> bool {
    forall|a: int|
        #![trigger r.min@[a]]
        #![trigger r.max@[a]]
        0 <= a < 3 ==> r.min@[a] == min_corner(boxes, a) && r.max@[a] == max_corner(boxes, a)
}

/// The bounding box of a flat list of objects, given each object's box: the
/// surrounding box of all of them. There is none when the list is empty or when any
/// object has no box.
pub fn world_bounding_box(boxes: &Vec<Option<AABB>>) -> (r: Option<AABB>)
    ensures
        r is Some <==> boxes@.len() > 0 && forall|j: int|
            0 <= j < boxes@.len() ==> #[trigger] boxes@[j] is Some,
        r matches Some(b) ==> bounds_all(b, Seq::new(boxes@.len(), |j: int| boxes@[j]->0)),
{
    let ghost present = Seq::new(boxes@.len(), |j: int| boxes@[j]->0);
    if boxes.len() == 0 {
        return None;
    }
    let mut acc = match &boxes[0] {
        Some(b) => *b,
        None => {
            return None;
        },
    };
    proof {
        assert(present.subrange(0, 1).len() == 1);
        assert(bounds_all(acc, present.subrange(0, 1)));
    }
    let mut i: usize = 1;
    while i < boxes.len()
        invariant
            1 <= i <= boxes@.len(),
            present == Seq::new(boxes@.len(), |j: int| boxes@[j]->0),
            forall|j: int| 0 <= j < i ==> #[trigger] boxes@[j] is Some,
            bounds_all(acc, present.subrange(0, i as int)),
        decreases boxes@.len() - i,
    {
        match &boxes[i] {
            Some(b) => {
                acc = acc.surrounding_box(b);
            },
            None => {
                return None;
            },
        }
        proof {
            let prefix = present.subrange(0, i + 1);
            assert(prefix.drop_last() =~= present.subrange(0, i as int));
            assert(prefix.last() == present[i as int]);
        }
        i = i + 1;
    }
    proof {
        assert(present.subrange(0, boxes@.len() as int) =~= present);
    }
    Some(acc)
}

/// The bounding box of a list holds every box of the list.
pub proof fn lemma_bounds_all_encloses(r: AABB, boxes: Seq<AABB>)
    requires
        boxes.len() > 0,
        bounds_all(r, boxes),
    ensures
        forall|j: int| 0 <= j < boxes.len() ==> r.encloses(#[trigger] boxes[j]),
    decreases boxes.len(),
{
    if boxes.len() > 1 {
        let init = boxes.drop_last();
        // The bounds of the list without its last box.
        let part = AABB {
            min: [min_corner(init, 0), min_corner(init, 1), min_corner(init, 2)],
            max: [max_corner(init, 0), max_corner(init, 1), max_corner(init, 2)],
        };
        assert(bounds_all(part, init));
        lemma_bounds_all_encloses(part, init);
        assert(r.encloses(part));
        assert forall|j: int| 0 <= j < boxes.len() implies r.encloses(#[trigger] boxes[j]) by {
            if j < boxes.len() - 1 {
                assert(init[j] == boxes[j]);
                lemma_encloses_trans(r, part, boxes[j]);
            }
        }
    }
}

} // verus!
