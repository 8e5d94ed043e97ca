use rand::rngs::StdRng;
use rand::{Rng, SeedableRng};
use raytracer::{slab_hit, world_bounding_box, world_hit, Bvh, BvhError, Child, AABB};

fn key(x: f64) -> u64 {
    let b = x.to_bits();
    if b >> 63 == 1 {
        !b
    } else {
        b | (1u64 << 63)
    }
}

fn value(k: u64) -> f64 {
    let b = if k >> 63 == 1 { k & !(1u64 << 63) } else { !k };
    f64::from_bits(b)
}

fn kbox(min: [f64; 3], max: [f64; 3]) -> AABB {
    AABB::new([key(min[0]), key(min[1]), key(min[2])], [key(max[0]), key(max[1]), key(max[2])])
}

#[derive(Clone, Copy)]
struct Sphere {
    center: [f64; 3],
    radius: f64,
}

impl Sphere {
    fn bounds(&self) -> AABB {
        let c = self.center;
        let r = self.radius;
        kbox([c[0] - r, c[1] - r, c[2] - r], [c[0] + r, c[1] + r, c[2] + r])
    }

    /// The nearest root within `[t_min, t_max]`.
    fn hit(&self, o: [f64; 3], d: [f64; 3], t_min: f64, t_max: f64) -> Option<f64> {
        let oc = [o[0] - self.center[0], o[1] - self.center[1], o[2] - self.center[2]];
        let a = d[0] * d[0] + d[1] * d[1] + d[2] * d[2];
        let half_b = d[0] * oc[0] + d[1] * oc[1] + d[2] * oc[2];
        let c = oc[0] * oc[0] + oc[1] * oc[1] + oc[2] * oc[2] - self.radius * self.radius;
        let disc = half_b * half_b - a * c;
        if disc < 0.0 {
            return None;
        }
        let sq = disc.sqrt();
        for root in [(-half_b - sq) / a, (-half_b + sq) / a] {
            if root >= t_min && root <= t_max {
                return Some(root);
            }
        }
        None
    }
}

fn ray_box(b: &AABB, origin: [f64; 3], dir: [f64; 3], lo: u64, hi: u64) -> bool {
    let mut enter = [0u64; 3];
    let mut leave = [0u64; 3];
    for a in 0..3 {
        let inv = 1.0 / dir[a];
        let mut t0 = (value(b.min[a]) - origin[a]) * inv;
        let mut t1 = (value(b.max[a]) - origin[a]) * inv;
        if inv < 0.0 {
            std::mem::swap(&mut t0, &mut t1);
        }
        if t0.is_nan() {
            t0 = f64::NEG_INFINITY;
        }
        if t1.is_nan() {
            t1 = f64::INFINITY;
        }
        enter[a] = key(t0);
        leave[a] = key(t1);
    }
    slab_hit(enter, leave, lo, hi)
}

fn random_spheres(rng: &mut StdRng, n: usize) -> Vec<Sphere> {
    (0..n)
        .map(|_| Sphere {
            center: [rng.gen_range(-10.0..10.0), rng.gen_range(-10.0..10.0), rng.gen_range(-10.0..10.0)],
            radius: rng.gen_range(0.1..2.0),
        })
        .collect()
}

/// Walks the tree, collecting the objects under a child and checking every node's
/// box and split order on the way.
fn collect(bvh: &Bvh, boxes: &[AABB], c: Child, out: &mut Vec<usize>) -> AABB {
    match c {
        Child::Object(i) => {
            out.push(i);
            boxes[i]
        }
        Child::Node(m) => {
            let node = bvh.nodes[m];
            assert!(node.axis < 3);
            let start = out.len();
            let lb = collect(bvh, boxes, node.left, out);
            let mid = out.len();
            match node.right {
                None => assert_eq!(node.bounding_box, lb),
                Some(rc) => {
                    let rb = collect(bvh, boxes, rc, out);
                    assert_eq!(node.bounding_box, lb.surrounding_box(&rb));
                    let lmax = out[start..mid].iter().map(|&x| boxes[x].min[node.axis]).max().unwrap();
                    let rmin = out[mid..].iter().map(|&x| boxes[x].min[node.axis]).min().unwrap();
                    assert!(lmax <= rmin);
                }
            }
            node.bounding_box
        }
    }
}

#[test]
fn bvh_of_no_objects_is_refused() {
    let mut rng = StdRng::seed_from_u64(1);
    let r = Bvh::new(&Vec::new(), &mut rng);
    assert!(matches!(r, Err(BvhError::Empty)));
}

#[test]
fn bvh_with_unbounded_object_is_refused() {
    let mut rng = StdRng::seed_from_u64(2);
    let b = kbox([0.0; 3], [1.0; 3]);
    let r = Bvh::new(&vec![Some(b), None, Some(b), None], &mut rng);
    assert!(matches!(r, Err(BvhError::MissingBox(1))));
    let r = Bvh::new(&vec![None], &mut rng);
    assert!(matches!(r, Err(BvhError::MissingBox(0))));
}

#[test]
fn bvh_of_one_object_is_a_leaf() {
    let mut rng = StdRng::seed_from_u64(3);
    let b = kbox([0.0, 1.0, 2.0], [1.0, 2.0, 3.0]);
    let bvh = Bvh::new(&vec![Some(b)], &mut rng).unwrap();
    let root = bvh.nodes[bvh.root];
    assert_eq!(root.left, Child::Object(0));
    assert_eq!(root.right, None);
    assert_eq!(root.bounding_box, b);
}

#[test]
fn bvh_of_two_objects_orders_them_by_key() {
    let a = kbox([5.0, 5.0, 5.0], [6.0, 6.0, 6.0]);
    let b = kbox([0.0, 0.0, 0.0], [1.0, 1.0, 1.0]);
    for seed in 0..20 {
        let mut rng = StdRng::seed_from_u64(seed);
        let bvh = Bvh::new(&vec![Some(a), Some(b)], &mut rng).unwrap();
        let root = bvh.nodes[bvh.root];
        assert_eq!(root.left, Child::Object(1));
        assert_eq!(root.right, Some(Child::Object(0)));
        assert_eq!(root.bounding_box, kbox([0.0; 3], [6.0; 3]));
    }
}

#[test]
fn bvh_of_two_equal_keys_keeps_order() {
    let a = kbox([0.0; 3], [1.0; 3]);
    let b = kbox([0.0; 3], [2.0; 3]);
    let mut rng = StdRng::seed_from_u64(4);
    let bvh = Bvh::new(&vec![Some(a), Some(b)], &mut rng).unwrap();
    let root = bvh.nodes[bvh.root];
    assert_eq!(root.left, Child::Object(0));
    assert_eq!(root.right, Some(Child::Object(1)));
}

#[test]
fn bvh_holds_each_object_once() {
    for seed in 0..10 {
        let mut rng = StdRng::seed_from_u64(seed);
        let n = 1 + (seed as usize) * 7;
        let spheres = random_spheres(&mut rng, n);
        let boxes: Vec<AABB> = spheres.iter().map(|s| s.bounds()).collect();
        let bvh = Bvh::new(&boxes.iter().map(|b| Some(*b)).collect(), &mut rng).unwrap();
        assert_eq!(bvh.root, bvh.nodes.len() - 1);
        let mut seen = Vec::new();
        let root_box = collect(&bvh, &boxes, Child::Node(bvh.root), &mut seen);
        seen.sort();
        assert_eq!(seen, (0..n).collect::<Vec<_>>());
        assert_eq!(Some(root_box), world_bounding_box(&boxes.iter().map(|b| Some(*b)).collect()));
    }
}

#[test]
fn bvh_hit_agrees_with_flat_scan() {
    let mut rng = StdRng::seed_from_u64(42);
    for _ in 0..20 {
        let n = rng.gen_range(1..40);
        let spheres = random_spheres(&mut rng, n);
        let boxes: Vec<Option<AABB>> = spheres.iter().map(|s| Some(s.bounds())).collect();
        let bvh = Bvh::new(&boxes, &mut rng).unwrap();
        for _ in 0..50 {
            let o = [rng.gen_range(-15.0..15.0), rng.gen_range(-15.0..15.0), rng.gen_range(-15.0..15.0)];
            let d = [rng.gen_range(-1.0..1.0), rng.gen_range(-1.0..1.0), rng.gen_range(-1.0..1.0)];
            let object_hit = |i: usize, lo: u64, hi: u64| spheres[i].hit(o, d, value(lo), value(hi)).map(key);
            let box_hit = |b: AABB, lo: u64, hi: u64| ray_box(&b, o, d, lo, hi);
            let (lo, hi) = (key(0.001), key(f64::INFINITY));
            let flat = world_hit(n, lo, hi, &object_hit);
            let tree = bvh.hit(lo, hi, &box_hit, &object_hit);
            assert_eq!(flat.map(|h| h.0), tree.map(|h| h.0));
            if let Some((t, x)) = tree {
                assert_eq!(spheres[x].hit(o, d, 0.001, f64::INFINITY).map(key), Some(t));
            }
        }
    }
}

#[test]
fn bvh_hit_aimed_at_objects_finds_the_nearest() {
    let spheres: Vec<Sphere> = (0..5).map(|i| Sphere { center: [0.0, 0.0, 3.0 * i as f64], radius: 1.0 }).collect();
    let boxes: Vec<Option<AABB>> = spheres.iter().map(|s| Some(s.bounds())).collect();
    let mut rng = StdRng::seed_from_u64(9);
    let bvh = Bvh::new(&boxes, &mut rng).unwrap();
    let (o, d) = ([0.0, 0.0, 20.0], [0.0, 0.0, -1.0]);
    let object_hit = |i: usize, lo: u64, hi: u64| spheres[i].hit(o, d, value(lo), value(hi)).map(key);
    let box_hit = |b: AABB, lo: u64, hi: u64| ray_box(&b, o, d, lo, hi);
    let r = bvh.hit(key(0.001), key(f64::INFINITY), &box_hit, &object_hit);
    assert_eq!(r, Some((key(7.0), 4)));
    let r = world_hit(5, key(0.001), key(f64::INFINITY), &object_hit);
    assert_eq!(r, Some((key(7.0), 4)));
    // With the range ending before the first sphere, nothing is met.
    let r = bvh.hit(key(0.001), key(6.5), &box_hit, &object_hit);
    assert_eq!(r, None);
}

#[test]
fn world_hit_keeps_the_nearest_hit() {
    // Object i is met at parameter 10 - i, for i in 0..5; object 5 is never met.
    let object_hit = |i: usize, lo: u64, hi: u64| {
        if i == 5 {
            return None;
        }
        let t = 10 - i as u64;
        if lo <= t && t <= hi {
            Some(t)
        } else {
            None
        }
    };
    assert_eq!(world_hit(6, 0, 100, &object_hit), Some((6, 4)));
    assert_eq!(world_hit(6, 0, 7, &object_hit), Some((6, 4)));
    assert_eq!(world_hit(6, 0, 5, &object_hit), None);
    assert_eq!(world_hit(0, 0, 100, &object_hit), None);
}

#[test]
fn world_bounding_box_needs_every_box() {
    let a = kbox([0.0; 3], [1.0; 3]);
    let b = kbox([-2.0, 0.5, 0.5], [0.5, 0.75, 4.0]);
    assert_eq!(world_bounding_box(&vec![]), None);
    assert_eq!(world_bounding_box(&vec![Some(a), None, Some(b)]), None);
    assert_eq!(world_bounding_box(&vec![Some(a)]), Some(a));
    assert_eq!(
        world_bounding_box(&vec![Some(a), Some(b)]),
        Some(kbox([-2.0, 0.0, 0.0], [1.0, 1.0, 4.0]))
    );
}
