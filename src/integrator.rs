use vstd::prelude::*;

verus! {

/// What the scene does with a ray, as the integrator sees it.
pub enum Bounce<R, C> {
    /// The ray meets nothing: it sees the background.
    Miss,
    /// The ray meets a surface that emits this radiance and absorbs the ray.
    Absorbed(C),
    /// The ray meets a surface that emits radiance (first), attenuates what comes
    /// back along the scattered ray by the second value, and scatters the ray.
    Scattered(C, C, R),
}

/// `r` is a radiance that the integrator may return for `ray` with `depth` bounces
/// left: zero once the depth is spent; otherwise, for one outcome of the scene
/// query, the background on a miss, the emission alone when the surface absorbs,
/// and the emission combined with the attenuated radiance of the scattered ray
/// (traced with one bounce less) when it scatters.
pub open spec fn radiance_of<R, C, Q: Fn(R) -> Bounce<R, C>, K: Fn(C, C, C) -> C>(
    query: Q,
    combine: K,
    background: C,
    zero: C,
    ray: R,
    depth: nat,
    r: C,
) -> bool
    decreases depth,
{
    if depth == 0 {
        r == zero
    } else {
        exists|b: Bounce<R, C>|
            #![trigger query.ensures((ray,), b)]
            query.ensures((ray,), b) && match b {
                Bounce::Miss => r == background,
                Bounce::Absorbed(e) => r == e,
                Bounce::Scattered(e, a, s) => exists|incoming: C|
                    #![trigger combine.ensures((e, a, incoming), r)]
                    radiance_of(query, combine, background, zero, s, (depth - 1) as nat, incoming)
                        && combine.ensures((e, a, incoming), r),
            }
    }
}

/// The radiance arriving along `ray`, traced through at most `depth` bounces.
/// `query` intersects the ray with the scene and asks the material struck what it
/// does; `combine(emitted, attenuation, incoming)` is `emitted + attenuation *
/// incoming`. With no depth left the result is `zero`, whatever the ray meets.
pub fn ray_color<R, C: Copy, Q: Fn(R) -> Bounce<R, C>, K: Fn(C, C, C) -> C>(
    ray: R,
    background: C,
    zero: C,
    depth: u64,
    query: &Q,
    combine: &K,
) -> (r: C)
    requires
        forall|x: R| query.requires((x,)),
        forall|e: C, a: C, i: C| combine.requires((e, a, i)),
    ensures
        depth == 0 ==> r == zero,
        radiance_of(*query, *combine, background, zero, ray, depth as nat, r),
    decreases depth,
{
    if depth == 0 {
        return zero;
    }
    let b = query(ray);
    match b {
        Bounce::Miss => background,
        Bounce::Absorbed(e) => e,
        Bounce::Scattered(e, a, s) => {
            let incoming = ray_color(s, background, zero, depth - 1, query, combine);
            let r = combine(e, a, incoming);
            proof {
                assert(radiance_of(
                    *query,
                    *combine,
                    background,
                    zero,
                    s,
                    (depth - 1) as nat,
                    incoming,
                ));
            }
            r
        },
    }
}

} // verus!
