//! The light-transport recursion.
//!
//! A ray is followed from bounce to bounce until it leaves the scene, is
//! absorbed, or has used up its depth. What a ray, a hit and a colour are is
//! up to the caller: the scene and its materials come in as closures, and
//! this module fixes the order in which they are asked and how their
//! answers combine.

use vstd::prelude::*;

verus! {

/// `c` is a colour that following `ray` for at most `depth` bounces can
/// yield, in a scene described by four relations: `hits(ray, found)` for
/// what the search for the nearest surface may return, `scatters(ray,
/// record, scattered)` for what the surface may do to the ray,
/// `sees(ray, c)` for the background, and `tints(attenuation, inner, c)`
/// for the weighting of a colour by an attenuation.
///
/// - With no depth left, the colour is `black`.
/// - Where no surface is found, it is what the background shows.
/// - Where the surface found does not scatter the ray, it is `black`.
/// - Else it is the attenuation applied to a colour that the scattered ray
///   can yield with one bounce less.
pub open spec fn may_yield<R, H, C>(
    hits: spec_fn(R, Option<H>) -> bool,
    scatters: spec_fn(R, H, Option<(C, R)>) -> bool,
    sees: spec_fn(R, C) -> bool,
    tints: spec_fn(C, C, C) -> bool,
    black: C,
    ray: R,
    depth: nat,
    c: C,
) -> bool
    decreases depth,
{
    if depth == 0 {
        c == black
    } else {
        exists|found: Option<H>| #[trigger]
            hits(ray, found) && match found {
                None => sees(ray, c),
                Some(record) => exists|scattered: Option<(C, R)>| #[trigger]
                    scatters(ray, record, scattered) && match scattered {
                        None => c == black,
                        Some((attenuation, next)) => exists|inner: C|
                            may_yield(
                                hits,
                                scatters,
                                sees,
                                tints,
                                black,
                                next,
                                (depth - 1) as nat,
                                inner,
                            ) && #[trigger] tints(attenuation, inner, c),
                    },
            }
    }
}

/// What the closure `hit` may return for a ray.
pub open spec fn finds<R, H, FH: Fn(&R) -> Option<H>>(hit: FH) -> spec_fn(R, Option<H>) -> bool {
    |ray: R, found: Option<H>| call_ensures(hit, (&ray,), found)
}

/// What the closure `scatter` may return for a ray and the surface it met.
pub open spec fn scatters<R, H, C, FS: Fn(&R, &H) -> Option<(C, R)>>(scatter: FS) -> spec_fn(
    R,
    H,
    Option<(C, R)>,
) -> bool {
    |ray: R, record: H, scattered: Option<(C, R)>| call_ensures(scatter, (&ray, &record), scattered)
}

/// What the closure `sky` may return for a ray that met nothing.
pub open spec fn sees<R, C, FB: Fn(&R) -> C>(sky: FB) -> spec_fn(R, C) -> bool {
    |ray: R, c: C| call_ensures(sky, (&ray,), c)
}

/// What the closure `tint` may make of an attenuation and a colour.
pub open spec fn tints<C, FT: Fn(C, C) -> C>(tint: FT) -> spec_fn(C, C, C) -> bool {
    |attenuation: C, inner: C, c: C| call_ensures(tint, (attenuation, inner), c)
}

/// `c` is a colour that `color` can return for `ray` and `depth` with the
/// given closures.
pub open spec fn is_radiance<R, H, C, FH, FS, FB, FT>(
    hit: FH,
    scatter: FS,
    sky: FB,
    tint: FT,
    black: C,
    ray: R,
    depth: nat,
    c: C,
) -> bool where
    FH: Fn(&R) -> Option<H>,
    FS: Fn(&R, &H) -> Option<(C, R)>,
    FB: Fn(&R) -> C,
    FT: Fn(C, C) -> C,
 {
    may_yield(finds(hit), scatters(scatter), sees(sky), tints(tint), black, ray, depth, c)
}

/// The scene's closures accept every ray, hit and colour.
pub open spec fn scene_is_total<R, H, C, FH, FS, FB, FT>(
    hit: FH,
    scatter: FS,
    sky: FB,
    tint: FT,
) -> bool where
    FH: Fn(&R) -> Option<H>,
    FS: Fn(&R, &H) -> Option<(C, R)>,
    FB: Fn(&R) -> C,
    FT: Fn(C, C) -> C,
 {
    &&& forall|r: R| #[trigger] call_requires(hit, (&r,))
    &&& forall|r: R, h: H| #[trigger] call_requires(scatter, (&r, &h))
    &&& forall|r: R| #[trigger] call_requires(sky, (&r,))
    &&& forall|a: C, b: C| #[trigger] call_requires(tint, (a, b))
}

/// The colour that `ray` brings back when it may bounce `depth` times.
///
/// With no depth left the answer is `black`, and the scene is not asked.
/// Else `hit` looks for the nearest surface. Where there is none, the ray
/// sees the background `sky`. Where there is one, `scatter` decides: an
/// absorbed ray brings back `black`, a scattered one the colour of the new
/// ray, followed with one bounce less and weighted by `tint` with the
/// surface's attenuation.
pub fn color<R, H, C, FH, FS, FB, FT>(
    ray: R,
    depth: u32,
    black: C,
    hit: &FH,
    scatter: &FS,
    sky: &FB,
    tint: &FT,
) -> (c: C) where
    FH: Fn(&R) -> Option<H>,
    FS: Fn(&R, &H) -> Option<(C, R)>,
    FB: Fn(&R) -> C,
    FT: Fn(C, C) -> C,

    requires
        scene_is_total(*hit, *scatter, *sky, *tint),
    ensures
        is_radiance(*hit, *scatter, *sky, *tint, black, ray, depth as nat, c),
        depth == 0 ==> c == black,
    decreases depth,
{
    if depth == 0 {
        return black;
    }
    let found = hit(&ray);
    assert(finds(*hit)(ray, found));
    match found {
        None => {
            let c = sky(&ray);
            assert(sees(*sky)(ray, c));
            c
        },
        Some(record) => {
            let scattered = scatter(&ray, &record);
            assert(scatters(*scatter)(ray, record, scattered));
            match scattered {
                None => black,
                Some((attenuation, next)) => {
                    let inner = color(next, depth - 1, black, hit, scatter, sky, tint);
                    let c = tint(attenuation, inner);
                    assert(tints(*tint)(attenuation, inner, c));
                    c
                },
            }
        },
    }
}

/// A ray with no depth left brings back black and nothing else, whatever
/// the scene holds.
pub proof fn lemma_exhausted_ray_is_black<R, H, C, FH, FS, FB, FT>(
    hit: FH,
    scatter: FS,
    sky: FB,
    tint: FT,
    black: C,
    ray: R,
    c: C,
) where
    FH: Fn(&R) -> Option<H>,
    FS: Fn(&R, &H) -> Option<(C, R)>,
    FB: Fn(&R) -> C,
    FT: Fn(C, C) -> C,

    ensures
        is_radiance(hit, scatter, sky, tint, black, ray, 0, c) <==> c == black,
{
}

} // verus!
