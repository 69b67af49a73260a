use vstd::prelude::*;

verus! {

/// The shape that a quadrilateral primitive cuts out of its plane.
#[derive(Clone, Copy, Debug, PartialEq, Eq, Structural)]
pub enum QuadType {
    Rect(),
    Triangle(),
    Disk(),
}

/// Bit pattern of the single-precision distance `1e-4`: hits closer than
/// this to the ray origin are taken for self-intersections and skipped.
pub const NEAR_KEY: u32 = 0x38d1_b717;

/// Bit pattern of the single-precision positive infinity: an infinite or
/// undefined (NaN) distance is no hit.
pub const INFINITE_KEY: u32 = 0x7f80_0000;

/// A hit distance is handed over as the bit pattern of a non-negative
/// single-precision number. On such numbers the bit patterns, read as
/// unsigned integers, are ordered as the numbers are; every finite one
/// lies below `INFINITE_KEY`, and every NaN above it.
pub open spec fn admissible(key: u32) -> bool {
    NEAR_KEY <= key < INFINITE_KEY
}

pub open spec fn valid_at<H>(outs: Seq<Option<(u32, H)>>, i: int) -> bool {
    &&& 0 <= i < outs.len()
    &&& outs[i] is Some
    &&& admissible(outs[i].unwrap().0)
}

pub open spec fn key_at<H>(outs: Seq<Option<(u32, H)>>, i: int) -> u32 {
    outs[i].unwrap().0
}

/// Candidate `i` is the nearest admissible one, and the first among those
/// at its distance.
pub open spec fn is_nearest<H>(outs: Seq<Option<(u32, H)>>, i: int) -> bool {
    &&& valid_at(outs, i)
    &&& forall|j: int|
        #![trigger valid_at(outs, j)]
        valid_at(outs, j) ==> key_at(outs, i) <= key_at(outs, j) && (j < i ==> key_at(outs, i)
            < key_at(outs, j))
}

/// The hit that nearest-hit selection keeps among the per-primitive
/// outcomes `outs`: none when no outcome is admissible.
pub open spec fn nearest<H>(outs: Seq<Option<(u32, H)>>) -> Option<H> {
    if exists|i: int| is_nearest(outs, i) {
        Some(outs[choose|i: int| is_nearest(outs, i)].unwrap().1)
    } else {
        None
    }
}

/// `outs` is one possible list of outcomes of probing each primitive of
/// `objs` with `ray`.
pub open spec fn probed<O, R, H, FP: Fn(&O, &R) -> Option<(u32, H)>>(
    objs: Seq<O>,
    probe: FP,
    ray: R,
    outs: Seq<Option<(u32, H)>>,
) -> bool {
    &&& outs.len() == objs.len()
    &&& forall|j: int| 0 <= j < objs.len() ==> probe.ensures((&objs[j], &ray), #[trigger] outs[j])
}

/// `probe` may be called on any primitive and ray.
pub open spec fn probe_ready<O, R, H, FP: Fn(&O, &R) -> Option<(u32, H)>>(probe: FP) -> bool {
    forall|o: O, r: R| #[trigger] probe.requires((&o, &r))
}

proof fn lemma_nearest_unique<H>(outs: Seq<Option<(u32, H)>>, i: int, k: int)
    requires
        is_nearest(outs, i),
        is_nearest(outs, k),
    ensures
        i == k,
{
    assert(valid_at(outs, k));
    assert(valid_at(outs, i));
}

proof fn lemma_nearest_is<H>(outs: Seq<Option<(u32, H)>>, i: int)
    requires
        is_nearest(outs, i),
    ensures
        nearest(outs) == Some(outs[i].unwrap().1),
{
    let k = choose|k: int| is_nearest(outs, k);
    lemma_nearest_unique(outs, i, k);
}

/// Nearest-hit selection over a scene: probes every primitive of `objs`
/// with `ray` and keeps the admissible hit at the smallest distance, the
/// first one on a tie.
pub fn hit_all<O, R, H, FP: Fn(&O, &R) -> Option<(u32, H)>>(
    ray: &R,
    objs: &Vec<O>,
    probe: &FP,
) -> (r: Option<H>)
    requires
        probe_ready(*probe),
    ensures
        exists|outs: Seq<Option<(u32, H)>>|
            #[trigger] probed(objs@, *probe, *ray, outs) && r == nearest(outs) && (r is None
                <==> forall|j: int| !valid_at(outs, j)),
{
    let mut best: Option<H> = None;
    let mut best_key: u32 = INFINITE_KEY;
    let ghost mut best_i: int = 0;
    let ghost mut outs: Seq<Option<(u32, H)>> = Seq::empty();
    let mut i: usize = 0;
    while i < objs.len()
        invariant
            probe_ready(*probe),
            i <= objs.len(),
            outs.len() == i,
            forall|j: int| 0 <= j < i ==> probe.ensures((&objs@[j], ray), #[trigger] outs[j]),
            best is None ==> best_key == INFINITE_KEY && forall|j: int| !valid_at(outs, j),
            best is Some ==> is_nearest(outs, best_i) && best == Some(outs[best_i].unwrap().1)
                && best_key == key_at(outs, best_i),
        decreases objs.len() - i,
    {
        let out = probe(&objs[i], ray);
        let ghost prev = outs;
        proof {
            outs = outs.push(out);
            assert(forall|j: int| 0 <= j < i ==> outs[j] == prev[j]);
            assert(forall|j: int| 0 <= j < i ==> valid_at(outs, j) == valid_at(prev, j));
        }
        match out {
            Some((key, hit)) => {
                if NEAR_KEY <= key && key < best_key {
                    best = Some(hit);
                    best_key = key;
                    proof {
                        best_i = i as int;
                    }
                }
            },
            None => {},
        }
        i += 1;
    }
    proof {
        assert(probed(objs@, *probe, *ray, outs));
        if best is Some {
            lemma_nearest_is(outs, best_i);
            assert(valid_at(outs, best_i));
        } else {
            assert(!exists|k: int| is_nearest(outs, k));
        }
    }
    best
}

/// `c` is a color that the bounce loop can return for `ray` with `depth`
/// bounces left: black once the depth is spent; the environment's color
/// when no primitive is hit; otherwise the shading of the nearest hit,
/// applied to a color returned for the scattered ray one bounce deeper.
pub open spec fn traced<O, R, H, C, FP, FS, FE, FC>(
    objs: Seq<O>,
    probe: FP,
    scatter: FS,
    env: FE,
    shade: FC,
    black: C,
    ray: R,
    depth: nat,
    c: C,
) -> bool where
    FP: Fn(&O, &R) -> Option<(u32, H)>,
    FS: Fn(&R, &H) -> R,
    FE: Fn(&R) -> C,
    FC: Fn(&H, C) -> C,
    decreases depth,
{
    if depth == 0 {
        c == black
    } else {
        exists|outs: Seq<Option<(u32, H)>>|
            #[trigger] probed(objs, probe, ray, outs) && match nearest(outs) {
                None => env.ensures((&ray,), c),
                Some(hit) => exists|next: R, future: C|
                    #![trigger scatter.ensures((&ray, &hit), next), shade.ensures((&hit, future), c)]
                    scatter.ensures((&ray, &hit), next) && traced(
                        objs,
                        probe,
                        scatter,
                        env,
                        shade,
                        black,
                        next,
                        (depth - 1) as nat,
                        future,
                    ) && shade.ensures((&hit, future), c),
            }
    }
}

/// The colors that the bounce loop can return stay within any set of
/// colors that holds black and every environment color, and that shading
/// keeps: shading a color of the set gives a color of the set.
pub proof fn lemma_traced_stays_within<O, R, H, C, FP, FS, FE, FC>(
    objs: Seq<O>,
    probe: FP,
    scatter: FS,
    env: FE,
    shade: FC,
    black: C,
    ray: R,
    depth: nat,
    c: C,
    within: spec_fn(C) -> bool,
) where
    FP: Fn(&O, &R) -> Option<(u32, H)>,
    FS: Fn(&R, &H) -> R,
    FE: Fn(&R) -> C,
    FC: Fn(&H, C) -> C,

    requires
        within(black),
        forall|r: R, e: C| #[trigger] env.ensures((&r,), e) ==> within(e),
        forall|h: H, f: C, g: C| within(f) && #[trigger] shade.ensures((&h, f), g) ==> within(g),
        traced(objs, probe, scatter, env, shade, black, ray, depth, c),
    ensures
        within(c),
    decreases depth,
{
    if depth > 0 {
        let outs = choose|outs: Seq<Option<(u32, H)>>|
            #[trigger] probed(objs, probe, ray, outs) && match nearest(outs) {
                None => env.ensures((&ray,), c),
                Some(hit) => exists|next: R, future: C|
                    #![trigger scatter.ensures((&ray, &hit), next), shade.ensures((&hit, future), c)]
                    scatter.ensures((&ray, &hit), next) && traced(
                        objs,
                        probe,
                        scatter,
                        env,
                        shade,
                        black,
                        next,
                        (depth - 1) as nat,
                        future,
                    ) && shade.ensures((&hit, future), c),
            };
        match nearest(outs) {
            None => {},
            Some(hit) => {
                let (next, future) = choose|next: R, future: C|
                    scatter.ensures((&ray, &hit), next) && traced(
                        objs,
                        probe,
                        scatter,
                        env,
                        shade,
                        black,
                        next,
                        (depth - 1) as nat,
                        future,
                    ) && shade.ensures((&hit, future), c);
                lemma_traced_stays_within(
                    objs,
                    probe,
                    scatter,
                    env,
                    shade,
                    black,
                    next,
                    (depth - 1) as nat,
                    future,
                    within,
                );
            },
        }
    }
}

/// From `ray`, the nearest-hit selection over `objs` may find `hit`, and
/// `scatter` may turn it into `next`.
pub open spec fn stepped<O, R, H, FP, FS>(objs: Seq<O>, probe: FP, scatter: FS, ray: R, hit: H, next: R) -> bool where
    FP: Fn(&O, &R) -> Option<(u32, H)>,
    FS: Fn(&R, &H) -> R,
 {
    &&& exists|outs: Seq<Option<(u32, H)>>|
        #[trigger] probed(objs, probe, ray, outs) && nearest(outs) == Some(hit)
    &&& scatter.ensures((&ray, &hit), next)
}

/// From `ray`, the nearest-hit selection over `objs` may find nothing.
pub open spec fn missed<O, R, H, FP>(objs: Seq<O>, probe: FP, ray: R) -> bool where
    FP: Fn(&O, &R) -> Option<(u32, H)>,
 {
    exists|outs: Seq<Option<(u32, H)>>|
        #[trigger] probed(objs, probe, ray, outs) && nearest(outs) == None::<H>
}

proof fn lemma_traced_step<O, R, H, C, FP, FS, FE, FC>(
    objs: Seq<O>,
    probe: FP,
    scatter: FS,
    env: FE,
    shade: FC,
    black: C,
    ray: R,
    hit: H,
    next: R,
    depth: nat,
    future: C,
    c: C,
) where
    FP: Fn(&O, &R) -> Option<(u32, H)>,
    FS: Fn(&R, &H) -> R,
    FE: Fn(&R) -> C,
    FC: Fn(&H, C) -> C,

    requires
        stepped(objs, probe, scatter, ray, hit, next),
        traced(objs, probe, scatter, env, shade, black, next, depth, future),
        shade.ensures((&hit, future), c),
    ensures
        traced(objs, probe, scatter, env, shade, black, ray, depth + 1, c),
{
    let outs = choose|outs: Seq<Option<(u32, H)>>|
        #[trigger] probed(objs, probe, ray, outs) && nearest(outs) == Some(hit);
    assert(probed(objs, probe, ray, outs));
    assert(scatter.ensures((&ray, &hit), next) && shade.ensures((&hit, future), c));
    assert(traced(objs, probe, scatter, env, shade, black, next, (depth + 1 - 1) as nat, future));
}

proof fn lemma_traced_miss<O, R, H, C, FP, FS, FE, FC>(
    objs: Seq<O>,
    probe: FP,
    scatter: FS,
    env: FE,
    shade: FC,
    black: C,
    ray: R,
    depth: nat,
    c: C,
) where
    FP: Fn(&O, &R) -> Option<(u32, H)>,
    FS: Fn(&R, &H) -> R,
    FE: Fn(&R) -> C,
    FC: Fn(&H, C) -> C,

    requires
        depth > 0,
        missed(objs, probe, ray),
        env.ensures((&ray,), c),
    ensures
        traced(objs, probe, scatter, env, shade, black, ray, depth, c),
{
    let outs = choose|outs: Seq<Option<(u32, H)>>|
        #[trigger] probed(objs, probe, ray, outs) && nearest(outs) == None::<H>;
    assert(probed(objs, probe, ray, outs));
}

/// The light-transport estimator: follows `ray` through the scene for at
/// most `max_bounce` bounces, then composes the color along the path from
/// the innermost bounce outward.
///
/// `probe` intersects one primitive (the distance as in `admissible`),
/// `scatter` draws the next ray at a hit, `env` colors a ray that escapes
/// the scene, and `shade` combines a hit with the color that arrives from
/// its scattered ray.
pub fn bounce<O, R, H, C, FP, FS, FE, FC>(
    ray: R,
    objs: &Vec<O>,
    max_bounce: u8,
    probe: &FP,
    scatter: &FS,
    env: &FE,
    shade: &FC,
    black: C,
) -> (c: C) where
    FP: Fn(&O, &R) -> Option<(u32, H)>,
    FS: Fn(&R, &H) -> R,
    FE: Fn(&R) -> C,
    FC: Fn(&H, C) -> C,

    requires
        probe_ready(*probe),
        forall|r: R, h: H| #[trigger] scatter.requires((&r, &h)),
        forall|r: R| #[trigger] env.requires((&r,)),
        forall|h: H, f: C| #[trigger] shade.requires((&h, f)),
    ensures
        traced(objs@, *probe, *scatter, *env, *shade, black, ray, max_bounce as nat, c),
        max_bounce == 0 ==> c == black,
        max_bounce > 0 && objs@.len() == 0 ==> env.ensures((&ray,), c),
{
    let ghost first = ray;
    let ghost mut rays: Seq<R> = seq![ray];
    let mut hits: Vec<H> = Vec::new();
    let mut current = ray;
    let mut depth: u8 = max_bounce;
    let mut escaped: Option<C> = None;
    while depth > 0 && escaped.is_none()
        invariant
            probe_ready(*probe),
            forall|r: R, h: H| #[trigger] scatter.requires((&r, &h)),
            forall|r: R| #[trigger] env.requires((&r,)),
            depth <= max_bounce,
            hits@.len() == max_bounce - depth,
            rays.len() == hits@.len() + 1,
            rays[0] == first,
            rays.last() == current,
            forall|i: int|
                0 <= i < hits@.len() ==> #[trigger] stepped(
                    objs@,
                    *probe,
                    *scatter,
                    rays[i],
                    hits@[i],
                    rays[i + 1],
                ),
            escaped matches Some(e) ==> depth > 0 && missed(objs@, *probe, current) && env.ensures(
                (&current,),
                e,
            ),
            objs@.len() == 0 ==> hits@.len() == 0,
        decreases depth, if escaped is None {
            1int
        } else {
            0int
        },
    {
        match hit_all(&current, objs, probe) {
            None => {
                escaped = Some(env(&current));
            },
            Some(hit) => {
                let next = scatter(&current, &hit);
                proof {
                    assert(stepped(objs@, *probe, *scatter, current, hit, next));
                    rays = rays.push(next);
                }
                hits.push(hit);
                current = next;
                depth -= 1;
            },
        }
    }
    let ghost k = hits@.len() as int;
    let mut c = match escaped {
        Some(e) => e,
        None => black,
    };
    proof {
        if depth > 0 {
            lemma_traced_miss(objs@, *probe, *scatter, *env, *shade, black, rays[k], depth as nat, c);
        }
    }
    let mut j: usize = hits.len();
    while j > 0
        invariant
            forall|h: H, f: C| #[trigger] shade.requires((&h, f)),
            0 <= j <= hits@.len(),
            rays.len() == hits@.len() + 1,
            hits@.len() <= max_bounce,
            forall|i: int|
                0 <= i < hits@.len() ==> #[trigger] stepped(
                    objs@,
                    *probe,
                    *scatter,
                    rays[i],
                    hits@[i],
                    rays[i + 1],
                ),
            traced(objs@, *probe, *scatter, *env, *shade, black, rays[j as int], (max_bounce - j) as nat, c),
        decreases j,
    {
        j -= 1;
        let shaded = shade(&hits[j], c);
        proof {
            lemma_traced_step(
                objs@,
                *probe,
                *scatter,
                *env,
                *shade,
                black,
                rays[j as int],
                hits@[j as int],
                rays[j as int + 1],
                (max_bounce - j - 1) as nat,
                c,
                shaded,
            );
        }
        c = shaded;
    }
    c
}

} // verus!
