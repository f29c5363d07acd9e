//! The bounce tracer: walks one ray through the scene, a fixed number of
//! bounces, and accumulates the colours of the spheres it reflects off.

use vstd::prelude::*;
use crate::color::Color;
use crate::scene::{unique_ids, RayIntersectable, Sphere};

verus! {

/// How many bounces a trace makes. It makes all of them, also after a miss.
pub const MAX_BOUNCES: usize = 5;

/// What a trace carries from one bounce to the next.
pub struct Trace<R> {
    /// The ray that the next bounce tests.
    pub ray: R,
    /// The id of the sphere that the ray last reflected off, if any.
    pub last_hit: Option<u32>,
    /// The colour accumulated so far; `None` until the first hit.
    pub color: Option<Color>,
}

impl<R> Trace<R> {
    /// The state before the first bounce of `ray`.
    pub open spec fn start_spec(ray: R) -> Trace<R> {
        Trace { ray, last_hit: None, color: None }
    }

    /// Starts a trace: nothing is excluded and nothing accumulated.
    #[verifier::when_used_as_spec(start_spec)]
    pub fn start(ray: R) -> (state: Trace<R>)
        ensures
            state == Trace::start_spec(ray),
    {
        Trace { ray, last_hit: None, color: None }
    }

    /// The state after the ray reflected off a sphere with this id and
    /// colour and went on as `ray`.
    pub open spec fn reflect_off_spec(self, id: u32, color: Color, ray: R) -> Trace<R> {
        Trace { ray, last_hit: Some(id), color: Some(color.accumulate_spec(self.color)) }
    }

    /// Records a hit: the trace goes on with `ray`, remembers the sphere's
    /// id as the one to skip next, and folds the sphere's colour into what
    /// it had accumulated.
    #[verifier::when_used_as_spec(reflect_off_spec)]
    pub fn reflect_off(self, id: u32, color: Color, ray: R) -> (next: Trace<R>)
        ensures
            next == self.reflect_off_spec(id, color, ray),
    {
        Trace { ray, last_hit: Some(id), color: Some(color.accumulate(self.color)) }
    }

    /// The colour of the pixel: what was accumulated, or `background` when
    /// no bounce hit anything.
    pub open spec fn resolve_spec(self, background: Color) -> Color {
        match self.color {
            Some(color) => color,
            None => background,
        }
    }

    /// Ends a trace.
    #[verifier::when_used_as_spec(resolve_spec)]
    pub fn resolve(self, background: Color) -> (color: Color)
        ensures
            color == self.resolve_spec(background),
    {
        match self.color {
            Some(color) => color,
            None => background,
        }
    }
}

/// Whether a bounce may test the sphere `id`: every sphere but the one the
/// ray has just left.
pub open spec fn is_candidate_spec(excluded: Option<u32>, id: u32) -> bool {
    excluded != Some(id)
}

/// Tells whether a bounce tests the sphere `id`.
#[verifier::when_used_as_spec(is_candidate_spec)]
pub fn is_candidate(excluded: Option<u32>, id: u32) -> (tested: bool)
    ensures
        tested == is_candidate_spec(excluded, id),
{
    match excluded {
        Some(last) => last != id,
        None => true,
    }
}

/// Whether the sphere at `i` is tested and reports a hit for `ray`.
pub open spec fn reports_hit<G: RayIntersectable>(
    scene: Seq<Sphere<G>>,
    ray: &G::Ray,
    excluded: Option<u32>,
    i: int,
) -> bool {
    is_candidate_spec(excluded, scene[i].id) && scene[i].geometry.hit(ray).is_some()
}

/// Whether `i` is the first sphere, in the order of the scene, that reports
/// a hit. How far away the hit is plays no part.
pub open spec fn is_first_hit<G: RayIntersectable>(
    scene: Seq<Sphere<G>>,
    ray: &G::Ray,
    excluded: Option<u32>,
    i: int,
) -> bool {
    &&& 0 <= i < scene.len()
    &&& reports_hit(scene, ray, excluded, i)
    &&& forall|j: int| 0 <= j < i ==> !reports_hit(scene, ray, excluded, j)
}

/// The index of the sphere that a bounce reacts to, if any sphere reports a
/// hit.
pub open spec fn first_hit<G: RayIntersectable>(
    scene: Seq<Sphere<G>>,
    ray: &G::Ray,
    excluded: Option<u32>,
) -> Option<int> {
    if exists|i: int| is_first_hit(scene, ray, excluded, i) {
        Some(choose|i: int| is_first_hit(scene, ray, excluded, i))
    } else {
        None
    }
}

/// At most one index is the first hit.
pub proof fn lemma_first_hit_unique<G: RayIntersectable>(
    scene: Seq<Sphere<G>>,
    ray: &G::Ray,
    excluded: Option<u32>,
    i: int,
    j: int,
)
    requires
        is_first_hit(scene, ray, excluded, i),
        is_first_hit(scene, ray, excluded, j),
    ensures
        i == j,
{
    if i < j {
        assert(!reports_hit(scene, ray, excluded, i));
    } else if j < i {
        assert(!reports_hit(scene, ray, excluded, j));
    }
}

/// An index that is the first hit is what `first_hit` gives.
pub proof fn lemma_first_hit_found<G: RayIntersectable>(
    scene: Seq<Sphere<G>>,
    ray: &G::Ray,
    excluded: Option<u32>,
    i: int,
)
    requires
        is_first_hit(scene, ray, excluded, i),
    ensures
        first_hit(scene, ray, excluded) == Some(i),
{
    let chosen = choose|k: int| is_first_hit(scene, ray, excluded, k);
    lemma_first_hit_unique(scene, ray, excluded, i, chosen);
}

/// Where no sphere reports a hit, there is no first hit.
pub proof fn lemma_first_hit_none<G: RayIntersectable>(
    scene: Seq<Sphere<G>>,
    ray: &G::Ray,
    excluded: Option<u32>,
)
    requires
        forall|j: int| 0 <= j < scene.len() ==> !reports_hit(scene, ray, excluded, j),
    ensures
        first_hit(scene, ray, excluded) is None,
{
}

/// Tests the spheres in the order of the scene, leaving out `excluded`, and
/// stops at the first that reports a hit. Gives its index and the point.
pub fn find_first_hit<G: RayIntersectable>(
    scene: &Vec<Sphere<G>>,
    ray: &G::Ray,
    excluded: Option<u32>,
) -> (found: Option<(usize, G::Point)>)
    ensures
        match found {
            Some((i, point)) => {
                &&& first_hit(scene@, ray, excluded) == Some(i as int)
                &&& is_first_hit(scene@, ray, excluded, i as int)
                &&& scene@[i as int].geometry.hit(ray) == Some(point)
            },
            None => {
                &&& first_hit(scene@, ray, excluded) is None
                &&& forall|j: int| 0 <= j < scene@.len() ==> !reports_hit(scene@, ray, excluded, j)
            },
        },
{
    let mut i: usize = 0;
    while i < scene.len()
        invariant
            i <= scene@.len(),
            forall|j: int| 0 <= j < i ==> !reports_hit(scene@, ray, excluded, j),
        decreases scene@.len() - i,
    {
        if is_candidate(excluded, scene[i].id) {
            if let Some(point) = scene[i].geometry.intersect_ray(ray) {
                proof {
                    lemma_first_hit_found(scene@, ray, excluded, i as int);
                }
                return Some((i, point));
            }
        }
        i += 1;
    }
    proof {
        lemma_first_hit_none(scene@, ray, excluded);
    }
    None
}

/// One bounce. On a hit the ray reflects off the first sphere that reports
/// one; on a miss nothing changes.
pub open spec fn bounce_spec<G: RayIntersectable>(
    scene: Seq<Sphere<G>>,
    state: Trace<G::Ray>,
) -> Trace<G::Ray> {
    match first_hit(scene, &state.ray, state.last_hit) {
        Some(i) => {
            let geometry = scene[i].geometry;
            let point = geometry.hit(&state.ray).unwrap();
            state.reflect_off_spec(
                scene[i].id,
                scene[i].shape.color,
                geometry.reflected(&state.ray, &point),
            )
        },
        None => state,
    }
}

/// Makes one bounce of the trace.
pub fn bounce<G: RayIntersectable>(scene: &Vec<Sphere<G>>, state: Trace<G::Ray>) -> (next: Trace<
    G::Ray,
>)
    ensures
        next == bounce_spec(scene@, state),
{
    match find_first_hit(scene, &state.ray, state.last_hit) {
        Some((i, point)) => {
            let sphere = &scene[i];
            let ray = sphere.geometry.reflect(&state.ray, &point);
            state.reflect_off(sphere.id, sphere.shape.color, ray)
        },
        None => state,
    }
}

/// The state after `n` bounces.
pub open spec fn bounces<G: RayIntersectable>(
    scene: Seq<Sphere<G>>,
    state: Trace<G::Ray>,
    n: nat,
) -> Trace<G::Ray>
    decreases n,
{
    if n == 0 {
        state
    } else {
        bounce_spec(scene, bounces(scene, state, (n - 1) as nat))
    }
}

/// The colour that a primary ray gives its pixel.
pub open spec fn trace_color<G: RayIntersectable>(
    scene: Seq<Sphere<G>>,
    ray: G::Ray,
    background: Color,
) -> Color {
    bounces(scene, Trace::start_spec(ray), MAX_BOUNCES as nat).resolve_spec(background)
}

/// Traces `ray` through the scene and gives the colour of its pixel.
pub fn trace<G: RayIntersectable>(scene: &Vec<Sphere<G>>, ray: G::Ray, background: Color) -> (color:
    Color)
    ensures
        color == trace_color(scene@, ray, background),
{
    let ghost first = Trace::start_spec(ray);
    let mut state = Trace::start(ray);
    let mut done: usize = 0;
    while done < MAX_BOUNCES
        invariant
            done <= MAX_BOUNCES,
            state == bounces(scene@, first, done as nat),
        decreases MAX_BOUNCES - done,
    {
        state = bounce(scene, state);
        done += 1;
    }
    state.resolve(background)
}


/// First hit in the order of the scene: where the sphere at `j` reports a
/// hit, the bounce reacts to a sphere at or before `j`, namely the first
/// one that reports a hit, whichever of them is nearer.
pub proof fn lemma_first_hit_in_order<G: RayIntersectable>(
    scene: Seq<Sphere<G>>,
    ray: &G::Ray,
    excluded: Option<u32>,
    j: int,
)
    requires
        0 <= j < scene.len(),
        reports_hit(scene, ray, excluded, j),
    ensures
        first_hit(scene, ray, excluded) is Some,
        first_hit(scene, ray, excluded).unwrap() <= j,
        is_first_hit(scene, ray, excluded, first_hit(scene, ray, excluded).unwrap()),
    decreases j,
{
    if exists|k: int| 0 <= k < j && reports_hit(scene, ray, excluded, k) {
        let k = choose|k: int| 0 <= k < j && reports_hit(scene, ray, excluded, k);
        lemma_first_hit_in_order(scene, ray, excluded, k);
    } else {
        lemma_first_hit_found(scene, ray, excluded, j);
    }
}

/// What `first_hit` gives is the first hit, and it gives nothing only where
/// no sphere that is tested reports a hit.
pub proof fn lemma_first_hit_exact<G: RayIntersectable>(
    scene: Seq<Sphere<G>>,
    ray: &G::Ray,
    excluded: Option<u32>,
)
    ensures
        match first_hit(scene, ray, excluded) {
            Some(i) => is_first_hit(scene, ray, excluded, i),
            None => forall|j: int| 0 <= j < scene.len() ==> !reports_hit(scene, ray, excluded, j),
        },
{
    if first_hit(scene, ray, excluded) is None {
        assert forall|j: int| 0 <= j < scene.len() implies !reports_hit(
            scene,
            ray,
            excluded,
            j,
        ) by {
            if reports_hit(scene, ray, excluded, j) {
                lemma_first_hit_in_order(scene, ray, excluded, j);
            }
        }
    }
}

/// No self-hit: the sphere that a bounce reacts to is never the one that
/// the ray has just reflected off, whatever its geometry reports.
pub proof fn lemma_no_self_hit<G: RayIntersectable>(scene: Seq<Sphere<G>>, state: Trace<G::Ray>)
    ensures
        match first_hit(scene, &state.ray, state.last_hit) {
            Some(i) => 0 <= i < scene.len() && state.last_hit != Some(scene[i].id),
            None => true,
        },
{
    lemma_first_hit_exact(scene, &state.ray, state.last_hit);
}

/// Two hits in a row are on spheres with different ids.
pub proof fn lemma_consecutive_hits_differ<G: RayIntersectable>(
    scene: Seq<Sphere<G>>,
    state: Trace<G::Ray>,
)
    requires
        first_hit(scene, &state.ray, state.last_hit) is Some,
    ensures
        ({
            let once = bounce_spec(scene, state);
            let twice = bounce_spec(scene, once);
            first_hit(scene, &once.ray, once.last_hit) is Some ==> twice.last_hit != once.last_hit
        }),
{
    let once = bounce_spec(scene, state);
    lemma_no_self_hit(scene, once);
}

/// On the first bounce no sphere is left out: the bounce reacts to the
/// first sphere whose geometry reports a hit.
pub proof fn lemma_first_bounce_tests_all<G: RayIntersectable>(
    scene: Seq<Sphere<G>>,
    ray: &G::Ray,
    j: int,
)
    requires
        0 <= j < scene.len(),
    ensures
        reports_hit(scene, ray, None, j) == scene[j].geometry.hit(ray).is_some(),
{
}

/// A bounce that hits nothing leaves the trace as it was, so every later
/// bounce repeats the same miss.
pub proof fn lemma_miss_repeats<G: RayIntersectable>(
    scene: Seq<Sphere<G>>,
    state: Trace<G::Ray>,
    n: nat,
)
    requires
        first_hit(scene, &state.ray, state.last_hit) is None,
    ensures
        bounces(scene, state, n) == state,
    decreases n,
{
    if n > 0 {
        lemma_miss_repeats(scene, state, (n - 1) as nat);
    }
}

/// Once a colour is accumulated, later bounces keep one.
pub proof fn lemma_color_stays<G: RayIntersectable>(
    scene: Seq<Sphere<G>>,
    state: Trace<G::Ray>,
    n: nat,
)
    requires
        state.color is Some,
    ensures
        bounces(scene, state, n).color is Some,
    decreases n,
{
    if n > 0 {
        lemma_color_stays(scene, state, (n - 1) as nat);
    }
}

/// Bouncing `n + 1` times is one bounce followed by `n` more.
pub proof fn lemma_bounces_unfold_first<G: RayIntersectable>(
    scene: Seq<Sphere<G>>,
    state: Trace<G::Ray>,
    n: nat,
)
    ensures
        bounces(scene, state, n + 1) == bounces(scene, bounce_spec(scene, state), n),
    decreases n,
{
    if n == 0 {
        assert(bounces(scene, state, 0) == state);
        assert(bounces(scene, state, 1) == bounce_spec(scene, bounces(scene, state, 0)));
    } else {
        lemma_bounces_unfold_first(scene, state, (n - 1) as nat);
        assert(bounces(scene, state, n + 1) == bounce_spec(scene, bounces(scene, state, n)));
    }
}

/// Background fallback: a pixel gets the background exactly when nothing
/// was accumulated, and that is when the primary ray meets no sphere. A ray
/// that meets a sphere gets an accumulated colour instead.
pub proof fn lemma_background_fallback<G: RayIntersectable>(
    scene: Seq<Sphere<G>>,
    ray: G::Ray,
    background: Color,
)
    ensures
        (forall|i: int| 0 <= i < scene.len() ==> scene[i].geometry.hit(&ray) is None)
            ==> trace_color(scene, ray, background) == background,
        (exists|i: int| 0 <= i < scene.len() && scene[i].geometry.hit(&ray) is Some)
            ==> bounces(scene, Trace::start_spec(ray), MAX_BOUNCES as nat).color is Some,
{
    let first = Trace::start_spec(ray);
    if forall|i: int| 0 <= i < scene.len() ==> scene[i].geometry.hit(&ray) is None {
        lemma_first_hit_none(scene, &ray, None);
        lemma_miss_repeats(scene, first, MAX_BOUNCES as nat);
    }
    if exists|i: int| 0 <= i < scene.len() && scene[i].geometry.hit(&ray) is Some {
        let i = choose|i: int| 0 <= i < scene.len() && scene[i].geometry.hit(&ray) is Some;
        lemma_first_hit_in_order(scene, &ray, None, i);
        lemma_bounces_unfold_first(scene, first, (MAX_BOUNCES - 1) as nat);
        lemma_color_stays(scene, bounce_spec(scene, first), (MAX_BOUNCES - 1) as nat);
    }
}


/// In a scene with unique ids, a hit leaves out one sphere and no other:
/// the next bounce tests every sphere but the one that was hit.
pub proof fn lemma_only_last_hit_excluded<G: RayIntersectable>(
    scene: Seq<Sphere<G>>,
    state: Trace<G::Ray>,
    j: int,
)
    requires
        unique_ids(scene),
        first_hit(scene, &state.ray, state.last_hit) is Some,
        0 <= j < scene.len(),
    ensures
        is_candidate_spec(bounce_spec(scene, state).last_hit, scene[j].id) == (j != first_hit(
            scene,
            &state.ray,
            state.last_hit,
        ).unwrap()),
{
    lemma_first_hit_exact(scene, &state.ray, state.last_hit);
}

} // verus!
