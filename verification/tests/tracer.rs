use raytracer::{
    bounce, find_first_hit, has_unique_ids, is_candidate, trace, Color, RayIntersectable, Shape,
    Sphere, Trace, MAX_BOUNCES,
};
use std::cell::Cell;

/// A geometry that follows a script. A ray is the number of reflections
/// behind it; the geometry reports a hit for the rays listed in `hits`.
struct Script {
    hits: Vec<u32>,
    tested: Cell<u32>,
}

impl RayIntersectable for Script {
    type Ray = u32;
    type Point = u32;

    fn hit(&self, ray: &u32) -> Option<u32> {
        self.intersect_ray(ray)
    }

    fn reflected(&self, ray: &u32, point: &u32) -> u32 {
        self.reflect(ray, point)
    }

    fn intersect_ray(&self, ray: &u32) -> Option<u32> {
        self.tested.set(self.tested.get() + 1);
        if self.hits.contains(ray) {
            Some(*ray * 10)
        } else {
            None
        }
    }

    fn reflect(&self, ray: &u32, _point: &u32) -> u32 {
        *ray + 1
    }
}

const A: Color = Color { r: 201, g: 51, b: 9, a: 255 };
const B: Color = Color { r: 3, g: 82, b: 252, a: 255 };
const SKY: Color = Color { r: 0x88, g: 0xb9, b: 0x39, a: 0xff };

fn sphere(id: u32, color: Color, hits: &[u32]) -> Sphere<Script> {
    Sphere {
        id,
        shape: Shape { color, name: format!("sphere {}", id) },
        geometry: Script { hits: hits.to_vec(), tested: Cell::new(0) },
    }
}

const ALWAYS: [u32; 6] = [0, 1, 2, 3, 4, 5];

#[test]
fn a_trace_makes_five_bounces() {
    assert_eq!(MAX_BOUNCES, 5);
}

#[test]
fn empty_scene_gives_background() {
    let scene: Vec<Sphere<Script>> = Vec::new();
    assert_eq!(trace(&scene, 0, SKY), SKY);
}

#[test]
fn total_miss_gives_background() {
    let scene = vec![sphere(1, A, &[]), sphere(2, B, &[])];
    assert_eq!(trace(&scene, 0, SKY), SKY);
}

#[test]
fn total_miss_still_runs_every_bounce() {
    let scene = vec![sphere(1, A, &[]), sphere(2, B, &[]), sphere(3, A, &[])];
    trace(&scene, 0, SKY);
    for s in scene.iter() {
        assert_eq!(s.geometry.tested.get(), 5);
    }
}

#[test]
fn a_bounce_stops_testing_at_the_first_hit() {
    let scene = vec![sphere(1, A, &[]), sphere(2, B, &ALWAYS), sphere(3, A, &ALWAYS)];
    let next = bounce(&scene, Trace::start(0));
    assert_eq!(next.last_hit, Some(2));
    assert_eq!(next.ray, 1);
    assert_eq!(scene[0].geometry.tested.get(), 1);
    assert_eq!(scene[1].geometry.tested.get(), 1);
    assert_eq!(scene[2].geometry.tested.get(), 0);
}

#[test]
fn find_first_hit_gives_index_and_point() {
    let scene = vec![sphere(1, A, &[]), sphere(2, B, &[3]), sphere(3, A, &[3])];
    assert_eq!(find_first_hit(&scene, &3, None), Some((1, 30)));
    assert_eq!(find_first_hit(&scene, &3, Some(2)), Some((2, 30)));
    assert_eq!(find_first_hit(&scene, &3, Some(1)), Some((1, 30)));
    assert_eq!(find_first_hit(&scene, &4, None), None);
}

#[test]
fn the_sphere_just_left_is_not_tested() {
    let scene = vec![sphere(1, A, &ALWAYS), sphere(2, B, &ALWAYS)];
    let state = Trace { ray: 1, last_hit: Some(1), color: Some(A) };
    let next = bounce(&scene, state);
    assert_eq!(next.last_hit, Some(2));
    assert_eq!(scene[0].geometry.tested.get(), 0);
    assert_eq!(scene[1].geometry.tested.get(), 1);
}

#[test]
fn a_lone_sphere_is_hit_once() {
    let scene = vec![sphere(2, A, &ALWAYS)];
    let first = bounce(&scene, Trace::start(0));
    assert_eq!(first.last_hit, Some(2));
    assert_eq!(first.ray, 1);
    let second = bounce(&scene, first);
    assert_eq!(second.last_hit, Some(2));
    assert_eq!(second.ray, 1);
    assert_eq!(second.color, Some(A.accumulate(None)));
    assert_eq!(scene[0].geometry.tested.get(), 1);
    assert_eq!(trace(&scene, 0, SKY), Color { r: 201, g: 51, b: 9, a: 255 });
}

#[test]
fn first_bounce_excludes_no_id() {
    let scene = vec![sphere(u32::MAX, A, &ALWAYS), sphere(0, B, &ALWAYS)];
    assert_eq!(bounce(&scene, Trace::start(0)).last_hit, Some(u32::MAX));
    let scene = vec![sphere(0, B, &ALWAYS), sphere(u32::MAX, A, &ALWAYS)];
    assert_eq!(bounce(&scene, Trace::start(0)).last_hit, Some(0));
}

#[test]
fn spheres_that_share_an_id_are_left_out_together() {
    let scene = vec![sphere(7, A, &ALWAYS), sphere(7, B, &ALWAYS), sphere(8, B, &[])];
    let first = bounce(&scene, Trace::start(0));
    assert_eq!(first.last_hit, Some(7));
    let second = bounce(&scene, first);
    assert_eq!(second.ray, 1);
    assert_eq!(scene[1].geometry.tested.get(), 0);
    assert_eq!(scene[2].geometry.tested.get(), 1);
}

#[test]
fn colours_accumulate_over_five_hits() {
    let scene = vec![sphere(1, A, &ALWAYS), sphere(2, B, &ALWAYS)];
    let mut state = Trace::start(0);
    let expected = [
        (1, Color { r: 201, g: 51, b: 9, a: 255 }),
        (2, Color { r: 135, g: 61, b: 90, a: 255 }),
        (1, Color { r: 157, g: 57, b: 63, a: 255 }),
        (2, Color { r: 105, g: 65, b: 126, a: 255 }),
        (1, Color { r: 137, g: 59, b: 87, a: 255 }),
    ];
    for (step, (id, color)) in expected.iter().enumerate() {
        state = bounce(&scene, state);
        assert_eq!(state.last_hit, Some(*id));
        assert_eq!(state.color, Some(*color));
        assert_eq!(state.ray, step as u32 + 1);
    }
    assert_eq!(trace(&scene, 0, SKY), Color { r: 137, g: 59, b: 87, a: 255 });
}

#[test]
fn list_order_decides_the_colour() {
    let scene = vec![sphere(2, B, &ALWAYS), sphere(1, A, &ALWAYS)];
    assert_eq!(trace(&scene, 0, SKY), Color { r: 65, g: 69, b: 174, a: 255 });
}

#[test]
fn a_hit_followed_by_misses_keeps_its_colour() {
    let scene = vec![sphere(1, Color { r: 1, g: 2, b: 4, a: 5 }, &[0]), sphere(2, B, &[])];
    assert_eq!(trace(&scene, 0, SKY), Color { r: 0, g: 0, b: 3, a: 3 });
    assert_eq!(scene[0].geometry.tested.get(), 1);
    assert_eq!(scene[1].geometry.tested.get(), 4);
}

#[test]
fn a_miss_changes_nothing() {
    let scene = vec![sphere(1, A, &[]), sphere(2, B, &[])];
    let state = Trace { ray: 3, last_hit: Some(1), color: Some(B) };
    let next = bounce(&scene, state);
    assert_eq!(next.ray, 3);
    assert_eq!(next.last_hit, Some(1));
    assert_eq!(next.color, Some(B));
}

#[test]
fn accumulated_colour_wins_over_background() {
    let scene = vec![sphere(1, SKY, &[0])];
    let other = Color { r: 0, g: 0, b: 0, a: 0 };
    assert_eq!(trace(&scene, 0, other), SKY.accumulate(None));
    assert_eq!(trace(&scene, 1, other), other);
}

#[test]
fn start_holds_only_the_ray() {
    let state = Trace::start(9u32);
    assert_eq!(state.ray, 9);
    assert_eq!(state.last_hit, None);
    assert_eq!(state.color, None);
}

#[test]
fn reflect_off_records_id_ray_and_colour() {
    let next = Trace::start(0u32).reflect_off(2, A, 5);
    assert_eq!(next.ray, 5);
    assert_eq!(next.last_hit, Some(2));
    assert_eq!(next.color, Some(A));
    let later = next.reflect_off(3, B, 6);
    assert_eq!(later.ray, 6);
    assert_eq!(later.last_hit, Some(3));
    assert_eq!(later.color, Some(Color { r: 135, g: 61, b: 90, a: 255 }));
}

#[test]
fn resolve_falls_back_to_background() {
    assert_eq!(Trace::start(0u32).resolve(SKY), SKY);
    assert_eq!(Trace { ray: 0u32, last_hit: Some(1), color: Some(A) }.resolve(SKY), A);
}

#[test]
fn only_the_last_hit_is_no_candidate() {
    assert!(is_candidate(None, 0));
    assert!(is_candidate(None, u32::MAX));
    assert!(is_candidate(Some(2), 1));
    assert!(is_candidate(Some(2), 3));
    assert!(!is_candidate(Some(2), 2));
}

#[test]
fn unique_ids_are_recognised() {
    let none: Vec<Sphere<Script>> = Vec::new();
    assert!(has_unique_ids(&none));
    assert!(has_unique_ids(&vec![sphere(1, A, &[])]));
    assert!(has_unique_ids(&vec![sphere(1, A, &[]), sphere(2, A, &[]), sphere(3, A, &[])]));
    assert!(!has_unique_ids(&vec![sphere(1, A, &[]), sphere(2, A, &[]), sphere(1, B, &[])]));
    assert!(!has_unique_ids(&vec![sphere(4, A, &[]), sphere(4, A, &[])]));
}
