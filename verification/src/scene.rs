//! The scene model: spheres with an identity, an appearance and a geometry.

use vstd::prelude::*;
use crate::color::Color;

verus! {

/// What a primitive looks like. The name is a label and nothing reads it.
pub struct Shape {
    pub color: Color,
    pub name: String,
}

/// The geometric side of a primitive: where a ray meets it, and where the
/// ray goes from there.
///
/// The tracer treats both operations as functions of their arguments. An
/// implementation states so by making each method return what the spec
/// function beside it names; nothing here proves that of an implementation
/// that is not verified. Such code writes each spec function as a call of
/// the method it names.
pub trait RayIntersectable {
    /// A ray: an origin and a direction.
    type Ray;

    /// A point in space.
    type Point;

    /// The point at which `ray` meets this primitive, if it does.
    spec fn hit(&self, ray: &Self::Ray) -> Option<Self::Point>;

    /// The ray that leaves `point` after `ray` arrived there.
    spec fn reflected(&self, ray: &Self::Ray, point: &Self::Point) -> Self::Ray;

    /// Tests `ray` against this primitive.
    fn intersect_ray(&self, ray: &Self::Ray) -> (point: Option<Self::Point>)
        ensures
            point == self.hit(ray),
    ;

    /// Reflects `ray` at `point`, a point that `intersect_ray` gave for it.
    fn reflect(&self, ray: &Self::Ray, point: &Self::Point) -> (next: Self::Ray)
        requires
            self.hit(ray) == Some(*point),
        ensures
            next == self.reflected(ray, point),
    ;
}

/// A sphere of the scene. `id` tells the spheres of one scene apart; the
/// geometry `G` holds centre and radius.
pub struct Sphere<G> {
    pub id: u32,
    pub shape: Shape,
    pub geometry: G,
}

impl<G: RayIntersectable> RayIntersectable for Sphere<G> {
    type Ray = G::Ray;

    type Point = G::Point;

    open spec fn hit(&self, ray: &Self::Ray) -> Option<Self::Point> {
        self.geometry.hit(ray)
    }

    open spec fn reflected(&self, ray: &Self::Ray, point: &Self::Point) -> Self::Ray {
        self.geometry.reflected(ray, point)
    }

    fn intersect_ray(&self, ray: &Self::Ray) -> (point: Option<Self::Point>) {
        self.geometry.intersect_ray(ray)
    }

    fn reflect(&self, ray: &Self::Ray, point: &Self::Point) -> (next: Self::Ray) {
        self.geometry.reflect(ray, point)
    }
}


/// Whether no two spheres of the scene share an id.
pub open spec fn unique_ids<G>(scene: Seq<Sphere<G>>) -> bool {
    forall|i: int, j: int|
        0 <= i < j < scene.len() ==> (#[trigger] scene[i]).id != (#[trigger] scene[j]).id
}

/// Tells whether the ids of the scene are unique, as a scene's should be.
pub fn has_unique_ids<G>(scene: &Vec<Sphere<G>>) -> (unique: bool)
    ensures
        unique == unique_ids(scene@),
{
    let mut j: usize = 0;
    while j < scene.len()
        invariant
            j <= scene@.len(),
            forall|a: int, b: int|
                0 <= a < b < j ==> (#[trigger] scene@[a]).id != (#[trigger] scene@[b]).id,
        decreases scene@.len() - j,
    {
        let mut i: usize = 0;
        while i < j
            invariant
                i <= j < scene@.len(),
                forall|a: int| 0 <= a < i ==> (#[trigger] scene@[a]).id != scene@[j as int].id,
            decreases j - i,
        {
            if scene[i].id == scene[j].id {
                return false;
            }
            i += 1;
        }
        j += 1;
    }
    true
}

} // verus!
