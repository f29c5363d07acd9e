//! The frame renderer: one primary ray per pixel, row by row, and four
//! bytes per pixel in the output.

use vstd::prelude::*;
use vstd::arithmetic::div_mod::lemma_fundamental_div_mod;
use vstd::arithmetic::div_mod::lemma_fundamental_div_mod_converse;
use crate::color::Color;
use crate::scene::{RayIntersectable, Sphere};
use crate::tracer::{lemma_background_fallback, trace, trace_color};

verus! {

/// Where the four bytes of pixel `(x, y)` start in a frame `width` wide.
pub open spec fn pixel_offset_spec(x: int, y: int, width: int) -> int {
    4 * (y * width + x)
}

/// The byte offset of pixel `(x, y)` in a frame `width` pixels wide.
pub fn pixel_offset(x: u32, y: u32, width: u32) -> (offset: usize)
    requires
        4 * (y * width + x) <= usize::MAX,
    ensures
        offset == pixel_offset_spec(x as int, y as int, width as int),
{
    assert(0 <= y * width) by (nonlinear_arith);
    4 * ((y as usize) * (width as usize) + (x as usize))
}

/// The column and the row of the pixel with this index in row-major order.
pub fn pixel_coordinates(index: usize, width: u32) -> (at: (u32, u32))
    requires
        width > 0,
        index / (width as usize) <= u32::MAX,
    ensures
        at.0 == index % (width as usize),
        at.1 == index / (width as usize),
        pixel_offset_spec(at.0 as int, at.1 as int, width as int) == 4 * index,
{
    let columns = width as usize;
    proof {
        lemma_fundamental_div_mod(index as int, width as int);
        assert((index / columns) * width == width * (index / columns)) by (nonlinear_arith);
    }
    ((index % columns) as u32, (index / columns) as u32)
}

/// Row-major order: in a frame `width` wide, pixel `(x, y)` has the index
/// `y * width + x`, and that index leads back to `(x, y)`.
pub proof fn lemma_pixel_index(x: int, y: int, width: int)
    requires
        0 <= x < width,
        0 <= y,
    ensures
        (y * width + x) % width == x,
        (y * width + x) / width == y,
        pixel_offset_spec(x, y, width) == 4 * (y * width + x),
{
    lemma_fundamental_div_mod_converse(y * width + x, width, y, x);
}

/// An index below `width * height` lies in a row below `height`.
pub proof fn lemma_row_in_frame(index: int, width: int, height: int)
    requires
        0 <= index < width * height,
        0 <= width,
    ensures
        0 < width,
        0 <= index % width < width,
        0 <= index / width < height,
{
    assert(width != 0) by (nonlinear_arith)
        requires
            0 <= index < width * height,
    ;
    lemma_fundamental_div_mod(index, width);
    let row = index / width;
    assert(0 <= row < height) by (nonlinear_arith)
        requires
            0 < width,
            0 <= index < width * height,
            index == width * row + index % width,
            0 <= index % width < width,
    ;
}

/// In a frame of `width` by `height` pixels, the pixels lie side by side:
/// each has its four bytes inside the frame, and two pixels share no byte.
pub proof fn lemma_pixels_disjoint(x: int, y: int, u: int, v: int, width: int, height: int)
    requires
        0 <= x < width,
        0 <= y < height,
        0 <= u < width,
        0 <= v < height,
    ensures
        0 <= pixel_offset_spec(x, y, width),
        pixel_offset_spec(x, y, width) + 4 <= 4 * width * height,
        (x, y) != (u, v) ==> pixel_offset_spec(x, y, width) + 4 <= pixel_offset_spec(u, v, width)
            || pixel_offset_spec(u, v, width) + 4 <= pixel_offset_spec(x, y, width),
{
    assert(0 <= y * width) by (nonlinear_arith)
        requires
            0 <= y,
            0 <= width,
    ;
    assert(y * width + width <= height * width) by (nonlinear_arith)
        requires
            0 <= y < height,
            0 <= width,
    ;
    assert(4 * width * height == 4 * (height * width)) by (nonlinear_arith);
    if y < v {
        assert(y * width + width <= v * width) by (nonlinear_arith)
            requires
                0 <= y < v,
                0 <= width,
        ;
    } else if v < y {
        assert(v * width + width <= y * width) by (nonlinear_arith)
            requires
                0 <= v < y,
                0 <= width,
        ;
    }
}

/// The four bytes of pixel `(x, y)`.
pub open spec fn pixel_bytes(frame: Seq<u8>, x: int, y: int, width: int) -> Seq<u8> {
    frame.subrange(pixel_offset_spec(x, y, width), pixel_offset_spec(x, y, width) + 4)
}

/// Appends one pixel to a frame: red, green, blue, alpha.
pub fn push_pixel(frame: &mut Vec<u8>, color: Color)
    ensures
        final(frame)@ == old(frame)@ + color.channels_spec(),
{
    let ghost before = frame@;
    frame.push(color.r);
    frame.push(color.g);
    frame.push(color.b);
    frame.push(color.a);
    assert(frame@ =~= before + color.channels_spec());
}

/// Reads pixel `(x, y)` back from a frame `width` pixels wide.
pub fn pixel_at(frame: &Vec<u8>, x: u32, y: u32, width: u32) -> (color: Color)
    requires
        pixel_offset_spec(x as int, y as int, width as int) + 4 <= frame.len(),
    ensures
        color.channels_spec() == pixel_bytes(frame@, x as int, y as int, width as int),
{
    let at = pixel_offset(x, y, width);
    let color = Color { r: frame[at], g: frame[at + 1], b: frame[at + 2], a: frame[at + 3] };
    assert(color.channels_spec() =~= pixel_bytes(frame@, x as int, y as int, width as int));
    color
}

/// Whether pixel `(x, y)` of the frame holds the colour that the trace of
/// its primary ray gives. The primary ray is what `primary_ray` returns for
/// `(x, y)`.
pub open spec fn pixel_shows<G: RayIntersectable, F: Fn(u32, u32) -> G::Ray>(
    frame: Seq<u8>,
    scene: Seq<Sphere<G>>,
    primary_ray: F,
    width: u32,
    x: u32,
    y: u32,
    background: Color,
) -> bool {
    exists|ray: G::Ray| #[trigger]
        primary_ray.ensures((x, y), ray) && pixel_bytes(frame, x as int, y as int, width as int)
            == trace_color(scene, ray, background).channels_spec()
}

/// Whether `frame` is the rendering of the scene: four bytes for each of
/// `width * height` pixels, in row-major order, each pixel with the colour
/// of its own trace.
pub open spec fn is_rendering<G: RayIntersectable, F: Fn(u32, u32) -> G::Ray>(
    frame: Seq<u8>,
    scene: Seq<Sphere<G>>,
    primary_ray: F,
    width: u32,
    height: u32,
    background: Color,
) -> bool {
    &&& frame.len() == 4 * width * height
    &&& forall|x: u32, y: u32|
        x < width && y < height ==> #[trigger] pixel_shows(
            frame,
            scene,
            primary_ray,
            width,
            x,
            y,
            background,
        )
}

/// Whether the pixel with this index in row-major order shows its trace.
spec fn index_shows<G: RayIntersectable, F: Fn(u32, u32) -> G::Ray>(
    frame: Seq<u8>,
    scene: Seq<Sphere<G>>,
    primary_ray: F,
    width: u32,
    index: int,
    background: Color,
) -> bool {
    pixel_shows(
        frame,
        scene,
        primary_ray,
        width,
        (index % (width as int)) as u32,
        (index / (width as int)) as u32,
        background,
    )
}

/// Renders the scene into a new frame.
///
/// `primary_ray` gives the ray through pixel `(x, y)`; it is asked once for
/// each pixel, row by row, and each ray is traced on its own.
pub fn render<G: RayIntersectable, F: Fn(u32, u32) -> G::Ray>(
    scene: &Vec<Sphere<G>>,
    primary_ray: F,
    width: u32,
    height: u32,
    background: Color,
) -> (frame: Vec<u8>)
    requires
        4 * width * height <= usize::MAX,
        forall|x: u32, y: u32| x < width && y < height ==> primary_ray.requires((x, y)),
    ensures
        frame@.len() == 4 * width * height,
        is_rendering(frame@, scene@, primary_ray, width, height, background),
{
    assert(4 * (width * height) == 4 * width * height && 0 <= width * height)
        by (nonlinear_arith);
    let count = (width as usize) * (height as usize);
    let mut frame: Vec<u8> = Vec::new();
    let mut index: usize = 0;
    while index < count
        invariant
            count == width * height,
            4 * count <= usize::MAX,
            index <= count,
            frame@.len() == 4 * index,
            forall|x: u32, y: u32| x < width && y < height ==> primary_ray.requires((x, y)),
            forall|k: int|
                0 <= k < index ==> #[trigger] index_shows(
                    frame@,
                    scene@,
                    primary_ray,
                    width,
                    k,
                    background,
                ),
        decreases count - index,
    {
        proof {
            lemma_row_in_frame(index as int, width as int, height as int);
        }
        let (x, y) = pixel_coordinates(index, width);
        let ray = primary_ray(x, y);
        let ghost primary = ray;
        let color = trace(scene, ray, background);
        let ghost before = frame@;
        push_pixel(&mut frame, color);
        proof {
            assert forall|k: int| 0 <= k < index + 1 implies #[trigger] index_shows(
                frame@,
                scene@,
                primary_ray,
                width,
                k,
                background,
            ) by {
                lemma_row_in_frame(k, width as int, height as int);
                let u = (k % (width as int)) as u32;
                let v = (k / (width as int)) as u32;
                lemma_fundamental_div_mod(k, width as int);
                assert((k / (width as int)) * width == width * (k / (width as int)))
                    by (nonlinear_arith);
                assert(pixel_offset_spec(u as int, v as int, width as int) == 4 * k);
                if k < index {
                    assert(index_shows(before, scene@, primary_ray, width, k, background));
                    let old_ray = choose|r: G::Ray| #[trigger]
                        primary_ray.ensures((u, v), r) && pixel_bytes(
                            before,
                            u as int,
                            v as int,
                            width as int,
                        ) == trace_color(scene@, r, background).channels_spec();
                    assert(pixel_bytes(frame@, u as int, v as int, width as int) =~= pixel_bytes(
                        before,
                        u as int,
                        v as int,
                        width as int,
                    ));
                    assert(primary_ray.ensures((u, v), old_ray));
                } else {
                    assert(u == x && v == y);
                    assert(pixel_bytes(frame@, u as int, v as int, width as int)
                        =~= color.channels_spec());
                    assert(primary_ray.ensures((u, v), primary));
                }
            }
        }
        index += 1;
    }
    proof {
        assert(4 * (width * height) == 4 * width * height) by (nonlinear_arith);
        assert forall|x: u32, y: u32| x < width && y < height implies #[trigger] pixel_shows(
            frame@,
            scene@,
            primary_ray,
            width,
            x,
            y,
            background,
        ) by {
            let k = y * width + x;
            lemma_pixel_index(x as int, y as int, width as int);
            lemma_pixels_disjoint(
                x as int,
                y as int,
                x as int,
                y as int,
                width as int,
                height as int,
            );
            assert(index_shows(frame@, scene@, primary_ray, width, k, background));
        }
    }
    frame
}

/// Background fallback for a whole frame: where no primary ray meets any
/// sphere, every pixel of the rendering holds the background colour.
pub proof fn lemma_empty_view_is_background<G: RayIntersectable, F: Fn(u32, u32) -> G::Ray>(
    frame: Seq<u8>,
    scene: Seq<Sphere<G>>,
    primary_ray: F,
    width: u32,
    height: u32,
    background: Color,
)
    requires
        is_rendering(frame, scene, primary_ray, width, height, background),
        forall|x: u32, y: u32, ray: G::Ray, i: int|
            x < width && y < height && #[trigger] primary_ray.ensures((x, y), ray) && 0 <= i
                < scene.len() ==> (#[trigger] scene[i]).geometry.hit(&ray) is None,
    ensures
        forall|x: u32, y: u32|
            x < width && y < height ==> #[trigger] pixel_bytes(
                frame,
                x as int,
                y as int,
                width as int,
            ) == background.channels_spec(),
{
    assert forall|x: u32, y: u32| x < width && y < height implies #[trigger] pixel_bytes(
        frame,
        x as int,
        y as int,
        width as int,
    ) == background.channels_spec() by {
        assert(pixel_shows(frame, scene, primary_ray, width, x, y, background));
        let ray = choose|ray: G::Ray| #[trigger]
            primary_ray.ensures((x, y), ray) && pixel_bytes(
                frame,
                x as int,
                y as int,
                width as int,
            ) == trace_color(scene, ray, background).channels_spec();
        assert forall|i: int| 0 <= i < scene.len() implies scene[i].geometry.hit(&ray) is None by {
            assert(primary_ray.ensures((x, y), ray));
        }
        lemma_background_fallback(scene, ray, background);
    }
}

/// A frame is a function of its inputs: where `primary_ray` gives one ray
/// for each pixel, any two renderings of the same scene are the same bytes,
/// in whatever order the pixels were computed.
pub proof fn lemma_rendering_unique<G: RayIntersectable, F: Fn(u32, u32) -> G::Ray>(
    first: Seq<u8>,
    second: Seq<u8>,
    scene: Seq<Sphere<G>>,
    primary_ray: F,
    width: u32,
    height: u32,
    background: Color,
)
    requires
        is_rendering(first, scene, primary_ray, width, height, background),
        is_rendering(second, scene, primary_ray, width, height, background),
        forall|x: u32, y: u32, a: G::Ray, b: G::Ray|
            x < width && y < height && #[trigger] primary_ray.ensures((x, y), a)
                && #[trigger] primary_ray.ensures((x, y), b) ==> a == b,
    ensures
        first == second,
{
    assert(4 * (width * height) == 4 * width * height) by (nonlinear_arith);
    assert forall|at: int| 0 <= at < first.len() implies first[at] == second[at] by {
        let index = at / 4;
        lemma_row_in_frame(index, width as int, height as int);
        let x = (index % (width as int)) as u32;
        let y = (index / (width as int)) as u32;
        lemma_fundamental_div_mod(index, width as int);
        assert((index / (width as int)) * width == width * (index / (width as int)))
            by (nonlinear_arith);
        let offset = pixel_offset_spec(x as int, y as int, width as int);
        assert(offset == 4 * index);
        assert(pixel_shows(first, scene, primary_ray, width, x, y, background));
        assert(pixel_shows(second, scene, primary_ray, width, x, y, background));
        let a = choose|ray: G::Ray| #[trigger]
            primary_ray.ensures((x, y), ray) && pixel_bytes(
                first,
                x as int,
                y as int,
                width as int,
            ) == trace_color(scene, ray, background).channels_spec();
        let b = choose|ray: G::Ray| #[trigger]
            primary_ray.ensures((x, y), ray) && pixel_bytes(
                second,
                x as int,
                y as int,
                width as int,
            ) == trace_color(scene, ray, background).channels_spec();
        assert(a == b);
        let one = pixel_bytes(first, x as int, y as int, width as int);
        let other = pixel_bytes(second, x as int, y as int, width as int);
        assert(one[at - offset] == first[at]);
        assert(other[at - offset] == second[at]);
    }
    assert(first =~= second);
}

} // verus!
