//! The render kernel: blocks of 16x4 pixels as eight packets of eight lanes,
//! where each lane lands in a bitmap, and the path of a packet of rays.

use vstd::prelude::*;
use crate::arithmetic::{Arithmetic, Camera, Random};
use crate::lane::sign_set;
use crate::arithmetic::Bounce;
use crate::material::{continue_path, continued};
use crate::ray::MIntersection;
use crate::bvh::traversal::Workload;
use crate::ray::MRay;
use crate::scene::Scene;
use crate::simd::{Mask, Mf32, Mi32};
use crate::vector3::{MVector3, SVector3};

verus! {

/// Renders patches of a viewport.
pub struct Renderer {
    width: u32,
    height: u32,
    enable_debug_view: bool,
    /// A value that increases at a rate of 1 per second, as a bit pattern.
    time: u32,
    /// The amount that time increases per frame, as a bit pattern.
    time_delta: u32,
}

/// The buffer that an image is rendered into: eight pixels to a packet, row
/// after row.
pub struct RenderBuffer {
    buffer: Vec<Mi32>,
}

/// What the kernel knows of eight pixels.
#[derive(Copy, Clone, Debug)]
pub struct MPixelData {
    pub color: MVector3,
    pub tex_index: Mi32,
    pub tex_coords: (Mf32, Mf32),
    pub fresnel: Mf32,
}

/// The most bounces that a path makes.
pub const MAX_BOUNCES: u32 = 5;

/// Byte `c` of a pixel, the least significant first.
pub open spec fn byte_of(v: u32, c: int) -> u8 {
    if c == 0 {
        (v & 0xff) as u8
    } else if c == 1 {
        ((v >> 8) & 0xff) as u8
    } else if c == 2 {
        ((v >> 16) & 0xff) as u8
    } else {
        ((v >> 24) & 0xff) as u8
    }
}

/// The four bytes of a pixel, the least significant first.
pub open spec fn pixel_bytes(v: u32) -> Seq<u8> {
    seq![byte_of(v, 0), byte_of(v, 1), byte_of(v, 2), byte_of(v, 3)]
}

/// The 32 bytes of a packet of pixels, lane after lane.
pub open spec fn packet_bytes(m: Mi32) -> Seq<u8> {
    pixel_bytes(m.0) + pixel_bytes(m.1) + pixel_bytes(m.2) + pixel_bytes(m.3) + pixel_bytes(m.4)
        + pixel_bytes(m.5) + pixel_bytes(m.6) + pixel_bytes(m.7)
}

/// The bytes of a bitmap, packet after packet.
pub open spec fn bitmap_bytes(packets: Seq<Mi32>) -> Seq<u8>
    decreases packets.len(),
{
    if packets.len() == 0 {
        Seq::empty()
    } else {
        bitmap_bytes(packets.drop_last()) + packet_bytes(packets.last())
    }
}

/// A pixel with red in the lowest byte, green above it and blue above that.
pub open spec fn rgb_of(r: u32, g: u32, b: u32) -> u32 {
    (r | (g << 8)) | (b << 16)
}

/// A G-buffer pixel: the low byte of the first texture coordinate, the low
/// byte of the second above it, the Fresnel factor above that, and the texture
/// index in the highest byte.
pub open spec fn surface_of(tex_index: u32, tex_x: u32, tex_y: u32, fresnel: u32) -> u32 {
    ((tex_x & 0xff) | ((tex_y & 0xff) << 8)) | ((fresnel << 16) | (tex_index << 24))
}

/// Whether packet `e` of a bitmap holds pixels of the square patch at `(x, y)`.
pub open spec fn in_patch(width: int, x: int, y: int, patch_width: int, e: int) -> bool {
    exists|px: int, py: int|
        x <= px < x + patch_width && y <= py < y + patch_width && e == #[trigger] pixel_slot(
            width,
            px,
            py,
        )
}

/// The index of the packet that holds the pixel at `(px, py)`.
pub open spec fn pixel_slot(width: int, px: int, py: int) -> int {
    (py * width + px) / 8
}

/// The index of the block of 16x4 pixels at `(x, y)` in a buffer of blocks.
pub open spec fn block_index(width: int, x: int, y: int) -> int {
    (y / 4) * (width / 16) + x / 16
}

/// Whether block `e` of a buffer of blocks lies in the square patch at `(x, y)`.
pub open spec fn block_in_patch(width: int, x: int, y: int, patch_width: int, e: int) -> bool {
    exists|i: int, j: int|
        0 <= i < patch_width / 16 && 0 <= j < patch_width / 4 && e == #[trigger] block_index(
            width,
            x + 16 * i,
            y + 4 * j,
        )
}

/// Whether the block of 16x4 pixels at `(x, y)` lies in a viewport of the
/// given width and in a bitmap of the given number of packets.
pub open spec fn block_fits(width: int, x: int, y: int, packets: int) -> bool {
    &&& width % 16 == 0
    &&& x % 16 == 0
    &&& 0 <= x
    &&& 0 <= y
    &&& x + 16 <= width
    &&& (y + 4) * width <= u32::MAX
    &&& (y + 4) * width <= 8 * packets
}

/// Whether the square patch at `(x, y)` lies in a viewport of the given width
/// and in a bitmap of the given number of packets.
pub open spec fn patch_fits(width: int, x: int, y: int, patch_width: int, packets: int) -> bool {
    &&& patch_width % 16 == 0
    &&& 0 <= patch_width
    &&& width % 16 == 0
    &&& x % 16 == 0
    &&& 0 <= x
    &&& 0 <= y
    &&& x + patch_width <= width
    &&& (y + patch_width) * width <= u32::MAX
    &&& (y + patch_width) * width <= 8 * packets
}

/// Whether `after` is `before` but for the packets of the block at `(x, y)`.
pub open spec fn kept_outside_block(
    before: Seq<Mi32>,
    after: Seq<Mi32>,
    width: int,
    x: int,
    y: int,
) -> bool {
    &&& after.len() == before.len()
    &&& forall|e: int|
        0 <= e < before.len() && !in_block(width, x, y, e) ==> #[trigger] after[e] == before[e]
}

/// Whether `after` is `before` but for the packets of the patch at `(x, y)`.
pub open spec fn kept_outside_patch(
    before: Seq<Mi32>,
    after: Seq<Mi32>,
    width: int,
    x: int,
    y: int,
    patch_width: int,
) -> bool {
    &&& after.len() == before.len()
    &&& forall|e: int|
        0 <= e < before.len() && !in_patch(width, x, y, patch_width, e) ==> #[trigger] after[e]
            == before[e]
}

/// The pixels of eight colours: red in the lowest byte of a lane, green above
/// it, blue above that.
pub open spec fn packed_color(r: Mi32, g: Mi32, b: Mi32) -> Mi32 {
    Mi32(
        rgb_of(r.0, g.0, b.0),
        rgb_of(r.1, g.1, b.1),
        rgb_of(r.2, g.2, b.2),
        rgb_of(r.3, g.3, b.3),
        rgb_of(r.4, g.4, b.4),
        rgb_of(r.5, g.5, b.5),
        rgb_of(r.6, g.6, b.6),
        rgb_of(r.7, g.7, b.7),
    )
}

/// The G-buffer pixels of eight surfaces.
pub open spec fn packed_surface(tex_index: Mi32, tex_x: Mi32, tex_y: Mi32, fresnel: Mi32) -> Mi32 {
    Mi32(
        surface_of(tex_index.0, tex_x.0, tex_y.0, fresnel.0),
        surface_of(tex_index.1, tex_x.1, tex_y.1, fresnel.1),
        surface_of(tex_index.2, tex_x.2, tex_y.2, fresnel.2),
        surface_of(tex_index.3, tex_x.3, tex_y.3, fresnel.3),
        surface_of(tex_index.4, tex_x.4, tex_y.4, fresnel.4),
        surface_of(tex_index.5, tex_x.5, tex_y.5, fresnel.5),
        surface_of(tex_index.6, tex_x.6, tex_y.6, fresnel.6),
        surface_of(tex_index.7, tex_x.7, tex_y.7, fresnel.7),
    )
}

/// Whether `packed` are the pixels of the colour: its red, green and blue as
/// the arithmetic makes integers of them, packed.
pub open spec fn color_shown<A: Arithmetic>(arithmetic: &A, color: MVector3, packed: Mi32) -> bool {
    exists|q: (Mi32, Mi32, Mi32)|
        call_ensures(A::quantize_color, (arithmetic, color), q) && packed == packed_color(
            q.0,
            q.1,
            q.2,
        )
}

/// Whether `packed` are the G-buffer pixels of the data: the texture index,
/// and the texture coordinates and the Fresnel factor as the arithmetic makes
/// integers of them, packed.
pub open spec fn surface_shown<A: Arithmetic>(arithmetic: &A, data: MPixelData, packed: Mi32)
    -> bool {
    exists|q: (Mi32, Mi32, Mi32)|
        call_ensures(A::quantize_surface, (arithmetic, data.tex_coords, data.fresnel), q)
            && packed == packed_surface(data.tex_index, q.0, q.1, q.2)
}

/// Whether the block at `(x, y)` of the bitmap holds the eight packets: lane
/// `l` of packet `k` where the layout of a block puts it.
pub open spec fn block_holds(bitmap: Seq<Mi32>, width: int, x: int, y: int, packed: Seq<Mi32>)
    -> bool {
    &&& packed.len() == 8
    &&& forall|k: int, l: int|
        0 <= k < 8 && 0 <= l < 8 ==> pixel(bitmap, width, x + block_dx(k, l), y + block_dy(k, l))
            == #[trigger] packed[k].lane(l)
}

/// Whether the block at `(x, y)` of the bitmap shows the colours of the data.
pub open spec fn colors_stored<A: Arithmetic>(
    arithmetic: &A,
    bitmap: Seq<Mi32>,
    width: int,
    x: int,
    y: int,
    data: Seq<MPixelData>,
) -> bool {
    exists|packed: Seq<Mi32>|
        {
            &&& #[trigger] block_holds(bitmap, width, x, y, packed)
            &&& forall|k: int|
                0 <= k < 8 ==> color_shown(arithmetic, data[k].color, #[trigger] packed[k])
        }
}

/// Whether the block at `(x, y)` of the G-buffer shows the surfaces of the data.
pub open spec fn surfaces_stored<A: Arithmetic>(
    arithmetic: &A,
    gbuffer: Seq<Mi32>,
    width: int,
    x: int,
    y: int,
    data: Seq<MPixelData>,
) -> bool {
    exists|packed: Seq<Mi32>|
        {
            &&& #[trigger] block_holds(gbuffer, width, x, y, packed)
            &&& forall|k: int| 0 <= k < 8 ==> surface_shown(arithmetic, data[k], #[trigger] packed[k])
        }
}

/// Whether `r` is the debug view of the pixels at the screen coordinates
/// `(x, y)`, where `ray` are the rays of the camera through them at time zero
/// and `work` is the work of finding what the rays meet: no red, green and
/// blue as the arithmetic makes them of the work, and nothing else.
pub open spec fn debug_rendered_with<A: Arithmetic, C: Camera>(
    arithmetic: &A,
    camera: &C,
    scene: &Scene,
    x: Mf32,
    y: Mf32,
    ray: MRay,
    work: Workload,
    r: MPixelData,
) -> bool {
    &&& call_ensures(C::get_ray, (camera, x, y, Mf32::splat(0)), ray)
    &&& scene.worked(arithmetic, ray, work)
    &&& call_ensures(A::debug_color, (arithmetic, work.num_aabbs, work.num_triangles), r.color)
    &&& r.tex_index == Mi32::splat(0)
    &&& r.tex_coords == (Mf32::splat(0), Mf32::splat(0))
    &&& r.fresnel == Mf32::splat(0)
}

/// Whether `r` is the debug view of the pixels at the screen coordinates `(x, y)`.
#[verifier::opaque]
pub open spec fn debug_rendered<A: Arithmetic, C: Camera>(
    arithmetic: &A,
    camera: &C,
    scene: &Scene,
    x: Mf32,
    y: Mf32,
    r: MPixelData,
) -> bool {
    exists|ray: MRay, work: Workload|
        debug_rendered_with(arithmetic, camera, scene, x, y, ray, work, r)
}

/// Where a path stands between two bounces: the ray that it follows, its
/// colour so far, the material that it hit last, and what its first hit showed
/// of the surface.
pub struct PathState {
    pub ray: MRay,
    pub color: MVector3,
    pub hit_emissive: Mask,
    pub tex_index: Mi32,
    pub tex_coords: (Mf32, Mf32),
    pub fresnel: Mf32,
}

/// Whether `r` is what a path yields that ends in `state`: the light of the
/// sky against its last direction is the last factor of its colour, as the
/// arithmetic gives both, and the colour is kept where the last hit emits
/// light and is black elsewhere.
pub open spec fn path_ended<A: Arithmetic>(arithmetic: &A, state: PathState, r: MPixelData)
    -> bool {
    exists|emission: MVector3, color: MVector3|
        path_ended_with(arithmetic, state, emission, color, r)
}

/// The same, with the light of the sky and the colour before it is masked.
pub open spec fn path_ended_with<A: Arithmetic>(
    arithmetic: &A,
    state: PathState,
    emission: MVector3,
    color: MVector3,
    r: MPixelData,
) -> bool {
    &&& call_ensures(A::sky_intensity, (arithmetic, state.ray.direction), emission)
    &&& call_ensures(A::modulate, (arithmetic, state.color, emission), color)
    &&& r.color == lit(color, state.hit_emissive)
    &&& r.tex_index == state.tex_index
    &&& r.tex_coords == state.tex_coords
    &&& r.fresnel == state.fresnel
}

/// Whether `next` is where a path stands after bounce `i` off `isect`, where
/// it stood at `state` before, and `step` is how it goes on: its colour is
/// changed by the factor of the bounce as the arithmetic gives it, and the
/// first bounce notes the texture index of the material and what the bounce
/// shows of the surface.
pub open spec fn path_stepped_with<A: Arithmetic>(
    arithmetic: &A,
    state: PathState,
    i: u32,
    isect: MIntersection,
    step: (MRay, MVector3, Bounce),
    next: PathState,
) -> bool {
    &&& continued(arithmetic, state.ray, isect, step)
    &&& next.ray == step.0
    &&& call_ensures(A::modulate, (arithmetic, state.color, step.1), next.color)
    &&& next.hit_emissive == isect.material
    &&& if i == 0 {
        &&& forall|k: int|
            0 <= k < 8 ==> #[trigger] next.tex_index.lane(k) == isect.material.lane(k) % 8
        &&& next.tex_coords == step.2.tex_coords
        &&& next.fresnel == step.2.fresnel
    } else {
        &&& next.tex_index == state.tex_index
        &&& next.tex_coords == state.tex_coords
        &&& next.fresnel == state.fresnel
    }
}

/// Whether `next` is where a path stands after bounce `i` off `isect`, where
/// it stood at `state` before.
pub open spec fn path_stepped<A: Arithmetic>(
    arithmetic: &A,
    state: PathState,
    i: u32,
    isect: MIntersection,
    next: PathState,
) -> bool {
    exists|step: (MRay, MVector3, Bounce)|
        path_stepped_with(arithmetic, state, i, isect, step, next)
}

/// Whether `r` is what a path yields that stands at `state` before bounce
/// `i`. After the last bounce the path ends. Before that it finds what its
/// ray meets in the scene; it ends there where every lane has hit a light,
/// and else it bounces and goes on.
pub open spec fn path_followed<A: Arithmetic>(
    arithmetic: &A,
    scene: &Scene,
    state: PathState,
    i: u32,
    r: MPixelData,
) -> bool
    decreases MAX_BOUNCES - i,
{
    if i >= MAX_BOUNCES {
        path_ended(arithmetic, state, r)
    } else {
        exists|isect: MIntersection, next: PathState|
            path_turned(arithmetic, scene, state, i, isect, next) && if isect.material.every_lane() {
                path_ended(
                    arithmetic,
                    (PathState { hit_emissive: isect.material, ..state }),
                    r,
                )
            } else {
                path_followed(arithmetic, scene, next, (i + 1) as u32, r)
            }
    }
}

/// Whether `r` is what a path yields that was left at `state` before bounce
/// `i`: what it yields as it ends there, where it ended early; else what it
/// yields as it is followed from there.
pub open spec fn path_left<A: Arithmetic>(
    arithmetic: &A,
    scene: &Scene,
    state: PathState,
    i: u32,
    ended_early: bool,
    r: MPixelData,
) -> bool {
    if ended_early {
        path_ended(arithmetic, state, r)
    } else {
        path_followed(arithmetic, scene, state, i, r)
    }
}

/// Whether `isect` is what the ray of `state` meets in the scene, and, unless
/// every lane has hit a light there, `next` is where the path stands after
/// bounce `i` off it.
pub open spec fn path_turned<A: Arithmetic>(
    arithmetic: &A,
    scene: &Scene,
    state: PathState,
    i: u32,
    isect: MIntersection,
    next: PathState,
) -> bool {
    &&& scene.found(arithmetic, state.ray, isect)
    &&& !isect.material.every_lane() ==> path_stepped(arithmetic, state, i, isect, next)
}

/// Where a path starts: on its ray, white, with nothing hit and nothing seen.
pub open spec fn path_start(ray: MRay) -> PathState {
    PathState {
        ray: ray,
        color: MVector3::splat(SVector3 { x: crate::lane::ONE, y: crate::lane::ONE, z: crate::lane::ONE }),
        hit_emissive: Mf32::splat(0),
        tex_index: Mi32::splat(0),
        tex_coords: (Mf32::splat(0), Mf32::splat(0)),
        fresnel: Mf32::splat(0),
    }
}

/// Whether `r` is what the paths of the pixels at the screen coordinates
/// `(x, y)` yield: they start on the rays that the camera gives for the
/// coordinates and some time of the frame, and are followed from there.
#[verifier::opaque]
pub open spec fn path_traced<A: Arithmetic, C: Camera>(
    arithmetic: &A,
    camera: &C,
    scene: &Scene,
    x: Mf32,
    y: Mf32,
    r: MPixelData,
) -> bool {
    exists|t: Mf32, ray: MRay|
        #[trigger] call_ensures(C::get_ray, (camera, x, y, t), ray) && path_followed(
            arithmetic,
            scene,
            path_start(ray),
            0,
            r,
        )
}

/// Whether `r` can be what the paths of eight pixels yield in the scene: a
/// texture index below 8 in every lane, a colour that is black where the path
/// did not end on a light, and in a scene without triangles the light of the
/// sky and nothing of a surface.
pub open spec fn path_rendered(scene: &Scene, r: MPixelData) -> bool {
    &&& forall|k: int| 0 <= k < 8 ==> #[trigger] r.tex_index.lane(k) < 8
    &&& exists|color: MVector3, hit_emissive: Mask| r.color == lit(color, hit_emissive)
    &&& scene.bvh is None ==> {
        &&& r.tex_index == Mi32::splat(0)
        &&& r.tex_coords == (Mf32::splat(0), Mf32::splat(0))
        &&& r.fresnel == Mf32::splat(0)
        &&& exists|color: MVector3| r.color == lit(color, Mf32::splat(0xc000_0000))
    }
}

/// Whether `r` are the eight pixels `(xs, ys)` as the renderer renders them
/// with the given jitter at the screen coordinates `at`, which are what the
/// arithmetic gives for them: in the debug view where that is on, else along
/// their paths.
pub open spec fn packet_rendered_at<A: Arithmetic, C: Camera>(
    renderer: &Renderer,
    arithmetic: &A,
    camera: &C,
    scene: &Scene,
    xs: Mi32,
    ys: Mi32,
    jitter: (Mf32, Mf32),
    at: (Mf32, Mf32),
    r: MPixelData,
) -> bool {
    &&& call_ensures(
        A::screen_coords,
        (arithmetic, renderer.spec_width(), renderer.spec_height(), xs, ys, jitter.0, jitter.1),
        at,
    )
    &&& if renderer.debug_view() {
        debug_rendered(arithmetic, camera, scene, at.0, at.1, r)
    } else {
        path_traced(arithmetic, camera, scene, at.0, at.1, r) && path_rendered(scene, r)
    }
}

/// Whether `r` are the eight pixels `(xs, ys)` as the renderer renders them
/// with the given jitter.
pub open spec fn packet_rendered<A: Arithmetic, C: Camera>(
    renderer: &Renderer,
    arithmetic: &A,
    camera: &C,
    scene: &Scene,
    xs: Mi32,
    ys: Mi32,
    jitter: (Mf32, Mf32),
    r: MPixelData,
) -> bool {
    exists|at: (Mf32, Mf32)|
        packet_rendered_at(renderer, arithmetic, camera, scene, xs, ys, jitter, at, r)
}

/// The x coordinates of the pixels of packet `p` of the block at `(x, y)`.
pub open spec fn block_xs(x: u32, p: int) -> Mi32 {
    Mi32(
        (x + block_dx(p, 0)) as u32,
        (x + block_dx(p, 1)) as u32,
        (x + block_dx(p, 2)) as u32,
        (x + block_dx(p, 3)) as u32,
        (x + block_dx(p, 4)) as u32,
        (x + block_dx(p, 5)) as u32,
        (x + block_dx(p, 6)) as u32,
        (x + block_dx(p, 7)) as u32,
    )
}

/// The y coordinates of the pixels of packet `p` of the block at `(x, y)`.
pub open spec fn block_ys(y: u32, p: int) -> Mi32 {
    Mi32(
        (y + block_dy(p, 0)) as u32,
        (y + block_dy(p, 1)) as u32,
        (y + block_dy(p, 2)) as u32,
        (y + block_dy(p, 3)) as u32,
        (y + block_dy(p, 4)) as u32,
        (y + block_dy(p, 5)) as u32,
        (y + block_dy(p, 6)) as u32,
        (y + block_dy(p, 7)) as u32,
    )
}

/// Whether `data` are the eight packets of the block at `(x, y)` as the
/// renderer renders them, each with some jitter.
pub open spec fn block_rendered<A: Arithmetic, C: Camera>(
    renderer: &Renderer,
    arithmetic: &A,
    camera: &C,
    scene: &Scene,
    x: u32,
    y: u32,
    data: Seq<MPixelData>,
) -> bool {
    &&& data.len() == 8
    &&& forall|p: int|
        0 <= p < 8 ==> exists|jitter: (Mf32, Mf32)|
            packet_rendered(
                renderer,
                arithmetic,
                camera,
                scene,
                block_xs(x, p),
                block_ys(y, p),
                jitter,
                #[trigger] data[p],
            )
}

/// Whether bitmap and G-buffer show, in their block at `(x, y)`, the pixels
/// `data` of that block as the renderer renders them.
pub open spec fn block_shown_with<A: Arithmetic, C: Camera>(
    renderer: &Renderer,
    arithmetic: &A,
    camera: &C,
    scene: &Scene,
    bitmap: Seq<Mi32>,
    gbuffer: Seq<Mi32>,
    x: u32,
    y: u32,
    data: Seq<MPixelData>,
) -> bool {
    &&& block_rendered(renderer, arithmetic, camera, scene, x, y, data)
    &&& colors_stored(arithmetic, bitmap, renderer.spec_width() as int, x as int, y as int, data)
    &&& surfaces_stored(arithmetic, gbuffer, renderer.spec_width() as int, x as int, y as int, data)
}

/// Whether bitmap and G-buffer show their block at `(x, y)` as the renderer
/// renders it: the colours in the bitmap, the surfaces in the G-buffer.
pub open spec fn block_shown<A: Arithmetic, C: Camera>(
    renderer: &Renderer,
    arithmetic: &A,
    camera: &C,
    scene: &Scene,
    bitmap: Seq<Mi32>,
    gbuffer: Seq<Mi32>,
    x: u32,
    y: u32,
) -> bool {
    exists|data: Seq<MPixelData>|
        block_shown_with(renderer, arithmetic, camera, scene, bitmap, gbuffer, x, y, data)
}

/// Whether bitmap and G-buffer show block `(i, j)` of the patch at `(x, y)`
/// as the renderer renders it.
pub open spec fn patch_block_shown<A: Arithmetic, C: Camera>(
    renderer: &Renderer,
    arithmetic: &A,
    camera: &C,
    scene: &Scene,
    bitmap: Seq<Mi32>,
    gbuffer: Seq<Mi32>,
    x: u32,
    y: u32,
    i: int,
    j: int,
) -> bool {
    block_shown(
        renderer,
        arithmetic,
        camera,
        scene,
        bitmap,
        gbuffer,
        (x + 16 * i) as u32,
        (y + 4 * j) as u32,
    )
}

/// Whether the buffer of colours holds, for the block at `(x, y)`, the sums
/// of what it held at the start and the colours `data` of that block as the
/// renderer renders them, and the G-buffer shows the surfaces.
pub open spec fn block_summed_with<A: Arithmetic, C: Camera>(
    renderer: &Renderer,
    arithmetic: &A,
    camera: &C,
    scene: &Scene,
    start: Seq<[MVector3; 8]>,
    hdr_buffer: Seq<[MVector3; 8]>,
    gbuffer: Seq<Mi32>,
    x: u32,
    y: u32,
    data: Seq<MPixelData>,
) -> bool {
    let index = block_index(renderer.spec_width() as int, x as int, y as int);
    &&& block_rendered(renderer, arithmetic, camera, scene, x, y, data)
    &&& surfaces_stored(arithmetic, gbuffer, renderer.spec_width() as int, x as int, y as int, data)
    &&& forall|k: int|
        0 <= k < 8 ==> call_ensures(
            A::accumulate,
            (arithmetic, start[index][k], data[k].color),
            #[trigger] hdr_buffer[index][k],
        )
}

/// Whether the buffer of colours holds the sums for the block at `(x, y)`,
/// and the G-buffer shows its surfaces.
pub open spec fn block_summed<A: Arithmetic, C: Camera>(
    renderer: &Renderer,
    arithmetic: &A,
    camera: &C,
    scene: &Scene,
    start: Seq<[MVector3; 8]>,
    hdr_buffer: Seq<[MVector3; 8]>,
    gbuffer: Seq<Mi32>,
    x: u32,
    y: u32,
) -> bool {
    exists|data: Seq<MPixelData>|
        block_summed_with(
            renderer,
            arithmetic,
            camera,
            scene,
            start,
            hdr_buffer,
            gbuffer,
            x,
            y,
            data,
        )
}

/// Whether the buffer of colours holds the sums for block `(i, j)` of the
/// patch at `(x, y)`, and the G-buffer shows its surfaces.
pub open spec fn patch_block_summed<A: Arithmetic, C: Camera>(
    renderer: &Renderer,
    arithmetic: &A,
    camera: &C,
    scene: &Scene,
    start: Seq<[MVector3; 8]>,
    hdr_buffer: Seq<[MVector3; 8]>,
    gbuffer: Seq<Mi32>,
    x: u32,
    y: u32,
    i: int,
    j: int,
) -> bool {
    block_summed(
        renderer,
        arithmetic,
        camera,
        scene,
        start,
        hdr_buffer,
        gbuffer,
        (x + 16 * i) as u32,
        (y + 4 * j) as u32,
    )
}

/// Whether the bitmap shows, in its block `(i, j)`, the colours `data`, which
/// are the averages of the sums in block `(i, j)` of the buffer of colours
/// over the samples.
pub open spec fn block_averaged_with<A: Arithmetic>(
    renderer: &Renderer,
    arithmetic: &A,
    hdr_buffer: Seq<[MVector3; 8]>,
    num_samples: u32,
    bitmap: Seq<Mi32>,
    i: int,
    j: int,
    data: Seq<MPixelData>,
) -> bool {
    let width = renderer.spec_width() as int;
    &&& forall|k: int|
        0 <= k < 8 ==> call_ensures(
            A::average,
            (arithmetic, hdr_buffer[block_index(width, 16 * i, 4 * j)][k], num_samples),
            (#[trigger] data[k]).color,
        )
    &&& colors_stored(arithmetic, bitmap, width, 16 * i, 4 * j, data)
}

/// Whether the bitmap shows, in its block `(i, j)`, the averages of the sums
/// in block `(i, j)` of the buffer of colours.
pub open spec fn block_averaged<A: Arithmetic>(
    renderer: &Renderer,
    arithmetic: &A,
    hdr_buffer: Seq<[MVector3; 8]>,
    num_samples: u32,
    bitmap: Seq<Mi32>,
    i: int,
    j: int,
) -> bool {
    exists|data: Seq<MPixelData>|
        block_averaged_with(renderer, arithmetic, hdr_buffer, num_samples, bitmap, i, j, data)
}

/// The colour of the lanes that ended on a light, and black for the others.
pub open spec fn lit(color: MVector3, hit_emissive: Mask) -> MVector3 {
    MVector3::splat(SVector3 { x: 0, y: 0, z: 0 }).select(color, hit_emissive)
}

/// The pixel at `(px, py)` of a bitmap that is `width` pixels wide: the rows
/// follow one another from the bottom up, and a packet holds eight pixels
/// side by side.
pub open spec fn pixel(bitmap: Seq<Mi32>, width: int, px: int, py: int) -> u32 {
    bitmap[(py * width + px) / 8].lane((py * width + px) % 8)
}

/// How far to the right of the block's left edge lane `l` of packet `k` lies.
/// The packets cover the block as four columns of two 4x2 cells; inside a cell
/// the lanes 0 to 3 are the bottom row and the lanes 4 to 7 the top row.
///
/// ```text
///     1 1 1 1  3 3 3 3  5 5 5 5  7 7 7 7
///     1 1 1 1  3 3 3 3  5 5 5 5  7 7 7 7
///     0 0 0 0  2 2 2 2  4 4 4 4  6 6 6 6
///     0 0 0 0  2 2 2 2  4 4 4 4  6 6 6 6
/// ```
pub open spec fn block_dx(k: int, l: int) -> int {
    4 * (k / 2) + l % 4
}

/// How far above the block's bottom edge lane `l` of packet `k` lies.
pub open spec fn block_dy(k: int, l: int) -> int {
    2 * (k % 2) + l / 4
}

/// The index of the packet that holds the pixels `8 * half` to `8 * half + 7`
/// of row `row` of the block at `(x, y)`.
pub open spec fn block_slot(width: int, x: int, y: int, row: int, half: int) -> int {
    ((y + row) * width + x) / 8 + half
}

/// Whether packet `e` of the bitmap holds pixels of the block at `(x, y)`.
pub open spec fn in_block(width: int, x: int, y: int, e: int) -> bool {
    exists|row: int, half: int|
        0 <= row < 4 && 0 <= half < 2 && e == #[trigger] block_slot(width, x, y, row, half)
}

/// A packet that holds pixels of a block of a patch holds pixels of the patch.
pub proof fn lemma_block_in_patch(
    width: int,
    x: int,
    y: int,
    patch_width: int,
    i: int,
    j: int,
    e: int,
)
    requires
        width > 0,
        width % 16 == 0,
        x % 16 == 0,
        0 <= x,
        0 <= y,
        patch_width % 16 == 0,
        0 <= i < patch_width / 16,
        0 <= j < patch_width / 4,
        in_block(width, x + 16 * i, y + 4 * j, e),
    ensures
        in_patch(width, x, y, patch_width, e),
{
    let xb = x + 16 * i;
    let yb = y + 4 * j;
    let (row, half) = choose|row: int, half: int|
        0 <= row < 4 && 0 <= half < 2 && e == #[trigger] block_slot(width, xb, yb, row, half);
    lemma_block_row(width, xb, yb, row, 8 * half);
    assert(e == pixel_slot(width, xb + 8 * half, yb + row));
}

/// The packet of a pixel tells the row of the pixel, and its column but for
/// the last three bits.
pub proof fn lemma_pixel_slot(width: int, px: int, py: int, qx: int, qy: int)
    requires
        width > 0,
        width % 8 == 0,
        0 <= px < width,
        0 <= qx < width,
        0 <= py,
        0 <= qy,
        pixel_slot(width, px, py) == pixel_slot(width, qx, qy),
    ensures
        py == qy,
        px / 8 == qx / 8,
{
    let w = width / 8;
    assert(py * width == 8 * (py * w)) by (nonlinear_arith)
        requires
            width == 8 * w,
    ;
    assert(qy * width == 8 * (qy * w)) by (nonlinear_arith)
        requires
            width == 8 * w,
    ;
    assert(pixel_slot(width, px, py) == py * w + px / 8);
    assert(pixel_slot(width, qx, qy) == qy * w + qx / 8);
    assert(py == qy) by (nonlinear_arith)
        requires
            py * w + px / 8 == qy * w + qx / 8,
            0 <= px / 8 < w,
            0 <= qx / 8 < w,
    ;
}

/// Two patches that share no pixel share no packet: what one worker writes,
/// no other worker reads or writes.
pub proof fn lemma_patches_apart(
    width: int,
    x1: int,
    y1: int,
    patch_width1: int,
    x2: int,
    y2: int,
    patch_width2: int,
    e: int,
)
    requires
        width > 0,
        width % 16 == 0,
        x1 % 16 == 0,
        x2 % 16 == 0,
        patch_width1 % 16 == 0,
        patch_width2 % 16 == 0,
        0 <= x1,
        0 <= y1,
        0 <= x2,
        0 <= y2,
        x1 + patch_width1 <= width,
        x2 + patch_width2 <= width,
        x1 + patch_width1 <= x2 || x2 + patch_width2 <= x1 || y1 + patch_width1 <= y2 || y2
            + patch_width2 <= y1,
    ensures
        !(in_patch(width, x1, y1, patch_width1, e) && in_patch(width, x2, y2, patch_width2, e)),
{
    if in_patch(width, x1, y1, patch_width1, e) && in_patch(width, x2, y2, patch_width2, e) {
        let (px, py) = choose|px: int, py: int|
            x1 <= px < x1 + patch_width1 && y1 <= py < y1 + patch_width1 && e
                == #[trigger] pixel_slot(width, px, py);
        let (qx, qy) = choose|qx: int, qy: int|
            x2 <= qx < x2 + patch_width2 && y2 <= qy < y2 + patch_width2 && e
                == #[trigger] pixel_slot(width, qx, qy);
        lemma_pixel_slot(width, px, py, qx, qy);
        // The two pixels lie in one group of eight, and a patch holds such a
        // group whole or not at all: so the patches share the pixel.
        assert(px / 16 == (px / 8) / 2);
        assert(qx / 16 == (qx / 8) / 2);
        assert(px / 16 == qx / 16);
        assert(x2 / 16 <= qx / 16 < (x2 + patch_width2) / 16);
        assert(16 * (x2 / 16) == x2 && 16 * ((x2 + patch_width2) / 16) == x2 + patch_width2);
        assert(x2 <= px < x2 + patch_width2);
        assert(y2 <= py < y2 + patch_width2);
    }
}

/// Two blocks of the grid share no packet.
pub proof fn lemma_blocks_apart(width: int, x1: int, y1: int, x2: int, y2: int, e: int)
    requires
        width > 0,
        width % 16 == 0,
        x1 % 16 == 0,
        x2 % 16 == 0,
        (y1 - y2) % 4 == 0,
        0 <= x1,
        0 <= y1,
        0 <= x2,
        0 <= y2,
        x1 + 16 <= width,
        x2 + 16 <= width,
        x1 != x2 || y1 != y2,
    ensures
        !(in_block(width, x1, y1, e) && in_block(width, x2, y2, e)),
{
    if in_block(width, x1, y1, e) && in_block(width, x2, y2, e) {
        let (r1, h1) = choose|row: int, half: int|
            0 <= row < 4 && 0 <= half < 2 && e == #[trigger] block_slot(width, x1, y1, row, half);
        let (r2, h2) = choose|row: int, half: int|
            0 <= row < 4 && 0 <= half < 2 && e == #[trigger] block_slot(width, x2, y2, row, half);
        lemma_block_row(width, x1, y1, r1, 8 * h1);
        lemma_block_row(width, x2, y2, r2, 8 * h2);
        assert(e == pixel_slot(width, x1 + 8 * h1, y1 + r1));
        assert(e == pixel_slot(width, x2 + 8 * h2, y2 + r2));
        lemma_pixel_slot(width, x1 + 8 * h1, y1 + r1, x2 + 8 * h2, y2 + r2);
        // The two rows are one row and the two halves one half: so the blocks
        // are one block.
        assert(x1 == x2 && y1 == y2);
    }
}

/// What a block of a bitmap holds stays when another block is stored.
pub proof fn lemma_block_holds_kept(
    before: Seq<Mi32>,
    after: Seq<Mi32>,
    width: int,
    x1: int,
    y1: int,
    x2: int,
    y2: int,
    packed: Seq<Mi32>,
)
    requires
        block_fits(width, x1, y1, before.len() as int),
        block_fits(width, x2, y2, before.len() as int),
        (y1 - y2) % 4 == 0,
        x1 != x2 || y1 != y2,
        block_holds(before, width, x1, y1, packed),
        kept_outside_block(before, after, width, x2, y2),
    ensures
        block_holds(after, width, x1, y1, packed),
{
    assert forall|k: int, l: int| 0 <= k < 8 && 0 <= l < 8 implies pixel(
        after,
        width,
        x1 + block_dx(k, l),
        y1 + block_dy(k, l),
    ) == #[trigger] packed[k].lane(l) by {
        let dx = block_dx(k, l);
        let dy = block_dy(k, l);
        lemma_block_row(width, x1, y1, dy, dx);
        lemma_block_row(width, x1, y1, 3, 15);
        lemma_block_row(width, x1, y1, dy, 0);
        let e = block_slot(width, x1, y1, dy, dx / 8);
        assert((y1 + dy) * width + (x1 + dx) == (y1 + dy) * width + x1 + dx);
        assert(e == pixel_slot(width, x1 + dx, y1 + dy));
        assert(in_block(width, x1, y1, e));
        lemma_blocks_apart(width, x1, y1, x2, y2, e);
        assert((y1 + 3) * width + width == (y1 + 4) * width) by (nonlinear_arith);
        let base = block_slot(width, x1, y1, 0, 0);
        let top = block_slot(width, x1, y1, 3, 1);
        assert(top == ((y1 + 3) * width + x1 + 15) / 8);
        assert(top == base + 3 * (width / 8) + 1);
        assert(e == base + dy * (width / 8) + dx / 8);
        assert(dy * (width / 8) <= 3 * (width / 8)) by (nonlinear_arith)
            requires
                0 <= dy <= 3,
                0 <= width / 8,
        ;
        assert(0 <= dy * (width / 8)) by (nonlinear_arith)
            requires
                0 <= dy,
                0 <= width / 8,
        ;
        assert(0 <= e <= top);
        assert(top < before.len());
        assert(after[e] == before[e]);
        assert(pixel(before, width, x1 + dx, y1 + dy) == packed[k].lane(l));
    }
}

/// A bitmap that shows the colours of a block shows them still when another
/// block is stored.
pub proof fn lemma_colors_kept<A: Arithmetic>(
    arithmetic: &A,
    before: Seq<Mi32>,
    after: Seq<Mi32>,
    width: int,
    x1: int,
    y1: int,
    x2: int,
    y2: int,
    data: Seq<MPixelData>,
)
    requires
        block_fits(width, x1, y1, before.len() as int),
        block_fits(width, x2, y2, before.len() as int),
        (y1 - y2) % 4 == 0,
        x1 != x2 || y1 != y2,
        colors_stored(arithmetic, before, width, x1, y1, data),
        kept_outside_block(before, after, width, x2, y2),
    ensures
        colors_stored(arithmetic, after, width, x1, y1, data),
{
    let packed = choose|packed: Seq<Mi32>|
        {
            &&& #[trigger] block_holds(before, width, x1, y1, packed)
            &&& forall|k: int|
                0 <= k < 8 ==> color_shown(arithmetic, data[k].color, #[trigger] packed[k])
        };
    lemma_block_holds_kept(before, after, width, x1, y1, x2, y2, packed);
}

/// A G-buffer that shows the surfaces of a block shows them still when
/// another block is stored.
pub proof fn lemma_surfaces_kept<A: Arithmetic>(
    arithmetic: &A,
    before: Seq<Mi32>,
    after: Seq<Mi32>,
    width: int,
    x1: int,
    y1: int,
    x2: int,
    y2: int,
    data: Seq<MPixelData>,
)
    requires
        block_fits(width, x1, y1, before.len() as int),
        block_fits(width, x2, y2, before.len() as int),
        (y1 - y2) % 4 == 0,
        x1 != x2 || y1 != y2,
        surfaces_stored(arithmetic, before, width, x1, y1, data),
        kept_outside_block(before, after, width, x2, y2),
    ensures
        surfaces_stored(arithmetic, after, width, x1, y1, data),
{
    let packed = choose|packed: Seq<Mi32>|
        {
            &&& #[trigger] block_holds(before, width, x1, y1, packed)
            &&& forall|k: int| 0 <= k < 8 ==> surface_shown(arithmetic, data[k], #[trigger] packed[k])
        };
    lemma_block_holds_kept(before, after, width, x1, y1, x2, y2, packed);
}

/// Bitmap and G-buffer that show a block show it still when another block is
/// stored in both.
pub proof fn lemma_block_shown_kept<A: Arithmetic, C: Camera>(
    renderer: &Renderer,
    arithmetic: &A,
    camera: &C,
    scene: &Scene,
    bitmap: Seq<Mi32>,
    gbuffer: Seq<Mi32>,
    bitmap_after: Seq<Mi32>,
    gbuffer_after: Seq<Mi32>,
    x1: u32,
    y1: u32,
    x2: u32,
    y2: u32,
)
    requires
        block_fits(renderer.spec_width() as int, x1 as int, y1 as int, bitmap.len() as int),
        block_fits(renderer.spec_width() as int, x2 as int, y2 as int, bitmap.len() as int),
        block_fits(renderer.spec_width() as int, x1 as int, y1 as int, gbuffer.len() as int),
        block_fits(renderer.spec_width() as int, x2 as int, y2 as int, gbuffer.len() as int),
        (y1 - y2) % 4 == 0,
        x1 != x2 || y1 != y2,
        block_shown(renderer, arithmetic, camera, scene, bitmap, gbuffer, x1, y1),
        kept_outside_block(bitmap, bitmap_after, renderer.spec_width() as int, x2 as int, y2 as int),
        kept_outside_block(
            gbuffer,
            gbuffer_after,
            renderer.spec_width() as int,
            x2 as int,
            y2 as int,
        ),
    ensures
        block_shown(renderer, arithmetic, camera, scene, bitmap_after, gbuffer_after, x1, y1),
{
    let width = renderer.spec_width() as int;
    let data = choose|data: Seq<MPixelData>|
        block_shown_with(renderer, arithmetic, camera, scene, bitmap, gbuffer, x1, y1, data);
    lemma_colors_kept(
        arithmetic,
        bitmap,
        bitmap_after,
        width,
        x1 as int,
        y1 as int,
        x2 as int,
        y2 as int,
        data,
    );
    lemma_surfaces_kept(
        arithmetic,
        gbuffer,
        gbuffer_after,
        width,
        x1 as int,
        y1 as int,
        x2 as int,
        y2 as int,
        data,
    );
    assert(block_shown_with(
        renderer,
        arithmetic,
        camera,
        scene,
        bitmap_after,
        gbuffer_after,
        x1,
        y1,
        data,
    ));
}

/// Block `(i, j)` of a viewport lies in a bitmap that holds the viewport, and
/// has its place in a buffer of blocks.
pub proof fn lemma_viewport_block(width: int, height: int, packets: int, i: int, j: int)
    requires
        0 <= width,
        0 <= height,
        width % 16 == 0,
        height % 4 == 0,
        width * height <= u32::MAX,
        width * height <= 8 * packets,
        0 <= i < width / 16,
        0 <= j < height / 4,
    ensures
        block_fits(width, 16 * i, 4 * j, packets),
        block_index(width, 16 * i, 4 * j) == j * (width / 16) + i,
        0 <= j * (width / 16) + i < (width / 16) * (height / 4),
{
    assert((4 * j + 4) * width <= width * height) by (nonlinear_arith)
        requires
            4 * j + 4 <= height,
            0 <= width,
    ;
    assert(0 <= j * (width / 16) + i < (width / 16) * (height / 4)) by (nonlinear_arith)
        requires
            0 <= j < height / 4,
            0 <= i < width / 16,
    ;
}

/// Two blocks of a patch have two places in a buffer of blocks.
pub proof fn lemma_block_index_apart(
    width: int,
    x: int,
    y: int,
    patch_width: int,
    i1: int,
    j1: int,
    i2: int,
    j2: int,
)
    requires
        0 <= x,
        0 <= y,
        width % 16 == 0,
        patch_width % 16 == 0,
        x + patch_width <= width,
        0 <= i1 < patch_width / 16,
        0 <= j1 < patch_width / 4,
        0 <= i2 < patch_width / 16,
        0 <= j2 < patch_width / 4,
        i1 != i2 || j1 != j2,
    ensures
        block_index(width, x + 16 * i1, y + 4 * j1) != block_index(width, x + 16 * i2, y + 4 * j2),
{
    lemma_block_index(width, x, y, patch_width, i1, j1);
    lemma_block_index(width, x, y, patch_width, i2, j2);
    let stride = width / 16;
    let (a1, a2) = (x / 16 + i1, x / 16 + i2);
    let (r1, r2) = (y / 4 + j1, y / 4 + j2);
    assert(0 <= a1 < stride && 0 <= a2 < stride);
    assert(r1 * stride + a1 != r2 * stride + a2) by (nonlinear_arith)
        requires
            0 <= a1 < stride,
            0 <= a2 < stride,
            r1 != r2 || a1 != a2,
    ;
}

/// A bitmap that was kept outside a patch stays so when block `(i, j)` of the
/// patch is stored.
pub proof fn lemma_patch_step(
    start: Seq<Mi32>,
    before: Seq<Mi32>,
    after: Seq<Mi32>,
    width: int,
    x: int,
    y: int,
    patch_width: int,
    i: int,
    j: int,
)
    requires
        patch_fits(width, x, y, patch_width, start.len() as int),
        0 <= i < patch_width / 16,
        0 <= j < patch_width / 4,
        kept_outside_patch(start, before, width, x, y, patch_width),
        kept_outside_block(before, after, width, x + 16 * i, y + 4 * j),
    ensures
        kept_outside_patch(start, after, width, x, y, patch_width),
{
    assert forall|e: int|
        0 <= e < start.len() && !in_patch(width, x, y, patch_width, e) implies #[trigger] after[e]
        == start[e] by {
        if in_block(width, x + 16 * i, y + 4 * j, e) {
            lemma_block_in_patch(width, x, y, patch_width, i, j, e);
        }
        assert(after[e] == before[e]);
    }
}

/// Block `(i, j)` of a patch lies in the viewport, and in a bitmap that holds
/// the rows of the patch.
pub proof fn lemma_block_fits(
    width: int,
    x: int,
    y: int,
    patch_width: int,
    packets: int,
    i: int,
    j: int,
)
    requires
        patch_fits(width, x, y, patch_width, packets),
        0 <= i < patch_width / 16,
        0 <= j < patch_width / 4,
    ensures
        block_fits(width, x + 16 * i, y + 4 * j, packets),
        x + 16 * i + 16 <= u32::MAX,
        y + 4 * j + 4 <= u32::MAX,
{
    assert(y + patch_width <= (y + patch_width) * width) by (nonlinear_arith)
        requires
            0 <= y + patch_width,
            1 <= width,
    ;
    assert(width <= (y + patch_width) * width) by (nonlinear_arith)
        requires
            1 <= y + patch_width,
            0 <= width,
    ;
    assert((y + 4 * j + 4) * width <= (y + patch_width) * width) by (nonlinear_arith)
        requires
            y + 4 * j + 4 <= y + patch_width,
            0 <= width,
    ;
}

/// Block `(i, j)` of a patch has an index in a buffer of blocks that holds
/// the rows of the patch.
pub proof fn lemma_block_index(width: int, x: int, y: int, patch_width: int, i: int, j: int)
    requires
        0 <= x,
        0 <= y,
        0 <= width,
        width % 16 == 0,
        patch_width % 16 == 0,
        0 <= i < patch_width / 16,
        0 <= j < patch_width / 4,
        x + patch_width <= width,
    ensures
        block_index(width, x + 16 * i, y + 4 * j) == (y / 4 + j) * (width / 16) + (x / 16 + i),
        0 <= block_index(width, x + 16 * i, y + 4 * j) < (y / 4 + patch_width / 4) * (width
            / 16),
        (y / 4 + j) * (width / 16) <= (y / 4 + patch_width / 4) * (width / 16),
{
    let rows = y / 4 + j;
    let all = y / 4 + patch_width / 4;
    let stride = width / 16;
    assert((y + 4 * j) / 4 == rows);
    assert((x + 16 * i) / 16 == x / 16 + i);
    assert(x / 16 + i < stride);
    assert(rows * stride + stride <= all * stride) by (nonlinear_arith)
        requires
            rows + 1 <= all,
            0 <= stride,
    ;
    assert(0 <= rows * stride) by (nonlinear_arith)
        requires
            0 <= rows,
            0 <= stride,
    ;
}

/// Byte `4 * l + c` of packet `i` of a bitmap is byte `c` of lane `l` of that packet.
pub proof fn lemma_bitmap_byte(packets: Seq<Mi32>, i: int, l: int, c: int)
    requires
        0 <= i < packets.len(),
        0 <= l < 8,
        0 <= c < 4,
    ensures
        bitmap_bytes(packets).len() == 32 * packets.len(),
        bitmap_bytes(packets)[32 * i + 4 * l + c] == byte_of(packets[i].lane(l), c),
    decreases packets.len(),
{
    let rest = packets.drop_last();
    lemma_bitmap_len(packets);
    lemma_bitmap_len(rest);
    if i < packets.len() - 1 {
        lemma_bitmap_byte(rest, i, l, c);
    } else {
        let m = packets.last();
        let bytes = packet_bytes(m);
        assert(bytes.len() == 32);
        assert(bytes[4 * l + c] == byte_of(m.lane(l), c));
    }
}

/// A bitmap has 32 bytes to the packet.
pub proof fn lemma_bitmap_len(packets: Seq<Mi32>)
    ensures
        bitmap_bytes(packets).len() == 32 * packets.len(),
    decreases packets.len(),
{
    if packets.len() > 0 {
        lemma_bitmap_len(packets.drop_last());
        assert(packet_bytes(packets.last()).len() == 32);
    }
}

/// The packet that is stored for one half of one row of a block: the lower
/// two rows come from the even packets, the upper two from the odd ones; a row
/// takes the lanes 0 to 3 or the lanes 4 to 7 of two packets side by side.
pub open spec fn block_line(data: Seq<Mi32>, row: int, half: int) -> Mi32 {
    let left = data[row / 2 + 4 * half];
    let right = data[row / 2 + 4 * half + 2];
    if row % 2 == 0 {
        Mi32(left.0, left.1, left.2, left.3, right.0, right.1, right.2, right.3)
    } else {
        Mi32(left.4, left.5, left.6, left.7, right.4, right.5, right.6, right.7)
    }
}

/// Lane `l` of packet `k` is found in the line of its row, at its column.
pub proof fn lemma_block_line(data: Seq<Mi32>, k: int, l: int)
    requires
        data.len() == 8,
        0 <= k < 8,
        0 <= l < 8,
    ensures
        block_line(data, block_dy(k, l), block_dx(k, l) / 8).lane(block_dx(k, l) % 8)
            == data[k].lane(l),
        0 <= block_dy(k, l) < 4,
        0 <= block_dx(k, l) < 16,
{
    if k == 0 {
        lemma_lane_cases(data, 0, l);
    } else if k == 1 {
        lemma_lane_cases(data, 1, l);
    } else if k == 2 {
        lemma_lane_cases(data, 2, l);
    } else if k == 3 {
        lemma_lane_cases(data, 3, l);
    } else if k == 4 {
        lemma_lane_cases(data, 4, l);
    } else if k == 5 {
        lemma_lane_cases(data, 5, l);
    } else if k == 6 {
        lemma_lane_cases(data, 6, l);
    } else {
        lemma_lane_cases(data, 7, l);
    }
}

/// The same, lane by lane.
proof fn lemma_lane_cases(data: Seq<Mi32>, k: int, l: int)
    requires
        data.len() == 8,
        0 <= k < 8,
        0 <= l < 8,
    ensures
        block_line(data, block_dy(k, l), block_dx(k, l) / 8).lane(block_dx(k, l) % 8)
            == data[k].lane(l),
        0 <= block_dy(k, l) < 4,
        0 <= block_dx(k, l) < 16,
{
    if l == 0 {
    } else if l == 1 {
    } else if l == 2 {
    } else if l == 3 {
    } else if l == 4 {
    } else if l == 5 {
    } else if l == 6 {
    } else {
    }
}

/// Where the eight packets of a block hold its lines, every lane of the data
/// is the pixel that the layout names for it.
pub proof fn lemma_block_stored(target: Seq<Mi32>, width: int, x: int, y: int, data: Seq<Mi32>)
    requires
        width > 0,
        width % 16 == 0,
        x % 16 == 0,
        0 <= x,
        0 <= y,
        data.len() == 8,
        forall|row: int, half: int|
            0 <= row < 4 && 0 <= half < 2 ==> target[#[trigger] block_slot(
                width,
                x,
                y,
                row,
                half,
            )] == block_line(data, row, half),
    ensures
        forall|k: int, l: int|
            0 <= k < 8 && 0 <= l < 8 ==> pixel(
                target,
                width,
                x + block_dx(k, l),
                y + block_dy(k, l),
            ) == #[trigger] data[k].lane(l),
{
    assert forall|k: int, l: int| 0 <= k < 8 && 0 <= l < 8 implies pixel(
        target,
        width,
        x + block_dx(k, l),
        y + block_dy(k, l),
    ) == #[trigger] data[k].lane(l) by {
        let dx = block_dx(k, l);
        let dy = block_dy(k, l);
        lemma_block_line(data, k, l);
        lemma_block_row(width, x, y, dy, dx);
        assert((y + dy) * width + (x + dx) == (y + dy) * width + x + dx);
        assert(target[block_slot(width, x, y, dy, dx / 8)] == block_line(data, dy, dx / 8));
    }
}

/// Where the pixels of one row of a block lie in the bitmap.
pub proof fn lemma_block_row(width: int, x: int, y: int, row: int, dx: int)
    requires
        width > 0,
        width % 16 == 0,
        x % 16 == 0,
        0 <= x,
        0 <= y,
        0 <= row < 4,
        0 <= dx < 16,
    ensures
        ((y + row) * width + x + dx) / 8 == block_slot(width, x, y, row, dx / 8),
        ((y + row) * width + x + dx) % 8 == dx % 8,
        block_slot(width, x, y, row, 0) == block_slot(width, x, y, 0, 0) + row * (width / 8),
        0 <= block_slot(width, x, y, 0, 0),
{
    let q = width / 16;
    assert(width == 16 * q);
    assert((y + row) * width == 8 * ((y + row) * (2 * q))) by (nonlinear_arith)
        requires
            width == 16 * q,
    ;
    assert(y * width == 8 * (y * (2 * q))) by (nonlinear_arith)
        requires
            width == 16 * q,
    ;
    assert((y + row) * (2 * q) == y * (2 * q) + row * (2 * q)) by (nonlinear_arith);
    assert(row * (width / 8) == row * (2 * q)) by {
        assert(width / 8 == 2 * q);
    }
    assert(0 <= y * (2 * q)) by (nonlinear_arith)
        requires
            0 <= y,
            0 <= q,
    ;
}

/// Appends the four bytes of a pixel, the least significant first.
fn push_pixel(bytes: &mut Vec<u8>, v: u32)
    ensures
        final(bytes)@ == old(bytes)@ + pixel_bytes(v),
{
    assert(v & 0xff < 0x100) by (bit_vector);
    assert((v >> 8) & 0xff < 0x100) by (bit_vector);
    assert((v >> 16) & 0xff < 0x100) by (bit_vector);
    assert((v >> 24) & 0xff < 0x100) by (bit_vector);
    bytes.push((v & 0xff) as u8);
    bytes.push(((v >> 8) & 0xff) as u8);
    bytes.push(((v >> 16) & 0xff) as u8);
    bytes.push(((v >> 24) & 0xff) as u8);
    assert(bytes@ =~= old(bytes)@ + pixel_bytes(v));
}

/// Packs red, green and blue into pixels: red in the lowest byte, green above
/// it, blue above that.
pub fn pack_color(r: Mi32, g: Mi32, b: Mi32) -> (p: Mi32)
    ensures
        p == packed_color(r, g, b),
        forall|k: int|
            0 <= k < 8 ==> #[trigger] p.lane(k) == rgb_of(r.lane(k), g.lane(k), b.lane(k)),
{
    (r | g.shl(8)) | b.shl(16)
}

/// Packs what the G-buffer shows of a surface into pixels. The texture
/// coordinates wrap: only their low bytes are kept.
pub fn pack_surface(tex_index: Mi32, tex_x: Mi32, tex_y: Mi32, fresnel: Mi32) -> (p: Mi32)
    ensures
        p == packed_surface(tex_index, tex_x, tex_y, fresnel),
        forall|k: int|
            0 <= k < 8 ==> #[trigger] p.lane(k) == surface_of(
                tex_index.lane(k),
                tex_x.lane(k),
                tex_y.lane(k),
                fresnel.lane(k),
            ),
{
    let wrap = Mi32::broadcast(0xff);
    let r = tex_x & wrap;
    let g = (tex_y & wrap).shl(8);
    let b = fresnel.shl(16);

    // Store the texture index in the alpha channel.
    let a = tex_index.shl(24);
    (r | g) | (b | a)
}

/// Makes pixels of eight packets of colours.
fn quantized_colors<A: Arithmetic>(arithmetic: &A, data: &[MPixelData; 8]) -> (r: [Mi32; 8])
    ensures
        forall|k: int| 0 <= k < 8 ==> color_shown(arithmetic, data[k].color, #[trigger] r[k]),
{
    [
        quantized_color(arithmetic, data[0].color),
        quantized_color(arithmetic, data[1].color),
        quantized_color(arithmetic, data[2].color),
        quantized_color(arithmetic, data[3].color),
        quantized_color(arithmetic, data[4].color),
        quantized_color(arithmetic, data[5].color),
        quantized_color(arithmetic, data[6].color),
        quantized_color(arithmetic, data[7].color),
    ]
}

/// Makes pixels of eight colours.
fn quantized_color<A: Arithmetic>(arithmetic: &A, color: MVector3) -> (r: Mi32)
    ensures
        color_shown(arithmetic, color, r),
{
    // Convert the colours to integers in the range 0-255.
    let q = arithmetic.quantize_color(color);
    let r = pack_color(q.0, q.1, q.2);
    assert(call_ensures(A::quantize_color, (arithmetic, color), q));
    r
}

/// Makes G-buffer pixels of eight packets of pixel data.
fn quantized_surfaces<A: Arithmetic>(arithmetic: &A, data: &[MPixelData; 8]) -> (r: [Mi32; 8])
    ensures
        forall|k: int| 0 <= k < 8 ==> surface_shown(arithmetic, data[k], #[trigger] r[k]),
{
    [
        quantized_surface(arithmetic, data[0]),
        quantized_surface(arithmetic, data[1]),
        quantized_surface(arithmetic, data[2]),
        quantized_surface(arithmetic, data[3]),
        quantized_surface(arithmetic, data[4]),
        quantized_surface(arithmetic, data[5]),
        quantized_surface(arithmetic, data[6]),
        quantized_surface(arithmetic, data[7]),
    ]
}

/// Makes G-buffer pixels of the surfaces of eight pixels.
fn quantized_surface<A: Arithmetic>(arithmetic: &A, data: MPixelData) -> (r: Mi32)
    ensures
        surface_shown(arithmetic, data, r),
{
    // Generate the pixels for texture coordinates and the Fresnel factor.
    let q = arithmetic.quantize_surface(data.tex_coords, data.fresnel);
    let r = pack_surface(data.tex_index, q.0, q.1, q.2);
    assert(call_ensures(A::quantize_surface, (arithmetic, data.tex_coords, data.fresnel), q));
    r
}

/// Eight pixels of which only the colour is known.
fn color_only(color: MVector3) -> (r: MPixelData)
    ensures
        r.color == color,
        r.tex_index == Mi32::splat(0),
        r.tex_coords == (Mf32::splat(0), Mf32::splat(0)),
        r.fresnel == Mf32::splat(0),
{
    MPixelData {
        color: color,
        tex_index: Mi32::zero(),
        tex_coords: (Mf32::zero(), Mf32::zero()),
        fresnel: Mf32::zero(),
    }
}

/// Ends a path: the colour stays where the last thing that the lane hit emits
/// light, and turns black where it does not. A ray that found no light within
/// its bounces carries no energy.
pub fn finish_path(color: MVector3, hit_emissive: Mask) -> (r: MVector3)
    ensures
        r == lit(color, hit_emissive),
        forall|k: int|
            0 <= k < 8 ==> #[trigger] r.lane(k) == if sign_set(hit_emissive.lane(k)) {
                color.lane(k)
            } else {
                SVector3 { x: 0, y: 0, z: 0 }
            },
{
    MVector3::zero().pick(color, hit_emissive)
}

impl RenderBuffer {
    /// The packets of the buffer, row after row.
    pub closed spec fn packets(self) -> Seq<Mi32> {
        self.buffer@
    }

    /// Allocates a new buffer to render into, all pixels zero.
    ///
    /// The width must be a multiple of 16 and the height a multiple of 4.
    pub fn new(width: u32, height: u32) -> (r: RenderBuffer)
        requires
            width % 16 == 0,
            height % 4 == 0,
            width * height / 8 <= usize::MAX,
        ensures
            r.packets().len() == width * height / 8,
            forall|e: int|
                0 <= e < r.packets().len() ==> #[trigger] r.packets()[e] == Mi32::splat(0),
    {
        // There are 8 RGBA pixels in one packet.
        assert(width * height <= 0xffff_ffff * 0xffff_ffff) by (nonlinear_arith)
            requires
                0 <= width <= 0xffff_ffff,
                0 <= height <= 0xffff_ffff,
        ;
        let num_elems = ((width as u64) * (height as u64) / 8) as usize;
        let mut buffer: Vec<Mi32> = Vec::with_capacity(num_elems);
        let mut i: usize = 0;
        while i < num_elems
            invariant
                i <= num_elems,
                buffer.len() == i,
                forall|e: int| 0 <= e < i ==> #[trigger] buffer[e] == Mi32::splat(0),
            decreases num_elems - i,
        {
            buffer.push(Mi32::zero());
            i += 1;
        }
        RenderBuffer { buffer }
    }

    /// Returns the number of packets in the buffer.
    pub fn num_packets(&self) -> (r: usize)
        ensures
            r == self.packets().len(),
    {
        self.buffer.len()
    }

    /// Zeroes the buffer.
    pub fn fill_black(&mut self)
        ensures
            final(self).packets().len() == old(self).packets().len(),
            forall|e: int|
                0 <= e < final(self).packets().len() ==> #[trigger] final(self).packets()[e]
                    == Mi32::splat(0),
    {
        let mut i: usize = 0;
        while i < self.buffer.len()
            invariant
                i <= self.buffer.len(),
                self.buffer.len() == old(self).buffer.len(),
                forall|e: int| 0 <= e < i ==> #[trigger] self.buffer[e] == Mi32::splat(0),
            decreases self.buffer.len() - i,
        {
            self.buffer[i] = Mi32::zero();
            i += 1;
        }
    }

    /// Returns a mutable view into the buffer.
    pub fn get_mut_slice(&mut self) -> (r: &mut [Mi32])
        ensures
            r@ == old(self).packets(),
            final(self).packets() == final(r)@,
    {
        self.buffer.as_mut_slice()
    }

    /// Returns an RGBA bitmap suitable for display: four bytes to the pixel,
    /// red first.
    pub fn into_bitmap(self) -> (r: Vec<u8>)
        ensures
            r@ == bitmap_bytes(self.packets()),
            r.len() == 32 * self.packets().len(),
    {
        let mut bytes: Vec<u8> = Vec::new();
        let mut i: usize = 0;
        while i < self.buffer.len()
            invariant
                i <= self.buffer.len(),
                bytes@ == bitmap_bytes(self.buffer@.take(i as int)),
            decreases self.buffer.len() - i,
        {
            let m = self.buffer[i];
            let ghost before = bytes@;
            push_pixel(&mut bytes, m.0);
            push_pixel(&mut bytes, m.1);
            push_pixel(&mut bytes, m.2);
            push_pixel(&mut bytes, m.3);
            push_pixel(&mut bytes, m.4);
            push_pixel(&mut bytes, m.5);
            push_pixel(&mut bytes, m.6);
            push_pixel(&mut bytes, m.7);
            proof {
                assert(bytes@ =~= before + packet_bytes(m));
                assert(self.buffer@.take(i + 1).drop_last() =~= self.buffer@.take(i as int));
            }
            i += 1;
        }
        proof {
            assert(self.buffer@.take(self.buffer.len() as int) =~= self.buffer@);
            lemma_bitmap_len(self.buffer@);
        }
        bytes
    }
}

impl Renderer {
    /// The width of the viewport in pixels.
    pub closed spec fn spec_width(self) -> u32 {
        self.width
    }

    /// The height of the viewport in pixels.
    pub closed spec fn spec_height(self) -> u32 {
        self.height
    }

    /// Whether the debug view is on.
    pub closed spec fn debug_view(self) -> bool {
        self.enable_debug_view
    }

    /// The current time and the time per frame, as bit patterns.
    pub closed spec fn spec_time(self) -> (u32, u32) {
        (self.time, self.time_delta)
    }

    /// A renderer for a viewport of the given size, at time zero, with the
    /// debug view off.
    pub fn new(width: u32, height: u32) -> (r: Renderer)
        ensures
            r.spec_width() == width,
            r.spec_height() == height,
            !r.debug_view(),
            r.spec_time() == (0u32, 0u32),
    {
        Renderer { width: width, height: height, enable_debug_view: false, time: 0, time_delta: 0 }
    }

    /// Returns the width of the viewport in pixels.
    pub fn width(&self) -> (r: u32)
        ensures
            r == self.spec_width(),
    {
        self.width
    }

    /// Returns the height of the viewport in pixels.
    pub fn height(&self) -> (r: u32)
        ensures
            r == self.spec_height(),
    {
        self.height
    }

    /// Returns the current time and the time per frame, as bit patterns.
    pub fn time(&self) -> (r: (u32, u32))
        ensures
            r == self.spec_time(),
    {
        (self.time, self.time_delta)
    }

    /// Returns whether the square patch at `(x, y)` lies in the viewport and
    /// in a bitmap of `packets` packets.
    pub fn fits_patch(&self, patch_width: u32, x: u32, y: u32, packets: usize) -> (r: bool)
        ensures
            r == patch_fits(
                self.spec_width() as int,
                x as int,
                y as int,
                patch_width as int,
                packets as int,
            ),
    {
        let width = self.width as u64;
        let rows = y as u64 + patch_width as u64;
        if patch_width % 16 != 0 || self.width % 16 != 0 || x % 16 != 0 {
            return false;
        }
        if x as u64 + patch_width as u64 > width {
            return false;
        }
        if rows > u32::MAX as u64 {
            // So many rows of at least one pixel are more than a bitmap holds.
            assert(rows * width > u32::MAX || width == 0) by (nonlinear_arith)
                requires
                    rows > u32::MAX,
                    0 <= width,
            ;
            return false;
        }
        assert(rows * width <= 0xffff_ffff * 0xffff_ffff) by (nonlinear_arith)
            requires
                0 <= rows <= 0xffff_ffff,
                0 <= width <= 0xffff_ffff,
        ;
        let pixels = rows * width;
        pixels <= u32::MAX as u64 && (packets >= 0x2000_0000 || pixels <= 8 * (packets as u64))
    }

    /// Returns whether the viewport can be converted from a buffer of `blocks`
    /// blocks into a bitmap of `packets` packets: its width is a multiple of
    /// 16 and its height a multiple of 4, and both buffers hold all of it.
    pub fn fits_viewport(&self, packets: usize, blocks: usize) -> (r: bool)
        ensures
            r == {
                &&& self.spec_width() % 16 == 0
                &&& self.spec_height() % 4 == 0
                &&& self.spec_width() * self.spec_height() <= u32::MAX
                &&& self.spec_width() * self.spec_height() <= 8 * packets
                &&& (self.spec_width() / 16) * (self.spec_height() / 4) <= blocks
            },
    {
        let width = self.width as u64;
        let height = self.height as u64;
        assert(width * height <= 0xffff_ffff * 0xffff_ffff) by (nonlinear_arith)
            requires
                0 <= width <= 0xffff_ffff,
                0 <= height <= 0xffff_ffff,
        ;
        assert((width / 16) * (height / 4) <= 0x0fff_ffff * 0x3fff_ffff) by (nonlinear_arith)
            requires
                0 <= width / 16 <= 0x0fff_ffff,
                0 <= height / 4 <= 0x3fff_ffff,
        ;
        let pixels = width * height;
        self.width % 16 == 0 && self.height % 4 == 0 && pixels <= u32::MAX as u64 && (packets
            >= 0x2000_0000 || pixels <= 8 * (packets as u64)) && (width / 16) * (height / 4)
            <= blocks as u64
    }

    /// Returns whether a buffer of `blocks` blocks holds the blocks of the
    /// square patch at `(x, y)`.
    pub fn fits_blocks(&self, patch_width: u32, y: u32, blocks: usize) -> (r: bool)
        ensures
            r == ((y / 4 + patch_width / 4) * (self.spec_width() / 16) <= blocks),
    {
        let rows = (y / 4) as u64 + (patch_width / 4) as u64;
        let stride = (self.width / 16) as u64;
        assert(rows * stride <= 0x7fff_fffe * 0x0fff_ffff) by (nonlinear_arith)
            requires
                0 <= rows <= 0x7fff_fffe,
                0 <= stride <= 0x0fff_ffff,
        ;
        rows * stride <= blocks as u64
    }

    /// Sets the current time and the amount that the time is expected to change
    /// per frame.
    pub fn set_time(&mut self, time: u32, delta: u32)
        ensures
            final(self).spec_time() == (time, delta),
            final(self).spec_width() == old(self).spec_width(),
            final(self).spec_height() == old(self).spec_height(),
            final(self).debug_view() == old(self).debug_view(),
    {
        self.time = time;
        self.time_delta = delta;
    }

    pub fn toggle_debug_view(&mut self)
        ensures
            final(self).debug_view() == !old(self).debug_view(),
            final(self).spec_time() == old(self).spec_time(),
            final(self).spec_width() == old(self).spec_width(),
            final(self).spec_height() == old(self).spec_height(),
    {
        self.enable_debug_view = !self.enable_debug_view;
    }

    /// Returns the pixel coordinates of the block of 16x4 pixels where (x, y)
    /// is the bottom-left coordinate: for every packet the x coordinates of its
    /// lanes, and the y coordinates. The order is as follows:
    ///
    /// ```text
    ///     0c 0d 0e 0f  1c 1d 1e 1f  2c 2d 2e 2f  3c 3d 3e 3f
    ///     08 09 0a 0b  18 19 1a 1b  28 29 2a 2b  38 39 3a 3b
    ///     04 05 06 07  14 15 16 17  24 25 26 27  34 35 36 37
    ///     00 01 02 03  10 11 12 13  20 21 22 23  30 31 32 33
    /// ```
    ///
    /// Where inside every packet the pixels are ordered from left to right,
    /// bottom to top, and packet `k` lies right of packet `k - 2` and, for odd
    /// `k`, above packet `k - 1`.
    pub fn get_pixel_coords_16x4(x: u32, y: u32) -> (r: ([Mi32; 8], [Mi32; 8]))
        requires
            x + 16 <= u32::MAX,
            y + 4 <= u32::MAX,
        ensures
            forall|p: int| 0 <= p < 8 ==> #[trigger] r.0[p] == block_xs(x, p),
            forall|p: int| 0 <= p < 8 ==> #[trigger] r.1[p] == block_ys(y, p),
            forall|k: int, l: int|
                0 <= k < 8 && 0 <= l < 8 ==> #[trigger] r.0[k].lane(l) == x + block_dx(k, l),
            forall|k: int, l: int|
                0 <= k < 8 && 0 <= l < 8 ==> #[trigger] r.1[k].lane(l) == y + block_dy(k, l),
    {
        let x0 = Mi32(x, x + 1, x + 2, x + 3, x, x + 1, x + 2, x + 3);
        let x1 = Mi32(x + 4, x + 5, x + 6, x + 7, x + 4, x + 5, x + 6, x + 7);
        let x2 = Mi32(x + 8, x + 9, x + 10, x + 11, x + 8, x + 9, x + 10, x + 11);
        let x3 = Mi32(x + 12, x + 13, x + 14, x + 15, x + 12, x + 13, x + 14, x + 15);
        let y0 = Mi32(y, y, y, y, y + 1, y + 1, y + 1, y + 1);
        let y1 = Mi32(y + 2, y + 2, y + 2, y + 2, y + 3, y + 3, y + 3, y + 3);
        let xs = [x0, x0, x1, x1, x2, x2, x3, x3];
        let ys = [y0, y1, y0, y1, y0, y1, y0, y1];
        (xs, ys)
    }

    /// Shuffles lanes around to store 16x4 rendered pixels in the correct
    /// location in a bitmap.
    ///
    /// Lane `l` of packet `k` becomes the pixel that `get_pixel_coords_16x4`
    /// names for it. The eight packets of the bitmap that hold the block are
    /// overwritten whole, and no other packet changes.
    pub fn store_mi32_16x4(&self, target: &mut [Mi32], x: u32, y: u32, data: &[Mi32; 8])
        requires
            block_fits(self.spec_width() as int, x as int, y as int, old(target).len() as int),
        ensures
            forall|k: int, l: int|
                0 <= k < 8 && 0 <= l < 8 ==> pixel(
                    final(target)@,
                    self.spec_width() as int,
                    x + block_dx(k, l),
                    y + block_dy(k, l),
                ) == #[trigger] data[k].lane(l),
            kept_outside_block(
                old(target)@,
                final(target)@,
                self.spec_width() as int,
                x as int,
                y as int,
            ),
    {
        let ghost width = self.width as int;
        let stride = (self.width / 8) as usize;
        proof {
            lemma_block_row(width, x as int, y as int, 0, 0);
            lemma_block_row(width, x as int, y as int, 1, 0);
            lemma_block_row(width, x as int, y as int, 2, 0);
            lemma_block_row(width, x as int, y as int, 3, 15);
            assert(y * width + 3 * width + width == (y + 4) * width) by (nonlinear_arith);
            assert(0 <= y * width) by (nonlinear_arith)
                requires
                    0 <= y,
                    0 <= width,
            ;
        }
        let idx_line0 = ((y * self.width + x) / 8) as usize;
        let idx_line1 = idx_line0 + stride;
        let idx_line2 = idx_line1 + stride;
        let idx_line3 = idx_line2 + stride;
        assert(idx_line0 == block_slot(width, x as int, y as int, 0, 0));
        assert(idx_line3 + 1 < target.len()) by {
            assert(idx_line3 == block_slot(width, x as int, y as int, 3, 0));
            assert(((y + 3) * width + x + 15) / 8 == idx_line3 + 1);
            assert((y + 3) * width + width == (y + 4) * width) by (nonlinear_arith);
        }

        let d0 = data[0];
        let d1 = data[1];
        let d2 = data[2];
        let d3 = data[3];
        let d4 = data[4];
        let d5 = data[5];
        let d6 = data[6];
        let d7 = data[7];

        // Store the pixels in the bitmap: four rows of two packets each.
        target[idx_line0] = Mi32(d0.0, d0.1, d0.2, d0.3, d2.0, d2.1, d2.2, d2.3);
        target[idx_line0 + 1] = Mi32(d4.0, d4.1, d4.2, d4.3, d6.0, d6.1, d6.2, d6.3);
        target[idx_line1] = Mi32(d0.4, d0.5, d0.6, d0.7, d2.4, d2.5, d2.6, d2.7);
        target[idx_line1 + 1] = Mi32(d4.4, d4.5, d4.6, d4.7, d6.4, d6.5, d6.6, d6.7);
        target[idx_line2] = Mi32(d1.0, d1.1, d1.2, d1.3, d3.0, d3.1, d3.2, d3.3);
        target[idx_line2 + 1] = Mi32(d5.0, d5.1, d5.2, d5.3, d7.0, d7.1, d7.2, d7.3);
        target[idx_line3] = Mi32(d1.4, d1.5, d1.6, d1.7, d3.4, d3.5, d3.6, d3.7);
        target[idx_line3 + 1] = Mi32(d5.4, d5.5, d5.6, d5.7, d7.4, d7.5, d7.6, d7.7);

        proof {
            assert(stride >= 2);
            let xi = x as int;
            let yi = y as int;
            lemma_block_row(width, xi, yi, 1, 0);
            lemma_block_row(width, xi, yi, 2, 0);
            lemma_block_row(width, xi, yi, 3, 0);
            assert(idx_line1 == block_slot(width, xi, yi, 1, 0));
            assert(idx_line2 == block_slot(width, xi, yi, 2, 0));
            assert(idx_line3 == block_slot(width, xi, yi, 3, 0));
            assert forall|row: int, half: int| 0 <= row < 4 && 0 <= half < 2 implies target@[
            #[trigger] block_slot(width, xi, yi, row, half)] == block_line(data@, row, half) by {
                if row == 0 {
                } else if row == 1 {
                } else if row == 2 {
                } else {
                }
            }
            lemma_block_stored(target@, width, xi, yi, data@);
            assert forall|e: int|
                0 <= e < old(target).len() && !in_block(width, xi, yi, e) implies
                #[trigger] target@[e] == old(target)[e] by {
                assert(e != block_slot(width, xi, yi, 0, 0));
                assert(e != block_slot(width, xi, yi, 0, 1));
                assert(e != block_slot(width, xi, yi, 1, 0));
                assert(e != block_slot(width, xi, yi, 1, 1));
                assert(e != block_slot(width, xi, yi, 2, 0));
                assert(e != block_slot(width, xi, yi, 2, 1));
                assert(e != block_slot(width, xi, yi, 3, 0));
                assert(e != block_slot(width, xi, yi, 3, 1));
            }
        }
    }

    /// Converts colours to 32-bit RGBA and stores the values in the bitmap, each
    /// lane where `store_mi32_16x4` puts it. No packet outside the block changes.
    pub fn store_pixels_color_16x4<A: Arithmetic>(
        &self,
        arithmetic: &A,
        bitmap: &mut [Mi32],
        x: u32,
        y: u32,
        data: &[MPixelData; 8],
    )
        requires
            block_fits(self.spec_width() as int, x as int, y as int, old(bitmap).len() as int),
        ensures
            colors_stored(
                arithmetic,
                final(bitmap)@,
                self.spec_width() as int,
                x as int,
                y as int,
                data@,
            ),
            kept_outside_block(
                old(bitmap)@,
                final(bitmap)@,
                self.spec_width() as int,
                x as int,
                y as int,
            ),
    {
        let rgbas = quantized_colors(arithmetic, data);
        self.store_mi32_16x4(bitmap, x, y, &rgbas);
        assert(block_holds(bitmap@, self.spec_width() as int, x as int, y as int, rgbas@));
    }

    /// Converts texture coordinates and Fresnel factor to integers and stores
    /// them with the texture index in the bitmap, each lane where
    /// `store_mi32_16x4` puts it. No packet outside the block changes.
    pub fn store_pixels_gbuffer_16x4<A: Arithmetic>(
        &self,
        arithmetic: &A,
        gbuffer: &mut [Mi32],
        x: u32,
        y: u32,
        data: &[MPixelData; 8],
    )
        requires
            block_fits(self.spec_width() as int, x as int, y as int, old(gbuffer).len() as int),
        ensures
            surfaces_stored(
                arithmetic,
                final(gbuffer)@,
                self.spec_width() as int,
                x as int,
                y as int,
                data@,
            ),
            kept_outside_block(
                old(gbuffer)@,
                final(gbuffer)@,
                self.spec_width() as int,
                x as int,
                y as int,
            ),
    {
        let uvs = quantized_surfaces(arithmetic, data);
        self.store_mi32_16x4(gbuffer, x, y, &uvs);
        assert(block_holds(gbuffer@, self.spec_width() as int, x as int, y as int, uvs@));
    }

    /// Returns colors for the pixels, as well as the texture indices.
    ///
    /// The path of a lane makes at most `MAX_BOUNCES` bounces, and none once
    /// every lane has hit a light. The texture index, the texture coordinates
    /// and the Fresnel factor are those of the first hit. The light of the sky
    /// in the last direction is the last factor of the colour. A lane whose
    /// last hit does not emit light is black.
    pub fn render_pixels<A: Arithmetic, C: Camera, R: Random>(
        &self,
        arithmetic: &A,
        camera: &C,
        scene: &Scene,
        x: Mf32,
        y: Mf32,
        rng: &mut R,
    ) -> (r: MPixelData)
        ensures
            path_traced(arithmetic, camera, scene, x, y, r),
            path_rendered(scene, r),
            forall|k: int| 0 <= k < 8 ==> #[trigger] r.tex_index.lane(k) < 8,
            exists|color: MVector3, hit_emissive: Mask| r.color == lit(color, hit_emissive),
            scene.bvh is None ==> {
                &&& r.tex_index == Mi32::splat(0)
                &&& r.tex_coords == (Mf32::splat(0), Mf32::splat(0))
                &&& r.fresnel == Mf32::splat(0)
                &&& exists|color: MVector3| r.color == lit(color, Mf32::splat(0xc000_0000))
            },
    {
        let t = rng.sample_unit();
        let first_ray = camera.get_ray(x, y, t);
        let mut ray = first_ray;
        let mut color = MVector3::new(Mf32::one(), Mf32::one(), Mf32::one());
        let mut hit_emissive = Mf32::zero();
        let mut texture_index = Mi32::zero();
        let mut texture_coords = (Mf32::zero(), Mf32::zero());
        let mut fresnel = Mf32::zero();
        let ghost start = path_start(first_ray);
        let ghost mut ended_early = false;

        let mut i: u32 = 0;
        while i < MAX_BOUNCES
            invariant_except_break
                i <= MAX_BOUNCES,
                scene.bvh is None ==> i == 0,
                !ended_early,
            invariant
                forall|k: int| 0 <= k < 8 ==> #[trigger] texture_index.lane(k) < 8,
                scene.bvh is None ==> {
                    &&& texture_index == Mi32::splat(0)
                    &&& texture_coords == (Mf32::splat(0), Mf32::splat(0))
                    &&& fresnel == Mf32::splat(0)
                },
                // What the path yields from here, it yields from its start.
                forall|r: MPixelData| #[trigger]
                    path_left(
                        arithmetic,
                        scene,
                        (PathState {
                            ray,
                            color,
                            hit_emissive,
                            tex_index: texture_index,
                            tex_coords: texture_coords,
                            fresnel,
                        }),
                        i,
                        ended_early,
                        r,
                    ) ==> path_followed(arithmetic, scene, start, 0, r),
            ensures
                scene.bvh is None ==> hit_emissive == Mf32::splat(0xc000_0000),
                ended_early || i == MAX_BOUNCES,
            decreases MAX_BOUNCES - i,
        {
            let ghost state = PathState {
                ray,
                color,
                hit_emissive,
                tex_index: texture_index,
                tex_coords: texture_coords,
                fresnel,
            };
            let isect = scene.intersect_nearest(arithmetic, &ray);
            hit_emissive = isect.material;

            // Stop when every ray hit a light source.
            if isect.material.all_sign_bits_negative() {
                proof {
                    let ended = PathState { hit_emissive: isect.material, ..state };
                    assert forall|r: MPixelData| #[trigger]
                        path_left(arithmetic, scene, ended, i, true, r) implies path_followed(
                        arithmetic,
                        scene,
                        start,
                        0,
                        r,
                    ) by {
                        assert(path_turned(arithmetic, scene, state, i, isect, state));
                        assert(path_followed(arithmetic, scene, state, i, r));
                        assert(path_left(arithmetic, scene, state, i, false, r));
                    }
                    ended_early = true;
                }
                break;
            }
            // Get a new ray and the color modulation.
            let step = continue_path(arithmetic, &ray, &isect, rng);
            ray = step.0;
            let ghost color_before = color;
            color = arithmetic.modulate(color, step.1);

            // What the first bounce shows of the surface goes to the G-buffer.
            if i == 0 {
                texture_index = isect.material.get_texture();
                texture_coords = step.2.tex_coords;
                fresnel = step.2.fresnel;
            }
            proof {
                let next = PathState {
                    ray,
                    color,
                    hit_emissive,
                    tex_index: texture_index,
                    tex_coords: texture_coords,
                    fresnel,
                };
                assert(call_ensures(A::modulate, (arithmetic, color_before, step.1), color));
                assert(path_stepped_with(arithmetic, state, i, isect, step, next));
                assert(path_turned(arithmetic, scene, state, i, isect, next));
                assert forall|r: MPixelData| #[trigger]
                    path_left(
                        arithmetic,
                        scene,
                        next,
                        (i + 1) as u32,
                        false,
                        r,
                    ) implies path_followed(arithmetic, scene, start, 0, r) by {
                    assert(path_followed(arithmetic, scene, state, i, r));
                    assert(path_left(arithmetic, scene, state, i, false, r));
                }
            }
            i += 1;
        }

        // Compute light contribution.
        let ghost ended = PathState {
            ray,
            color,
            hit_emissive,
            tex_index: texture_index,
            tex_coords: texture_coords,
            fresnel,
        };
        let emission = arithmetic.sky_intensity(ray.direction);
        let modulated = arithmetic.modulate(color, emission);

        // If the last thing that a ray hit was an emissive material, it has
        // found a light source and the computed color is correct. If the ray
        // did not find a light source but the loop was terminated, the computed
        // color is invalid; it should be black.
        let lit_color = finish_path(modulated, hit_emissive);

        let r = MPixelData {
            color: lit_color,
            tex_index: texture_index,
            tex_coords: texture_coords,
            fresnel: fresnel,
        };
        proof {
            assert(path_ended_with(arithmetic, ended, emission, modulated, r));
            assert(path_ended(arithmetic, ended, r));
            assert(path_left(arithmetic, scene, ended, i, ended_early, r));
            assert(path_followed(arithmetic, scene, start, 0, r));
            assert(call_ensures(C::get_ray, (camera, x, y, t), first_ray));
            reveal(path_traced);
        }
        r
    }

    /// Returns, in place of colours, how much work the traversal has with the
    /// pixels: no red, and green and blue from the numbers of boxes and
    /// triangles that were tested.
    pub fn render_pixels_debug<A: Arithmetic, C: Camera>(
        &self,
        arithmetic: &A,
        camera: &C,
        scene: &Scene,
        x: Mf32,
        y: Mf32,
    ) -> (r: MPixelData)
        ensures
            debug_rendered(arithmetic, camera, scene, x, y, r),
            r.tex_index == Mi32::splat(0),
            r.tex_coords == (Mf32::splat(0), Mf32::splat(0)),
            r.fresnel == Mf32::splat(0),
    {
        let t = Mf32::zero();
        let ray = camera.get_ray(x, y, t);
        let work = scene.intersect_debug(arithmetic, &ray);
        let r = color_only(arithmetic.debug_color(work.num_aabbs, work.num_triangles));
        proof {
            assert(debug_rendered_with(arithmetic, camera, scene, x, y, ray, work, r));
            reveal(debug_rendered);
        }
        r
    }

    /// Renders the eight pixels of one packet of a block.
    fn render_packet<A: Arithmetic, C: Camera, R: Random>(
        &self,
        arithmetic: &A,
        camera: &C,
        scene: &Scene,
        xs: Mi32,
        ys: Mi32,
        jitter: (Mf32, Mf32),
        rng: &mut R,
    ) -> (r: MPixelData)
        ensures
            packet_rendered(self, arithmetic, camera, scene, xs, ys, jitter, r),
            forall|k: int| 0 <= k < 8 ==> #[trigger] r.tex_index.lane(k) < 8,
    {
        let at = arithmetic.screen_coords(self.width, self.height, xs, ys, jitter.0, jitter.1);
        let r = if self.enable_debug_view {
            self.render_pixels_debug(arithmetic, camera, scene, at.0, at.1)
        } else {
            self.render_pixels(arithmetic, camera, scene, at.0, at.1, rng)
        };
        assert(packet_rendered_at(self, arithmetic, camera, scene, xs, ys, jitter, at, r));
        r
    }

    /// Renders a block of 16x4 pixels, where (x, y) is the coordinate of the
    /// bottom-left pixel. Every pixel is sampled at a random place inside it:
    /// the eight jitters along x are drawn first, then the eight along y, then
    /// the packets are rendered in order.
    pub fn render_block_16x4<A: Arithmetic, C: Camera, R: Random>(
        &self,
        arithmetic: &A,
        camera: &C,
        scene: &Scene,
        x: u32,
        y: u32,
        rng: &mut R,
    ) -> (r: [MPixelData; 8])
        requires
            x + 16 <= u32::MAX,
            y + 4 <= u32::MAX,
        ensures
            block_rendered(self, arithmetic, camera, scene, x, y, r@),
            forall|p: int, k: int|
                0 <= p < 8 && 0 <= k < 8 ==> #[trigger] r[p].tex_index.lane(k) < 8,
    {
        let (xs, ys) = Renderer::get_pixel_coords_16x4(x, y);

        // Add a random offset of at most one pixel, to sample with anti-alias.
        let jx0 = rng.sample_unit();
        let jx1 = rng.sample_unit();
        let jx2 = rng.sample_unit();
        let jx3 = rng.sample_unit();
        let jx4 = rng.sample_unit();
        let jx5 = rng.sample_unit();
        let jx6 = rng.sample_unit();
        let jx7 = rng.sample_unit();
        let jy0 = rng.sample_unit();
        let jy1 = rng.sample_unit();
        let jy2 = rng.sample_unit();
        let jy3 = rng.sample_unit();
        let jy4 = rng.sample_unit();
        let jy5 = rng.sample_unit();
        let jy6 = rng.sample_unit();
        let jy7 = rng.sample_unit();

        let d0 = self.render_packet(arithmetic, camera, scene, xs[0], ys[0], (jx0, jy0), rng);
        let d1 = self.render_packet(arithmetic, camera, scene, xs[1], ys[1], (jx1, jy1), rng);
        let d2 = self.render_packet(arithmetic, camera, scene, xs[2], ys[2], (jx2, jy2), rng);
        let d3 = self.render_packet(arithmetic, camera, scene, xs[3], ys[3], (jx3, jy3), rng);
        let d4 = self.render_packet(arithmetic, camera, scene, xs[4], ys[4], (jx4, jy4), rng);
        let d5 = self.render_packet(arithmetic, camera, scene, xs[5], ys[5], (jx5, jy5), rng);
        let d6 = self.render_packet(arithmetic, camera, scene, xs[6], ys[6], (jx6, jy6), rng);
        let d7 = self.render_packet(arithmetic, camera, scene, xs[7], ys[7], (jx7, jy7), rng);
        let r = [d0, d1, d2, d3, d4, d5, d6, d7];
        proof {
            assert(xs[0] == block_xs(x, 0) && ys[0] == block_ys(y, 0));
            assert(xs[1] == block_xs(x, 1) && ys[1] == block_ys(y, 1));
            assert(xs[2] == block_xs(x, 2) && ys[2] == block_ys(y, 2));
            assert(xs[3] == block_xs(x, 3) && ys[3] == block_ys(y, 3));
            assert(xs[4] == block_xs(x, 4) && ys[4] == block_ys(y, 4));
            assert(xs[5] == block_xs(x, 5) && ys[5] == block_ys(y, 5));
            assert(xs[6] == block_xs(x, 6) && ys[6] == block_ys(y, 6));
            assert(xs[7] == block_xs(x, 7) && ys[7] == block_ys(y, 7));
            let jitters = seq![
                (jx0, jy0),
                (jx1, jy1),
                (jx2, jy2),
                (jx3, jy3),
                (jx4, jy4),
                (jx5, jy5),
                (jx6, jy6),
                (jx7, jy7),
            ];
            assert forall|p: int| 0 <= p < 8 implies exists|jitter: (Mf32, Mf32)|
                packet_rendered(
                    self,
                    arithmetic,
                    camera,
                    scene,
                    block_xs(x, p),
                    block_ys(y, p),
                    jitter,
                    #[trigger] r@[p],
                ) by {
                assert(packet_rendered(
                    self,
                    arithmetic,
                    camera,
                    scene,
                    block_xs(x, p),
                    block_ys(y, p),
                    jitters[p],
                    r@[p],
                ));
            }
        }
        r
    }

    /// Renders a square part of a frame.
    ///
    /// The (x, y) coordinate is the coordinate of the bottom-left pixel of the
    /// patch. The patch width must be a multiple of 16. Every block of the
    /// patch is rendered, with the random numbers of the patch and the frame,
    /// and shown: its colours in the bitmap, its surfaces in the G-buffer.
    /// Only the packets that hold pixels of the patch change.
    #[verifier::loop_isolation(false)]
    pub fn render_patch_u8<A: Arithmetic, C: Camera, R: Random>(
        &self,
        arithmetic: &A,
        camera: &C,
        scene: &Scene,
        bitmap: &mut [Mi32],
        gbuffer: &mut [Mi32],
        patch_width: u32,
        x: u32,
        y: u32,
        frame_number: u32,
    )
        requires
            patch_fits(
                self.spec_width() as int,
                x as int,
                y as int,
                patch_width as int,
                old(bitmap).len() as int,
            ),
            patch_fits(
                self.spec_width() as int,
                x as int,
                y as int,
                patch_width as int,
                old(gbuffer).len() as int,
            ),
        ensures
            forall|i: int, j: int|
                0 <= i < patch_width / 16 && 0 <= j < patch_width / 4 ==> #[trigger] patch_block_shown(
                    self,
                    arithmetic,
                    camera,
                    scene,
                    final(bitmap)@,
                    final(gbuffer)@,
                    x,
                    y,
                    i,
                    j,
                ),
            kept_outside_patch(
                old(bitmap)@,
                final(bitmap)@,
                self.spec_width() as int,
                x as int,
                y as int,
                patch_width as int,
            ),
            kept_outside_patch(
                old(gbuffer)@,
                final(gbuffer)@,
                self.spec_width() as int,
                x as int,
                y as int,
                patch_width as int,
            ),
    {
        let w = patch_width / 16;
        let h = patch_width / 4;
        let mut rng = R::with_seed(x, y, frame_number);
        let ghost width = self.width as int;
        let ghost (xi, yi, pw) = (x as int, y as int, patch_width as int);

        let mut i: u32 = 0;
        while i < w
            invariant
                i <= w,
                kept_outside_patch(old(bitmap)@, bitmap@, width, xi, yi, pw),
                kept_outside_patch(old(gbuffer)@, gbuffer@, width, xi, yi, pw),
                forall|a: int, b: int|
                    0 <= a < i && 0 <= b < h ==> #[trigger] patch_block_shown(
                        self,
                        arithmetic,
                        camera,
                        scene,
                        bitmap@,
                        gbuffer@,
                        x,
                        y,
                        a,
                        b,
                    ),
            decreases w - i,
        {
            let mut j: u32 = 0;
            while j < h
                invariant
                    i < w,
                    j <= h,
                    kept_outside_patch(old(bitmap)@, bitmap@, width, xi, yi, pw),
                    kept_outside_patch(old(gbuffer)@, gbuffer@, width, xi, yi, pw),
                    forall|a: int, b: int|
                        (0 <= a < i && 0 <= b < h) || (a == i && 0 <= b < j)
                            ==> #[trigger] patch_block_shown(
                            self,
                            arithmetic,
                            camera,
                            scene,
                            bitmap@,
                            gbuffer@,
                            x,
                            y,
                            a,
                            b,
                        ),
                decreases h - j,
            {
                proof {
                    lemma_block_fits(width, xi, yi, pw, bitmap.len() as int, i as int, j as int);
                    lemma_block_fits(width, xi, yi, pw, gbuffer.len() as int, i as int, j as int);
                }
                let xb = x + i * 16;
                let yb = y + j * 4;
                let data = self.render_block_16x4(arithmetic, camera, scene, xb, yb, &mut rng);
                let ghost bitmap_before = bitmap@;
                let ghost gbuffer_before = gbuffer@;
                self.store_pixels_color_16x4(arithmetic, bitmap, xb, yb, &data);
                self.store_pixels_gbuffer_16x4(arithmetic, gbuffer, xb, yb, &data);
                proof {
                    lemma_patch_step(
                        old(bitmap)@,
                        bitmap_before,
                        bitmap@,
                        width,
                        xi,
                        yi,
                        pw,
                        i as int,
                        j as int,
                    );
                    lemma_patch_step(
                        old(gbuffer)@,
                        gbuffer_before,
                        gbuffer@,
                        width,
                        xi,
                        yi,
                        pw,
                        i as int,
                        j as int,
                    );
                    assert(block_shown_with(
                        self,
                        arithmetic,
                        camera,
                        scene,
                        bitmap@,
                        gbuffer@,
                        xb,
                        yb,
                        data@,
                    ));
                    assert(patch_block_shown(
                        self,
                        arithmetic,
                        camera,
                        scene,
                        bitmap@,
                        gbuffer@,
                        x,
                        y,
                        i as int,
                        j as int,
                    ));
                    assert forall|a: int, b: int|
                        (0 <= a < i && 0 <= b < h) || (a == i && 0 <= b < j)
                            implies #[trigger] patch_block_shown(
                        self,
                        arithmetic,
                        camera,
                        scene,
                        bitmap@,
                        gbuffer@,
                        x,
                        y,
                        a,
                        b,
                    ) by {
                        lemma_block_fits(width, xi, yi, pw, bitmap.len() as int, a, b);
                        lemma_block_fits(width, xi, yi, pw, gbuffer.len() as int, a, b);
                        assert(patch_block_shown(
                            self,
                            arithmetic,
                            camera,
                            scene,
                            bitmap_before,
                            gbuffer_before,
                            x,
                            y,
                            a,
                            b,
                        ));
                        lemma_block_shown_kept(
                            self,
                            arithmetic,
                            camera,
                            scene,
                            bitmap_before,
                            gbuffer_before,
                            bitmap@,
                            gbuffer@,
                            (x + 16 * a) as u32,
                            (y + 4 * b) as u32,
                            xb,
                            yb,
                        );
                    }
                }
                j += 1;
            }
            i += 1;
        }
    }

    /// Renders a square part of a frame, adds the contribution to the buffer.
    ///
    /// The (x, y) coordinate is the coordinate of the bottom-left pixel of the
    /// patch. The patch width must be a multiple of 16. The memory layout of
    /// the HDR buffer is as a bitmap of 16x4 blocks. Every block of the patch
    /// is rendered, with the random numbers of the patch and the frame, and
    /// its colours are added to what the buffer held. Only the blocks of the
    /// patch change.
    ///
    /// This also fills the gbuffer. This is not done accumulatively, it is
    /// filled for the current frame.
    #[verifier::loop_isolation(false)]
    pub fn accumulate_patch_f32<A: Arithmetic, C: Camera, R: Random>(
        &self,
        arithmetic: &A,
        camera: &C,
        scene: &Scene,
        hdr_buffer: &mut [[MVector3; 8]],
        gbuffer: &mut [Mi32],
        patch_width: u32,
        x: u32,
        y: u32,
        frame_number: u32,
    )
        requires
            patch_fits(
                self.spec_width() as int,
                x as int,
                y as int,
                patch_width as int,
                old(gbuffer).len() as int,
            ),
            (y / 4 + patch_width / 4) * (self.spec_width() / 16) <= old(hdr_buffer).len(),
        ensures
            final(hdr_buffer).len() == old(hdr_buffer).len(),
            forall|i: int, j: int|
                0 <= i < patch_width / 16 && 0 <= j < patch_width / 4 ==> #[trigger] patch_block_summed(
                    self,
                    arithmetic,
                    camera,
                    scene,
                    old(hdr_buffer)@,
                    final(hdr_buffer)@,
                    final(gbuffer)@,
                    x,
                    y,
                    i,
                    j,
                ),
            forall|e: int|
                0 <= e < old(hdr_buffer).len() && !block_in_patch(
                    self.spec_width() as int,
                    x as int,
                    y as int,
                    patch_width as int,
                    e,
                ) ==> #[trigger] final(hdr_buffer)[e] == old(hdr_buffer)[e],
            kept_outside_patch(
                old(gbuffer)@,
                final(gbuffer)@,
                self.spec_width() as int,
                x as int,
                y as int,
                patch_width as int,
            ),
    {
        let w = patch_width / 16;
        let h = patch_width / 4;
        let mut rng = R::with_seed(x, y, frame_number);
        let ghost width = self.width as int;
        let ghost (xi, yi, pw) = (x as int, y as int, patch_width as int);

        let mut i: u32 = 0;
        while i < w
            invariant
                i <= w,
                hdr_buffer.len() == old(hdr_buffer).len(),
                forall|e: int|
                    0 <= e < hdr_buffer.len() && !block_in_patch(width, xi, yi, pw, e)
                        ==> #[trigger] hdr_buffer[e] == old(hdr_buffer)[e],
                kept_outside_patch(old(gbuffer)@, gbuffer@, width, xi, yi, pw),
                forall|a: int, b: int|
                    0 <= a < i && 0 <= b < h ==> #[trigger] patch_block_summed(
                        self,
                        arithmetic,
                        camera,
                        scene,
                        old(hdr_buffer)@,
                        hdr_buffer@,
                        gbuffer@,
                        x,
                        y,
                        a,
                        b,
                    ),
                forall|a: int, b: int|
                    i <= a < w && 0 <= b < h ==> hdr_buffer[#[trigger] block_index(
                        width,
                        xi + 16 * a,
                        yi + 4 * b,
                    )] == old(hdr_buffer)[block_index(width, xi + 16 * a, yi + 4 * b)],
            decreases w - i,
        {
            let mut j: u32 = 0;
            while j < h
                invariant
                    i < w,
                    j <= h,
                    hdr_buffer.len() == old(hdr_buffer).len(),
                    forall|e: int|
                        0 <= e < hdr_buffer.len() && !block_in_patch(width, xi, yi, pw, e)
                            ==> #[trigger] hdr_buffer[e] == old(hdr_buffer)[e],
                    kept_outside_patch(old(gbuffer)@, gbuffer@, width, xi, yi, pw),
                    forall|a: int, b: int|
                        (0 <= a < i && 0 <= b < h) || (a == i && 0 <= b < j)
                            ==> #[trigger] patch_block_summed(
                            self,
                            arithmetic,
                            camera,
                            scene,
                            old(hdr_buffer)@,
                            hdr_buffer@,
                            gbuffer@,
                            x,
                            y,
                            a,
                            b,
                        ),
                    forall|a: int, b: int|
                        (i < a < w && 0 <= b < h) || (a == i && j <= b < h)
                            ==> hdr_buffer[#[trigger] block_index(
                            width,
                            xi + 16 * a,
                            yi + 4 * b,
                        )] == old(hdr_buffer)[block_index(width, xi + 16 * a, yi + 4 * b)],
                decreases h - j,
            {
                proof {
                    lemma_block_fits(width, xi, yi, pw, gbuffer.len() as int, i as int, j as int);
                    lemma_block_index(width, xi, yi, pw, i as int, j as int);
                }
                let xb = x + i * 16;
                let yb = y + j * 4;
                let data = self.render_block_16x4(arithmetic, camera, scene, xb, yb, &mut rng);
                let index = ((y / 4 + j) as usize) * ((self.width / 16) as usize) + ((x / 16
                    + i) as usize);
                assert(index == block_index(width, xi + 16 * i, yi + 4 * j));
                assert(block_in_patch(width, xi, yi, pw, index as int));
                let ghost hdr_before = hdr_buffer@;
                let ghost gbuffer_before = gbuffer@;
                let current = hdr_buffer[index];
                assert(current == old(hdr_buffer)[index as int]);
                let summed = [
                    arithmetic.accumulate(current[0], data[0].color),
                    arithmetic.accumulate(current[1], data[1].color),
                    arithmetic.accumulate(current[2], data[2].color),
                    arithmetic.accumulate(current[3], data[3].color),
                    arithmetic.accumulate(current[4], data[4].color),
                    arithmetic.accumulate(current[5], data[5].color),
                    arithmetic.accumulate(current[6], data[6].color),
                    arithmetic.accumulate(current[7], data[7].color),
                ];
                hdr_buffer[index] = summed;
                self.store_pixels_gbuffer_16x4(arithmetic, gbuffer, xb, yb, &data);
                proof {
                    lemma_patch_step(
                        old(gbuffer)@,
                        gbuffer_before,
                        gbuffer@,
                        width,
                        xi,
                        yi,
                        pw,
                        i as int,
                        j as int,
                    );
                    assert(block_summed_with(
                        self,
                        arithmetic,
                        camera,
                        scene,
                        old(hdr_buffer)@,
                        hdr_buffer@,
                        gbuffer@,
                        xb,
                        yb,
                        data@,
                    ));
                    assert(patch_block_summed(
                        self,
                        arithmetic,
                        camera,
                        scene,
                        old(hdr_buffer)@,
                        hdr_buffer@,
                        gbuffer@,
                        x,
                        y,
                        i as int,
                        j as int,
                    ));
                    assert forall|a: int, b: int|
                        (0 <= a < i && 0 <= b < h) || (a == i && 0 <= b < j)
                            implies #[trigger] patch_block_summed(
                        self,
                        arithmetic,
                        camera,
                        scene,
                        old(hdr_buffer)@,
                        hdr_buffer@,
                        gbuffer@,
                        x,
                        y,
                        a,
                        b,
                    ) by {
                        lemma_block_fits(width, xi, yi, pw, gbuffer.len() as int, a, b);
                        lemma_block_index(width, xi, yi, pw, a, b);
                        lemma_block_index_apart(width, xi, yi, pw, a, b, i as int, j as int);
                        let (xa, ya) = ((x + 16 * a) as u32, (y + 4 * b) as u32);
                        assert(patch_block_summed(
                            self,
                            arithmetic,
                            camera,
                            scene,
                            old(hdr_buffer)@,
                            hdr_before,
                            gbuffer_before,
                            x,
                            y,
                            a,
                            b,
                        ));
                        let earlier = choose|earlier: Seq<MPixelData>|
                            block_summed_with(
                                self,
                                arithmetic,
                                camera,
                                scene,
                                old(hdr_buffer)@,
                                hdr_before,
                                gbuffer_before,
                                xa,
                                ya,
                                earlier,
                            );
                        lemma_surfaces_kept(
                            arithmetic,
                            gbuffer_before,
                            gbuffer@,
                            width,
                            xa as int,
                            ya as int,
                            xb as int,
                            yb as int,
                            earlier,
                        );
                        let at = block_index(width, xa as int, ya as int);
                        assert(hdr_buffer@[at] == hdr_before[at]);
                        assert(block_summed_with(
                            self,
                            arithmetic,
                            camera,
                            scene,
                            old(hdr_buffer)@,
                            hdr_buffer@,
                            gbuffer@,
                            xa,
                            ya,
                            earlier,
                        ));
                    }
                    assert forall|a: int, b: int|
                        (i < a < w && 0 <= b < h) || (a == i && j + 1 <= b < h)
                            implies hdr_buffer[#[trigger] block_index(
                        width,
                        xi + 16 * a,
                        yi + 4 * b,
                    )] == old(hdr_buffer)[block_index(width, xi + 16 * a, yi + 4 * b)] by {
                        lemma_block_index(width, xi, yi, pw, a, b);
                        lemma_block_index_apart(width, xi, yi, pw, a, b, i as int, j as int);
                    }
                }
                j += 1;
            }
            i += 1;
        }
    }

    /// Creates a new buffer of colours, the size of the viewport, that can be
    /// rendered to with `accumulate_patch_f32()`: one entry for every block of
    /// 16x4 pixels, all of them black.
    pub fn new_buffer_f32(&self) -> (r: Vec<[MVector3; 8]>)
        requires
            (self.spec_width() / 16) * (self.spec_height() / 4) <= usize::MAX,
        ensures
            r.len() == (self.spec_width() / 16) * (self.spec_height() / 4),
            forall|e: int, k: int|
                0 <= e < r.len() && 0 <= k < 8 ==> #[trigger] r[e][k] == MVector3::splat(
                    SVector3 { x: 0, y: 0, z: 0 },
                ),
    {
        let w = (self.width / 16) as usize;
        let h = (self.height / 4) as usize;
        let count = w * h;
        let mut buffer: Vec<[MVector3; 8]> = Vec::with_capacity(count);
        let mut i: usize = 0;
        while i < count
            invariant
                i <= count,
                buffer.len() == i,
                forall|e: int, k: int|
                    0 <= e < i && 0 <= k < 8 ==> #[trigger] buffer[e][k] == MVector3::splat(
                        SVector3 { x: 0, y: 0, z: 0 },
                    ),
            decreases count - i,
        {
            let z = MVector3::zero();
            buffer.push([z, z, z, z, z, z, z, z]);
            i += 1;
        }
        buffer
    }

    /// Converts a buffer of colours used for accumulative rendering into a 32
    /// bit per pixel RGBA bitmap: block by block the average over the samples,
    /// stored where `store_mi32_16x4` puts it.
    #[verifier::loop_isolation(false)]
    pub fn buffer_f32_into_render_buffer<A: Arithmetic>(
        &self,
        arithmetic: &A,
        hdr_buffer: &[[MVector3; 8]],
        render_buffer: &mut RenderBuffer,
        num_samples: u32,
    )
        requires
            self.spec_width() % 16 == 0,
            self.spec_height() % 4 == 0,
            self.spec_width() * self.spec_height() <= u32::MAX,
            self.spec_width() * self.spec_height() <= 8 * old(render_buffer).packets().len(),
            (self.spec_width() / 16) * (self.spec_height() / 4) <= hdr_buffer.len(),
        ensures
            final(render_buffer).packets().len() == old(render_buffer).packets().len(),
            forall|i: int, j: int|
                0 <= i < self.spec_width() / 16 && 0 <= j < self.spec_height() / 4
                    ==> #[trigger] block_averaged(
                    self,
                    arithmetic,
                    hdr_buffer@,
                    num_samples,
                    final(render_buffer).packets(),
                    i,
                    j,
                ),
    {
        let w = self.width / 16;
        let h = self.height / 4;
        let ghost width = self.width as int;
        let ghost height = self.height as int;

        let mut j: u32 = 0;
        while j < h
            invariant
                j <= h,
                render_buffer.buffer.len() == old(render_buffer).buffer.len(),
                forall|a: int, b: int|
                    0 <= a < w && 0 <= b < j ==> #[trigger] block_averaged(
                        self,
                        arithmetic,
                        hdr_buffer@,
                        num_samples,
                        render_buffer.buffer@,
                        a,
                        b,
                    ),
            decreases h - j,
        {
            let mut i: u32 = 0;
            while i < w
                invariant
                    j < h,
                    i <= w,
                    render_buffer.buffer.len() == old(render_buffer).buffer.len(),
                    forall|a: int, b: int|
                        (0 <= a < w && 0 <= b < j) || (b == j && 0 <= a < i)
                            ==> #[trigger] block_averaged(
                            self,
                            arithmetic,
                            hdr_buffer@,
                            num_samples,
                            render_buffer.buffer@,
                            a,
                            b,
                        ),
                decreases w - i,
            {
                proof {
                    lemma_viewport_block(width, height, render_buffer.buffer.len() as int, i as int, j as int);
                }
                let index = (j as usize) * (w as usize) + (i as usize);
                let rgbs = hdr_buffer[index];
                let data = [
                    color_only(arithmetic.average(rgbs[0], num_samples)),
                    color_only(arithmetic.average(rgbs[1], num_samples)),
                    color_only(arithmetic.average(rgbs[2], num_samples)),
                    color_only(arithmetic.average(rgbs[3], num_samples)),
                    color_only(arithmetic.average(rgbs[4], num_samples)),
                    color_only(arithmetic.average(rgbs[5], num_samples)),
                    color_only(arithmetic.average(rgbs[6], num_samples)),
                    color_only(arithmetic.average(rgbs[7], num_samples)),
                ];
                let ghost before = render_buffer.buffer@;
                self.store_pixels_color_16x4(
                    arithmetic,
                    render_buffer.buffer.as_mut_slice(),
                    i * 16,
                    j * 4,
                    &data,
                );
                proof {
                    let after = render_buffer.buffer@;
                    assert(block_averaged_with(
                        self,
                        arithmetic,
                        hdr_buffer@,
                        num_samples,
                        after,
                        i as int,
                        j as int,
                        data@,
                    ));
                    assert forall|a: int, b: int|
                        (0 <= a < w && 0 <= b < j) || (b == j && 0 <= a < i)
                            implies #[trigger] block_averaged(
                        self,
                        arithmetic,
                        hdr_buffer@,
                        num_samples,
                        after,
                        a,
                        b,
                    ) by {
                        lemma_viewport_block(width, height, before.len() as int, a, b);
                        assert(block_averaged(
                            self,
                            arithmetic,
                            hdr_buffer@,
                            num_samples,
                            before,
                            a,
                            b,
                        ));
                        let earlier = choose|earlier: Seq<MPixelData>|
                            block_averaged_with(
                                self,
                                arithmetic,
                                hdr_buffer@,
                                num_samples,
                                before,
                                a,
                                b,
                                earlier,
                            );
                        lemma_colors_kept(
                            arithmetic,
                            before,
                            after,
                            width,
                            16 * a,
                            4 * b,
                            16 * i,
                            4 * j,
                            earlier,
                        );
                        assert(block_averaged_with(
                            self,
                            arithmetic,
                            hdr_buffer@,
                            num_samples,
                            after,
                            a,
                            b,
                            earlier,
                        ));
                    }
                }
                i += 1;
            }
            j += 1;
        }
    }
}

} // verus!
