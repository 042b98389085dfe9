//! Decisions of the render kernel: which pixels a hart casts, where their bytes
//! go, and the bit-level parts of its arithmetic.

use vstd::prelude::*;

use crate::abi::{PatchGeom, RenderArgs};
use crate::ff_kernel::{Crossing, EPS};
use crate::ieee::{is_nan, le, less, less_or_equal, lt, Vec3, INFINITY, ONE, ZERO};
use crate::render::{
    frame_rendered, front_hit, hit_of, law_pixels_distinct, nearest, nearest_hit, pixel_index, probe,
    probe_of, probed, rgb_at, weights, Camera, Hit, NearestHit, Ray, RayMath, Rgb8, NEAR,
};
use crate::scene::OccluderTriangle;
use crate::vertices::PatchVerts;

verus! {

// ---------------------------------------------------------------------------
// Pixel partition
// ---------------------------------------------------------------------------

/// The `k`-th pixel of a hart: harts take pixels in turn.
pub open spec fn strided(n_harts: int, hart: int, k: int) -> int {
    hart + k * n_harts
}

/// Three bytes to be written.
#[derive(Clone, Copy, Debug, PartialEq, Eq, Structural)]
pub struct PixelWrite {
    /// Device address of the first byte.
    pub address: u64,
    pub rgb: Rgb8,
}

/// Whether `w` writes the pixel at position `i`, `colour` telling which colours a
/// pixel may have.
pub open spec fn pixel_written(
    args: RenderArgs,
    colour: spec_fn(u32, u32, Rgb8) -> bool,
    i: int,
    w: PixelWrite,
) -> bool {
    &&& 0 <= i < args.width * args.height
    &&& w.address == args.pixels_addr + 3 * i
    &&& colour((i % args.width as int) as u32, (i / args.width as int) as u32, w.rgb)
}

/// Whether `writes` are all pixels of `hart`, in turn.
pub open spec fn share_written(
    args: RenderArgs,
    colour: spec_fn(u32, u32, Rgb8) -> bool,
    hart: int,
    writes: Seq<PixelWrite>,
) -> bool {
    &&& forall|k: int|
        0 <= k < writes.len() ==> pixel_written(
            args,
            colour,
            strided(args.n_harts as int, hart, k),
            #[trigger] writes[k],
        )
    &&& strided(args.n_harts as int, hart, writes.len() as int) >= args.width * args.height
}

/// Every pixel is written by exactly one of the launched harts, exactly once.
pub proof fn law_pixels_written_once(n_harts: u32, i: int)
    requires
        n_harts > 0,
        i >= 0,
    ensures
        exists|h: int, k: int|
            0 <= h < n_harts && 0 <= k && #[trigger] strided(n_harts as int, h, k) == i,
        forall|g: int, j: int, h: int, k: int|
            0 <= g < n_harts && 0 <= h < n_harts && #[trigger] strided(n_harts as int, g, j) == i
                && #[trigger] strided(n_harts as int, h, k) == i ==> g == h && j == k,
{
    let n = n_harts as int;
    vstd::arithmetic::div_mod::lemma_fundamental_div_mod(i, n);
    vstd::arithmetic::div_mod::lemma_mod_bound(i, n);
    let (q, m) = (i / n, i % n);
    assert(q >= 0) by (nonlinear_arith)
        requires
            i == n * q + m,
            i >= 0,
            0 <= m < n,
    ;
    assert(strided(n, m, q) == i) by {
        assert(q * n == n * q) by (nonlinear_arith);
    }
    assert forall|g: int, j: int, h: int, k: int|
        0 <= g < n_harts && 0 <= h < n_harts && #[trigger] strided(n_harts as int, g, j) == i
            && #[trigger] strided(n_harts as int, h, k) == i implies g == h && j == k by {
        assert(g == h && j == k) by (nonlinear_arith)
            requires
                0 <= g < n,
                0 <= h < n,
                g + j * n == h + k * n,
        ;
    }
}

proof fn lemma_share_complete(n_harts: u32, hart: u32, n_pixels: int, count: int, k: int)
    requires
        hart < n_harts,
        count >= 0,
        strided(n_harts as int, hart as int, count) >= n_pixels,
        0 <= k,
        strided(n_harts as int, hart as int, k) < n_pixels,
    ensures
        k < count,
{
    let (n, h) = (n_harts as int, hart as int);
    assert(k < count) by (nonlinear_arith)
        requires
            h + count * n >= n_pixels,
            h + k * n < n_pixels,
            n > 0,
    ;
}

/// The kernel casts a pixel at the place that the frame gives it.
pub proof fn law_pixel_position(width: u32, px: u32, py: u32)
    requires
        px < width,
    ensures
        pixel_index(width as int, px as int, py as int) % (width as int) == px,
        pixel_index(width as int, px as int, py as int) / (width as int) == py,
{
    let (w, x, y) = (width as int, px as int, py as int);
    let i = pixel_index(w, x, y);
    vstd::arithmetic::div_mod::lemma_fundamental_div_mod(i, w);
    vstd::arithmetic::div_mod::lemma_mod_bound(i, w);
    assert(i / w == y && i % w == x) by (nonlinear_arith)
        requires
            i == y * w + x,
            i == w * (i / w) + i % w,
            0 <= x < w,
            0 <= i % w < w,
    ;
}

/// What the launched harts write is, put together, the whole frame: the same that
/// rendering it row by row gives.
pub proof fn law_harts_make_frame(
    args: RenderArgs,
    colour: spec_fn(u32, u32, Rgb8) -> bool,
    writes: Seq<Seq<PixelWrite>>,
    frame: Seq<u8>,
)
    requires
        args.n_harts > 0,
        writes.len() == args.n_harts,
        forall|h: int|
            0 <= h < writes.len() ==> share_written(args, colour, h, #[trigger] writes[h]),
        frame.len() == 3 * (args.width * args.height),
        forall|h: int, k: int|
            0 <= h < writes.len() && 0 <= k < writes[h].len() ==> rgb_at(
                frame,
                #[trigger] strided(args.n_harts as int, h, k),
            ) == writes[h][k].rgb,
    ensures
        frame_rendered(colour, args.width, args.height, frame),
{
    let n = args.n_harts as int;
    assert forall|px: u32, py: u32| px < args.width && py < args.height implies colour(
        px,
        py,
        rgb_at(frame, #[trigger] pixel_index(args.width as int, px as int, py as int)),
    ) by {
        let i = pixel_index(args.width as int, px as int, py as int);
        law_pixels_distinct(args.width, args.height, px, py, px, py);
        law_pixel_position(args.width, px, py);
        law_pixels_written_once(args.n_harts, i);
        let (h, k) = choose|h: int, k: int|
            0 <= h < args.n_harts && 0 <= k && #[trigger] strided(n, h, k) == i;
        assert(share_written(args, colour, h, writes[h]));
        lemma_share_complete(
            args.n_harts,
            h as u32,
            args.width * args.height,
            writes[h].len() as int,
            k,
        );
        assert(pixel_written(args, colour, strided(n, h, k), writes[h][k]));
        assert(rgb_at(frame, strided(n, h, k)) == writes[h][k].rgb);
    }
}

// ---------------------------------------------------------------------------
// Camera
// ---------------------------------------------------------------------------

/// The camera buffer: eye, forward, right, up, field of view, aspect.
pub open spec fn camera_words(c: Camera, aspect: u32) -> Seq<u32> {
    seq![
        c.eye.x,
        c.eye.y,
        c.eye.z,
        c.forward.x,
        c.forward.y,
        c.forward.z,
        c.right.x,
        c.right.y,
        c.right.z,
        c.up.x,
        c.up.y,
        c.up.z,
        c.tan_half_fov,
        aspect,
    ]
}

/// Reads the camera buffer of an image of the given size, and the aspect beside
/// it.
pub fn read_camera(cam: &[u32], width: u32, height: u32) -> (r: (Camera, u32))
    requires
        cam@.len() == 14,
    ensures
        camera_words(r.0, r.1) == cam@,
        r.0.width == width,
        r.0.height == height,
{
    let camera = Camera {
        eye: Vec3 { x: cam[0], y: cam[1], z: cam[2] },
        forward: Vec3 { x: cam[3], y: cam[4], z: cam[5] },
        right: Vec3 { x: cam[6], y: cam[7], z: cam[8] },
        up: Vec3 { x: cam[9], y: cam[10], z: cam[11] },
        tan_half_fov: cam[12],
        width,
        height,
    };
    assert(camera_words(camera, cam@[13]) =~= cam@);
    (camera, cam[13])
}

/// The camera comes out of its buffer as it went in.
pub proof fn law_camera_round_trip(sent: Camera, aspect: u32, received: (Camera, u32))
    requires
        camera_words(received.0, received.1) == camera_words(sent, aspect),
        received.0.width == sent.width,
        received.0.height == sent.height,
    ensures
        received == (sent, aspect),
{
    let (a, b) = (camera_words(received.0, received.1), camera_words(sent, aspect));
    assert(a[0] == b[0] && a[1] == b[1] && a[2] == b[2] && a[3] == b[3] && a[4] == b[4]);
    assert(a[5] == b[5] && a[6] == b[6] && a[7] == b[7] && a[8] == b[8] && a[9] == b[9]);
    assert(a[10] == b[10] && a[11] == b[11] && a[12] == b[12] && a[13] == b[13]);
}

// ---------------------------------------------------------------------------
// Ray cast
// ---------------------------------------------------------------------------

/// The hit of a ray on the front of a triangle.
pub fn moller_trumbore(c: &Crossing) -> (r: Option<Hit>)
    ensures
        r == front_hit(*c),
{
    // Behind, or nearly parallel.
    if less(c.det, EPS) {
        return None;
    }
    if less(c.u, ZERO) || less(ONE, c.u) {
        return None;
    }
    if less(c.v, ZERO) || less(ONE, c.uv) {
        return None;
    }
    // Closer hits would be the surface that the ray leaves.
    if less(NEAR, c.t) {
        Some(Hit { t: c.t, u: c.u, v: c.v })
    } else {
        None
    }
}

/// Vertex indices of a patch as they lie in device memory.
#[derive(Clone, Copy, Debug, PartialEq, Eq, Structural)]
pub struct VertexTriple {
    pub vi0: u32,
    pub vi1: u32,
    pub vi2: u32,
}

/// The indices of a triple, at full width.
pub open spec fn widened(t: VertexTriple) -> PatchVerts {
    PatchVerts { vi0: t.vi0 as usize, vi1: t.vi1 as usize, vi2: t.vi2 as usize }
}

/// The words of an array of vertex triples.
pub open spec fn triple_array_words(triples: Seq<VertexTriple>) -> Seq<u32> {
    Seq::new(
        triples.len() * 3,
        |k: int|
            if k % 3 == 0 {
                triples[k / 3].vi0
            } else if k % 3 == 1 {
                triples[k / 3].vi1
            } else {
                triples[k / 3].vi2
            },
    )
}

/// Reads vertex triples from their words.
pub fn read_triples(words: &[u32]) -> (r: Vec<VertexTriple>)
    requires
        words@.len() % 3 == 0,
    ensures
        triple_array_words(r@) == words@,
{
    let len: usize = words.len();
    let n: usize = len / 3;
    let mut out: Vec<VertexTriple> = Vec::new();
    let mut i: usize = 0;
    while i < n
        invariant
            i <= n,
            len == words@.len(),
            len == 3 * n,
            out@.len() == i,
            triple_array_words(out@) =~= words@.take(3 * i as int),
        decreases n - i,
    {
        let k: usize = 3 * i;
        let t = VertexTriple { vi0: words[k], vi1: words[k + 1], vi2: words[k + 2] };
        let ghost before = out@;
        out.push(t);
        proof {
            let longer = triple_array_words(out@);
            assert forall|j: int| 0 <= j < longer.len() implies longer[j] == words@[j] by {
                if j < 3 * i {
                    assert(out@[j / 3] == before[j / 3]);
                    assert(triple_array_words(before)[j] == words@.take(3 * i as int)[j]);
                } else {
                    assert(j / 3 == i);
                }
            }
        }
        i += 1;
    }
    assert(words@.take(len as int) =~= words@);
    out
}

/// The kernel reads the vertex triples that the host wrote.
pub proof fn law_triples_read_back(sent: Seq<VertexTriple>, received: Seq<VertexTriple>)
    requires
        triple_array_words(received) == triple_array_words(sent),
    ensures
        received == sent,
{
    let (a, b) = (triple_array_words(received), triple_array_words(sent));
    assert(a.len() == b.len());
    assert forall|i: int| 0 <= i < sent.len() implies received[i] == sent[i] by {
        assert(a[3 * i] == b[3 * i] && a[3 * i + 1] == b[3 * i + 1] && a[3 * i + 2] == b[3 * i
            + 2]);
        assert((3 * i + 1) / 3 == i && (3 * i + 2) / 3 == i);
    }
    assert(received =~= sent);
}

/// Black.
pub open spec fn black() -> Rgb8 {
    Rgb8 { r: 0, g: 0, b: 0 }
}

/// Whether all vertices of the patches are in the vertex list.
pub open spec fn triples_known(patch_vi: Seq<VertexTriple>, n_verts: int) -> bool {
    forall|i: int|
        0 <= i < patch_vi.len() ==> {
            let t = #[trigger] patch_vi[i];
            t.vi0 < n_verts && t.vi1 < n_verts && t.vi2 < n_verts
        }
}

impl<Y, X, R, B, T> RayMath<Y, X, R, B, T> where
    Y: Fn(Camera, u32, u32, u32) -> Ray,
    X: Fn(Ray, OccluderTriangle) -> Crossing,
    R: Fn(u32, u32) -> u32,
    B: Fn(Vec3, Vec3, Vec3, Vec3) -> Vec3,
    T: Fn(Vec3, u32) -> Rgb8,
 {
    /// Whether `out` is the colour at the nearest hit of a ray, or black on a miss.
    pub open spec fn hit_cast(
        self,
        hit: Option<NearestHit>,
        patch_vi: Seq<VertexTriple>,
        vert_rad: Seq<Vec3>,
        white: u32,
        out: Rgb8,
    ) -> bool {
        match hit {
            Some(n) => self.hit_colour(
                n,
                widened(patch_vi[n.patch as int]),
                vert_rad,
                white,
                out,
            ),
            None => out == black(),
        }
    }

    /// Whether `out` is the colour of a ray in the kernel.
    pub open spec fn cast(
        self,
        ray: Ray,
        geom: Seq<PatchGeom>,
        patch_vi: Seq<VertexTriple>,
        vert_rad: Seq<Vec3>,
        white: u32,
        out: Rgb8,
    ) -> bool {
        exists|hit: Option<NearestHit>| #[trigger]
            self.nearest_along(true, ray, geom, hit) && self.hit_cast(
                hit,
                patch_vi,
                vert_rad,
                white,
                out,
            )
    }

    /// Whether `out` is the colour of a pixel in the kernel.
    pub open spec fn pixel_cast(
        self,
        camera: Camera,
        aspect: u32,
        px: u32,
        py: u32,
        geom: Seq<PatchGeom>,
        patch_vi: Seq<VertexTriple>,
        vert_rad: Seq<Vec3>,
        white: u32,
        out: Rgb8,
    ) -> bool {
        exists|ray: Ray| #[trigger]
            self.ray.ensures((camera, aspect, px, py), ray) && self.cast(
                ray,
                geom,
                patch_vi,
                vert_rad,
                white,
                out,
            )
    }

    /// Which colours a pixel may have in the kernel.
    pub open spec fn casts(
        self,
        camera: Camera,
        aspect: u32,
        geom: Seq<PatchGeom>,
        patch_vi: Seq<VertexTriple>,
        vert_rad: Seq<Vec3>,
        white: u32,
    ) -> spec_fn(u32, u32, Rgb8) -> bool {
        |px: u32, py: u32, c: Rgb8|
            self.pixel_cast(camera, aspect, px, py, geom, patch_vi, vert_rad, white, c)
    }

    /// The colour of a ray in the kernel; black for rays that miss all geometry.
    pub fn cast_ray(
        &self,
        ray: Ray,
        geom: &[PatchGeom],
        patch_vi: &[VertexTriple],
        vert_rad: &[Vec3],
        white: u32,
    ) -> (r: Rgb8)
        requires
            self.total(),
            geom@.len() == patch_vi@.len(),
            triples_known(patch_vi@, vert_rad@.len() as int),
        ensures
            self.cast(ray, geom@, patch_vi@, vert_rad@, white, r),
    {
        let meet = |t: OccluderTriangle| -> (h: Option<Hit>)
            ensures
                self.meets(true, ray, t, h),
            {
                let c: Crossing = (self.cross)(ray, t);
                moller_trumbore(&c)
            };
        let hit = nearest_hit(geom, meet);
        proof {
            let answers = choose|answers: Seq<Option<Hit>>| #[trigger]
                probed(meet, geom@, answers) && nearest(answers, hit);
            assert(self.crossed(true, ray, geom@, answers));
            assert(self.nearest_along(true, ray, geom@, hit));
        }
        match hit {
            Some(n) => {
                let t: VertexTriple = patch_vi[n.patch];
                let verts = PatchVerts {
                    vi0: t.vi0 as usize,
                    vi1: t.vi1 as usize,
                    vi2: t.vi2 as usize,
                };
                let radiosity = self.interpolate(n, verts, vert_rad);
                let out: Rgb8 = (self.tone)(radiosity, white);
                assert(verts == widened(patch_vi@[n.patch as int]));
                assert(self.hit_cast(hit, patch_vi@, vert_rad@, white, out));
                out
            },
            None => Rgb8 { r: 0, g: 0, b: 0 },
        }
    }

    /// The colour of a pixel in the kernel.
    pub fn cast_pixel(
        &self,
        camera: &Camera,
        aspect: u32,
        px: u32,
        py: u32,
        geom: &[PatchGeom],
        patch_vi: &[VertexTriple],
        vert_rad: &[Vec3],
        white: u32,
    ) -> (r: Rgb8)
        requires
            self.total(),
            geom@.len() == patch_vi@.len(),
            triples_known(patch_vi@, vert_rad@.len() as int),
        ensures
            self.pixel_cast(*camera, aspect, px, py, geom@, patch_vi@, vert_rad@, white, r),
    {
        let ray: Ray = (self.ray)(*camera, aspect, px, py);
        self.cast_ray(ray, geom, patch_vi, vert_rad, white)
    }

    /// A patch that is missed, or hit no nearer than the others, leaves the colour of
    /// a ray as it was.
    pub proof fn law_farther_patch_leaves_colour(
        self,
        ray: Ray,
        geom: Seq<PatchGeom>,
        g: PatchGeom,
        patch_vi: Seq<VertexTriple>,
        vi: VertexTriple,
        vert_rad: Seq<Vec3>,
        white: u32,
        out: Rgb8,
    )
        requires
            patch_vi.len() == geom.len(),
            self.hidden(true, ray, geom, g),
        ensures
            self.cast(ray, geom.push(g), patch_vi.push(vi), vert_rad, white, out) <==> self.cast(
                ray,
                geom,
                patch_vi,
                vert_rad,
                white,
                out,
            ),
    {
        let (more, more_vi) = (geom.push(g), patch_vi.push(vi));
        assert forall|hit: Option<NearestHit>|
            self.nearest_along(true, ray, geom, hit) implies #[trigger] self.hit_cast(
            hit,
            more_vi,
            vert_rad,
            white,
            out,
        ) == self.hit_cast(hit, patch_vi, vert_rad, white, out) by {
            assert(hit matches Some(h) ==> h.patch < geom.len());
        }
        if self.cast(ray, more, more_vi, vert_rad, white, out) {
            let hit = choose|hit: Option<NearestHit>| #[trigger]
                self.nearest_along(true, ray, more, hit) && self.hit_cast(
                    hit,
                    more_vi,
                    vert_rad,
                    white,
                    out,
                );
            self.law_farther_patch_leaves_hit(true, ray, geom, g, hit);
        }
        if self.cast(ray, geom, patch_vi, vert_rad, white, out) {
            let hit = choose|hit: Option<NearestHit>| #[trigger]
                self.nearest_along(true, ray, geom, hit) && self.hit_cast(
                    hit,
                    patch_vi,
                    vert_rad,
                    white,
                    out,
                );
            self.law_farther_patch_leaves_hit(true, ray, geom, g, hit);
            assert(self.hit_cast(hit, more_vi, vert_rad, white, out));
        }
    }
}

// ---------------------------------------------------------------------------
// Kernel entry point
// ---------------------------------------------------------------------------

/// The pixels that `hart` writes, each cast against the uploaded geometry. A hart
/// beyond the launched count writes nothing.
pub fn entry_point<Y, X, R, B, T>(
    args: &RenderArgs,
    hart: u32,
    camera: &Camera,
    aspect: u32,
    geom: &[PatchGeom],
    patch_vi: &[VertexTriple],
    vert_rad: &[Vec3],
    math: &RayMath<Y, X, R, B, T>,
) -> (r: Option<Vec<PixelWrite>>) where
    Y: Fn(Camera, u32, u32, u32) -> Ray,
    X: Fn(Ray, OccluderTriangle) -> Crossing,
    R: Fn(u32, u32) -> u32,
    B: Fn(Vec3, Vec3, Vec3, Vec3) -> Vec3,
    T: Fn(Vec3, u32) -> Rgb8,

    requires
        math.total(),
        geom@.len() == args.n_patches,
        patch_vi@.len() == args.n_patches,
        vert_rad@.len() == args.n_verts,
        triples_known(patch_vi@, args.n_verts as int),
        args.pixels_addr + 3 * (args.width * args.height) <= u64::MAX,
    ensures
        r is None <==> hart >= args.n_harts,
        r matches Some(writes) ==> share_written(
            *args,
            math.casts(*camera, aspect, geom@, patch_vi@, vert_rad@, args.white),
            hart as int,
            writes@,
        ),
{
    if hart >= args.n_harts {
        return None;
    }
    let ghost colour = math.casts(*camera, aspect, geom@, patch_vi@, vert_rad@, args.white);
    let width: u64 = args.width as u64;
    let height: u64 = args.height as u64;
    let n_harts: u64 = args.n_harts as u64;
    proof {
        assert(0 <= width * height <= 0xFFFF_FFFE_0000_0001) by (nonlinear_arith)
            requires
                0 <= width <= 0xFFFF_FFFF,
                0 <= height <= 0xFFFF_FFFF,
        ;
    }
    let n_pixels: u64 = width * height;
    let mut writes: Vec<PixelWrite> = Vec::new();
    let mut i: u64 = hart as u64;
    proof {
        assert(0 * n_harts == 0) by (nonlinear_arith);
    }
    while i < n_pixels
        invariant
            width == args.width,
            height == args.height,
            n_harts == args.n_harts,
            hart < n_harts <= 0xFFFF_FFFF,
            n_pixels == width * height,
            n_pixels <= 0xFFFF_FFFE_0000_0001,
            math.total(),
            geom@.len() == patch_vi@.len(),
            triples_known(patch_vi@, vert_rad@.len() as int),
            colour == math.casts(*camera, aspect, geom@, patch_vi@, vert_rad@, args.white),
            args.pixels_addr + 3 * (args.width * args.height) <= u64::MAX,
            i == strided(n_harts as int, hart as int, writes@.len() as int),
            forall|k: int|
                0 <= k < writes@.len() ==> pixel_written(
                    *args,
                    colour,
                    strided(n_harts as int, hart as int, k),
                    #[trigger] writes@[k],
                ),
        decreases n_pixels + n_harts - i,
    {
        proof {
            let (a, w, h) = (i as int, width as int, height as int);
            assert(w > 0) by (nonlinear_arith)
                requires
                    0 <= a < w * h,
                    w >= 0,
            ;
            vstd::arithmetic::div_mod::lemma_fundamental_div_mod(a, w);
            vstd::arithmetic::div_mod::lemma_mod_bound(a, w);
            assert(0 <= a / w < h) by (nonlinear_arith)
                requires
                    a == w * (a / w) + a % w,
                    0 <= a % w < w,
                    0 <= a < w * h,
            ;
        }
        let py: u32 = (i / width) as u32;
        let px: u32 = (i % width) as u32;
        let rgb: Rgb8 = math.cast_pixel(
            camera,
            aspect,
            px,
            py,
            geom,
            patch_vi,
            vert_rad,
            args.white,
        );
        assert(colour(px, py, rgb));
        let address: u64 = args.pixels_addr + i * 3;
        let ghost before = writes@;
        writes.push(PixelWrite { address, rgb });
        proof {
            let k = before.len() as int;
            assert((k + 1) * n_harts == k * n_harts + n_harts) by (nonlinear_arith);
            assert(pixel_written(*args, colour, i as int, writes@[k]));
        }
        i += n_harts;
    }
    Some(writes)
}

// ---------------------------------------------------------------------------
// Gamma
// ---------------------------------------------------------------------------

/// The pattern of one, moved by 4545/10000 of the distance from it to `x`.
pub open spec fn gamma_scaled(x: u32) -> int {
    if x <= ONE {
        ONE - (ONE - x) * 4545 / 10000
    } else {
        ONE + (x - ONE) * 4545 / 10000
    }
}

/// The approximation of `x^(1/2.2)`.
pub open spec fn gamma22(x: u32) -> int {
    if le(x, ZERO) {
        ZERO as int
    } else if le(ONE, x) {
        ONE as int
    } else {
        gamma_scaled(x)
    }
}

/// Approximates `x^(1/2.2)` for `x` in [0, 1]. The logarithm of a positive number
/// is nearly linear in its pattern, so scaling the distance between the pattern
/// and that of one by 1/2.2 takes the root.
///
/// A pattern is linear in the logarithm only at the powers of two, so the root is
/// off in between: by up to 7 percent above and 3 percent below, as
/// `gamma::law_gamma_error` states for every normal number. An error of half a
/// percent is out of reach of the formula. Below the normal numbers the pattern is
/// no logarithm at all, and the result is only known not to be below `x`.
pub fn pow22(x: u32) -> (r: u32)
    ensures
        r == gamma22(x),
{
    if less_or_equal(x, ZERO) {
        return ZERO;
    }
    if less_or_equal(ONE, x) {
        return ONE;
    }
    if x <= ONE {
        ONE - ((ONE - x) as u64 * 4545 / 10000) as u32
    } else {
        ONE + ((x - ONE) as u64 * 4545 / 10000) as u32
    }
}

/// The gamma curve maps every number into [0, 1], and keeps both ends.
pub proof fn law_gamma_range(x: u32)
    requires
        !is_nan(x),
    ensures
        ZERO <= gamma22(x) <= ONE,
        gamma22(ZERO) == ZERO,
        gamma22(ONE) == ONE,
{
}

/// The gamma curve never decreases.
pub proof fn law_gamma_monotone(x: u32, y: u32)
    requires
        le(x, y),
    ensures
        gamma22(x) <= gamma22(y),
{
}

/// The gamma curve brightens: between the ends it is above the diagonal.
pub proof fn law_gamma_brightens(x: u32)
    requires
        lt(ZERO, x),
        lt(x, ONE),
    ensures
        x <= gamma22(x) <= ONE,
{
}

// ---------------------------------------------------------------------------
// What the calls come to
// ---------------------------------------------------------------------------

/// A call of `moller_trumbore` on a crossing of the front of a triangle, between the
/// edges and ahead, returns exactly its distance and weights; on a back face or a
/// parallel triangle, beyond an edge or not ahead it returns nothing.
pub proof fn law_call_hits_front(c: Crossing, r: Option<Hit>)
    requires
        call_ensures(moller_trumbore, (&c,), r),
    ensures
        le(EPS, c.det) && le(ZERO, c.u) && le(ZERO, c.v) && le(c.u, c.uv) && le(c.uv, ONE) && lt(
            NEAR,
            c.t,
        ) ==> r == Some(Hit { t: c.t, u: c.u, v: c.v }),
        lt(c.det, EPS) || lt(c.u, ZERO) || lt(c.v, ZERO) || lt(ONE, c.u) || lt(ONE, c.uv) || !lt(
            NEAR,
            c.t,
        ) <==> r is None,
        r is Some ==> r == Some(Hit { t: c.t, u: c.u, v: c.v }),
{
}

/// Two calls of `moller_trumbore` that differ in the determinant alone, which is at
/// least `1.0e-7` in both, return the same.
pub proof fn law_calls_ignore_size(c: Crossing, d: Crossing, r: Option<Hit>, s: Option<Hit>)
    requires
        call_ensures(moller_trumbore, (&c,), r),
        call_ensures(moller_trumbore, (&d,), s),
        le(EPS, c.det),
        le(EPS, d.det),
        c.u == d.u,
        c.v == d.v,
        c.uv == d.uv,
        c.t == d.t,
    ensures
        r == s,
{
}

/// A call of `read_camera` takes the four vectors, the field of view and the aspect
/// from the buffer in that order.
pub proof fn law_call_reads_camera(cam: &[u32], width: u32, height: u32, r: (Camera, u32))
    requires
        call_ensures(read_camera, (cam, width, height), r),
        cam@.len() == 14,
    ensures
        r.0.eye == (Vec3 { x: cam@[0], y: cam@[1], z: cam@[2] }),
        r.0.forward == (Vec3 { x: cam@[3], y: cam@[4], z: cam@[5] }),
        r.0.right == (Vec3 { x: cam@[6], y: cam@[7], z: cam@[8] }),
        r.0.up == (Vec3 { x: cam@[9], y: cam@[10], z: cam@[11] }),
        r.0.tan_half_fov == cam@[12],
        r.1 == cam@[13],
        r.0.width == width,
        r.0.height == height,
{
    let w = camera_words(r.0, r.1);
    assert(w[0] == cam@[0] && w[1] == cam@[1] && w[2] == cam@[2] && w[3] == cam@[3]);
    assert(w[4] == cam@[4] && w[5] == cam@[5] && w[6] == cam@[6] && w[7] == cam@[7]);
    assert(w[8] == cam@[8] && w[9] == cam@[9] && w[10] == cam@[10] && w[11] == cam@[11]);
    assert(w[12] == cam@[12] && w[13] == cam@[13]);
}

/// A call of `read_triples` takes the three vertices of patch `i` from the words at
/// `3 i`.
pub proof fn law_call_reads_triples(words: &[u32], r: Vec<VertexTriple>, i: int)
    requires
        call_ensures(read_triples, (words,), r),
        0 <= i,
        3 * i + 3 <= words@.len(),
    ensures
        3 * r@.len() == words@.len(),
        r@[i].vi0 == words@[3 * i],
        r@[i].vi1 == words@[3 * i + 1],
        r@[i].vi2 == words@[3 * i + 2],
{
    let w = triple_array_words(r@);
    assert(w[3 * i] == words@[3 * i]);
    assert(w[3 * i + 1] == words@[3 * i + 1]);
    assert(w[3 * i + 2] == words@[3 * i + 2]);
}

/// A call of `pow22` moves the pattern of a positive number below one towards that
/// of one, so that 0.4545 of the distance is left.
pub proof fn law_call_gamma(x: u32, r: u32)
    requires
        call_ensures(pow22, (x,), r),
    ensures
        lt(ZERO, x) && lt(x, ONE) ==> 10000 * (ONE - r) <= 4545 * (ONE - x) < 10000 * (ONE - r)
            + 10000,
        le(x, ZERO) ==> r == ZERO,
        le(ONE, x) ==> r == ONE,
{
}

impl<Y, X, R, B, T> RayMath<Y, X, R, B, T> where
    Y: Fn(Camera, u32, u32, u32) -> Ray,
    X: Fn(Ray, OccluderTriangle) -> Crossing,
    R: Fn(u32, u32) -> u32,
    B: Fn(Vec3, Vec3, Vec3, Vec3) -> Vec3,
    T: Fn(Vec3, u32) -> Rgb8,
 {
    /// Where every crossing of a ray is a miss, a call of `cast_ray` returns black.
    pub proof fn law_call_casts_misses(
        self,
        ray: Ray,
        geom: &[PatchGeom],
        patch_vi: &[VertexTriple],
        vert_rad: &[Vec3],
        white: u32,
        r: Rgb8,
    )
        requires
            call_ensures(Self::cast_ray, (&self, ray, geom, patch_vi, vert_rad, white), r),
            forall|t: OccluderTriangle, c: Crossing| #[trigger]
                self.cross.ensures((ray, t), c) ==> lt(c.det, EPS) || lt(c.u, ZERO) || lt(c.v, ZERO)
                    || lt(ONE, c.uv) || !lt(NEAR, c.t),
        ensures
            r.r == 0,
            r.g == 0,
            r.b == 0,
    {
        let hit = choose|hit: Option<NearestHit>| #[trigger]
            self.nearest_along(true, ray, geom@, hit) && self.hit_cast(
                hit,
                patch_vi@,
                vert_rad@,
                white,
                r,
            );
        let answers = choose|answers: Seq<Option<Hit>>| #[trigger]
            self.crossed(true, ray, geom@, answers) && nearest(answers, hit);
        if let Some(n) = hit {
            assert(self.meets(true, ray, probe(geom@, probe_of(n)), answers[probe_of(n)]));
        }
    }

    /// Where the front of a patch, in either order of its corners, is crossed between
    /// its edges and ahead at a finite distance, a call of `cast_ray` returns the
    /// colour of a radiosity that is interpolated at a hit no farther than that
    /// crossing, on the patch that is hit and between the vertices of that patch.
    pub proof fn law_call_casts_nearest(
        self,
        ray: Ray,
        geom: &[PatchGeom],
        patch_vi: &[VertexTriple],
        vert_rad: &[Vec3],
        white: u32,
        r: Rgb8,
        p: int,
        t: OccluderTriangle,
        c: Crossing,
    )
        requires
            call_ensures(Self::cast_ray, (&self, ray, geom, patch_vi, vert_rad, white), r),
            forall|d: Crossing| #[trigger] self.cross.ensures((ray, t), d) ==> d == c,
            0 <= p < geom@.len(),
            t == (OccluderTriangle { v0: geom@[p].v0, v1: geom@[p].v1, v2: geom@[p].v2 }) || t == (
            OccluderTriangle { v0: geom@[p].v2, v1: geom@[p].v1, v2: geom@[p].v0 }),
            le(EPS, c.det),
            le(ZERO, c.u),
            le(ZERO, c.v),
            le(c.u, c.uv),
            le(c.uv, ONE),
            lt(NEAR, c.t),
            lt(c.t, INFINITY),
        ensures
            exists|n: NearestHit, d: Crossing, left: u32, radiosity: Vec3|
                #![trigger self.cross.ensures((ray, probe(geom@, probe_of(n))), d), self.rest.ensures((n.hit.u, n.hit.v), left), self.tone.ensures((radiosity, white), r)]
                {
                    &&& n.patch < geom@.len()
                    &&& !lt(c.t, n.hit.t)
                    &&& n.hit == (Hit { t: d.t, u: d.u, v: d.v })
                    &&& self.rest.ensures((n.hit.u, n.hit.v), left)
                    &&& self.tone.ensures((radiosity, white), r)
                    &&& !n.flipped ==> self.cross.ensures(
                        (
                            ray,
                            OccluderTriangle {
                                v0: geom@[n.patch as int].v0,
                                v1: geom@[n.patch as int].v1,
                                v2: geom@[n.patch as int].v2,
                            },
                        ),
                        d,
                    ) && self.blend.ensures(
                        (
                            Vec3 { x: left, y: d.u, z: d.v },
                            vert_rad@[patch_vi@[n.patch as int].vi0 as int],
                            vert_rad@[patch_vi@[n.patch as int].vi1 as int],
                            vert_rad@[patch_vi@[n.patch as int].vi2 as int],
                        ),
                        radiosity,
                    )
                    &&& n.flipped ==> self.cross.ensures(
                        (
                            ray,
                            OccluderTriangle {
                                v0: geom@[n.patch as int].v2,
                                v1: geom@[n.patch as int].v1,
                                v2: geom@[n.patch as int].v0,
                            },
                        ),
                        d,
                    ) && self.blend.ensures(
                        (
                            Vec3 { x: d.v, y: d.u, z: left },
                            vert_rad@[patch_vi@[n.patch as int].vi0 as int],
                            vert_rad@[patch_vi@[n.patch as int].vi1 as int],
                            vert_rad@[patch_vi@[n.patch as int].vi2 as int],
                        ),
                        radiosity,
                    )
                },
    {
        let hit = choose|hit: Option<NearestHit>| #[trigger]
            self.nearest_along(true, ray, geom@, hit) && self.hit_cast(
                hit,
                patch_vi@,
                vert_rad@,
                white,
                r,
            );
        let answers = choose|answers: Seq<Option<Hit>>| #[trigger]
            self.crossed(true, ray, geom@, answers) && nearest(answers, hit);
        let k = if t == (OccluderTriangle { v0: geom@[p].v0, v1: geom@[p].v1, v2: geom@[p].v2 }) {
            2 * p
        } else {
            2 * p + 1
        };
        assert(probe(geom@, k) == t);
        assert(self.meets(true, ray, probe(geom@, k), answers[k]));
        assert(answers[k] == Some(Hit { t: c.t, u: c.u, v: c.v }));
        let n = hit->0;
        let verts = widened(patch_vi@[n.patch as int]);
        let radiosity = choose|radiosity: Vec3| #[trigger]
            self.gouraud(n, verts, vert_rad@, radiosity) && self.tone.ensures(
                (radiosity, white),
                r,
            );
        let left = choose|w: u32| #[trigger]
            self.rest.ensures((n.hit.u, n.hit.v), w) && self.blend.ensures(
                (
                    weights(n, w),
                    vert_rad@[verts.vi0 as int],
                    vert_rad@[verts.vi1 as int],
                    vert_rad@[verts.vi2 as int],
                ),
                radiosity,
            );
        assert(self.meets(true, ray, probe(geom@, probe_of(n)), answers[probe_of(n)]));
        let d = choose|d: Crossing| #[trigger]
            self.cross.ensures((ray, probe(geom@, probe_of(n))), d) && answers[probe_of(n)]
                == hit_of(true, d);
        assert(self.cross.ensures((ray, probe(geom@, probe_of(n))), d));
    }

    /// A call of `cast_pixel` returns a colour of the camera's ray through that pixel.
    pub proof fn law_call_casts_its_pixel(
        self,
        camera: Camera,
        aspect: u32,
        px: u32,
        py: u32,
        geom: &[PatchGeom],
        patch_vi: &[VertexTriple],
        vert_rad: &[Vec3],
        white: u32,
        r: Rgb8,
        ray: Ray,
    )
        requires
            call_ensures(
                Self::cast_pixel,
                (&self, &camera, aspect, px, py, geom, patch_vi, vert_rad, white),
                r,
            ),
            forall|s: Ray| #[trigger] self.ray.ensures((camera, aspect, px, py), s) ==> s == ray,
        ensures
            self.cast(ray, geom@, patch_vi@, vert_rad@, white, r),
    {
    }
}

/// A call of the kernel's entry point on a hart of the launch writes every pixel
/// whose position leaves the hart's number as remainder, at the device address of its
/// three bytes, with a colour of the camera's ray through it; a hart beyond the
/// launch writes nothing.
pub proof fn law_call_writes_pixels<Y, X, R, B, T>(
    args: RenderArgs,
    hart: u32,
    camera: Camera,
    aspect: u32,
    geom: &[PatchGeom],
    patch_vi: &[VertexTriple],
    vert_rad: &[Vec3],
    math: RayMath<Y, X, R, B, T>,
    r: Option<Vec<PixelWrite>>,
    px: u32,
    py: u32,
    ray: Ray,
) where
    Y: Fn(Camera, u32, u32, u32) -> Ray,
    X: Fn(Ray, OccluderTriangle) -> Crossing,
    R: Fn(u32, u32) -> u32,
    B: Fn(Vec3, Vec3, Vec3, Vec3) -> Vec3,
    T: Fn(Vec3, u32) -> Rgb8,

    requires
        call_ensures(
            entry_point::<Y, X, R, B, T>,
            (&args, hart, &camera, aspect, geom, patch_vi, vert_rad, &math),
            r,
        ),
        px < args.width,
        py < args.height,
        hart < args.n_harts ==> (py * args.width + px) % (args.n_harts as int) == hart,
        forall|s: Ray| #[trigger] math.ray.ensures((camera, aspect, px, py), s) ==> s == ray,
    ensures
        hart >= args.n_harts <==> r is None,
        r matches Some(writes) ==> {
            let i = py * args.width + px;
            let k = i / (args.n_harts as int);
            &&& 0 <= k < writes@.len()
            &&& writes@[k].address == args.pixels_addr + 3 * i
            &&& math.cast(ray, geom@, patch_vi@, vert_rad@, args.white, writes@[k].rgb)
        },
{
    if let Some(writes) = r {
        let (n, w) = (args.n_harts as int, args.width as int);
        let i = py * w + px;
        let k = i / n;
        law_pixels_distinct(args.width, args.height, px, py, px, py);
        law_pixel_position(args.width, px, py);
        vstd::arithmetic::div_mod::lemma_fundamental_div_mod(i, n);
        assert(k * n == n * k) by (nonlinear_arith);
        assert(strided(n, hart as int, k) == i);
        assert(k >= 0) by (nonlinear_arith)
            requires
                k == i / n,
                i >= 0,
                n > 0,
        ;
        if k >= writes@.len() {
            let len = writes@.len() as int;
            assert(len * n <= k * n) by (nonlinear_arith)
                requires
                    len <= k,
                    n > 0,
            ;
        }
        let colour = math.casts(camera, aspect, geom@, patch_vi@, vert_rad@, args.white);
        assert(pixel_written(args, colour, i, writes@[k]));
    }
}

/// A call of the kernel's entry point writes no pixel but those of the hart: its
/// `k`-th write is that of the pixel `k` strides behind the first, inside the image.
pub proof fn law_call_writes_own_pixels<Y, X, R, B, T>(
    args: RenderArgs,
    hart: u32,
    camera: Camera,
    aspect: u32,
    geom: &[PatchGeom],
    patch_vi: &[VertexTriple],
    vert_rad: &[Vec3],
    math: RayMath<Y, X, R, B, T>,
    writes: Vec<PixelWrite>,
    k: int,
) where
    Y: Fn(Camera, u32, u32, u32) -> Ray,
    X: Fn(Ray, OccluderTriangle) -> Crossing,
    R: Fn(u32, u32) -> u32,
    B: Fn(Vec3, Vec3, Vec3, Vec3) -> Vec3,
    T: Fn(Vec3, u32) -> Rgb8,

    requires
        call_ensures(
            entry_point::<Y, X, R, B, T>,
            (&args, hart, &camera, aspect, geom, patch_vi, vert_rad, &math),
            Some(writes),
        ),
        0 <= k < writes@.len(),
    ensures
        hart + k * args.n_harts < args.width * args.height,
        writes@[k].address == args.pixels_addr + 3 * (hart + k * args.n_harts),
{
    let colour = math.casts(camera, aspect, geom@, patch_vi@, vert_rad@, args.white);
    assert(pixel_written(args, colour, strided(args.n_harts as int, hart as int, k), writes@[k]));
}

} // verus!
