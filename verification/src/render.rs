//! Ray casting: nearest hit, Gouraud interpolation, white point and frame
//! layout.

use vstd::prelude::*;

use crate::abi::PatchGeom;
use crate::ff_kernel::{meets_front, Crossing};
use crate::ieee::{
    abs, is_nan, le, less, less_or_equal, lt, magnitude, rank, zero3, Vec3, INFINITY, ONE, ZERO,
};
use crate::scene::{OccluderTriangle, ScenePatch};
use crate::vertices::{vertices_known, PatchVerts};

verus! {

/// `1.0e-7`: below it a ray counts as parallel to a triangle.
pub const PARALLEL: u32 = 0x33D6_BF95;

/// `1.0e-4`: hits closer than this are ignored.
pub const NEAR: u32 = 0x38D1_B717;

/// `0.5`.
pub const HALF: u32 = 0x3F00_0000;

/// `-1.4`.
pub const EYE_DEPTH: u32 = 0xBFB3_3333;

// ---------------------------------------------------------------------------
// Camera
// ---------------------------------------------------------------------------

/// A rectilinear camera.
#[derive(Clone, Copy, Debug, PartialEq, Eq, Structural)]
pub struct Camera {
    pub eye: Vec3,
    pub forward: Vec3,
    pub right: Vec3,
    pub up: Vec3,
    pub tan_half_fov: u32,
    pub width: u32,
    pub height: u32,
}

/// The camera of the Cornell box: in front of it at mid-height, looking along +Z.
pub open spec fn cornell_camera(width: u32, height: u32, tan_half_fov: u32) -> Camera {
    Camera {
        eye: Vec3 { x: HALF, y: HALF, z: EYE_DEPTH },
        forward: Vec3 { x: ZERO, y: ZERO, z: ONE },
        right: Vec3 { x: ONE, y: ZERO, z: ZERO },
        up: Vec3 { x: ZERO, y: ONE, z: ZERO },
        tan_half_fov,
        width,
        height,
    }
}

impl Camera {
    /// The camera of the Cornell box.
    pub fn cornell_default(width: u32, height: u32, tan_half_fov: u32) -> (r: Camera)
        ensures
            r == cornell_camera(width, height, tan_half_fov),
    {
        Camera {
            eye: Vec3 { x: HALF, y: HALF, z: EYE_DEPTH },
            forward: Vec3 { x: ZERO, y: ZERO, z: ONE },
            right: Vec3 { x: ONE, y: ZERO, z: ZERO },
            up: Vec3 { x: ZERO, y: ONE, z: ZERO },
            tan_half_fov,
            width,
            height,
        }
    }
}

// ---------------------------------------------------------------------------
// Ray-triangle intersection
// ---------------------------------------------------------------------------

/// A ray.
#[derive(Clone, Copy, Debug, PartialEq, Eq, Structural)]
pub struct Ray {
    pub origin: Vec3,
    pub direction: Vec3,
}

/// A hit: distance along the ray, and the weights of the second and third corner.
#[derive(Clone, Copy, Debug, PartialEq, Eq, Structural)]
pub struct Hit {
    pub t: u32,
    pub u: u32,
    pub v: u32,
}

/// Whether the ray meets the triangle, from either side.
pub open spec fn meets(c: Crossing) -> bool {
    &&& is_nan(c.det) || magnitude(c.det) >= PARALLEL
    &&& le(ZERO, c.u)
    &&& le(c.u, ONE)
    &&& !lt(c.v, ZERO)
    &&& !lt(ONE, c.uv)
}

/// The hit of a ray on a triangle, from either side, or `None` on a miss.
pub open spec fn either_hit(c: Crossing) -> Option<Hit> {
    if meets(c) && lt(NEAR, c.t) {
        Some(Hit { t: c.t, u: c.u, v: c.v })
    } else {
        None
    }
}

/// The hit of a ray on the front of a triangle, or `None` for misses and
/// back-face hits.
pub open spec fn front_hit(c: Crossing) -> Option<Hit> {
    if meets_front(c) && lt(NEAR, c.t) {
        Some(Hit { t: c.t, u: c.u, v: c.v })
    } else {
        None
    }
}

/// The hit that a crossing is: on the front only, as in the kernel, or from either
/// side, as on the host.
pub open spec fn hit_of(front: bool, c: Crossing) -> Option<Hit> {
    if front {
        front_hit(c)
    } else {
        either_hit(c)
    }
}

/// The hit of a ray on a triangle, from either side.
pub fn moller_trumbore(c: &Crossing) -> (r: Option<Hit>)
    ensures
        r == either_hit(*c),
{
    if less(abs(c.det), PARALLEL) {
        return None;
    }
    if !(less_or_equal(ZERO, c.u) && less_or_equal(c.u, ONE)) {
        return None;
    }
    if less(c.v, ZERO) || less(ONE, c.uv) {
        return None;
    }
    if less(NEAR, c.t) {
        Some(Hit { t: c.t, u: c.u, v: c.v })
    } else {
        None
    }
}

// ---------------------------------------------------------------------------
// Nearest hit
// ---------------------------------------------------------------------------

/// The nearest hit of a ray: the patch, where on it, and whether its reversed
/// winding was hit.
#[derive(Clone, Copy, Debug, PartialEq, Eq, Structural)]
pub struct NearestHit {
    pub patch: usize,
    pub hit: Hit,
    pub flipped: bool,
}

/// The triangle of probe `k`: each patch is probed with its natural winding, then
/// with its reversed one.
pub open spec fn probe(geom: Seq<PatchGeom>, k: int) -> OccluderTriangle {
    let g = geom[k / 2];
    if k % 2 == 0 {
        OccluderTriangle { v0: g.v0, v1: g.v1, v2: g.v2 }
    } else {
        OccluderTriangle { v0: g.v2, v1: g.v1, v2: g.v0 }
    }
}

/// Whether `answers` are the answers of `meet` to all probes, in order.
pub open spec fn probed<M: Fn(OccluderTriangle) -> Option<Hit>>(
    meet: M,
    geom: Seq<PatchGeom>,
    answers: Seq<Option<Hit>>,
) -> bool {
    &&& answers.len() == 2 * geom.len()
    &&& forall|k: int|
        0 <= k < answers.len() ==> meet.ensures((probe(geom, k),), #[trigger] answers[k])
}

/// The position of a hit among the probes.
pub open spec fn probe_of(h: NearestHit) -> int {
    2 * h.patch + (if h.flipped {
        1int
    } else {
        0
    })
}

/// Whether `r` is the nearest of the answers: at a finite distance, with none
/// closer, and none before it as close.
pub open spec fn nearest(answers: Seq<Option<Hit>>, r: Option<NearestHit>) -> bool {
    match r {
        Some(n) => {
            &&& probe_of(n) < answers.len()
            &&& answers[probe_of(n)] == Some(n.hit)
            &&& lt(n.hit.t, INFINITY)
            &&& forall|k: int|
                0 <= k < answers.len() && (#[trigger] answers[k]) is Some ==> !lt(
                    answers[k]->0.t,
                    n.hit.t,
                )
            &&& forall|k: int|
                0 <= k < probe_of(n) && (#[trigger] answers[k]) is Some ==> !le(
                    answers[k]->0.t,
                    n.hit.t,
                )
        },
        None => forall|k: int|
            0 <= k < answers.len() && (#[trigger] answers[k]) is Some ==> !lt(
                answers[k]->0.t,
                INFINITY,
            ),
    }
}

/// The better of the nearest hit so far and the answer to one more probe.
fn nearer(
    best: Option<NearestHit>,
    answer: Option<Hit>,
    patch: usize,
    flipped: bool,
    Ghost(answers): Ghost<Seq<Option<Hit>>>,
) -> (r: Option<NearestHit>)
    requires
        nearest(answers, best),
        answers.len() == probe_of(NearestHit { patch, hit: Hit { t: 0, u: 0, v: 0 }, flipped }),
    ensures
        nearest(answers.push(answer), r),
{
    let limit: u32 = match best {
        Some(n) => n.hit.t,
        None => INFINITY,
    };
    let ghost longer = answers.push(answer);
    assert(forall|k: int| 0 <= k < answers.len() ==> #[trigger] longer[k] == answers[k]);
    assert(longer[answers.len() as int] == answer);
    match answer {
        Some(hit) => {
            if less(hit.t, limit) {
                return Some(NearestHit { patch, hit, flipped });
            }
        },
        None => {},
    }
    best
}

/// The nearest hit of a ray that meets a triangle as `meet` says, over all
/// patches and both windings.
pub fn nearest_hit<M: Fn(OccluderTriangle) -> Option<Hit>>(geom: &[PatchGeom], meet: M) -> (r:
    Option<NearestHit>)
    requires
        forall|t: OccluderTriangle| meet.requires((t,)),
    ensures
        exists|answers: Seq<Option<Hit>>| #[trigger]
            probed(meet, geom@, answers) && nearest(answers, r),
        r matches Some(n) ==> n.patch < geom@.len(),
{
    let mut best: Option<NearestHit> = None;
    let ghost mut answers: Seq<Option<Hit>> = Seq::empty();
    let mut i: usize = 0;
    while i < geom.len()
        invariant
            i <= geom@.len(),
            forall|t: OccluderTriangle| meet.requires((t,)),
            answers.len() == 2 * i,
            forall|k: int|
                0 <= k < answers.len() ==> meet.ensures((probe(geom@, k),), #[trigger] answers[k]),
            nearest(answers, best),
        decreases geom@.len() - i,
    {
        let g: PatchGeom = geom[i];
        let natural = meet(OccluderTriangle { v0: g.v0, v1: g.v1, v2: g.v2 });
        best = nearer(best, natural, i, false, Ghost(answers));
        proof {
            assert(probe(geom@, 2 * i) == (OccluderTriangle { v0: g.v0, v1: g.v1, v2: g.v2 }));
            answers = answers.push(natural);
        }
        let reversed = meet(OccluderTriangle { v0: g.v2, v1: g.v1, v2: g.v0 });
        best = nearer(best, reversed, i, true, Ghost(answers));
        proof {
            assert(probe(geom@, 2 * i + 1) == (OccluderTriangle { v0: g.v2, v1: g.v1, v2: g.v0 }));
            answers = answers.push(reversed);
        }
        i += 1;
    }
    assert(probed(meet, geom@, answers));
    best
}

/// Whatever else was hit, the nearest hit is one: two nearest hits among the
/// same answers agree.
pub proof fn law_nearest_unique(
    answers: Seq<Option<Hit>>,
    r: Option<NearestHit>,
    s: Option<NearestHit>,
)
    requires
        nearest(answers, r),
        nearest(answers, s),
    ensures
        r == s,
{
    match (r, s) {
        (Some(a), Some(b)) => {
            assert(answers[probe_of(a)] is Some && answers[probe_of(b)] is Some);
            assert(probe_of(a) == probe_of(b));
        },
        (Some(a), None) => {
            assert(answers[probe_of(a)] is Some);
        },
        (None, Some(b)) => {
            assert(answers[probe_of(b)] is Some);
        },
        (None, None) => {},
    }
}

/// Whether an answer is a miss, a hit at no finite distance, or a hit no nearer than
/// the least of `answers`.
pub open spec fn no_nearer(answer: Option<Hit>, answers: Seq<Option<Hit>>) -> bool {
    answer matches Some(h) ==> !lt(h.t, INFINITY) || exists|k: int|
        0 <= k < answers.len() && (#[trigger] answers[k]) is Some && le(answers[k]->0.t, h.t)
}

/// A patch that is missed, or hit no nearer than others, leaves the nearest hit as
/// it was.
pub proof fn law_farther_patch_ignored(
    answers: Seq<Option<Hit>>,
    natural: Option<Hit>,
    reversed: Option<Hit>,
    r: Option<NearestHit>,
)
    requires
        no_nearer(natural, answers),
        no_nearer(reversed, answers),
    ensures
        nearest(answers.push(natural).push(reversed), r) <==> nearest(answers, r),
{
    let n = answers.len() as int;
    let longer = answers.push(natural).push(reversed);
    assert(forall|k: int| 0 <= k < n ==> #[trigger] longer[k] == answers[k]);
    assert(longer[n] == natural);
    assert(longer[n + 1] == reversed);
    if nearest(longer, r) {
        if let Some(h) = r {
            if probe_of(h) >= n {
                let own = longer[probe_of(h)];
                let k = choose|k: int|
                    0 <= k < n && (#[trigger] answers[k]) is Some && le(answers[k]->0.t, own->0.t);
                assert(longer[k] == answers[k]);
            }
        }
        assert(forall|k: int| 0 <= k < n ==> longer[k] == #[trigger] answers[k]);
    }
}

// ---------------------------------------------------------------------------
// Gouraud shading
// ---------------------------------------------------------------------------

/// The weights of a patch's three vertices at a hit, `rest` being one less the
/// two coordinates. The coordinates belong to the second and third corner probed,
/// so with the reversed winding the first and third vertex change places.
pub open spec fn weights(n: NearestHit, rest: u32) -> Vec3 {
    if n.flipped {
        Vec3 { x: n.hit.v, y: n.hit.u, z: rest }
    } else {
        Vec3 { x: rest, y: n.hit.u, z: n.hit.v }
    }
}

/// A colour of eight bits per channel.
#[derive(Clone, Copy, Debug, PartialEq, Eq, Structural)]
pub struct Rgb8 {
    pub r: u8,
    pub g: u8,
    pub b: u8,
}

/// The arithmetic on a ray.
pub struct RayMath<Y, X, R, B, T> {
    /// The ray of a camera, with the given aspect, through a pixel.
    pub ray: Y,
    /// The crossing of a ray and a triangle.
    pub cross: X,
    /// One less two coordinates.
    pub rest: R,
    /// Three radiosities added up by their weights.
    pub blend: B,
    /// The colour of a radiosity, for a given white point.
    pub tone: T,
}

impl<Y, X, R, B, T> RayMath<Y, X, R, B, T> where
    Y: Fn(Camera, u32, u32, u32) -> Ray,
    X: Fn(Ray, OccluderTriangle) -> Crossing,
    R: Fn(u32, u32) -> u32,
    B: Fn(Vec3, Vec3, Vec3, Vec3) -> Vec3,
    T: Fn(Vec3, u32) -> Rgb8,
 {
    /// Whether the arithmetic is defined on all arguments.
    pub open spec fn total(self) -> bool {
        &&& forall|c: Camera, a: u32, px: u32, py: u32| self.ray.requires((c, a, px, py))
        &&& forall|ray: Ray, t: OccluderTriangle| self.cross.requires((ray, t))
        &&& forall|u: u32, v: u32| self.rest.requires((u, v))
        &&& forall|w: Vec3, a: Vec3, b: Vec3, c: Vec3| self.blend.requires((w, a, b, c))
        &&& forall|x: Vec3, white: u32| self.tone.requires((x, white))
    }

    /// Whether `h` is the hit of a ray on a triangle.
    pub open spec fn meets(
        self,
        front: bool,
        ray: Ray,
        t: OccluderTriangle,
        h: Option<Hit>,
    ) -> bool {
        exists|c: Crossing| #[trigger] self.cross.ensures((ray, t), c) && h == hit_of(front, c)
    }

    /// Whether `answers` are the hits of a ray on all probes, in order.
    pub open spec fn crossed(
        self,
        front: bool,
        ray: Ray,
        geom: Seq<PatchGeom>,
        answers: Seq<Option<Hit>>,
    ) -> bool {
        &&& answers.len() == 2 * geom.len()
        &&& forall|k: int|
            0 <= k < answers.len() ==> self.meets(front, ray, probe(geom, k), #[trigger] answers[k])
    }

    /// Whether `r` is the nearest hit of a ray.
    pub open spec fn nearest_along(
        self,
        front: bool,
        ray: Ray,
        geom: Seq<PatchGeom>,
        r: Option<NearestHit>,
    ) -> bool {
        exists|answers: Seq<Option<Hit>>| #[trigger]
            self.crossed(front, ray, geom, answers) && nearest(answers, r)
    }

    /// Whether `out` is the radiosity interpolated at a hit on a patch with the
    /// given vertices.
    pub open spec fn gouraud(
        self,
        n: NearestHit,
        verts: PatchVerts,
        vert_rad: Seq<Vec3>,
        out: Vec3,
    ) -> bool {
        exists|w: u32| #[trigger]
            self.rest.ensures((n.hit.u, n.hit.v), w) && self.blend.ensures(
                (
                    weights(n, w),
                    vert_rad[verts.vi0 as int],
                    vert_rad[verts.vi1 as int],
                    vert_rad[verts.vi2 as int],
                ),
                out,
            )
    }

    /// Whether `out` is the colour at a hit on a patch with the given vertices.
    pub open spec fn hit_colour(
        self,
        n: NearestHit,
        verts: PatchVerts,
        vert_rad: Seq<Vec3>,
        white: u32,
        out: Rgb8,
    ) -> bool {
        exists|radiosity: Vec3| #[trigger]
            self.gouraud(n, verts, vert_rad, radiosity) && self.tone.ensures(
                (radiosity, white),
                out,
            )
    }

    /// Whether `out` is the colour of a ray on the host: that at its nearest hit, or
    /// that of no radiosity on a miss.
    pub open spec fn shaded(
        self,
        ray: Ray,
        geom: Seq<PatchGeom>,
        verts: Seq<PatchVerts>,
        vert_rad: Seq<Vec3>,
        white: u32,
        out: Rgb8,
    ) -> bool {
        exists|hit: Option<NearestHit>| #[trigger]
            self.nearest_along(false, ray, geom, hit) && match hit {
                Some(n) => self.hit_colour(n, verts[n.patch as int], vert_rad, white, out),
                None => self.tone.ensures((zero3(), white), out),
            }
    }

    /// The radiosity at a hit.
    pub fn interpolate(&self, n: NearestHit, verts: PatchVerts, vert_rad: &[Vec3]) -> (r: Vec3)
        requires
            self.total(),
            verts.vi0 < vert_rad@.len(),
            verts.vi1 < vert_rad@.len(),
            verts.vi2 < vert_rad@.len(),
        ensures
            self.gouraud(n, verts, vert_rad@, r),
    {
        let left: u32 = (self.rest)(n.hit.u, n.hit.v);
        let w: Vec3 = if n.flipped {
            Vec3 { x: n.hit.v, y: n.hit.u, z: left }
        } else {
            Vec3 { x: left, y: n.hit.u, z: n.hit.v }
        };
        assert(w == weights(n, left));
        (self.blend)(w, vert_rad[verts.vi0], vert_rad[verts.vi1], vert_rad[verts.vi2])
    }

    /// The colour of a ray on the host.
    pub fn shade_ray(
        &self,
        ray: Ray,
        geom: &[PatchGeom],
        verts: &[PatchVerts],
        vert_rad: &[Vec3],
        white: u32,
    ) -> (r: Rgb8)
        requires
            self.total(),
            vertices_known(geom@.len() as int, verts@, vert_rad@.len() as int),
        ensures
            self.shaded(ray, geom@, verts@, vert_rad@, white, r),
    {
        let meet = |t: OccluderTriangle| -> (h: Option<Hit>)
            ensures
                self.meets(false, ray, t, h),
            {
                let c: Crossing = (self.cross)(ray, t);
                moller_trumbore(&c)
            };
        let hit = nearest_hit(geom, meet);
        proof {
            let answers = choose|answers: Seq<Option<Hit>>| #[trigger]
                probed(meet, geom@, answers) && nearest(answers, hit);
            assert(self.crossed(false, ray, geom@, answers));
            assert(self.nearest_along(false, ray, geom@, hit));
        }
        match hit {
            Some(n) => {
                let radiosity = self.interpolate(n, verts[n.patch], vert_rad);
                (self.tone)(radiosity, white)
            },
            None => (self.tone)(Vec3 { x: ZERO, y: ZERO, z: ZERO }, white),
        }
    }

    /// Whether `out` is the colour of a pixel on the host.
    pub open spec fn pixel_shaded(
        self,
        camera: Camera,
        aspect: u32,
        px: u32,
        py: u32,
        geom: Seq<PatchGeom>,
        verts: Seq<PatchVerts>,
        vert_rad: Seq<Vec3>,
        white: u32,
        out: Rgb8,
    ) -> bool {
        exists|ray: Ray| #[trigger]
            self.ray.ensures((camera, aspect, px, py), ray) && self.shaded(
                ray,
                geom,
                verts,
                vert_rad,
                white,
                out,
            )
    }

    /// The colour of a pixel on the host.
    pub fn shade_pixel(
        &self,
        camera: &Camera,
        aspect: u32,
        px: u32,
        py: u32,
        geom: &[PatchGeom],
        verts: &[PatchVerts],
        vert_rad: &[Vec3],
        white: u32,
    ) -> (r: Rgb8)
        requires
            self.total(),
            vertices_known(geom@.len() as int, verts@, vert_rad@.len() as int),
        ensures
            self.pixel_shaded(*camera, aspect, px, py, geom@, verts@, vert_rad@, white, r),
    {
        let ray: Ray = (self.ray)(*camera, aspect, px, py);
        self.shade_ray(ray, geom, verts, vert_rad, white)
    }

    /// Which colours a pixel may have on the host.
    pub open spec fn shades(
        self,
        camera: Camera,
        aspect: u32,
        geom: Seq<PatchGeom>,
        verts: Seq<PatchVerts>,
        vert_rad: Seq<Vec3>,
        white: u32,
    ) -> spec_fn(u32, u32, Rgb8) -> bool {
        |px: u32, py: u32, c: Rgb8|
            self.pixel_shaded(camera, aspect, px, py, geom, verts, vert_rad, white, c)
    }

    /// Renders row `py` of the image.
    pub fn render_row(
        &self,
        camera: &Camera,
        aspect: u32,
        py: u32,
        geom: &[PatchGeom],
        verts: &[PatchVerts],
        vert_rad: &[Vec3],
        white: u32,
    ) -> (r: Vec<u8>)
        requires
            self.total(),
            vertices_known(geom@.len() as int, verts@, vert_rad@.len() as int),
            3 * camera.width <= usize::MAX,
        ensures
            row_rendered(
                self.shades(*camera, aspect, geom@, verts@, vert_rad@, white),
                camera.width,
                py,
                r@,
            ),
    {
        let ghost colour = self.shades(*camera, aspect, geom@, verts@, vert_rad@, white);
        let mut row: Vec<u8> = Vec::new();
        let mut px: u32 = 0;
        while px < camera.width
            invariant
                self.total(),
                vertices_known(geom@.len() as int, verts@, vert_rad@.len() as int),
                colour == self.shades(*camera, aspect, geom@, verts@, vert_rad@, white),
                px <= camera.width,
                row@.len() == 3 * px,
                forall|x: u32| x < px ==> colour(x, py, #[trigger] rgb_at(row@, x as int)),
            decreases camera.width - px,
        {
            let c: Rgb8 = self.shade_pixel(camera, aspect, px, py, geom, verts, vert_rad, white);
            let ghost before = row@;
            row.push(c.r);
            row.push(c.g);
            row.push(c.b);
            proof {
                assert(rgb_at(row@, px as int) == c);
                assert(colour(px, py, c));
                assert forall|x: u32| x < px implies colour(
                    x,
                    py,
                    #[trigger] rgb_at(row@, x as int),
                ) by {
                    assert(rgb_at(row@, x as int) == rgb_at(before, x as int));
                }
            }
            px += 1;
        }
        row
    }

    /// Whether a ray, whatever it meets of `geom`, misses `g` in both windings or
    /// hits it no nearer.
    pub open spec fn hidden(
        self,
        front: bool,
        ray: Ray,
        geom: Seq<PatchGeom>,
        g: PatchGeom,
    ) -> bool {
        &&& exists|own: Seq<Option<Hit>>| self.crossed(front, ray, seq![g], own)
        &&& forall|answers: Seq<Option<Hit>>, own: Seq<Option<Hit>>| #[trigger]
            self.crossed(front, ray, geom, answers) && #[trigger] self.crossed(
                front,
                ray,
                seq![g],
                own,
            ) ==> no_nearer(own[0], answers) && no_nearer(own[1], answers)
    }

    /// A patch that is missed, or hit no nearer than the others, leaves the nearest
    /// hit of a ray as it was.
    pub proof fn law_farther_patch_leaves_hit(
        self,
        front: bool,
        ray: Ray,
        geom: Seq<PatchGeom>,
        g: PatchGeom,
        r: Option<NearestHit>,
    )
        requires
            self.hidden(front, ray, geom, g),
        ensures
            self.nearest_along(front, ray, geom.push(g), r) <==> self.nearest_along(
                front,
                ray,
                geom,
                r,
            ),
    {
        let n = geom.len() as int;
        let more = geom.push(g);
        assert(forall|k: int| 0 <= k < 2 * n ==> #[trigger] probe(more, k) == probe(geom, k));
        assert(probe(more, 2 * n) == probe(seq![g], 0));
        assert(probe(more, 2 * n + 1) == probe(seq![g], 1));
        if self.nearest_along(front, ray, more, r) {
            let longer = choose|longer: Seq<Option<Hit>>| #[trigger]
                self.crossed(front, ray, more, longer) && nearest(longer, r);
            let answers = longer.take(2 * n);
            let own = longer.skip(2 * n);
            assert forall|k: int| 0 <= k < answers.len() implies self.meets(
                front,
                ray,
                probe(geom, k),
                #[trigger] answers[k],
            ) by {
                assert(self.meets(front, ray, probe(more, k), longer[k]));
            }
            assert forall|k: int| 0 <= k < own.len() implies self.meets(
                front,
                ray,
                probe(seq![g], k),
                #[trigger] own[k],
            ) by {
                assert(self.meets(front, ray, probe(more, 2 * n + k), longer[2 * n + k]));
            }
            assert(self.crossed(front, ray, geom, answers));
            assert(self.crossed(front, ray, seq![g], own));
            assert(longer =~= answers.push(own[0]).push(own[1]));
            law_farther_patch_ignored(answers, own[0], own[1], r);
        }
        if self.nearest_along(front, ray, geom, r) {
            let answers = choose|answers: Seq<Option<Hit>>| #[trigger]
                self.crossed(front, ray, geom, answers) && nearest(answers, r);
            let own = choose|own: Seq<Option<Hit>>| self.crossed(front, ray, seq![g], own);
            let longer = answers.push(own[0]).push(own[1]);
            assert forall|k: int| 0 <= k < longer.len() implies self.meets(
                front,
                ray,
                probe(more, k),
                #[trigger] longer[k],
            ) by {
                if k < 2 * n {
                    assert(self.meets(front, ray, probe(geom, k), answers[k]));
                } else {
                    assert(self.meets(front, ray, probe(seq![g], k - 2 * n), own[k - 2 * n]));
                }
            }
            assert(self.crossed(front, ray, more, longer));
            law_farther_patch_ignored(answers, own[0], own[1], r);
        }
    }

    /// A patch that is missed, or hit no nearer than the others, leaves the colour of
    /// a ray on the host as it was.
    pub proof fn law_farther_patch_leaves_shade(
        self,
        ray: Ray,
        geom: Seq<PatchGeom>,
        g: PatchGeom,
        verts: Seq<PatchVerts>,
        v: PatchVerts,
        vert_rad: Seq<Vec3>,
        white: u32,
        out: Rgb8,
    )
        requires
            verts.len() == geom.len(),
            self.hidden(false, ray, geom, g),
        ensures
            self.shaded(ray, geom.push(g), verts.push(v), vert_rad, white, out) <==> self.shaded(
                ray,
                geom,
                verts,
                vert_rad,
                white,
                out,
            ),
    {
        let (more, more_verts) = (geom.push(g), verts.push(v));
        assert forall|hit: Option<NearestHit>|
            (#[trigger] self.nearest_along(false, ray, more, hit)) == self.nearest_along(
                false,
                ray,
                geom,
                hit,
            ) by {
            self.law_farther_patch_leaves_hit(false, ray, geom, g, hit);
        }
        assert forall|hit: Option<NearestHit>| #[trigger]
            self.nearest_along(false, ray, geom, hit) implies (hit matches Some(h) ==> h.patch
            < geom.len() && more_verts[h.patch as int] == verts[h.patch as int]) by {}
        if self.shaded(ray, geom, verts, vert_rad, white, out) {
            let hit = choose|hit: Option<NearestHit>| #[trigger]
                self.nearest_along(false, ray, geom, hit) && match hit {
                    Some(n) => self.hit_colour(n, verts[n.patch as int], vert_rad, white, out),
                    None => self.tone.ensures((zero3(), white), out),
                };
            assert(self.nearest_along(false, ray, more, hit));
        }
    }
}

// ---------------------------------------------------------------------------
// White point
// ---------------------------------------------------------------------------

/// Whether `luminances` are those of `radiosities`.
pub open spec fn measured<L: Fn(Vec3) -> u32>(
    luminance: L,
    radiosities: Seq<Vec3>,
    luminances: Seq<u32>,
) -> bool {
    &&& luminances.len() == radiosities.len()
    &&& forall|i: int|
        0 <= i < luminances.len() ==> luminance.ensures(
            (radiosities[i],),
            #[trigger] luminances[i],
        )
}

/// Whether `white` is the largest of the luminances that are numbers, at least
/// one.
pub open spec fn brightest(luminances: Seq<u32>, white: u32) -> bool {
    &&& le(ONE, white)
    &&& white == ONE || luminances.contains(white)
    &&& forall|i: int|
        0 <= i < luminances.len() && !is_nan(#[trigger] luminances[i]) ==> le(luminances[i], white)
}

/// The white point of the tone mapping: the largest luminance of the scene,
/// clamped to at least one.
pub fn white_point<L: Fn(Vec3) -> u32>(radiosities: &[Vec3], luminance: L) -> (r: u32)
    requires
        forall|x: Vec3| luminance.requires((x,)),
    ensures
        exists|luminances: Seq<u32>| #[trigger]
            measured(luminance, radiosities@, luminances) && brightest(luminances, r),
{
    let mut white: u32 = ONE;
    let ghost mut luminances: Seq<u32> = Seq::empty();
    let mut i: usize = 0;
    while i < radiosities.len()
        invariant
            i <= radiosities@.len(),
            forall|x: Vec3| luminance.requires((x,)),
            luminances.len() == i,
            forall|k: int|
                0 <= k < i ==> luminance.ensures((radiosities@[k],), #[trigger] luminances[k]),
            brightest(luminances, white),
        decreases radiosities@.len() - i,
    {
        let l: u32 = luminance(radiosities[i]);
        let ghost longer = luminances.push(l);
        assert(longer[i as int] == l);
        assert(forall|k: int| 0 <= k < i ==> #[trigger] longer[k] == luminances[k]);
        if less(white, l) {
            white = l;
        } else {
            proof {
                if white != ONE {
                    let k = luminances.index_of(white);
                    assert(longer[k] == white);
                }
            }
        }
        proof {
            luminances = longer;
        }
        i += 1;
    }
    assert(measured(luminance, radiosities@, luminances));
    white
}

/// The white point depends on the luminances alone.
pub proof fn law_white_point_unique(luminances: Seq<u32>, a: u32, b: u32)
    requires
        brightest(luminances, a),
        brightest(luminances, b),
    ensures
        a == b,
{
    if luminances.contains(a) {
        let i = luminances.index_of(a);
        assert(luminances[i] == a);
    }
    if luminances.contains(b) {
        let i = luminances.index_of(b);
        assert(luminances[i] == b);
    }
}

// ---------------------------------------------------------------------------
// Patch geometry
// ---------------------------------------------------------------------------

/// The triangle of a patch, as the ray caster takes it.
pub open spec fn geometry(p: ScenePatch) -> PatchGeom {
    PatchGeom { v0: p.v0, _p0: ZERO, v1: p.v1, _p1: ZERO, v2: p.v2, _p2: ZERO }
}

/// The triangles of all patches.
pub fn patch_geometry(patches: &[ScenePatch]) -> (r: Vec<PatchGeom>)
    ensures
        r@ == patches@.map_values(|p: ScenePatch| geometry(p)),
{
    let mut geom: Vec<PatchGeom> = Vec::new();
    let mut i: usize = 0;
    while i < patches.len()
        invariant
            i <= patches@.len(),
            geom@ =~= patches@.map_values(|p: ScenePatch| geometry(p)).take(i as int),
        decreases patches@.len() - i,
    {
        let p = &patches[i];
        geom.push(
            PatchGeom { v0: p.v0, _p0: ZERO, v1: p.v1, _p1: ZERO, v2: p.v2, _p2: ZERO },
        );
        i += 1;
    }
    geom
}

// ---------------------------------------------------------------------------
// Frame
// ---------------------------------------------------------------------------

/// Row-major position of pixel `(px, py)`.
pub open spec fn pixel_index(width: int, px: int, py: int) -> int {
    py * width + px
}

/// The colour at position `i` of a buffer of three bytes per pixel.
pub open spec fn rgb_at(buffer: Seq<u8>, i: int) -> Rgb8 {
    Rgb8 { r: buffer[3 * i], g: buffer[3 * i + 1], b: buffer[3 * i + 2] }
}

/// Whether `row` holds the pixels of row `py`, `colour` telling which colours a
/// pixel may have.
pub open spec fn row_rendered(
    colour: spec_fn(u32, u32, Rgb8) -> bool,
    width: u32,
    py: u32,
    row: Seq<u8>,
) -> bool {
    &&& row.len() == 3 * width
    &&& forall|px: u32| px < width ==> colour(px, py, #[trigger] rgb_at(row, px as int))
}

/// Whether `frame` holds every pixel of the image, row-major.
pub open spec fn frame_rendered(
    colour: spec_fn(u32, u32, Rgb8) -> bool,
    width: u32,
    height: u32,
    frame: Seq<u8>,
) -> bool {
    &&& frame.len() == 3 * (width * height)
    &&& forall|px: u32, py: u32|
        px < width && py < height ==> colour(
            px,
            py,
            rgb_at(frame, #[trigger] pixel_index(width as int, px as int, py as int)),
        )
}

/// Puts the rendered rows together, top to bottom.
pub fn join_rows(rows: &[Vec<u8>], width: u32) -> (r: Vec<u8>)
    requires
        3 * (width * rows@.len()) <= usize::MAX,
        forall|y: int| 0 <= y < rows@.len() ==> (#[trigger] rows@[y])@.len() == 3 * width,
    ensures
        r@.len() == 3 * (width * rows@.len()),
        forall|x: int, y: int|
            0 <= x < width && 0 <= y < rows@.len() ==> rgb_at(
                r@,
                #[trigger] pixel_index(width as int, x, y),
            ) == rgb_at(rows@[y]@, x),
{
    let mut frame: Vec<u8> = Vec::new();
    let mut y: usize = 0;
    proof {
        assert(width * 0 == 0) by (nonlinear_arith);
    }
    while y < rows.len()
        invariant
            y <= rows@.len(),
            forall|y: int| 0 <= y < rows@.len() ==> (#[trigger] rows@[y])@.len() == 3 * width,
            frame@.len() == 3 * (width * y),
            forall|x: int, z: int|
                0 <= x < width && 0 <= z < y ==> rgb_at(
                    frame@,
                    #[trigger] pixel_index(width as int, x, z),
                ) == rgb_at(rows@[z]@, x),
        decreases rows@.len() - y,
    {
        let ghost before = frame@;
        frame.extend_from_slice(rows[y].as_slice());
        proof {
            let row = rows@[y as int]@;
            assert(frame@ =~= before + row);
            assert(width * (y + 1) == width * y + width) by (nonlinear_arith);
            assert forall|x: int, z: int| 0 <= x < width && 0 <= z < y + 1 implies rgb_at(
                frame@,
                #[trigger] pixel_index(width as int, x, z),
            ) == rgb_at(rows@[z]@, x) by {
                let i = pixel_index(width as int, x, z);
                if z < y {
                    assert(0 <= i < width * y) by (nonlinear_arith)
                        requires
                            i == z * width + x,
                            0 <= x < width,
                            0 <= z < y,
                    ;
                    assert(rgb_at(before, i) == rgb_at(rows@[z]@, x));
                } else {
                    assert(i == width * y + x) by (nonlinear_arith)
                        requires
                            i == z * width + x,
                            z == y,
                    ;
                }
            }
        }
        y += 1;
    }
    frame
}

/// Rows rendered one by one, in any order, make up the frame.
pub proof fn law_rows_make_frame(
    colour: spec_fn(u32, u32, Rgb8) -> bool,
    width: u32,
    height: u32,
    rows: Seq<Seq<u8>>,
    frame: Seq<u8>,
)
    requires
        rows.len() == height,
        forall|py: u32| py < height ==> row_rendered(colour, width, py, #[trigger] rows[py as int]),
        frame.len() == 3 * (width * height),
        forall|x: int, y: int|
            0 <= x < width && 0 <= y < height ==> rgb_at(
                frame,
                #[trigger] pixel_index(width as int, x, y),
            ) == rgb_at(rows[y], x),
    ensures
        frame_rendered(colour, width, height, frame),
{
    assert forall|px: u32, py: u32| px < width && py < height implies colour(
        px,
        py,
        rgb_at(frame, #[trigger] pixel_index(width as int, px as int, py as int)),
    ) by {
        assert(row_rendered(colour, width, py, rows[py as int]));
        assert(rgb_at(frame, pixel_index(width as int, px as int, py as int)) == rgb_at(
            rows[py as int],
            px as int,
        ));
    }
}

/// Every pixel has a place of its own inside the frame.
pub proof fn law_pixels_distinct(width: u32, height: u32, px: u32, py: u32, qx: u32, qy: u32)
    requires
        px < width,
        qx < width,
        py < height,
        qy < height,
    ensures
        0 <= pixel_index(width as int, px as int, py as int) < width * height,
        pixel_index(width as int, px as int, py as int) == pixel_index(
            width as int,
            qx as int,
            qy as int,
        ) ==> px == qx && py == qy,
{
    let (i, j) = (
        pixel_index(width as int, px as int, py as int),
        pixel_index(width as int, qx as int, qy as int),
    );
    assert(0 <= i < width * height) by (nonlinear_arith)
        requires
            i == py * width + px,
            0 <= px < width,
            0 <= py < height,
    ;
    assert(i == j ==> px == qx && py == qy) by (nonlinear_arith)
        requires
            i == py * width + px,
            j == qy * width + qx,
            0 <= px < width,
            0 <= qx < width,
    ;
}

/// Whether progress is reported after `done` of `height` rows: at every 64th row
/// and at the last.
pub fn reports_progress(done: u32, height: u32) -> (r: bool)
    ensures
        r == (done % 64 == 0 || done == height),
{
    done % 64 == 0 || done == height
}

// ---------------------------------------------------------------------------
// Image
// ---------------------------------------------------------------------------

#[verifier::external_type_specification]
#[verifier::external_body]
pub struct ExDynamicImage(image::DynamicImage);

/// The bytes of the pixels of an image, row-major, channels interleaved.
pub uninterp spec fn image_bytes(image: image::DynamicImage) -> Seq<u8>;

/// Width and height of an image.
pub uninterp spec fn image_size(image: image::DynamicImage) -> (u32, u32);

/// Calls `image::RgbImage::from_raw`, which takes a buffer of eight-bit RGB pixels
/// as it is, whatever follows the last pixel being no part of the image, and
/// fails exactly when the buffer is too short for the size or a row is too long
/// to be counted.
#[verifier::external_body]
fn rgb_image(width: u32, height: u32, pixels: Vec<u8>) -> (r: Option<image::DynamicImage>)
    ensures
        r is Some == (3 * width <= usize::MAX && 3 * (width * height) <= pixels@.len()),
        r matches Some(i) ==> image_size(i) == (width, height) && image_bytes(i) == pixels@.take(
            3 * (width * height),
        ),
{
    image::RgbImage::from_raw(width, height, pixels).map(image::DynamicImage::ImageRgb8)
}

/// The image of a rendered frame, or `None` if the frame is too short for the
/// size.
pub fn frame_image(width: u32, height: u32, frame: Vec<u8>) -> (r: Option<image::DynamicImage>)
    ensures
        r is Some == (3 * width <= usize::MAX && 3 * (width * height) <= frame@.len()),
        r matches Some(i) ==> image_size(i) == (width, height) && image_bytes(i) == frame@.take(
            3 * (width * height),
        ),
{
    rgb_image(width, height, frame)
}

// ---------------------------------------------------------------------------
// What the calls come to
// ---------------------------------------------------------------------------

/// Whether a determinant is one of a ray that is not parallel to the triangle: a
/// number of magnitude `1.0e-7` or more.
pub open spec fn slanted(det: u32) -> bool {
    !is_nan(det) && (rank(det) >= PARALLEL || rank(det) <= -PARALLEL)
}

/// A call of `moller_trumbore` on a crossing of a triangle that the ray is not
/// parallel to, between the edges and ahead, returns exactly its distance and
/// weights, whichever side faces the ray; on a parallel one, beyond an edge or not
/// ahead it returns nothing.
pub proof fn law_call_hits_either_side(c: Crossing, r: Option<Hit>)
    requires
        call_ensures(moller_trumbore, (&c,), r),
    ensures
        slanted(c.det) && le(ZERO, c.u) && le(ZERO, c.v) && le(c.u, c.uv) && le(c.uv, ONE) && lt(
            NEAR,
            c.t,
        ) ==> r == Some(Hit { t: c.t, u: c.u, v: c.v }),
        r is Some <==> (is_nan(c.det) || slanted(c.det)) && le(ZERO, c.u) && le(c.u, ONE) && !lt(
            c.v,
            ZERO,
        ) && !lt(ONE, c.uv) && lt(NEAR, c.t),
        r is Some ==> r == Some(Hit { t: c.t, u: c.u, v: c.v }),
{
}

/// Two calls of `moller_trumbore` that differ in the determinant alone return the
/// same, if neither is parallel: neither the size of a triangle nor the side that it
/// shows decides.
pub proof fn law_calls_ignore_size_and_side(
    c: Crossing,
    d: Crossing,
    r: Option<Hit>,
    s: Option<Hit>,
)
    requires
        call_ensures(moller_trumbore, (&c,), r),
        call_ensures(moller_trumbore, (&d,), s),
        slanted(c.det),
        slanted(d.det),
        c.u == d.u,
        c.v == d.v,
        c.uv == d.uv,
        c.t == d.t,
    ensures
        r == s,
{
}

/// A call of `nearest_hit` finds a hit if any patch, in either order of its corners,
/// is met at a finite distance; what it returns is a hit on the patch and in the
/// order that it names, no nearer one was there to be found, and of equally near ones
/// it is the first.
pub proof fn law_call_finds_nearest<M: Fn(OccluderTriangle) -> Option<Hit>>(
    geom: &[PatchGeom],
    meet: M,
    r: Option<NearestHit>,
    p: int,
    t: OccluderTriangle,
    h: Hit,
)
    requires
        call_ensures(nearest_hit::<M>, (geom, meet), r),
        forall|t: OccluderTriangle, g: Option<Hit>, h: Option<Hit>| #[trigger]
            meet.ensures((t,), g) && #[trigger] meet.ensures((t,), h) ==> g == h,
        0 <= p < geom@.len(),
        t == (OccluderTriangle { v0: geom@[p].v0, v1: geom@[p].v1, v2: geom@[p].v2 }) || t == (
        OccluderTriangle { v0: geom@[p].v2, v1: geom@[p].v1, v2: geom@[p].v0 }),
        meet.ensures((t,), Some(h)),
        lt(h.t, INFINITY),
    ensures
        r is Some,
        !lt(h.t, r->0.hit.t),
        le(h.t, r->0.hit.t) ==> r->0.patch <= p,
        le(h.t, r->0.hit.t) && r->0.patch == p && r->0.flipped ==> t == (OccluderTriangle {
            v0: geom@[p].v2,
            v1: geom@[p].v1,
            v2: geom@[p].v0,
        }),
        lt(r->0.hit.t, INFINITY),
        r->0.patch < geom@.len(),
        !r->0.flipped ==> meet.ensures(
            (
                OccluderTriangle {
                    v0: geom@[r->0.patch as int].v0,
                    v1: geom@[r->0.patch as int].v1,
                    v2: geom@[r->0.patch as int].v2,
                },
            ),
            Some(r->0.hit),
        ),
        r->0.flipped ==> meet.ensures(
            (
                OccluderTriangle {
                    v0: geom@[r->0.patch as int].v2,
                    v1: geom@[r->0.patch as int].v1,
                    v2: geom@[r->0.patch as int].v0,
                },
            ),
            Some(r->0.hit),
        ),
{
    let answers = choose|answers: Seq<Option<Hit>>| #[trigger]
        probed(meet, geom@, answers) && nearest(answers, r);
    let k = if t == (OccluderTriangle { v0: geom@[p].v0, v1: geom@[p].v1, v2: geom@[p].v2 }) {
        2 * p
    } else {
        2 * p + 1
    };
    assert(probe(geom@, k) == t);
    assert(meet.ensures((probe(geom@, k),), answers[k]));
    assert(answers[k] == Some(h));
    let n = r->0;
    assert(meet.ensures((probe(geom@, probe_of(n)),), answers[probe_of(n)]));
}

/// A call of `nearest_hit` that returns nothing met no patch at a finite distance.
pub proof fn law_call_misses_nothing<M: Fn(OccluderTriangle) -> Option<Hit>>(
    geom: &[PatchGeom],
    meet: M,
    r: Option<NearestHit>,
)
    requires
        call_ensures(nearest_hit::<M>, (geom, meet), r),
        forall|t: OccluderTriangle, h: Hit| #[trigger]
            meet.ensures((t,), Some(h)) ==> !lt(h.t, INFINITY),
    ensures
        r is None,
{
    let answers = choose|answers: Seq<Option<Hit>>| #[trigger]
        probed(meet, geom@, answers) && nearest(answers, r);
    if let Some(n) = r {
        assert(meet.ensures((probe(geom@, probe_of(n)),), answers[probe_of(n)]));
    }
}

/// A call of `white_point` returns the largest luminance, at least one: none that is
/// a number is above it, and it is one or the luminance of some radiosity.
pub proof fn law_call_white_point<L: Fn(Vec3) -> u32>(
    radiosities: &[Vec3],
    luminance: L,
    r: u32,
    i: int,
    l: u32,
)
    requires
        call_ensures(white_point::<L>, (radiosities, luminance), r),
        forall|x: Vec3, a: u32, b: u32| #[trigger]
            luminance.ensures((x,), a) && #[trigger] luminance.ensures((x,), b) ==> a == b,
        0 <= i < radiosities@.len(),
        luminance.ensures((radiosities@[i],), l),
        !is_nan(l),
    ensures
        le(l, r),
        le(ONE, r),
        r == ONE || exists|j: int|
            0 <= j < radiosities@.len() && luminance.ensures((#[trigger] radiosities@[j],), r),
{
    let luminances = choose|luminances: Seq<u32>| #[trigger]
        measured(luminance, radiosities@, luminances) && brightest(luminances, r);
    assert(luminance.ensures((radiosities@[i],), luminances[i]));
    if r != ONE {
        let j = luminances.index_of(r);
        assert(luminance.ensures((radiosities@[j],), luminances[j]));
    }
}

/// One more radiosity raises the white point to its luminance, if that is higher, and
/// else leaves it.
pub proof fn law_white_point_grows(luminances: Seq<u32>, l: u32, a: u32, b: u32)
    requires
        brightest(luminances, a),
        brightest(luminances.push(l), b),
    ensures
        lt(a, l) ==> b == l,
        !lt(a, l) ==> b == a,
{
    let more = luminances.push(l);
    assert(more[luminances.len() as int] == l);
    assert(forall|i: int| 0 <= i < luminances.len() ==> more[i] == #[trigger] luminances[i]);
    if luminances.contains(a) {
        let i = luminances.index_of(a);
        assert(more[i] == a);
    }
    if more.contains(b) {
        let i = more.index_of(b);
        assert(more[i] == b);
        if i < luminances.len() {
            assert(luminances[i] == b);
        }
    }
}

/// A call of `patch_geometry` keeps every corner of every patch in its place.
pub proof fn law_call_keeps_corners(patches: &[ScenePatch], r: Vec<PatchGeom>, i: int)
    requires
        call_ensures(patch_geometry, (patches,), r),
        0 <= i < patches@.len(),
    ensures
        r@.len() == patches@.len(),
        r@[i].v0 == patches@[i].v0,
        r@[i].v1 == patches@[i].v1,
        r@[i].v2 == patches@[i].v2,
        r@[i]._p0 == 0 && r@[i]._p1 == 0 && r@[i]._p2 == 0,
{
}

/// A call of `join_rows` puts byte `k` of row `y` behind all bytes of the rows above.
pub proof fn law_call_joins(rows: &[Vec<u8>], width: u32, r: Vec<u8>, y: int, k: int)
    requires
        call_ensures(join_rows, (rows, width), r),
        0 <= y < rows@.len(),
        0 <= k < 3 * width,
    ensures
        r@.len() == 3 * (width * rows@.len()),
        r@[3 * (width * y) + k] == rows@[y]@[k],
{
    let (x, c) = (k / 3, k % 3);
    let i = pixel_index(width as int, x, y);
    assert(rgb_at(r@, i) == rgb_at(rows@[y]@, x));
    assert(3 * i == 3 * (width * y) + 3 * x) by (nonlinear_arith)
        requires
            i == y * width + x,
    ;
    assert(k == 3 * x + c);
}

/// A call of `cornell_default` looks along the third axis, upright, from the middle
/// of the open side and at a distance, and keeps the size of the image.
pub proof fn law_call_camera(width: u32, height: u32, tan_half_fov: u32, r: Camera)
    requires
        call_ensures(Camera::cornell_default, (width, height, tan_half_fov), r),
    ensures
        r.width == width,
        r.height == height,
        r.tan_half_fov == tan_half_fov,
        r.right == (Vec3 { x: ONE, y: ZERO, z: ZERO }),
        r.up == (Vec3 { x: ZERO, y: ONE, z: ZERO }),
        r.forward == (Vec3 { x: ZERO, y: ZERO, z: ONE }),
        r.eye == (Vec3 { x: HALF, y: HALF, z: EYE_DEPTH }),
{
}

impl<Y, X, R, B, T> RayMath<Y, X, R, B, T> where
    Y: Fn(Camera, u32, u32, u32) -> Ray,
    X: Fn(Ray, OccluderTriangle) -> Crossing,
    R: Fn(u32, u32) -> u32,
    B: Fn(Vec3, Vec3, Vec3, Vec3) -> Vec3,
    T: Fn(Vec3, u32) -> Rgb8,
 {
    /// A call of `interpolate` weighs the vertices as the hit was met: the first
    /// corner met by what the two coordinates leave of one, the second and third by
    /// the coordinates, the corners being met in reverse if the hit is flipped.
    pub proof fn law_call_interpolates(
        self,
        n: NearestHit,
        verts: PatchVerts,
        vert_rad: &[Vec3],
        left: u32,
        r: Vec3,
    )
        requires
            call_ensures(Self::interpolate, (&self, n, verts, vert_rad), r),
            forall|a: u32| #[trigger] self.rest.ensures((n.hit.u, n.hit.v), a) ==> a == left,
        ensures
            !n.flipped ==> self.blend.ensures(
                (
                    Vec3 { x: left, y: n.hit.u, z: n.hit.v },
                    vert_rad@[verts.vi0 as int],
                    vert_rad@[verts.vi1 as int],
                    vert_rad@[verts.vi2 as int],
                ),
                r,
            ),
            n.flipped ==> self.blend.ensures(
                (
                    Vec3 { x: n.hit.v, y: n.hit.u, z: left },
                    vert_rad@[verts.vi0 as int],
                    vert_rad@[verts.vi1 as int],
                    vert_rad@[verts.vi2 as int],
                ),
                r,
            ),
    {
    }

    /// A hit met in reverse is interpolated as one on the reversed patch, with sums
    /// that may be taken from either end.
    pub proof fn law_reversed_hit_is_hit_on_reversed(
        self,
        n: NearestHit,
        m: NearestHit,
        verts: PatchVerts,
        reversed: PatchVerts,
        vert_rad: Seq<Vec3>,
        out: Vec3,
    )
        requires
            forall|w: Vec3, a: Vec3, b: Vec3, c: Vec3, r: Vec3| #[trigger]
                self.blend.ensures((w, a, b, c), r) ==> self.blend.ensures(
                    (Vec3 { x: w.z, y: w.y, z: w.x }, c, b, a),
                    r,
                ),
            n.flipped,
            !m.flipped,
            n.hit == m.hit,
            reversed.vi0 == verts.vi2,
            reversed.vi1 == verts.vi1,
            reversed.vi2 == verts.vi0,
        ensures
            self.gouraud(n, verts, vert_rad, out) <==> self.gouraud(m, reversed, vert_rad, out),
    {
        let (a, b, c) = (
            vert_rad[verts.vi0 as int],
            vert_rad[verts.vi1 as int],
            vert_rad[verts.vi2 as int],
        );
        if self.gouraud(n, verts, vert_rad, out) {
            let w = choose|w: u32| #[trigger]
                self.rest.ensures((n.hit.u, n.hit.v), w) && self.blend.ensures(
                    (weights(n, w), a, b, c),
                    out,
                );
            assert(self.blend.ensures((weights(m, w), c, b, a), out));
        }
        if self.gouraud(m, reversed, vert_rad, out) {
            let w = choose|w: u32| #[trigger]
                self.rest.ensures((n.hit.u, n.hit.v), w) && self.blend.ensures(
                    (weights(m, w), c, b, a),
                    out,
                );
            assert(self.blend.ensures((weights(n, w), a, b, c), out));
        }
    }

    /// Where every crossing of a ray is a miss, a call of `shade_ray` returns the
    /// colour of no radiosity.
    pub proof fn law_call_shades_misses(
        self,
        ray: Ray,
        geom: &[PatchGeom],
        verts: &[PatchVerts],
        vert_rad: &[Vec3],
        white: u32,
        r: Rgb8,
    )
        requires
            call_ensures(Self::shade_ray, (&self, ray, geom, verts, vert_rad, white), r),
            forall|t: OccluderTriangle, c: Crossing| #[trigger]
                self.cross.ensures((ray, t), c) ==> !is_nan(c.det) && !slanted(c.det) || lt(
                    c.u,
                    ZERO,
                ) || lt(c.v, ZERO) || lt(ONE, c.uv) || !lt(NEAR, c.t),
        ensures
            self.tone.ensures((Vec3 { x: 0, y: 0, z: 0 }, white), r),
    {
        let hit = choose|hit: Option<NearestHit>| #[trigger]
            self.nearest_along(false, ray, geom@, hit) && match hit {
                Some(n) => self.hit_colour(n, verts@[n.patch as int], vert_rad@, white, r),
                None => self.tone.ensures((zero3(), white), r),
            };
        let answers = choose|answers: Seq<Option<Hit>>| #[trigger]
            self.crossed(false, ray, geom@, answers) && nearest(answers, hit);
        if let Some(n) = hit {
            assert(self.meets(false, ray, probe(geom@, probe_of(n)), answers[probe_of(n)]));
        }
    }

    /// Where a patch is crossed, in either order of its corners, between its edges
    /// and ahead at a finite distance, a call of `shade_ray` returns the colour of a
    /// radiosity that is interpolated at a hit no farther than that crossing, on the
    /// patch that is hit and between the vertices of that patch.
    pub proof fn law_call_shades_nearest(
        self,
        ray: Ray,
        geom: &[PatchGeom],
        verts: &[PatchVerts],
        vert_rad: &[Vec3],
        white: u32,
        r: Rgb8,
        p: int,
        t: OccluderTriangle,
        c: Crossing,
    )
        requires
            call_ensures(Self::shade_ray, (&self, ray, geom, verts, vert_rad, white), r),
            forall|d: Crossing| #[trigger] self.cross.ensures((ray, t), d) ==> d == c,
            0 <= p < geom@.len(),
            t == (OccluderTriangle { v0: geom@[p].v0, v1: geom@[p].v1, v2: geom@[p].v2 }) || t == (
            OccluderTriangle { v0: geom@[p].v2, v1: geom@[p].v1, v2: geom@[p].v0 }),
            slanted(c.det),
            le(ZERO, c.u),
            le(ZERO, c.v),
            le(c.u, c.uv),
            le(c.uv, ONE),
            lt(NEAR, c.t),
            lt(c.t, INFINITY),
        ensures
            exists|n: NearestHit, d: Crossing, left: u32, radiosity: Vec3|
                #![trigger self.cross.ensures((ray, probe(geom@, probe_of(n))), d), self.rest.ensures((n.hit.u, n.hit.v), left), self.tone.ensures((radiosity, white), r)]
                {
                    &&& n.patch < geom@.len()
                    &&& !lt(c.t, n.hit.t)
                    &&& n.hit == (Hit { t: d.t, u: d.u, v: d.v })
                    &&& self.rest.ensures((n.hit.u, n.hit.v), left)
                    &&& self.tone.ensures((radiosity, white), r)
                    &&& !n.flipped ==> self.cross.ensures(
                        (
                            ray,
                            OccluderTriangle {
                                v0: geom@[n.patch as int].v0,
                                v1: geom@[n.patch as int].v1,
                                v2: geom@[n.patch as int].v2,
                            },
                        ),
                        d,
                    ) && self.blend.ensures(
                        (
                            Vec3 { x: left, y: d.u, z: d.v },
                            vert_rad@[verts@[n.patch as int].vi0 as int],
                            vert_rad@[verts@[n.patch as int].vi1 as int],
                            vert_rad@[verts@[n.patch as int].vi2 as int],
                        ),
                        radiosity,
                    )
                    &&& n.flipped ==> self.cross.ensures(
                        (
                            ray,
                            OccluderTriangle {
                                v0: geom@[n.patch as int].v2,
                                v1: geom@[n.patch as int].v1,
                                v2: geom@[n.patch as int].v0,
                            },
                        ),
                        d,
                    ) && self.blend.ensures(
                        (
                            Vec3 { x: d.v, y: d.u, z: left },
                            vert_rad@[verts@[n.patch as int].vi0 as int],
                            vert_rad@[verts@[n.patch as int].vi1 as int],
                            vert_rad@[verts@[n.patch as int].vi2 as int],
                        ),
                        radiosity,
                    )
                },
    {
        let hit = choose|hit: Option<NearestHit>| #[trigger]
            self.nearest_along(false, ray, geom@, hit) && match hit {
                Some(n) => self.hit_colour(n, verts@[n.patch as int], vert_rad@, white, r),
                None => self.tone.ensures((zero3(), white), r),
            };
        let answers = choose|answers: Seq<Option<Hit>>| #[trigger]
            self.crossed(false, ray, geom@, answers) && nearest(answers, hit);
        let k = if t == (OccluderTriangle { v0: geom@[p].v0, v1: geom@[p].v1, v2: geom@[p].v2 }) {
            2 * p
        } else {
            2 * p + 1
        };
        assert(probe(geom@, k) == t);
        assert(self.meets(false, ray, probe(geom@, k), answers[k]));
        assert(answers[k] == Some(Hit { t: c.t, u: c.u, v: c.v }));
        let n = hit->0;
        let radiosity = choose|radiosity: Vec3| #[trigger]
            self.gouraud(n, verts@[n.patch as int], vert_rad@, radiosity) && self.tone.ensures(
                (radiosity, white),
                r,
            );
        let left = choose|w: u32| #[trigger]
            self.rest.ensures((n.hit.u, n.hit.v), w) && self.blend.ensures(
                (
                    weights(n, w),
                    vert_rad@[verts@[n.patch as int].vi0 as int],
                    vert_rad@[verts@[n.patch as int].vi1 as int],
                    vert_rad@[verts@[n.patch as int].vi2 as int],
                ),
                radiosity,
            );
        assert(self.meets(false, ray, probe(geom@, probe_of(n)), answers[probe_of(n)]));
        let d = choose|d: Crossing| #[trigger]
            self.cross.ensures((ray, probe(geom@, probe_of(n))), d) && answers[probe_of(n)]
                == hit_of(false, d);
        assert(self.cross.ensures((ray, probe(geom@, probe_of(n))), d));
    }

    /// A call of `shade_pixel` returns a colour of a ray of the camera through that
    /// pixel.
    pub proof fn law_call_shades_its_pixel(
        self,
        camera: Camera,
        aspect: u32,
        px: u32,
        py: u32,
        geom: &[PatchGeom],
        verts: &[PatchVerts],
        vert_rad: &[Vec3],
        white: u32,
        r: Rgb8,
        ray: Ray,
    )
        requires
            call_ensures(
                Self::shade_pixel,
                (&self, &camera, aspect, px, py, geom, verts, vert_rad, white),
                r,
            ),
            forall|s: Ray| #[trigger] self.ray.ensures((camera, aspect, px, py), s) ==> s == ray,
        ensures
            self.shaded(ray, geom@, verts@, vert_rad@, white, r),
    {
    }

    /// A call of `render_row` returns three bytes per pixel, left to right: the colour
    /// of the camera's ray through each.
    pub proof fn law_call_renders_row(
        self,
        camera: Camera,
        aspect: u32,
        py: u32,
        geom: &[PatchGeom],
        verts: &[PatchVerts],
        vert_rad: &[Vec3],
        white: u32,
        r: Vec<u8>,
        px: u32,
        ray: Ray,
    )
        requires
            call_ensures(
                Self::render_row,
                (&self, &camera, aspect, py, geom, verts, vert_rad, white),
                r,
            ),
            px < camera.width,
            forall|s: Ray| #[trigger] self.ray.ensures((camera, aspect, px, py), s) ==> s == ray,
        ensures
            r@.len() == 3 * camera.width,
            self.shaded(
                ray,
                geom@,
                verts@,
                vert_rad@,
                white,
                (Rgb8 { r: r@[3 * px as int], g: r@[3 * px + 1], b: r@[3 * px + 2] }),
            ),
    {
        assert(rgb_at(r@, px as int) == (Rgb8 {
            r: r@[3 * px as int],
            g: r@[3 * px + 1],
            b: r@[3 * px + 2],
        }));
    }
}

/// In a rendered frame the three bytes of pixel `(px, py)` lie behind those of all
/// rows above and of all pixels to the left, red first.
pub proof fn law_frame_layout(
    colour: spec_fn(u32, u32, Rgb8) -> bool,
    width: u32,
    height: u32,
    frame: Seq<u8>,
    px: u32,
    py: u32,
)
    requires
        frame_rendered(colour, width, height, frame),
        px < width,
        py < height,
    ensures
        frame.len() == 3 * (width * height),
        colour(
            px,
            py,
            (Rgb8 {
                r: frame[3 * (py * width + px)],
                g: frame[3 * (py * width + px) + 1],
                b: frame[3 * (py * width + px) + 2],
            }),
        ),
{
    assert(colour(px, py, rgb_at(frame, pixel_index(width as int, px as int, py as int))));
}

/// A call of `frame_image` on enough bytes keeps them as the pixels of an image of that
/// size; on too few it fails.
pub proof fn law_call_makes_image(
    width: u32,
    height: u32,
    frame: Vec<u8>,
    r: Option<image::DynamicImage>,
)
    requires
        call_ensures(frame_image, (width, height, frame), r),
        3 * width <= usize::MAX,
    ensures
        r is Some <==> frame@.len() >= 3 * (width * height),
        r matches Some(i) ==> image_size(i) == (width, height) && image_bytes(i) == frame@.take(
            3 * (width * height),
        ),
{
}

/// A call of `reports_progress` is true at the last row and at every 64th.
pub proof fn law_call_reports(done: u32, height: u32, k: u32, r: bool)
    requires
        call_ensures(reports_progress, (done, height), r),
    ensures
        done == height ==> r,
        done == 64 * k ==> r,
        64 * k < done < 64 * k + 64 && done != height ==> !r,
{
}

} // verus!
