use et_radiosity::abi::PatchGeom;
use et_radiosity::ff_kernel::Crossing;
use et_radiosity::ieee::{Vec3, ONE};
use et_radiosity::render::{
    frame_image, join_rows, moller_trumbore, nearest_hit, reports_progress, white_point, Camera,
    Hit, NearestHit, Ray, RayMath, Rgb8, EYE_DEPTH, HALF, NEAR, PARALLEL,
};
use et_radiosity::scene::OccluderTriangle;
use et_radiosity::vertices::PatchVerts;

type Math = RayMath<
    fn(Camera, u32, u32, u32) -> Ray,
    Box<dyn Fn(Ray, OccluderTriangle) -> Crossing>,
    fn(u32, u32) -> u32,
    fn(Vec3, Vec3, Vec3, Vec3) -> Vec3,
    fn(Vec3, u32) -> Rgb8,
>;

fn bits(x: f32) -> u32 {
    x.to_bits()
}

fn v3(x: f32, y: f32, z: f32) -> Vec3 {
    Vec3 { x: bits(x), y: bits(y), z: bits(z) }
}

fn crossing(det: f32, u: f32, v: f32, t: f32) -> Crossing {
    Crossing { det: bits(det), u: bits(u), v: bits(v), uv: bits(u + v), t: bits(t) }
}

fn hit(t: f32, u: f32, v: f32) -> Hit {
    Hit { t: bits(t), u: bits(u), v: bits(v) }
}

/// Patches whose corners carry their number and place.
fn geom(n: u32) -> Vec<PatchGeom> {
    (0..n)
        .map(|i| PatchGeom {
            v0: Vec3 { x: i, y: 0, z: 0 },
            _p0: 0,
            v1: Vec3 { x: i, y: 1, z: 0 },
            _p1: 0,
            v2: Vec3 { x: i, y: 2, z: 0 },
            _p2: 0,
        })
        .collect()
}

fn rest(u: u32, v: u32) -> u32 {
    bits(1.0 - f32::from_bits(u) - f32::from_bits(v))
}

fn blend(w: Vec3, a: Vec3, b: Vec3, c: Vec3) -> Vec3 {
    let f = f32::from_bits;
    let one = |x: u32, y: u32, z: u32| bits(f(w.x) * f(x) + f(w.y) * f(y) + f(w.z) * f(z));
    Vec3 { x: one(a.x, b.x, c.x), y: one(a.y, b.y, c.y), z: one(a.z, b.z, c.z) }
}

fn tone(x: Vec3, white: u32) -> Rgb8 {
    let f = |x: u32| f32::from_bits(x) as u8 + white as u8;
    Rgb8 { r: f(x.x), g: f(x.y), b: f(x.z) }
}

/// A ray that carries its pixel.
fn ray(camera: Camera, aspect: u32, px: u32, py: u32) -> Ray {
    Ray { origin: camera.eye, direction: Vec3 { x: px, y: py, z: aspect } }
}

const MISS: Crossing = Crossing { det: 0, u: 0, v: 0, uv: 0, t: 0 };

fn ahead() -> Ray {
    Ray { origin: v3(0.0, 0.0, 0.0), direction: v3(0.0, 0.0, 1.0) }
}

fn math(cross: impl Fn(Ray, OccluderTriangle) -> Crossing + 'static) -> Math {
    RayMath { ray, cross: Box::new(cross), rest, blend, tone }
}

#[test]
fn render_constants() {
    assert_eq!(PARALLEL, bits(1.0e-7));
    assert_eq!(NEAR, bits(1.0e-4));
    assert_eq!(HALF, bits(0.5));
    assert_eq!(EYE_DEPTH, bits(-1.4));
}

#[test]
fn camera_stands_in_front_of_the_box() {
    let c = Camera::cornell_default(640, 480, 7);
    assert_eq!(c.eye, v3(0.5, 0.5, -1.4));
    assert_eq!(c.forward, v3(0.0, 0.0, 1.0));
    assert_eq!(c.right, v3(1.0, 0.0, 0.0));
    assert_eq!(c.up, v3(0.0, 1.0, 0.0));
    assert_eq!((c.tan_half_fov, c.width, c.height), (7, 640, 480));
}

#[test]
fn host_rays_hit_both_sides() {
    assert_eq!(moller_trumbore(&crossing(1.0, 0.25, 0.5, 2.0)), Some(hit(2.0, 0.25, 0.5)));
    assert_eq!(moller_trumbore(&crossing(-1.0, 0.25, 0.5, 2.0)), Some(hit(2.0, 0.25, 0.5)));
    assert_eq!(moller_trumbore(&crossing(0.9e-7, 0.25, 0.5, 2.0)), None);
    assert_eq!(moller_trumbore(&crossing(-0.9e-7, 0.25, 0.5, 2.0)), None);
    assert_eq!(moller_trumbore(&crossing(1.0, -0.1, 0.5, 2.0)), None);
    assert_eq!(moller_trumbore(&crossing(1.0, 1.5, 0.0, 2.0)), None);
    assert_eq!(moller_trumbore(&crossing(1.0, f32::NAN, 0.0, 2.0)), None);
    assert_eq!(moller_trumbore(&crossing(1.0, 0.25, -0.5, 2.0)), None);
    assert_eq!(moller_trumbore(&crossing(1.0, 0.5, 0.75, 2.0)), None);
    assert_eq!(moller_trumbore(&crossing(1.0, 0.25, 0.5, 1.0e-4)), None);
    assert_eq!(moller_trumbore(&crossing(1.0, 0.25, 0.5, -2.0)), None);
}

#[test]
fn nearest_of_several_hits_wins() {
    let meet = |t: OccluderTriangle| match (t.v0.x, t.v0.y) {
        (0, 0) => Some(hit(5.0, 0.1, 0.1)),
        (1, 2) => Some(hit(2.0, 0.2, 0.2)),
        (2, 0) => Some(hit(3.0, 0.3, 0.3)),
        _ => None,
    };
    assert_eq!(
        nearest_hit(&geom(3), meet),
        Some(NearestHit { patch: 1, hit: hit(2.0, 0.2, 0.2), flipped: true })
    );
}

#[test]
fn first_of_equal_hits_wins() {
    let meet = |t: OccluderTriangle| Some(hit(1.0, 0.1, t.v0.x as f32));
    assert_eq!(
        nearest_hit(&geom(3), meet),
        Some(NearestHit { patch: 0, hit: hit(1.0, 0.1, 0.0), flipped: false })
    );
}

#[test]
fn reversed_winding_swaps_the_outer_corners() {
    let meet = |t: OccluderTriangle| {
        assert_eq!(t.v1.y, 1);
        assert_eq!(t.v0.y + t.v2.y, 2);
        if t.v0.y == 2 { Some(hit(1.0, 0.1, 0.2)) } else { None }
    };
    assert!(nearest_hit(&geom(1), meet).unwrap().flipped);
}

#[test]
fn rays_can_miss() {
    assert_eq!(nearest_hit(&geom(3), |_: OccluderTriangle| None), None);
    assert_eq!(nearest_hit(&[], |_: OccluderTriangle| Some(hit(1.0, 0.0, 0.0))), None);
    let lost = |t: OccluderTriangle| {
        Some(hit(if t.v0.y == 0 { f32::INFINITY } else { f32::NAN }, 0.0, 0.0))
    };
    assert_eq!(nearest_hit(&geom(2), lost), None);
}

#[test]
fn weights_follow_the_winding() {
    let rad = [v3(1.0, 0.0, 0.0), v3(0.0, 1.0, 0.0), v3(0.0, 0.0, 1.0)];
    let verts = PatchVerts { vi0: 0, vi1: 1, vi2: 2 };
    let mut n = NearestHit { patch: 0, hit: hit(1.0, 0.25, 0.5), flipped: false };
    assert_eq!(math(|_, _| MISS).interpolate(n, verts, &rad), v3(0.25, 0.25, 0.5));
    n.flipped = true;
    n.hit = hit(1.0, 0.125, 0.5);
    assert_eq!(math(|_, _| MISS).interpolate(n, verts, &rad), v3(0.5, 0.125, 0.375));
}

#[test]
fn rays_take_the_colour_of_their_hit() {
    let rad = [v3(9.0, 9.0, 9.0), v3(4.0, 8.0, 12.0)];
    let verts = [PatchVerts { vi0: 0, vi1: 0, vi2: 0 }, PatchVerts { vi0: 1, vi1: 1, vi2: 1 }];
    let second = math(|_, t| if t.v0.x == 1 { crossing(1.0, 0.25, 0.25, 1.0) } else { MISS });
    let c = second.shade_ray(ahead(), &geom(2), &verts, &rad, 1);
    assert_eq!(c, Rgb8 { r: 5, g: 9, b: 13 });
    // A back face counts as well.
    let behind = math(|_, t| if t.v0.x == 1 { crossing(-1.0, 0.25, 0.25, 1.0) } else { MISS });
    assert_eq!(behind.shade_ray(ahead(), &geom(2), &verts, &rad, 1), c);
    let miss = math(|_, _| MISS).shade_ray(ahead(), &geom(2), &verts, &rad, 1);
    assert_eq!(miss, Rgb8 { r: 1, g: 1, b: 1 });
}

#[test]
fn patches_behind_the_hit_change_nothing() {
    let rad = [v3(9.0, 9.0, 9.0), v3(4.0, 8.0, 12.0)];
    let verts = [PatchVerts { vi0: 1, vi1: 1, vi2: 1 }, PatchVerts { vi0: 0, vi1: 0, vi2: 0 }];
    for other in [MISS, crossing(1.0, 0.25, 0.25, 1.0), crossing(1.0, 0.25, 0.25, 5.0)] {
        let m = math(move |_, t| if t.v0.x == 0 { crossing(1.0, 0.25, 0.25, 1.0) } else { other });
        let alone = m.shade_ray(ahead(), &geom(1), &verts[..1], &rad, 1);
        assert_eq!(m.shade_ray(ahead(), &geom(2), &verts, &rad, 1), alone);
        assert_eq!(alone, Rgb8 { r: 5, g: 9, b: 13 });
    }
    let nearer =
        math(|_, t| crossing(1.0, 0.25, 0.25, if t.v0.x == 0 { 1.0 } else { 0.5 }));
    let c = nearer.shade_ray(ahead(), &geom(2), &verts, &rad, 1);
    assert_eq!(c, Rgb8 { r: 10, g: 10, b: 10 });
}

#[test]
fn white_point_is_the_largest_luminance() {
    let lum = |c: Vec3| {
        let f = f32::from_bits;
        bits(0.2126 * f(c.x) + 0.7152 * f(c.y) + 0.0722 * f(c.z))
    };
    assert_eq!(white_point(&[], lum), ONE);
    assert_eq!(white_point(&[v3(0.5, 0.5, 0.5)], lum), ONE);
    assert_eq!(
        white_point(&[v3(1.0, 1.0, 1.0), v3(10.0, 10.0, 10.0), v3(3.0, 0.0, 0.0)], lum),
        bits(0.2126 * 10.0 + 0.7152 * 10.0 + 0.0722 * 10.0)
    );
    assert_eq!(white_point(&[v3(f32::NAN, 1.0, 1.0), v3(-5.0, 0.0, 0.0)], lum), ONE);
    assert_eq!(white_point(&[v3(f32::INFINITY, 0.0, 0.0)], lum), bits(f32::INFINITY));
}

#[test]
fn rows_make_up_the_frame() {
    let (w, h) = (3u32, 2u32);
    let camera = Camera::cornell_default(w, h, 0);
    let m = RayMath {
        ray,
        cross: |r: Ray, _: OccluderTriangle| Crossing {
            u: r.direction.x,
            v: r.direction.y,
            ..crossing(1.0, 0.0, 0.0, 1.0)
        },
        rest,
        blend: |w: Vec3, _: Vec3, _: Vec3, _: Vec3| w,
        tone: |x: Vec3, white: u32| Rgb8 { r: x.y as u8, g: x.z as u8, b: white as u8 },
    };
    let verts = [PatchVerts { vi0: 0, vi1: 0, vi2: 0 }];
    let rad = [v3(0.0, 0.0, 0.0)];
    // The order of rendering does not matter.
    let last = m.render_row(&camera, ONE, 1, &geom(1), &verts, &rad, 7);
    let rows = vec![m.render_row(&camera, ONE, 0, &geom(1), &verts, &rad, 7), last];
    let frame = join_rows(&rows, w);
    assert_eq!(frame.len(), 18);
    for py in 0..h {
        for px in 0..w {
            let at = ((py * w + px) * 3) as usize;
            assert_eq!(frame[at..at + 3], [px as u8, py as u8, 7]);
            let p = m.shade_pixel(&camera, ONE, px, py, &geom(1), &verts, &rad, 7);
            assert_eq!(frame[at..at + 3], [p.r, p.g, p.b]);
        }
    }
}

#[test]
fn progress_is_reported_now_and_again() {
    assert!(reports_progress(64, 512));
    assert!(reports_progress(100, 100));
    assert!(!reports_progress(65, 512));
}

#[test]
fn frame_becomes_an_image() {
    let frame: Vec<u8> = (0..18).collect();
    let image = frame_image(3, 2, frame.clone()).unwrap();
    assert_eq!((image.width(), image.height()), (3, 2));
    assert_eq!(image.as_bytes(), &frame[..]);
    assert_eq!(image.color(), image::ColorType::Rgb8);
    assert_eq!(image.to_rgb8().get_pixel(1, 1).0, [12, 13, 14]);
}

#[test]
fn short_frames_make_no_image() {
    assert!(frame_image(3, 2, vec![0; 17]).is_none());
    assert!(frame_image(3, 2, vec![0; 19]).is_some());
}
