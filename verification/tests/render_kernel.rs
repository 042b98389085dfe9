use et_radiosity::abi::{PatchGeom, RenderArgs};
use et_radiosity::ff_kernel::Crossing;
use et_radiosity::ieee::{Vec3, ONE, ZERO};
use et_radiosity::render::{join_rows, Camera, Hit, Ray, RayMath, Rgb8};
use et_radiosity::render_kernel::{
    entry_point, moller_trumbore, pow22, read_camera, read_triples, PixelWrite, VertexTriple,
};
use et_radiosity::scene::OccluderTriangle;
use et_radiosity::vertices::PatchVerts;

type Math = RayMath<
    fn(Camera, u32, u32, u32) -> Ray,
    Box<dyn Fn(Ray, OccluderTriangle) -> Crossing>,
    fn(u32, u32) -> u32,
    fn(Vec3, Vec3, Vec3, Vec3) -> Vec3,
    fn(Vec3, u32) -> Rgb8,
>;

fn bits(x: f32) -> u32 {
    x.to_bits()
}

fn v3(x: f32, y: f32, z: f32) -> Vec3 {
    Vec3 { x: bits(x), y: bits(y), z: bits(z) }
}

fn args(width: u32, height: u32, n_harts: u32) -> RenderArgs {
    RenderArgs {
        patch_geom_addr: 0,
        vert_rad_addr: 0,
        patch_vi_addr: 0,
        pixels_addr: 0x1000,
        camera_addr: 0,
        white: ONE,
        width,
        height,
        n_patches: 1,
        n_verts: 1,
        n_harts,
        _pad: 0,
    }
}

fn pixel(px: u32, py: u32) -> Rgb8 {
    Rgb8 { r: px as u8, g: py as u8, b: 9 }
}

fn crossing(det: f32, u: f32, v: f32, t: f32) -> Crossing {
    Crossing { det: bits(det), u: bits(u), v: bits(v), uv: bits(u + v), t: bits(t) }
}

const MISS: Crossing = Crossing { det: 0, u: 0, v: 0, uv: 0, t: 0 };

/// Patches whose corners carry their number and place.
fn geom(n: u32) -> Vec<PatchGeom> {
    let corner = |x: u32, y: u32| Vec3 { x, y, z: 0 };
    (0..n)
        .map(|i| PatchGeom {
            v0: corner(i, 0),
            _p0: 0,
            v1: corner(i, 1),
            _p1: 0,
            v2: corner(i, 2),
            _p2: 0,
        })
        .collect()
}

/// A ray that carries its pixel.
fn ray(camera: Camera, aspect: u32, px: u32, py: u32) -> Ray {
    Ray { origin: camera.eye, direction: Vec3 { x: px, y: py, z: aspect } }
}

fn ahead() -> Ray {
    Ray { origin: v3(0.0, 0.0, 0.0), direction: v3(0.0, 0.0, 1.0) }
}

fn rest(u: u32, v: u32) -> u32 {
    bits(1.0 - f32::from_bits(u) - f32::from_bits(v))
}

fn blend(w: Vec3, a: Vec3, b: Vec3, c: Vec3) -> Vec3 {
    let f = f32::from_bits;
    let one = |x: u32, y: u32, z: u32| bits(f(w.x) * f(x) + f(w.y) * f(y) + f(w.z) * f(z));
    Vec3 { x: one(a.x, b.x, c.x), y: one(a.y, b.y, c.y), z: one(a.z, b.z, c.z) }
}

fn weights(w: Vec3, _: Vec3, _: Vec3, _: Vec3) -> Vec3 {
    w
}

fn tone(x: Vec3, white: u32) -> Rgb8 {
    let f = |x: u32| f32::from_bits(x) as u8 + white as u8;
    Rgb8 { r: f(x.x), g: f(x.y), b: f(x.z) }
}

fn math(cross: impl Fn(Ray, OccluderTriangle) -> Crossing + 'static) -> Math {
    RayMath { ray, cross: Box::new(cross), rest, blend, tone }
}

/// Arithmetic that colours a pixel by its place.
fn placing() -> Math {
    RayMath {
        ray,
        cross: Box::new(|r, _| Crossing {
            u: r.direction.x,
            v: r.direction.y,
            ..crossing(1.0, 0.0, 0.0, 1.0)
        }),
        rest: |_, _| 9,
        blend: weights,
        tone: |x, _| Rgb8 { r: x.y as u8, g: x.z as u8, b: x.x as u8 },
    }
}

fn placed(args: &RenderArgs, hart: u32) -> Option<Vec<PixelWrite>> {
    let camera = Camera::cornell_default(args.width, args.height, ONE);
    let triples = [VertexTriple { vi0: 0, vi1: 0, vi2: 0 }];
    entry_point(args, hart, &camera, ONE, &geom(1), &triples, &[v3(0.0, 0.0, 0.0)], &placing())
}

#[test]
fn harts_take_pixels_in_turn() {
    let writes = placed(&args(4, 3, 5), 2).unwrap();
    let addresses: Vec<u64> = writes.iter().map(|w| w.address).collect();
    assert_eq!(addresses, vec![0x1000 + 6, 0x1000 + 21]);
    assert_eq!(writes[0].rgb, pixel(2, 0));
    assert_eq!(writes[1].rgb, pixel(3, 1));
}

#[test]
fn harts_together_write_the_frame() {
    let (w, h) = (7u32, 5u32);
    for n_harts in 1..40 {
        let mut frame = vec![0xEEu8; (w * h * 3) as usize];
        let mut count = 0;
        for hart in 0..n_harts {
            for write in placed(&args(w, h, n_harts), hart).unwrap() {
                let at = (write.address - 0x1000) as usize;
                frame[at] = write.rgb.r;
                frame[at + 1] = write.rgb.g;
                frame[at + 2] = write.rgb.b;
                count += 1;
            }
        }
        assert_eq!(count, w * h);
        let camera = Camera::cornell_default(w, h, ONE);
        let verts = [PatchVerts { vi0: 0, vi1: 0, vi2: 0 }];
        let rows: Vec<Vec<u8>> = (0..h)
            .map(|py| {
                placing().render_row(&camera, ONE, py, &geom(1), &verts, &[v3(0.0, 0.0, 0.0)], ONE)
            })
            .collect();
        assert_eq!(frame, join_rows(&rows, w));
    }
}

#[test]
fn surplus_harts_write_no_pixel() {
    assert!(placed(&args(4, 3, 5), 5).is_none());
    assert!(placed(&args(4, 3, 0), 0).is_none());
    assert!(placed(&args(2, 2, 64), 63).unwrap().is_empty());
    assert!(placed(&args(0, 7, 4), 1).unwrap().is_empty());
}

#[test]
fn camera_is_read_from_its_buffer() {
    let words: Vec<u32> = (1..15).collect();
    let (c, aspect) = read_camera(&words, 640, 480);
    assert_eq!(c.eye, Vec3 { x: 1, y: 2, z: 3 });
    assert_eq!(c.forward, Vec3 { x: 4, y: 5, z: 6 });
    assert_eq!(c.right, Vec3 { x: 7, y: 8, z: 9 });
    assert_eq!(c.up, Vec3 { x: 10, y: 11, z: 12 });
    assert_eq!((c.tan_half_fov, aspect, c.width, c.height), (13, 14, 640, 480));
}

#[test]
fn kernel_rays_hit_front_faces() {
    let hit = Hit { t: bits(2.0), u: bits(0.25), v: bits(0.5) };
    assert_eq!(moller_trumbore(&crossing(1.0, 0.25, 0.5, 2.0)), Some(hit));
    assert_eq!(moller_trumbore(&crossing(-1.0, 0.25, 0.5, 2.0)), None);
    assert_eq!(moller_trumbore(&crossing(0.5e-7, 0.25, 0.5, 2.0)), None);
    assert_eq!(moller_trumbore(&crossing(1.0, -0.25, 0.5, 2.0)), None);
    assert_eq!(moller_trumbore(&crossing(1.0, 1.25, 0.0, 2.0)), None);
    assert_eq!(moller_trumbore(&crossing(1.0, 0.25, -0.5, 2.0)), None);
    assert_eq!(moller_trumbore(&crossing(1.0, 0.75, 0.5, 2.0)), None);
    assert_eq!(moller_trumbore(&crossing(1.0, 0.25, 0.5, 1.0e-4)), None);
    assert!(moller_trumbore(&crossing(1.0, 0.25, 0.5, 1.1e-4)).is_some());
}

#[test]
fn cast_rays_are_shaded_or_black() {
    let rad = [v3(10.0, 0.0, 0.0), v3(0.0, 20.0, 0.0), v3(0.0, 0.0, 40.0)];
    let vi = [VertexTriple { vi0: 2, vi1: 1, vi2: 0 }];
    let h = crossing(1.0, 0.5, 0.25, 1.0);
    let natural = math(move |_, t| if t.v0.y == 0 { h } else { MISS });
    let c = natural.cast_ray(ahead(), &geom(1), &vi, &rad, 1);
    assert_eq!(c, Rgb8 { r: 3, g: 11, b: 11 });
    let flipped = math(move |_, t| if t.v0.y == 2 { h } else { MISS });
    let c = flipped.cast_ray(ahead(), &geom(1), &vi, &rad, 1);
    assert_eq!(c, Rgb8 { r: 3, g: 11, b: 11 });
    let miss = math(|_, _| MISS).cast_ray(ahead(), &geom(1), &vi, &rad, 1);
    assert_eq!(miss, Rgb8 { r: 0, g: 0, b: 0 });
    // A back face is a miss.
    let back = math(|_, _| crossing(-1.0, 0.5, 0.25, 1.0));
    assert_eq!(back.cast_ray(ahead(), &geom(1), &vi, &rad, 1), miss);
}

#[test]
fn missed_and_farther_patches_leave_the_colour() {
    let rad = [v3(8.0, 8.0, 8.0), v3(2.0, 4.0, 6.0)];
    let vi = [VertexTriple { vi0: 1, vi1: 1, vi2: 1 }, VertexTriple { vi0: 0, vi1: 0, vi2: 0 }];
    for other in [MISS, crossing(1.0, 0.5, 0.25, 1.0), crossing(1.0, 0.5, 0.25, 5.0)] {
        let m = math(move |_, t| if t.v0.x == 0 { crossing(1.0, 0.5, 0.25, 1.0) } else { other });
        let alone = m.cast_ray(ahead(), &geom(1), &vi[..1], &rad, 1);
        assert_eq!(m.cast_ray(ahead(), &geom(2), &vi, &rad, 1), alone);
        assert_eq!(alone, Rgb8 { r: 3, g: 5, b: 7 });
    }
    let nearer = math(|_, t| crossing(1.0, 0.5, 0.25, if t.v0.x == 0 { 1.0 } else { 0.5 }));
    assert_eq!(nearer.cast_ray(ahead(), &geom(2), &vi, &rad, 1), Rgb8 { r: 9, g: 9, b: 9 });
}

#[test]
fn flipped_hits_use_the_outer_vertices_the_other_way() {
    let rad = [v3(8.0, 0.0, 0.0), v3(0.0, 0.0, 0.0), v3(0.0, 0.0, 8.0)];
    let vi = [VertexTriple { vi0: 0, vi1: 1, vi2: 2 }];
    let hit = Crossing { det: ONE, u: 2, v: 3, uv: 5, t: ONE };
    let m = |reversed: bool| RayMath {
        ray,
        cross: move |_: Ray, t: OccluderTriangle| {
            if (t.v0.y == 2) == reversed { hit } else { MISS }
        },
        rest: |_: u32, _: u32| 1,
        blend: weights,
        tone: |c: Vec3, _: u32| Rgb8 { r: c.x as u8, g: c.y as u8, b: c.z as u8 },
    };
    assert_eq!(
        m(false).cast_ray(ahead(), &geom(1), &vi, &rad, ONE),
        Rgb8 { r: 1, g: 2, b: 3 }
    );
    assert_eq!(
        m(true).cast_ray(ahead(), &geom(1), &vi, &rad, ONE),
        Rgb8 { r: 3, g: 2, b: 1 }
    );
}

#[test]
fn gamma_keeps_the_ends() {
    assert_eq!(pow22(bits(0.0)), ZERO);
    assert_eq!(pow22(bits(-3.0)), ZERO);
    assert_eq!(pow22(bits(1.0)), ONE);
    assert_eq!(pow22(bits(7.0)), ONE);
    assert_eq!(pow22(bits(f32::INFINITY)), ONE);
}

#[test]
fn gamma_scales_the_pattern() {
    // 0.5 is 0x80_0000 patterns below one; 4545/10000 of that is 3812622.
    assert_eq!(pow22(bits(0.5)), ONE - 3812622);
    assert_eq!(pow22(bits(0.25)), ONE - 7625244);
}

#[test]
fn gamma_stays_near_the_root() {
    let ratio = |x: u32| {
        f32::from_bits(pow22(x)) as f64 / (f32::from_bits(x) as f64).powf(1.0 / 2.2)
    };
    let (mut least, mut most) = (1.0f64, 1.0f64);
    for x in (0x80_0000..ONE).step_by(9973) {
        least = least.min(ratio(x));
        most = most.max(ratio(x));
    }
    assert!(0.97 <= least && most <= 1.07);
    // The bounds are used up to within half a percent.
    assert!(least < 0.975 && most > 1.065);
}

#[test]
fn gamma_is_monotone_and_brightens() {
    let mut previous = ZERO;
    for i in 1..1000 {
        let x = bits(i as f32 / 1000.0);
        let y = pow22(x);
        assert!(y >= previous && y >= x && y <= ONE);
        previous = y;
    }
}

#[test]
fn vertex_triples_are_read_in_order() {
    assert_eq!(
        read_triples(&[2, 0, 1, 5, 4, 3]),
        vec![VertexTriple { vi0: 2, vi1: 0, vi2: 1 }, VertexTriple { vi0: 5, vi1: 4, vi2: 3 }]
    );
    assert!(read_triples(&[]).is_empty());
}
