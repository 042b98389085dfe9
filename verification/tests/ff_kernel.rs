use et_radiosity::abi::{FormFactorArgs, Patch};
use et_radiosity::ff_kernel::{
    entry_point, moller_trumbore, padded_count, read_occluder, row_range, Crossing, PairMath,
    Segment, EPS, MIN_DISTANCE, MIN_DISTANCE_SQUARED, T_MIN,
};
use et_radiosity::ieee::{Vec3, ZERO};
use et_radiosity::scene::OccluderTriangle;
use std::cell::Cell;
use std::rc::Rc;

type Pairs = Box<dyn Fn(Vec3, Vec3, Vec3, Vec3) -> (u32, u32)>;
type Aim = Box<dyn Fn(Vec3, Vec3) -> Segment>;
type Batches = Box<dyn Fn(&[u32], usize, usize, Segment, &[u32]) -> u64>;
type Cross = Box<dyn Fn(Segment, OccluderTriangle) -> Crossing>;
type Square = Box<dyn Fn(Vec3, Vec3) -> u32>;
type Formula = Box<dyn Fn(u32, u32, u32, u32) -> u32>;
type Math = PairMath<Pairs, Aim, fn(u32, u32) -> u32, Batches, Cross, Square, Pairs, Formula>;

fn bits(x: f32) -> u32 {
    x.to_bits()
}

fn args(n_patches: u32, n_harts: u32) -> FormFactorArgs {
    FormFactorArgs {
        patches_addr: 0,
        ff_matrix_addr: 0x8000,
        occluder_addr: 0,
        n_patches,
        n_harts,
        n_occluders: 0,
        _pad: 0,
    }
}

fn minus(a: u32, b: u32) -> u32 {
    bits(f32::from_bits(a) - f32::from_bits(b))
}

fn crossing(det: f32, u: f32, v: f32, t: f32) -> Crossing {
    Crossing { det: bits(det), u: bits(u), v: bits(v), uv: bits(u + v), t: bits(t) }
}

const MISS: Crossing = Crossing { det: 0, u: 0, v: 0, uv: 0, t: 0 };

fn v3(x: f32, y: f32, z: f32) -> Vec3 {
    Vec3 { x: bits(x), y: bits(y), z: bits(z) }
}

fn patch(centroid: Vec3, normal: Vec3, area: f32) -> Patch {
    Patch { centroid, normal, area: bits(area), _pad: 0 }
}

/// A patch whose area and first coordinate are its number.
fn numbered(i: u32) -> Patch {
    patch(v3(i as f32, 0.0, 0.0), v3(0.0, 0.0, 1.0), i as f32)
}

fn words(patches: &[Patch]) -> Vec<u32> {
    let mut out = vec![];
    for p in patches {
        let (c, n) = (p.centroid, p.normal);
        out.extend([c.x, c.y, c.z, n.x, n.y, n.z, p.area, p._pad]);
    }
    out
}

fn dot(a: Vec3, b: [f32; 3]) -> f32 {
    f32::from_bits(a.x) * b[0] + f32::from_bits(a.y) * b[1] + f32::from_bits(a.z) * b[2]
}

fn between(a: Vec3, b: Vec3) -> [f32; 3] {
    let f = f32::from_bits;
    [f(b.x) - f(a.x), f(b.y) - f(a.y), f(b.z) - f(a.z)]
}

fn length2(d: [f32; 3]) -> f32 {
    d[0] * d[0] + d[1] * d[1] + d[2] * d[2]
}

/// Arithmetic on the patches' own places, with no occluder in the way.
fn plain() -> Math {
    PairMath {
        facing: Box::new(|a, m, b, n| {
            let d = between(a, b);
            (bits(dot(m, d)), bits(-dot(n, d)))
        }),
        aim: Box::new(|a, b| {
            let d = between(a, b);
            let l = length2(d).sqrt();
            Segment {
                origin: a,
                direction: v3(d[0] / l, d[1] / l, d[2] / l),
                length: bits(l),
            }
        }),
        minus,
        shadow_test: Box::new(|_, _, _, _, _| 0),
        cross: Box::new(|_, _| MISS),
        squared: Box::new(|a, b| bits(length2(between(a, b)))),
        cosines: Box::new(|a, m, b, n| {
            let d = between(a, b);
            let l = length2(d).sqrt();
            (bits(dot(m, d) / l), bits(-dot(n, d) / l))
        }),
        formula: Box::new(|c, d, r2, area| {
            let f = f32::from_bits;
            bits((f(c) * f(d)) / (std::f32::consts::PI * f(r2)) * f(area))
        }),
    }
}

/// Two patches that face each other over a distance of one.
fn pair() -> (Patch, Patch) {
    (
        patch(v3(0.0, 0.0, 0.0), v3(0.0, 0.0, 1.0), 1.0),
        patch(v3(0.0, 0.0, 1.0), v3(0.0, 0.0, -1.0), 0.5),
    )
}

fn at(t: f32) -> Crossing {
    crossing(1.0, 0.25, 0.25, t)
}

/// `n` occluders whose first coordinate is their number.
fn block(n: usize) -> Vec<u32> {
    let stride = padded_count(n);
    let mut soa = vec![0u32; 9 * stride];
    for i in 0..n {
        for c in 0..9 {
            soa[c * stride + i] = bits((100 * c + i) as f32);
        }
    }
    soa
}

#[test]
fn kernel_constants() {
    assert_eq!(MIN_DISTANCE, bits(1.0e-6));
    assert_eq!(T_MIN, bits(1.0e-3));
    assert_eq!(EPS, bits(1.0e-7));
    assert_eq!(MIN_DISTANCE_SQUARED, bits(1.0e-8));
}

#[test]
fn rows_are_shared_by_ceiling_division() {
    assert_eq!(row_range(10, 4, 0), (0, 3));
    assert_eq!(row_range(10, 4, 1), (3, 6));
    assert_eq!(row_range(10, 4, 2), (6, 9));
    assert_eq!(row_range(10, 4, 3), (9, 10));
    assert_eq!(row_range(3, 2048, 2), (2, 3));
    assert_eq!(row_range(3, 2048, 3), (3, 3));
    assert_eq!(row_range(0, 4, 1), (0, 0));
    assert_eq!(row_range(u32::MAX, 1, u32::MAX), (u32::MAX, u32::MAX));
}

#[test]
fn every_row_has_one_hart() {
    for n in 0..40u32 {
        for p in 1..12u32 {
            let mut owners = vec![0; n as usize];
            for h in 0..p {
                let (a, b) = row_range(n, p, h);
                for row in a..b {
                    owners[row as usize] += 1;
                }
            }
            assert!(owners.iter().all(|&o| o == 1));
        }
    }
}

/// Arithmetic whose form factors tell the two patches.
fn telling() -> Math {
    let mut m = plain();
    m.facing = Box::new(|_, _, _, _| (bits(1.0), bits(1.0)));
    m.squared = Box::new(|_, _| bits(1.0));
    m.cosines = Box::new(|a, _, _, _| (a.x, bits(1.0)));
    m.formula = Box::new(|c, _, _, area| {
        10 * f32::from_bits(c) as u32 + f32::from_bits(area) as u32
    });
    m
}

#[test]
fn harts_fill_the_matrix() {
    let n = 5u32;
    let a = args(n, 3);
    let patches: Vec<Patch> = (1..=n).map(numbered).collect();
    let mut matrix = vec![u32::MAX; 25];
    for hart in 0..3 {
        let b = entry_point(&a, hart, &words(&patches), &[], &telling()).unwrap();
        assert_eq!(b.reports, hart == 0);
        let at = ((b.address - 0x8000) / 4) as usize;
        matrix[at..at + b.values.len()].copy_from_slice(&b.values);
    }
    for i in 0..n {
        for j in 0..n {
            let expected = if i == j { ZERO } else { 10 * (i + 1) + j + 1 };
            assert_eq!(matrix[(i * n + j) as usize], expected);
        }
    }
}

#[test]
fn surplus_harts_do_nothing() {
    let five = words(&[numbered(1); 5]);
    assert!(entry_point(&args(5, 3), 3, &five, &[], &plain()).is_none());
    assert!(entry_point(&args(5, 0), 0, &five, &[], &plain()).is_none());
    let idle = entry_point(&args(2, 3), 2, &five[..16], &[], &plain()).unwrap();
    assert!(idle.values.is_empty());
}

#[test]
fn descriptors_give_the_matrix() {
    let (p, q) = pair();
    let aside = patch(v3(1.0, 0.0, 0.0), v3(0.0, 0.0, 1.0), 1.0);
    let soa = block(1);
    let a = FormFactorArgs { n_occluders: 1, ..args(3, 1) };
    let mut math = plain();
    // The occluder stands between the first two patches.
    math.cross = Box::new(|seg, _| if seg.direction.x == ZERO { at(0.5) } else { MISS });
    let b = entry_point(&a, 0, &words(&[p, q, aside]), &soa, &math).unwrap();
    let pi = std::f32::consts::PI;
    let diagonal = |area: f32| {
        let c = 1.0 / 2.0f32.sqrt();
        bits((c * c) / (pi * 2.0) * area)
    };
    assert_eq!(
        b.values,
        vec![ZERO, ZERO, ZERO, ZERO, ZERO, diagonal(1.0), ZERO, diagonal(0.5), ZERO]
    );
    let free = entry_point(&args(3, 1), 0, &words(&[p, q, aside]), &[], &math).unwrap();
    assert_eq!(free.values[1], bits(1.0 / pi * 0.5));
    assert_eq!(free.values[3], bits(1.0 / pi));
}

#[test]
fn padding_rounds_up_to_eight() {
    assert_eq!(padded_count(0), 0);
    assert_eq!(padded_count(1), 8);
    assert_eq!(padded_count(8), 8);
    assert_eq!(padded_count(9), 16);
}

#[test]
fn occluders_are_read_by_component() {
    let t = read_occluder(&block(3), 8, 2);
    assert_eq!(t.v0, Vec3 { x: bits(2.0), y: bits(102.0), z: bits(202.0) });
    assert_eq!(t.v1, Vec3 { x: bits(302.0), y: bits(402.0), z: bits(502.0) });
    assert_eq!(t.v2, Vec3 { x: bits(602.0), y: bits(702.0), z: bits(802.0) });
}

#[test]
fn shadow_rays_hit_front_faces() {
    assert_eq!(moller_trumbore(&crossing(1.0, 0.25, 0.25, 2.0)), Some(bits(2.0)));
    assert_eq!(moller_trumbore(&crossing(1.0, 0.0, 0.0, 2.0)), Some(bits(2.0)));
    assert_eq!(moller_trumbore(&crossing(1.0, 0.5, 0.5, 2.0)), Some(bits(2.0)));
    assert_eq!(moller_trumbore(&crossing(-1.0, 0.25, 0.25, 2.0)), None);
    assert_eq!(moller_trumbore(&crossing(0.9e-7, 0.25, 0.25, 2.0)), None);
    assert_eq!(moller_trumbore(&crossing(1.0, -0.1, 0.25, 2.0)), None);
    assert_eq!(moller_trumbore(&crossing(1.0, 1.1, 0.0, 2.0)), None);
    assert_eq!(moller_trumbore(&crossing(1.0, 0.25, -0.1, 2.0)), None);
    assert_eq!(moller_trumbore(&crossing(1.0, 0.75, 0.5, 2.0)), None);
    assert_eq!(moller_trumbore(&crossing(1.0, 0.25, 0.25, -2.0)), None);
    assert_eq!(moller_trumbore(&crossing(1.0, 0.25, 0.25, 1.0e-7)), None);
}

#[test]
fn batches_get_the_constants() {
    let far = bits(0.75);
    let seen = Rc::new(Cell::new(None));
    let seg = Segment { origin: v3(1.0, 2.0, 3.0), direction: v3(0.0, 0.0, 1.0), length: 7 };
    let soa = block(16);
    let mut math = plain();
    let log = seen.clone();
    math.shadow_test = Box::new(move |soa, p, b, seg, k| {
        log.set(Some((soa.len(), p, b, seg, [k[0], k[1], k[2], k[3]])));
        0
    });
    assert!(math.is_visible_simd8(&soa, 16, 2, seg, far));
    assert_eq!(seen.get(), Some((144, 16, 2, seg, [ZERO, EPS, T_MIN, far])));
    math.shadow_test = Box::new(|_, _, _, _, _| 4);
    assert!(!math.is_visible_simd8(&soa, 16, 2, seg, far));
}

#[test]
fn coinciding_centroids_see_nothing() {
    let (p, q) = pair();
    let mut math = plain();
    assert!(math.is_visible(p, q, &[], 0));
    assert!(!math.is_visible(p, p, &[], 0));
    for (length, visible) in [(0.9e-6, false), (1.0e-6, true)] {
        math.aim = Box::new(move |a, _| Segment {
            origin: a,
            direction: v3(0.0, 0.0, 1.0),
            length: bits(length),
        });
        assert_eq!(math.is_visible(p, q, &[], 0), visible);
    }
}

#[test]
fn tail_triangles_are_tested_from_both_sides() {
    let (p, q) = pair();
    let soa = block(10);
    let tested = Rc::new(Cell::new(0));
    let mut math = plain();
    let count = tested.clone();
    math.cross = Box::new(move |_, _| {
        count.set(count.get() + 1);
        MISS
    });
    assert!(math.is_visible(p, q, &soa, 10));
    assert_eq!(tested.get(), 4);
    // Triangle 9 is hit through its back.
    math.cross = Box::new(|_, t| if t.v0.x == bits(609.0) { at(0.5) } else { MISS });
    assert!(!math.is_visible(p, q, &soa, 10));
    math.cross = Box::new(|_, t| if t.v0.x == bits(8.0) { at(0.5) } else { MISS });
    assert!(!math.is_visible(p, q, &soa, 10));
}

#[test]
fn hits_at_the_ends_do_not_block() {
    let (p, q) = pair();
    let soa = block(1);
    let mut math = plain();
    for (t, visible) in [(0.001, true), (0.0011, false), (0.998, false), (0.999, true), (2.0, true)] {
        math.cross = Box::new(move |_, _| at(t));
        assert_eq!(math.is_visible(p, q, &soa, 1), visible, "{t}");
    }
}

#[test]
fn blocked_batches_hide_the_pair() {
    let (p, q) = pair();
    let full = Rc::new(Cell::new(0));
    let mut math = plain();
    let log = full.clone();
    math.shadow_test = Box::new(move |_, p, b, _, _| {
        log.set(1000 * p + b);
        1
    });
    assert!(!math.is_visible(p, q, &block(8), 8));
    assert_eq!(full.get(), 8001);
    // With fewer than eight triangles there is no batch to ask.
    assert!(math.is_visible(p, q, &block(7), 7));
}

#[test]
fn more_occluders_never_reveal() {
    let (p, q) = pair();
    let mut math = plain();
    // Triangle 3 blocks, one by one and in a batch.
    let blocks = |t: OccluderTriangle| t.v0.x == bits(3.0) || t.v2.x == bits(3.0);
    math.cross = Box::new(move |_, t| if blocks(t) { at(0.5) } else { MISS });
    math.shadow_test = Box::new(move |soa, p, b, _, _| {
        (0..8 * b).any(|i| blocks(read_occluder(soa, p, i))) as u64
    });
    for n in 0..20 {
        assert_eq!(math.is_visible(p, q, &block(n), n), n < 4);
    }
}

#[test]
fn form_factor_needs_facing_and_visible_patches() {
    let (p, q) = pair();
    let soa = block(1);
    let mut math = plain();
    math.formula = Box::new(|_, _, _, _| bits(0.25));
    assert_eq!(math.form_factor_with_visibility(p, q, &[], 0), bits(0.25));
    assert_eq!(math.form_factor_with_visibility(p, q, &soa, 1), bits(0.25));
    math.cross = Box::new(|_, _| at(0.5));
    assert_eq!(math.form_factor_with_visibility(p, q, &soa, 1), ZERO);
    assert_eq!(math.form_factor_with_visibility(p, q, &[], 0), bits(0.25));
    math.cross = Box::new(|_, _| MISS);
    for (a, b) in [(-0.5, 0.5), (0.5, -0.5), (0.0, 0.5), (0.5, -0.0)] {
        math.facing = Box::new(move |_, _, _, _| (bits(a), bits(b)));
        assert_eq!(math.form_factor_with_visibility(p, q, &soa, 1), ZERO);
    }
}

#[test]
fn back_facing_pairs_are_not_traced() {
    let (p, q) = pair();
    let asked = Rc::new(Cell::new(false));
    let log = asked.clone();
    let mut math = plain();
    math.facing = Box::new(|_, _, _, _| (bits(-1.0), bits(1.0)));
    math.aim = Box::new(move |a, _| {
        log.set(true);
        Segment { origin: a, direction: a, length: bits(1.0) }
    });
    assert_eq!(math.form_factor_with_visibility(p, q, &block(5), 5), ZERO);
    assert!(!asked.get());
}

#[test]
fn close_patches_have_no_form_factor() {
    let (p, q) = pair();
    let mut math = plain();
    math.cosines = Box::new(|_, _, _, _| (bits(0.5), bits(0.25)));
    math.formula = Box::new(|a, b, _, _| bits(f32::from_bits(a) * f32::from_bits(b)));
    for (r2, value) in [(0.9e-8, 0.0), (1.0e-8, 0.125), (1.0, 0.125)] {
        math.squared = Box::new(move |_, _| bits(r2));
        assert_eq!(math.compute_form_factor(p, q), bits(value));
    }
}

#[test]
fn back_hemispheres_have_no_form_factor() {
    let (p, q) = pair();
    let mut math = plain();
    math.formula = Box::new(|_, _, _, _| bits(0.125));
    for (a, b) in [(-0.5, 0.5), (0.5, -0.5), (0.0, 0.5), (0.5, -0.0), (f32::NAN, 0.5)] {
        math.cosines = Box::new(move |_, _, _, _| (bits(a), bits(b)));
        assert_eq!(math.compute_form_factor(p, q), ZERO);
    }
    math.cosines = Box::new(|_, _, _, _| (bits(0.5), bits(0.5)));
    assert_eq!(math.compute_form_factor(p, q), bits(0.125));
}

#[test]
fn form_factor_uses_distance_and_area() {
    let (p, q) = pair();
    let pi = std::f32::consts::PI;
    assert_eq!(plain().compute_form_factor(p, q), bits(1.0 / pi * 0.5));
    let far = Patch { centroid: v3(0.0, 0.0, 2.0), ..q };
    assert_eq!(plain().compute_form_factor(p, far), bits(1.0 / (pi * 4.0) * 0.5));
}

#[test]
fn form_factors_are_reciprocal() {
    let math = plain();
    let (p, _) = pair();
    let f = f32::from_bits;
    for (x, y, area) in [(0.3, 0.1, 1.0), (-0.7, 0.2, 1.0), (0.25, -0.5, 3.0), (0.0, 0.0, 0.125)] {
        let q = patch(v3(x, y, 1.5), v3(0.1, 0.2, -0.9), area);
        let (there, back) = (math.compute_form_factor(p, q), math.compute_form_factor(q, p));
        assert_ne!(there, ZERO);
        if q.area == p.area {
            assert_eq!(there, back);
        }
        assert!((f(p.area) * f(there) - f(q.area) * f(back)).abs() < 1.0e-6);
        // Nothing occludes, so the matrix entries are the same numbers.
        assert_eq!(math.form_factor_with_visibility(p, q, &[], 0), there);
        assert_eq!(math.form_factor_with_visibility(q, p, &[], 0), back);
        // The area of the patch that sends does not matter.
        let wide = Patch { area: bits(64.0), ..p };
        assert_eq!(math.compute_form_factor(wide, q), there);
    }
}
