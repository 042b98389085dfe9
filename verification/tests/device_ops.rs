use et_radiosity::abi::{words_from_bytes, FormFactorArgs, Patch};
use et_radiosity::device_ops::{
    form_factor_matrix, normalise_rows, pack_occluders, reports_iteration, solve_radiosity, FormFactorJob, RenderJob,
    MIN_ROW_SUM,
};
use et_radiosity::ieee::{Vec3, ZERO};
use et_radiosity::render::Camera;
use et_radiosity::scene::{OccluderTriangle, Scene, ScenePatch};
use et_radiosity::trace::TRACE_BUFFER_BYTES;
use et_radiosity::vertices::PatchVerts;
use std::cell::RefCell;

fn bits(x: f32) -> u32 {
    x.to_bits()
}

fn v3(x: f32, y: f32, z: f32) -> Vec3 {
    Vec3 { x: bits(x), y: bits(y), z: bits(z) }
}

fn plus(a: u32, b: u32) -> u32 {
    bits(f32::from_bits(a) + f32::from_bits(b))
}

fn divide(a: u32, b: u32) -> u32 {
    bits(f32::from_bits(a) / f32::from_bits(b))
}

fn gather(sum: Vec3, f: (u32, Vec3)) -> Vec3 {
    let step = |s: u32, b: u32| bits(f32::from_bits(s) + f32::from_bits(f.0) * f32::from_bits(b));
    Vec3 { x: step(sum.x, f.1.x), y: step(sum.y, f.1.y), z: step(sum.z, f.1.z) }
}

fn relight(e: Vec3, rho: Vec3, g: Vec3) -> Vec3 {
    let one = |e: u32, r: u32, g: u32| {
        bits(f32::from_bits(e) + f32::from_bits(r) * f32::from_bits(g))
    };
    Vec3 { x: one(e.x, rho.x, g.x), y: one(e.y, rho.y, g.y), z: one(e.z, rho.z, g.z) }
}

fn patch(emission: f32, reflectance: f32) -> ScenePatch {
    ScenePatch {
        abi: Patch { centroid: v3(1.0, 2.0, 3.0), normal: v3(0.0, 1.0, 0.0), area: bits(0.5), _pad: 0 },
        reflectance: v3(reflectance, reflectance, reflectance),
        emission: v3(emission, emission / 2.0, 0.0),
        v0: v3(0.0, 0.0, 0.0),
        v1: v3(1.0, 0.0, 0.0),
        v2: v3(0.0, 1.0, 0.0),
        material: "white".to_string(),
    }
}

fn triangle(i: u32) -> OccluderTriangle {
    let v = |k: u32| Vec3 { x: 10 * i + 3 * k, y: 10 * i + 3 * k + 1, z: 10 * i + 3 * k + 2 };
    OccluderTriangle { v0: v(0), v1: v(1), v2: v(2) }
}

#[test]
fn occluders_are_packed_by_component() {
    let soa = pack_occluders(&[triangle(1), triangle(2)]);
    assert_eq!(soa.len(), 72);
    for c in 0..9u32 {
        assert_eq!(soa[8 * c as usize], 10 + c);
        assert_eq!(soa[8 * c as usize + 1], 20 + c);
        assert!(soa[8 * c as usize + 2..8 * c as usize + 8].iter().all(|&w| w == ZERO));
    }
    assert_eq!(pack_occluders(&[triangle(0); 9]).len(), 9 * 16);
    assert!(pack_occluders(&[]).is_empty());
}

#[test]
fn rows_are_divided_by_their_sum() {
    assert_eq!(MIN_ROW_SUM, bits(1.0e-8));
    let ff = [0.0f32, 3.0, 1.0, 0.0, 0.0, 0.0, 1.0, 1.0, 2.0].map(bits);
    let out = normalise_rows(&ff, 3, plus, divide);
    let expected = [0.0f32, 0.75, 0.25, 0.0, 0.0, 0.0, 0.25, 0.25, 0.5].map(bits);
    assert_eq!(out, expected);
}

#[test]
fn non_finite_form_factors_become_zero() {
    let ff = [f32::NAN, 2.0, f32::INFINITY, f32::NEG_INFINITY].map(bits);
    assert_eq!(normalise_rows(&ff, 2, plus, divide), [0.0f32, 1.0, 0.0, 0.0].map(bits));
}

#[test]
fn normalised_elements_are_shares() {
    let mut seed = 1u32;
    let n = 16;
    let ff: Vec<u32> = (0..n * n)
        .map(|i| {
            seed = seed.wrapping_mul(1_664_525).wrapping_add(1_013_904_223);
            match i % 37 {
                5 => bits(f32::NAN),
                11 => bits(f32::INFINITY),
                // Any pattern of a positive number, tiny or huge.
                13 => seed % bits(f32::INFINITY),
                _ => bits((seed >> 8) as f32 / 1.0e7),
            }
        })
        .collect();
    for x in normalise_rows(&ff, n, plus, divide) {
        assert!((0.0..=1.0).contains(&f32::from_bits(x)));
    }
}

#[test]
fn tiny_rows_stay() {
    let ff = [0.5e-8f32, 0.25e-8, -1.0, 0.5].map(bits);
    assert_eq!(normalise_rows(&ff, 2, plus, divide), ff);
}

#[test]
fn downloaded_matrix_is_decoded_and_normalised() {
    let mut raw = Vec::new();
    for x in [0.0f32, 4.0, 2.0, 2.0] {
        raw.extend_from_slice(&x.to_le_bytes());
    }
    let out = form_factor_matrix(&raw, 2, plus, divide);
    assert_eq!(out, [0.0f32, 1.0, 0.5, 0.5].map(bits));
}

#[test]
fn no_iteration_leaves_the_emission() {
    let patches = [patch(2.0, 0.5), patch(0.0, 0.5)];
    let ff = [0.0f32, 1.0, 1.0, 0.0].map(bits);
    let b = solve_radiosity(&patches, &ff, 0, gather, relight, |_: u32| {});
    assert_eq!(b, vec![v3(2.0, 1.0, 0.0), v3(0.0, 0.0, 0.0)]);
}

#[test]
fn iterations_bounce_light() {
    let patches = [patch(2.0, 0.5), patch(0.0, 0.5)];
    let ff = [0.0f32, 1.0, 1.0, 0.0].map(bits);
    let b = solve_radiosity(&patches, &ff, 1, gather, relight, |_: u32| {});
    assert_eq!(b, vec![v3(2.0, 1.0, 0.0), v3(1.0, 0.5, 0.0)]);
    let b = solve_radiosity(&patches, &ff, 2, gather, relight, |_: u32| {});
    assert_eq!(b, vec![v3(2.5, 1.25, 0.0), v3(1.0, 0.5, 0.0)]);
}

/// A room of three patches, with powers of two throughout.
fn room(emissions: [f32; 3]) -> [ScenePatch; 3] {
    [patch(emissions[0], 0.5), patch(emissions[1], 0.25), patch(emissions[2], 0.5)]
}

fn lit(emissions: [f32; 3], iterations: u32) -> Vec<[f32; 3]> {
    let ff = [0.0f32, 0.5, 0.5, 0.25, 0.0, 0.75, 0.5, 0.5, 0.0].map(bits);
    solve_radiosity(&room(emissions), &ff, iterations, gather, relight, |_: u32| {})
        .iter()
        .map(|b| [b.x, b.y, b.z].map(f32::from_bits))
        .collect()
}

#[test]
fn iterations_only_add_light() {
    for k in 0..30 {
        let (before, after) = (lit([4.0, 0.0, 1.0], k), lit([4.0, 0.0, 1.0], k + 1));
        for (b, a) in before.iter().zip(&after) {
            assert!((0..3).all(|c| b[c] <= a[c]));
        }
    }
}

#[test]
fn solutions_add_up() {
    // Few iterations on small whole numbers, so that nothing is rounded.
    for k in 0..4 {
        let (one, other) = (lit([4.0, 0.0, 0.0], k), lit([0.0, 2.0, 8.0], k));
        let both = lit([4.0, 2.0, 8.0], k);
        for i in 0..3 {
            for c in 0..3 {
                assert_eq!(both[i][c], one[i][c] + other[i][c]);
            }
        }
    }
}

#[test]
fn doubled_emission_doubles_the_solution() {
    for k in 0..10 {
        let (one, twice) = (lit([3.0, 0.0, 1.0], k), lit([6.0, 0.0, 2.0], k));
        for i in 0..3 {
            assert_eq!(twice[i], one[i].map(|x| 2.0 * x));
        }
    }
}

#[test]
fn sweeps_read_the_previous_iterate_only() {
    // A Gauss-Seidel sweep would already light the third patch in one iteration.
    let patches = [patch(4.0, 1.0), patch(0.0, 1.0), patch(0.0, 1.0)];
    let ff = [0.0f32, 0.0, 0.0, 1.0, 0.0, 0.0, 0.0, 1.0, 0.0].map(bits);
    let b = solve_radiosity(&patches, &ff, 1, gather, relight, |_: u32| {});
    assert_eq!(b[1], v3(4.0, 2.0, 0.0));
    assert_eq!(b[2], v3(0.0, 0.0, 0.0));
}

#[test]
fn reported_iterations_are_multiples_of_twenty() {
    for k in [0, 20, 40, 4_294_967_280] {
        assert!(reports_iteration(k));
    }
    for k in [1, 19, 21, u32::MAX] {
        assert!(!reports_iteration(k));
    }
}

#[test]
fn every_twentieth_iteration_is_reported() {
    let heard = RefCell::new(Vec::new());
    let ff = [ZERO];
    solve_radiosity(&[patch(1.0, 0.0)], &ff, 45, gather, relight, |k: u32| {
        heard.borrow_mut().push(k)
    });
    assert_eq!(heard.into_inner(), vec![0, 20, 40]);
}

#[test]
fn form_factor_job_lays_out_the_scene() {
    let scene = Scene {
        patches: vec![patch(1.0, 0.5), patch(0.0, 0.5), patch(0.0, 0.5)],
        occluders: vec![triangle(1)],
    };
    let job = FormFactorJob::prepare(&scene, true);
    assert_eq!((job.n_patches, job.n_occluders), (3, 1));
    assert_eq!(job.patch_bytes.len(), 96);
    assert_eq!(words_from_bytes(&job.patch_bytes)[6], bits(0.5));
    assert_eq!(
        job.occluder_bytes.as_ref().map(|b| words_from_bytes(b)),
        Some(pack_occluders(&scene.occluders))
    );
    assert_eq!(job.matrix_bytes, 36);
    assert_eq!(job.trace_bytes, Some(TRACE_BUFFER_BYTES));
    let args: FormFactorArgs = job.args(0x1000, 0x2000, Some(0x3000), 64);
    assert_eq!(
        (args.patches_addr, args.ff_matrix_addr, args.occluder_addr),
        (0x1000, 0x2000, 0x3000)
    );
    assert_eq!((args.n_patches, args.n_harts, args.n_occluders, args._pad), (3, 64, 1, 0));
}

#[test]
fn empty_room_has_no_occluder_block() {
    let scene = Scene { patches: vec![patch(1.0, 0.5)], occluders: vec![] };
    let job = FormFactorJob::prepare(&scene, false);
    assert!(job.occluder_bytes.is_none());
    assert!(job.trace_bytes.is_none());
    let args = job.args(1, 2, None, 3);
    assert_eq!((args.occluder_addr, args.n_occluders), (0, 0));
}

#[test]
fn render_job_lays_out_the_frame() {
    let patches = [patch(1.0, 0.5)];
    let rad = [v3(1.0, 2.0, 3.0), v3(4.0, 5.0, 6.0), v3(7.0, 8.0, 9.0)];
    let verts = [PatchVerts { vi0: 2, vi1: 0, vi2: 1 }];
    let tan = bits((22.5f32).to_radians().tan());
    let camera = Camera::cornell_default(20, 10, tan);
    let job = RenderJob::prepare(&patches, &rad, &verts, &camera, bits(2.0), bits(1.5));
    assert_eq!(
        words_from_bytes(&job.geom_bytes),
        vec![0, 0, 0, 0, bits(1.0), 0, 0, 0, 0, bits(1.0), 0, 0]
    );
    assert_eq!(
        words_from_bytes(&job.vert_rad_bytes),
        [1.0f32, 2.0, 3.0, 4.0, 5.0, 6.0, 7.0, 8.0, 9.0].map(bits)
    );
    assert_eq!(words_from_bytes(&job.patch_vi_bytes), vec![2, 0, 1]);
    let mut camera_words =
        [0.5f32, 0.5, -1.4, 0.0, 0.0, 1.0, 1.0, 0.0, 0.0, 0.0, 1.0, 0.0].map(bits).to_vec();
    camera_words.push(tan);
    camera_words.push(bits(2.0));
    assert_eq!(words_from_bytes(&job.camera_bytes), camera_words);
    assert_eq!(job.pixel_bytes, 600);
    let args = job.args(1, 2, 3, 4, 5, 6);
    assert_eq!((args.patch_geom_addr, args.vert_rad_addr, args.patch_vi_addr), (1, 2, 3));
    assert_eq!((args.pixels_addr, args.camera_addr, args.n_harts), (4, 5, 6));
    assert_eq!((args.width, args.height, args.n_patches, args.n_verts), (20, 10, 1, 3));
    assert_eq!((args.white, args._pad), (bits(1.5), 0));
}

#[test]
fn render_plan_welds_vertices_and_finds_the_white_point() {
    let patches = [patch(1.0, 0.5), patch(0.0, 0.5)];
    let radiosities = [v3(2.0, 4.0, 6.0), v3(4.0, 0.0, 2.0)];
    let f = f32::from_bits;
    let job = RenderJob::plan(
        &patches,
        &radiosities,
        20,
        10,
        7,
        |x: u32| (f(x) / 1.0e-3).round() as i32,
        [0.0f32; 3],
        |s: [f32; 3], r: Vec3| [s[0] + f(r.x), s[1] + f(r.y), s[2] + f(r.z)],
        |s: [f32; 3], n: usize| v3(s[0] / n as f32, s[1] / n as f32, s[2] / n as f32),
        |c: Vec3| c.y,
        |w: u32, h: u32| bits(w as f32 / h as f32),
    );
    assert_eq!((job.n_patches, job.n_verts, job.white), (2, 3, bits(4.0)));
    let means = words_from_bytes(&job.vert_rad_bytes);
    assert_eq!(means, [3.0f32, 2.0, 4.0, 3.0, 2.0, 4.0, 3.0, 2.0, 4.0].map(bits));
    assert_eq!(words_from_bytes(&job.patch_vi_bytes), vec![0, 1, 2, 0, 1, 2]);
    assert_eq!(words_from_bytes(&job.camera_bytes)[12..], [7, bits(2.0)]);
    assert_eq!(job.pixel_bytes, 600);
}
