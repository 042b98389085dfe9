use et_radiosity::abi::Patch;
use et_radiosity::ieee::{Vec3, ZERO};
use et_radiosity::scene::ScenePatch;
use et_radiosity::vertices::{build_vertex_radiosity, PatchVerts};

fn bits(x: f32) -> u32 {
    x.to_bits()
}

fn v3(x: f32, y: f32, z: f32) -> Vec3 {
    Vec3 { x: bits(x), y: bits(y), z: bits(z) }
}

fn patch(v0: Vec3, v1: Vec3, v2: Vec3) -> ScenePatch {
    let zero = Vec3 { x: ZERO, y: ZERO, z: ZERO };
    ScenePatch {
        abi: Patch { centroid: zero, normal: zero, area: ZERO, _pad: ZERO },
        reflectance: zero,
        emission: zero,
        v0,
        v1,
        v2,
        material: String::new(),
    }
}

fn quantize(x: u32) -> i32 {
    (f32::from_bits(x) / 1.0e-3).round() as i32
}

fn plus(a: [f64; 3], b: Vec3) -> [f64; 3] {
    [
        a[0] + f32::from_bits(b.x) as f64,
        a[1] + f32::from_bits(b.y) as f64,
        a[2] + f32::from_bits(b.z) as f64,
    ]
}

fn mean(a: [f64; 3], n: usize) -> Vec3 {
    let f = 1.0 / n as f64;
    v3((a[0] * f) as f32, (a[1] * f) as f32, (a[2] * f) as f32)
}

fn build(patches: &[ScenePatch], radiosities: &[Vec3]) -> (Vec<Vec3>, Vec<PatchVerts>) {
    build_vertex_radiosity(patches, radiosities, quantize, [0.0f64; 3], plus, mean)
}

#[test]
fn shared_corners_are_averaged() {
    let (a, b, c, d) =
        (v3(0.0, 0.0, 0.0), v3(1.0, 0.0, 0.0), v3(0.0, 1.0, 0.0), v3(1.0, 1.0, 0.0));
    let patches = [patch(a, b, c), patch(b, d, c)];
    let (rad, verts) = build(&patches, &[v3(1.0, 0.0, 4.0), v3(3.0, 2.0, 0.0)]);
    assert_eq!(
        verts,
        vec![PatchVerts { vi0: 0, vi1: 1, vi2: 2 }, PatchVerts { vi0: 1, vi1: 3, vi2: 2 }]
    );
    assert_eq!(
        rad,
        vec![v3(1.0, 0.0, 4.0), v3(2.0, 1.0, 2.0), v3(2.0, 1.0, 2.0), v3(3.0, 2.0, 0.0)]
    );
}

#[test]
fn patches_count_once_at_a_vertex() {
    let (a, b, c, d) =
        (v3(0.0, 0.0, 0.0), v3(1.0, 0.0, 0.0), v3(0.0, 1.0, 0.0), v3(1.0, 1.0, 0.0));
    let patches = [patch(a, a, c), patch(a, b, d)];
    let (rad, verts) = build(&patches, &[v3(1.0, 1.0, 1.0), v3(4.0, 4.0, 4.0)]);
    assert_eq!(
        verts,
        vec![PatchVerts { vi0: 0, vi1: 0, vi2: 1 }, PatchVerts { vi0: 0, vi1: 2, vi2: 3 }]
    );
    assert_eq!(rad[0], v3(2.5, 2.5, 2.5));
    assert_eq!(rad[1], v3(1.0, 1.0, 1.0));
    assert_eq!(rad[2], v3(4.0, 4.0, 4.0));
}

#[test]
fn point_patches_count_once() {
    let (a, b, c) = (v3(0.0, 0.0, 0.0), v3(1.0, 0.0, 0.0), v3(0.0, 1.0, 0.0));
    let patches = [patch(a, a, a), patch(c, b, a), patch(b, a, b)];
    let radiosities = [v3(3.0, 0.0, 0.0), v3(0.0, 6.0, 0.0), v3(0.0, 0.0, 9.0)];
    let (rad, verts) = build(&patches, &radiosities);
    assert_eq!(verts[0], PatchVerts { vi0: 0, vi1: 0, vi2: 0 });
    assert_eq!(verts[1], PatchVerts { vi0: 1, vi1: 2, vi2: 0 });
    assert_eq!(verts[2], PatchVerts { vi0: 2, vi1: 0, vi2: 2 });
    assert_eq!(rad, vec![v3(1.0, 2.0, 3.0), v3(0.0, 6.0, 0.0), v3(0.0, 3.0, 4.5)]);
}

#[test]
fn corners_within_a_millimetre_merge() {
    let near = v3(0.0004, -0.0004, 0.0);
    let far = v3(0.0006, 0.0, 0.0);
    let o = v3(0.0, 0.0, 0.0);
    let (rad, verts) = build(&[patch(o, near, far)], &[v3(1.0, 1.0, 1.0)]);
    assert_eq!(rad.len(), 2);
    assert_eq!(verts, vec![PatchVerts { vi0: 0, vi1: 0, vi2: 1 }]);
    assert_eq!(rad[0], v3(1.0, 1.0, 1.0));
}

#[test]
fn coordinates_are_not_mixed_up() {
    let (rad, _) = build(
        &[patch(v3(1.0, 2.0, 3.0), v3(3.0, 2.0, 1.0), v3(-1.0, 2.0, 3.0))],
        &[v3(1.0, 1.0, 1.0)],
    );
    assert_eq!(rad.len(), 3);
}

#[test]
fn extreme_coordinates_stay_apart() {
    // Out of range coordinates saturate on the grid.
    let huge = v3(1.0e30, 0.0, 0.0);
    let low = v3(-1.0e30, 0.0, 0.0);
    let (rad, verts) = build(&[patch(huge, low, v3(2.0e30, 0.0, 0.0))], &[v3(1.0, 1.0, 1.0)]);
    assert_eq!(rad.len(), 2);
    assert_eq!(verts[0].vi0, verts[0].vi2);
    assert_ne!(verts[0].vi0, verts[0].vi1);
}

#[test]
fn no_patches_make_no_vertices() {
    let (rad, verts) = build(&[], &[]);
    assert!(rad.is_empty() && verts.is_empty());
}
