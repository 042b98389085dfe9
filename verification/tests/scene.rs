use et_radiosity::ieee::{Vec3, ZERO};
use et_radiosity::scene::{
    build_scene, count_emitters, is_wall_material, read_face, surface_of, tessellate_triangle,
    Facet, FaceShape, LatticePoint, Material, Mesh, OccluderTriangle, Scene, SceneError, ScenePatch,
    Surface, DEFAULT_REFLECTANCE, MIN_AREA,
};

fn bits(x: f32) -> u32 {
    x.to_bits()
}

fn v3(x: f32, y: f32, z: f32) -> Vec3 {
    Vec3 { x: bits(x), y: bits(y), z: bits(z) }
}

fn floats(v: Vec3) -> [f32; 3] {
    [f32::from_bits(v.x), f32::from_bits(v.y), f32::from_bits(v.z)]
}

fn locate(t: OccluderTriangle, p: LatticePoint, divs: usize) -> Vec3 {
    let (a, b, c) = (floats(t.v0), floats(t.v1), floats(t.v2));
    let (u, v) = (p.u as f32 / divs as f32, p.v as f32 / divs as f32);
    let w = 1.0 - u - v;
    let at = |i: usize| w * a[i] + u * b[i] + v * c[i];
    v3(at(0), at(1), at(2))
}

fn centre(a: Vec3, b: Vec3, c: Vec3) -> Vec3 {
    let (a, b, c) = (floats(a), floats(b), floats(c));
    let at = |i: usize| (a[i] + b[i] + c[i]) / 3.0;
    v3(at(0), at(1), at(2))
}

fn share(area: u32, n: usize) -> u32 {
    bits(f32::from_bits(area) / n as f32)
}

/// Shape of a triangle in the plane `z = 0`, for patches of side 0.5.
fn measure(t: OccluderTriangle) -> FaceShape {
    let (a, b, c) = (floats(t.v0), floats(t.v1), floats(t.v2));
    let cross = (b[0] - a[0]) * (c[1] - a[1]) - (c[0] - a[0]) * (b[1] - a[1]);
    let edge = |p: [f32; 3], q: [f32; 3]| ((p[0] - q[0]).powi(2) + (p[1] - q[1]).powi(2)).sqrt();
    let longest = edge(a, b).max(edge(a, c)).max(edge(b, c));
    FaceShape {
        area: bits(cross.abs() * 0.5),
        normal: v3(0.0, 0.0, cross.signum()),
        cells: (longest / 0.5).ceil() as usize,
    }
}

fn unit_triangle() -> OccluderTriangle {
    OccluderTriangle { v0: v3(0.0, 0.0, 0.0), v1: v3(1.0, 0.0, 0.0), v2: v3(0.0, 1.0, 0.0) }
}

fn facet(divs: usize) -> Facet {
    Facet {
        corners: unit_triangle(),
        normal: v3(0.0, 0.0, 1.0),
        divs,
        sub_area: bits(0.5 / (divs * divs) as f32),
        surface: Surface {
            reflectance: v3(0.1, 0.2, 0.3),
            emission: v3(1.0, 2.0, 3.0),
            name: "light".to_string(),
        },
    }
}

fn area(p: &ScenePatch) -> f32 {
    let (a, b, c) = (floats(p.v0), floats(p.v1), floats(p.v2));
    0.5 * ((b[0] - a[0]) * (c[1] - a[1]) - (c[0] - a[0]) * (b[1] - a[1]))
}

/// Two triangles of a unit square, one of them again as a sliver.
fn square(material_id: Option<usize>) -> Mesh {
    let positions: [f32; 12] = [0.0, 0.0, 0.0, 1.0, 0.0, 0.0, 1.0, 1.0, 0.0, 0.0, 1.0, 0.0];
    Mesh {
        positions: positions.map(bits).to_vec(),
        indices: vec![0, 1, 2, 0, 1, 1, 0, 2, 3],
        material_id,
    }
}

fn materials() -> Vec<Material> {
    vec![
        Material { name: "white".to_string(), diffuse: Some(v3(0.7, 0.7, 0.7)), emissive: None },
        Material {
            name: "sphere".to_string(),
            diffuse: None,
            emissive: Some(v3(0.0, 0.0, 5.0)),
        },
    ]
}

fn build(meshes: &[Mesh]) -> Result<Scene, SceneError> {
    build_scene(meshes, &materials(), measure, share, locate, centre)
}

#[test]
fn scene_constants() {
    assert_eq!(MIN_AREA, bits(1.0e-12));
    assert_eq!(DEFAULT_REFLECTANCE, bits(0.5));
}

#[test]
fn walls_are_known_by_their_material() {
    for name in ["white", "red", "green", "light"] {
        assert!(is_wall_material(name));
    }
    for name in ["", "White", "blue", "default", "lights", "whit"] {
        assert!(!is_wall_material(name));
    }
}

#[test]
fn undivided_face_is_one_patch() {
    let mut out = Vec::new();
    tessellate_triangle(&facet(1), &locate, &centre, &mut out);
    assert_eq!(out.len(), 1);
    let p = &out[0];
    assert_eq!((p.v0, p.v1, p.v2), (v3(0.0, 0.0, 0.0), v3(1.0, 0.0, 0.0), v3(0.0, 1.0, 0.0)));
    assert_eq!(p.abi.centroid, centre(p.v0, p.v1, p.v2));
    assert_eq!(p.abi.normal, v3(0.0, 0.0, 1.0));
    assert_eq!((p.abi.area, p.abi._pad), (bits(0.5), ZERO));
    assert_eq!(p.reflectance, v3(0.1, 0.2, 0.3));
    assert_eq!(p.emission, v3(1.0, 2.0, 3.0));
    assert_eq!(p.material, "light");
}

#[test]
fn halved_edges_make_four_patches() {
    let mut out = Vec::new();
    tessellate_triangle(&facet(2), &locate, &centre, &mut out);
    let corners: Vec<[[f32; 2]; 3]> = out
        .iter()
        .map(|p| [p.v0, p.v1, p.v2].map(|v| [f32::from_bits(v.x), f32::from_bits(v.y)]))
        .collect();
    assert_eq!(
        corners,
        vec![
            [[0.0, 0.0], [0.5, 0.0], [0.0, 0.5]],
            [[0.5, 0.0], [0.5, 0.5], [0.0, 0.5]],
            [[0.5, 0.0], [1.0, 0.0], [0.5, 0.5]],
            [[0.0, 0.5], [0.5, 0.5], [0.0, 1.0]],
        ]
    );
}

#[test]
fn patches_share_the_area_evenly() {
    for divs in 1..9 {
        let mut out = Vec::new();
        tessellate_triangle(&facet(divs), &locate, &centre, &mut out);
        assert_eq!(out.len(), divs * divs);
        for p in &out {
            assert!((area(p) - 0.5 / (divs * divs) as f32).abs() < 1.0e-6);
        }
    }
}

#[test]
fn every_point_of_a_face_lies_in_one_patch() {
    let mut out = Vec::new();
    tessellate_triangle(&facet(4), &locate, &centre, &mut out);
    let inside = |p: &ScenePatch, x: f32, y: f32| {
        let c = [floats(p.v0), floats(p.v1), floats(p.v2)];
        (0..3).all(|i| {
            let (a, b) = (c[i], c[(i + 1) % 3]);
            (b[0] - a[0]) * (y - a[1]) - (b[1] - a[1]) * (x - a[0]) > 0.0
        })
    };
    for i in 0..20 {
        for j in 0..20 - i {
            let (x, y) = (i as f32 / 20.0 + 0.013, j as f32 / 20.0 + 0.011);
            if x + y < 1.0 {
                assert_eq!(out.iter().filter(|p| inside(p, x, y)).count(), 1, "{x} {y}");
            }
        }
    }
}

#[test]
fn patch_edges_are_shares_of_the_face_edges() {
    let length2 = |p: Vec3, q: Vec3| {
        let (p, q) = (floats(p), floats(q));
        (0..3).map(|i| (p[i] - q[i]) as f64).map(|d| d * d).sum::<f64>()
    };
    for divs in 1..9usize {
        let mut out = Vec::new();
        tessellate_triangle(&facet(divs), &locate, &centre, &mut out);
        // The longest edge of the face is the square root of two.
        let limit = 2.0 / (divs * divs) as f64 + 1.0e-6;
        for p in &out {
            for (a, b) in [(p.v0, p.v1), (p.v1, p.v2), (p.v2, p.v0)] {
                assert!(length2(a, b) <= limit);
            }
        }
    }
}

#[test]
fn patches_are_appended() {
    let mut out = Vec::new();
    tessellate_triangle(&facet(1), &locate, &centre, &mut out);
    let first = out[0].clone();
    tessellate_triangle(&facet(3), &locate, &centre, &mut out);
    assert_eq!(out.len(), 10);
    assert_eq!(out[0].v1, first.v1);
    assert_eq!(out[0].material, first.material);
}

#[test]
fn faces_are_read_through_their_indices() {
    let t = read_face(&square(None), 2);
    assert_eq!(t.v0, v3(0.0, 0.0, 0.0));
    assert_eq!(t.v1, v3(1.0, 1.0, 0.0));
    assert_eq!(t.v2, v3(0.0, 1.0, 0.0));
}

#[test]
fn missing_materials_have_defaults() {
    let s = surface_of(&materials(), Some(0));
    assert_eq!((s.reflectance, s.emission), (v3(0.7, 0.7, 0.7), v3(0.0, 0.0, 0.0)));
    assert_eq!(s.name, "white");
    let s = surface_of(&materials(), Some(1));
    assert_eq!((s.reflectance, s.emission), (v3(0.0, 0.0, 0.0), v3(0.0, 0.0, 5.0)));
    for id in [None, Some(2), Some(usize::MAX)] {
        let s = surface_of(&materials(), id);
        assert_eq!((s.reflectance, s.emission), (v3(0.5, 0.5, 0.5), v3(0.0, 0.0, 0.0)));
        assert_eq!(s.name, "default");
    }
}

#[test]
fn slivers_are_skipped_and_walls_do_not_occlude() {
    let scene = build(&[square(Some(0))]).ok().unwrap();
    // The longest edge is sqrt(2), so each of the two faces has three rows.
    assert_eq!(scene.patches.len(), 18);
    assert!(scene.occluders.is_empty());
    assert!(scene.patches.iter().all(|p| p.material == "white"));
    assert!(scene.patches.iter().all(|p| p.abi.area == share(bits(0.5), 9)));
}

#[test]
fn interior_faces_occlude_undivided() {
    let scene = build(&[square(Some(0)), square(Some(1)), square(None)]).ok().unwrap();
    assert_eq!(scene.patches.len(), 54);
    let faces = [read_face(&square(None), 0), read_face(&square(None), 2)];
    assert_eq!(scene.occluders, vec![faces[0], faces[1], faces[0], faces[1]]);
    assert_eq!(scene.patches[18].material, "sphere");
    assert_eq!(scene.patches[36].material, "default");
}

#[test]
fn scene_without_faces_is_an_error() {
    assert_eq!(build(&[]).err(), Some(SceneError::NoUsableFaces));
    let sliver = Mesh { positions: vec![0; 9], indices: vec![0, 1, 2], material_id: None };
    assert_eq!(build(&[sliver]).err(), Some(SceneError::NoUsableFaces));
    assert_eq!(SceneError::NoUsableFaces.message(), "OBJ contains no usable faces");
}

#[test]
fn trailing_indices_make_no_face() {
    let mut mesh = square(None);
    mesh.indices.push(77);
    assert_eq!(build(&[mesh]).ok().unwrap().patches.len(), 18);
}

#[test]
fn emitters_have_any_positive_channel() {
    let scene = build(&[square(Some(0)), square(Some(1))]).ok().unwrap();
    assert_eq!(count_emitters(&scene.patches), 18);
    assert_eq!(count_emitters(&scene.patches[..18]), 0);
    assert_eq!(count_emitters(&[]), 0);
}

#[test]
fn slivers_may_have_any_number_of_rows() {
    let endless = |t: OccluderTriangle| {
        let shape = measure(t);
        if f32::from_bits(shape.area) < 1.0e-12 {
            FaceShape { cells: usize::MAX, ..shape }
        } else {
            shape
        }
    };
    let scene =
        build_scene(&[square(Some(0))], &materials(), endless, share, locate, centre).ok().unwrap();
    assert_eq!(scene.patches.len(), 18);
}

#[test]
fn reflectances_are_those_of_the_materials() {
    let scene = build(&[square(Some(0)), square(Some(1)), square(None)]).ok().unwrap();
    for p in &scene.patches {
        assert!(floats(p.reflectance).iter().all(|r| (0.0..=1.0).contains(r)));
    }
    assert_eq!(scene.patches[0].reflectance, v3(0.7, 0.7, 0.7));
    assert_eq!(scene.patches[18].reflectance, v3(0.0, 0.0, 0.0));
    assert_eq!(scene.patches[36].reflectance, v3(0.5, 0.5, 0.5));
}
