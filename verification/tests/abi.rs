use et_radiosity::abi::{
    geom_array_bytes, patch_array_bytes, pod_as_bytes, read_geoms, read_patch, read_vec3s,
    vec3_array_bytes, words_from_bytes, FormFactorArgs, OccluderTri, Patch, PatchGeom, RenderArgs,
};
use et_radiosity::ieee::Vec3;

fn v(a: u32) -> Vec3 {
    Vec3 { x: a, y: a + 1, z: a + 2 }
}

#[test]
fn words_are_little_endian() {
    let bytes = pod_as_bytes(&[0x0403_0201, 0xFFEE_DDCC]);
    assert_eq!(bytes, vec![1, 2, 3, 4, 0xCC, 0xDD, 0xEE, 0xFF]);
    assert_eq!(words_from_bytes(&bytes), vec![0x0403_0201, 0xFFEE_DDCC]);
}

#[test]
fn trailing_bytes_make_no_word() {
    assert_eq!(words_from_bytes(&[1, 0, 0, 0, 9, 9]), vec![1]);
    assert_eq!(words_from_bytes(&[]), Vec::<u32>::new());
}

#[test]
fn patch_takes_32_bytes() {
    let p = Patch { centroid: v(1), normal: v(10), area: 20, _pad: 0 };
    let bytes = patch_array_bytes(&[p, p]);
    assert_eq!(bytes.len(), 64);
    assert_eq!(words_from_bytes(&bytes)[8..], [1, 2, 3, 10, 11, 12, 20, 0]);
}

#[test]
fn geometry_takes_48_bytes() {
    let g = PatchGeom { v0: v(1), _p0: 0, v1: v(4), _p1: 0, v2: v(7), _p2: 0 };
    let bytes = geom_array_bytes(&[g]);
    assert_eq!(bytes.len(), 48);
    assert_eq!(words_from_bytes(&bytes), vec![1, 2, 3, 0, 4, 5, 6, 0, 7, 8, 9, 0]);
}

#[test]
fn triples_take_12_bytes() {
    let bytes = vec3_array_bytes(&[v(1), v(4)]);
    assert_eq!(words_from_bytes(&bytes), vec![1, 2, 3, 4, 5, 6]);
}

#[test]
fn occluder_has_padded_corners() {
    let o = OccluderTri { v0: v(1), _pad0: 0, v1: v(4), _pad1: 0, v2: v(7), _pad2: 0 };
    assert_eq!((o.v0.x, o.v1.x, o.v2.x), (1, 4, 7));
}

#[test]
fn form_factor_args_follow_the_documented_offsets() {
    let args = FormFactorArgs {
        patches_addr: 0x0807_0605_0403_0201,
        ff_matrix_addr: 2,
        occluder_addr: 3,
        n_patches: 4,
        n_harts: 5,
        n_occluders: 6,
        _pad: 0,
    };
    let bytes = args.to_bytes();
    assert_eq!(bytes.len(), 40);
    assert_eq!(bytes[0..8], [1, 2, 3, 4, 5, 6, 7, 8]);
    assert_eq!(bytes[8], 2);
    assert_eq!(bytes[16], 3);
    assert_eq!(bytes[24], 4);
    assert_eq!(bytes[28], 5);
    assert_eq!(bytes[32], 6);
    let back = FormFactorArgs::from_bytes(&bytes);
    assert_eq!(back.patches_addr, args.patches_addr);
    assert_eq!(back.to_bytes(), bytes);
}

#[test]
fn render_args_follow_the_documented_offsets() {
    let args = RenderArgs {
        patch_geom_addr: 1,
        vert_rad_addr: 2,
        patch_vi_addr: 3,
        pixels_addr: 0xFFFF_FFFF_0000_0004,
        camera_addr: 5,
        white: 1.5f32.to_bits(),
        width: 6,
        height: 7,
        n_patches: 8,
        n_verts: 9,
        n_harts: 10,
        _pad: 0,
    };
    let bytes = args.to_bytes();
    assert_eq!(bytes.len() % 8, 0);
    assert_eq!(bytes.len(), 72);
    for (offset, value) in [(0, 1), (8, 2), (16, 3), (24, 4), (32, 5)] {
        assert_eq!(bytes[offset], value);
    }
    assert_eq!(bytes[28..32], [0xFF; 4]);
    assert_eq!(bytes[40..44], 1.5f32.to_le_bytes());
    for (offset, value) in [(44, 6), (48, 7), (52, 8), (56, 9), (60, 10), (64, 0), (68, 0)] {
        assert_eq!(bytes[offset], value);
    }
    let back = RenderArgs::from_bytes(&bytes);
    assert_eq!(back.pixels_addr, args.pixels_addr);
    assert_eq!(back.white, args.white);
    assert_eq!(back.to_bytes(), bytes);
}

#[test]
fn kernels_read_what_the_host_wrote() {
    let patches = [
        Patch { centroid: v(1), normal: v(10), area: 20, _pad: 0 },
        Patch { centroid: v(101), normal: v(110), area: 120, _pad: 0 },
    ];
    let words = words_from_bytes(&patch_array_bytes(&patches));
    assert_eq!(read_patch(&words, 0), patches[0]);
    assert_eq!(read_patch(&words, 1), patches[1]);
    let geoms = [
        PatchGeom { v0: v(1), _p0: 0, v1: v(4), _p1: 0, v2: v(7), _p2: 0 },
        PatchGeom { v0: v(11), _p0: 5, v1: v(14), _p1: 6, v2: v(17), _p2: 7 },
    ];
    assert_eq!(read_geoms(&words_from_bytes(&geom_array_bytes(&geoms))), geoms);
    let items = [v(1), v(4), v(9)];
    assert_eq!(read_vec3s(&words_from_bytes(&vec3_array_bytes(&items))), items);
    assert!(read_geoms(&[]).is_empty() && read_vec3s(&[]).is_empty());
}

#[test]
fn default_structs_are_zero() {
    assert_eq!(Patch::default(), Patch { centroid: z(), normal: z(), area: 0, _pad: 0 });
    assert_eq!(PatchGeom::default().v2, z());
    assert_eq!(OccluderTri::default().v1, z());
}

fn z() -> Vec3 {
    Vec3 { x: 0, y: 0, z: 0 }
}
