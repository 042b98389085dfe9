//! Types shared by the host and the device kernels, and their bytes.
//!
//! Host and device are both little-endian, so what the host writes into device
//! memory is the sequence of little-endian words given here. All layouts are in
//! words of four bytes.

use vstd::prelude::*;

use crate::ieee::Vec3;

verus! {

/// A discretised surface patch, the unit of the radiosity solve. Eight words.
#[derive(Clone, Copy, Debug, Default, PartialEq, Eq, Structural)]
pub struct Patch {
    /// World-space centroid, in metres.
    pub centroid: Vec3,
    /// Outward-facing unit normal.
    pub normal: Vec3,
    /// Surface area, in square metres.
    pub area: u32,
    /// Padding; must be zero.
    pub _pad: u32,
}

/// A triangle for visibility testing, one vertex per four words. Twelve words.
#[derive(Clone, Copy, Debug, Default, PartialEq, Eq, Structural)]
pub struct OccluderTri {
    pub v0: Vec3,
    pub _pad0: u32,
    pub v1: Vec3,
    pub _pad1: u32,
    pub v2: Vec3,
    pub _pad2: u32,
}

/// The corners of a patch for the render kernel, one vertex per four words.
/// Twelve words.
#[derive(Clone, Copy, Debug, Default, PartialEq, Eq, Structural)]
pub struct PatchGeom {
    pub v0: Vec3,
    pub _p0: u32,
    pub v1: Vec3,
    pub _p1: u32,
    pub v2: Vec3,
    pub _p2: u32,
}

/// Launch arguments of the form-factor kernel.
///
/// ```text
/// offset  0: patches_addr    -- device address of Patch[n_patches]
/// offset  8: ff_matrix_addr  -- device address of the n_patches x n_patches matrix
/// offset 16: occluder_addr   -- device address of the occluder block
/// offset 24: n_patches
/// offset 28: n_harts
/// offset 32: n_occluders
/// offset 36: _pad
/// ```
#[derive(Clone, Copy, Debug, PartialEq, Eq, Structural)]
pub struct FormFactorArgs {
    /// Device address of the input patch array.
    pub patches_addr: u64,
    /// Device address of the output matrix, row-major: element `(i, j)` is at
    /// byte offset `(i * n_patches + j) * 4`.
    pub ff_matrix_addr: u64,
    /// Device address of the occluder block; zero when `n_occluders` is zero.
    pub occluder_addr: u64,
    /// Number of patches.
    pub n_patches: u32,
    /// Number of harts that share the rows.
    pub n_harts: u32,
    /// Number of occluder triangles; zero disables visibility testing.
    pub n_occluders: u32,
    /// Padding; must be zero.
    pub _pad: u32,
}

/// Launch arguments of the render kernel.
///
/// ```text
/// offset  0: patch_geom_addr  -- device address of PatchGeom[n_patches]
/// offset  8: vert_rad_addr    -- device address of one colour per vertex
/// offset 16: patch_vi_addr    -- device address of one index triple per patch
/// offset 24: pixels_addr      -- device address of u8[width * height * 3]
/// offset 32: camera_addr      -- device address of the 14 camera words
/// offset 40: white
/// offset 44: width
/// offset 48: height
/// offset 52: n_patches
/// offset 56: n_verts
/// offset 60: n_harts
/// offset 64: _pad
/// ```
///
/// The addresses align the struct to eight bytes, so one more word follows.
#[derive(Clone, Copy, Debug, PartialEq, Eq, Structural)]
pub struct RenderArgs {
    /// Device address of the patch geometry.
    pub patch_geom_addr: u64,
    /// Device address of the per-vertex radiosity.
    pub vert_rad_addr: u64,
    /// Device address of the vertex index triples.
    pub patch_vi_addr: u64,
    /// Device address of the output pixel buffer.
    pub pixels_addr: u64,
    /// Device address of the camera parameters: eye, forward, right, up, the
    /// tangent of half the field of view, aspect.
    pub camera_addr: u64,
    /// White point of the tone mapping.
    pub white: u32,
    /// Output image width in pixels.
    pub width: u32,
    /// Output image height in pixels.
    pub height: u32,
    /// Number of patches.
    pub n_patches: u32,
    /// Number of unique vertices.
    pub n_verts: u32,
    /// Number of harts that share the pixels.
    pub n_harts: u32,
    /// Padding; must be zero.
    pub _pad: u32,
}

// ---------------------------------------------------------------------------
// Words and bytes
// ---------------------------------------------------------------------------

/// Byte `k` (0 to 3) of a word, least significant first.
pub open spec fn word_byte(w: u32, k: int) -> u8 {
    if k == 0 {
        (w % 0x100) as u8
    } else if k == 1 {
        (w / 0x100 % 0x100) as u8
    } else if k == 2 {
        (w / 0x1_0000 % 0x100) as u8
    } else {
        (w / 0x100_0000) as u8
    }
}

/// The bytes of a sequence of words.
pub open spec fn word_bytes(words: Seq<u32>) -> Seq<u8> {
    Seq::new(words.len() * 4, |k: int| word_byte(words[k / 4], k % 4))
}

/// The word whose least significant byte stands at `at`.
pub open spec fn word_at(bytes: Seq<u8>, at: int) -> int {
    bytes[at] + bytes[at + 1] * 0x100 + bytes[at + 2] * 0x1_0000 + bytes[at + 3] * 0x100_0000
}

/// The low word of a 64-bit value.
pub open spec fn low_word(v: u64) -> u32 {
    (v % 0x1_0000_0000) as u32
}

/// The high word of a 64-bit value.
pub open spec fn high_word(v: u64) -> u32 {
    (v / 0x1_0000_0000) as u32
}

/// Reading a word gives back the word that was written.
pub proof fn law_word_round_trip(words: Seq<u32>, i: int)
    requires
        0 <= i < words.len(),
    ensures
        word_at(word_bytes(words), 4 * i) == words[i],
{
    let w = words[i];
    let b = word_bytes(words);
    assert((4 * i) / 4 == i && (4 * i) % 4 == 0);
    assert((4 * i + 1) / 4 == i && (4 * i + 1) % 4 == 1);
    assert((4 * i + 2) / 4 == i && (4 * i + 2) % 4 == 2);
    assert((4 * i + 3) / 4 == i && (4 * i + 3) % 4 == 3);
    assert(b[4 * i] == word_byte(w, 0));
    assert(b[4 * i + 1] == word_byte(w, 1));
    assert(b[4 * i + 2] == word_byte(w, 2));
    assert(b[4 * i + 3] == word_byte(w, 3));
    assert(w / 0x100_0000 < 0x100);
}

/// The little-endian bytes of `words`.
pub fn pod_as_bytes(words: &[u32]) -> (r: Vec<u8>)
    requires
        words@.len() * 4 <= usize::MAX,
    ensures
        r@ == word_bytes(words@),
{
    let mut out: Vec<u8> = Vec::new();
    let mut i: usize = 0;
    while i < words.len()
        invariant
            i <= words@.len(),
            out@ =~= word_bytes(words@.take(i as int)),
        decreases words@.len() - i,
    {
        let w: u32 = words[i];
        assert(w / 0x100_0000 < 0x100);
        out.push((w % 0x100) as u8);
        out.push((w / 0x100 % 0x100) as u8);
        out.push((w / 0x1_0000 % 0x100) as u8);
        out.push((w / 0x100_0000) as u8);
        i += 1;
        proof {
            let n = i - 1;
            let longer = word_bytes(words@.take(i as int));
            assert forall|k: int| 0 <= k < longer.len() implies #[trigger] longer[k] == out@[k] by {
                if k < n * 4 {
                    assert(k / 4 < n);
                    assert(words@.take(i as int)[k / 4] == words@.take(n)[k / 4]);
                } else {
                    assert(k / 4 == n);
                    assert(k % 4 == k - 4 * n);
                }
            }
        }
    }
    assert(words@.take(words@.len() as int) =~= words@);
    out
}

/// The words that `bytes` hold, little-endian; bytes after the last full word
/// are left out.
pub fn words_from_bytes(bytes: &[u8]) -> (r: Vec<u32>)
    ensures
        r@.len() == bytes@.len() / 4,
        forall|i: int| 0 <= i < r@.len() ==> #[trigger] r@[i] == word_at(bytes@, 4 * i),
{
    let mut out: Vec<u32> = Vec::new();
    let len: usize = bytes.len();
    let n: usize = len / 4;
    let mut i: usize = 0;
    while i < n
        invariant
            i <= n,
            len == bytes@.len(),
            n == len / 4,
            out@.len() == i,
            forall|k: int| 0 <= k < i ==> #[trigger] out@[k] == word_at(bytes@, 4 * k),
        decreases n - i,
    {
        let w: u32 = bytes[4 * i] as u32 + bytes[4 * i + 1] as u32 * 0x100 + bytes[4 * i + 2] as u32
            * 0x1_0000 + bytes[4 * i + 3] as u32 * 0x100_0000;
        out.push(w);
        i += 1;
    }
    out
}

// ---------------------------------------------------------------------------
// Arrays in device memory
// ---------------------------------------------------------------------------

/// The words of one patch.
pub open spec fn patch_words(p: Patch) -> Seq<u32> {
    seq![
        p.centroid.x,
        p.centroid.y,
        p.centroid.z,
        p.normal.x,
        p.normal.y,
        p.normal.z,
        p.area,
        p._pad,
    ]
}

/// The words of an array of patches.
pub open spec fn patch_array_words(patches: Seq<Patch>) -> Seq<u32> {
    Seq::new(patches.len() * 8, |k: int| patch_words(patches[k / 8])[k % 8])
}

/// The words of the corners of one patch.
pub open spec fn geom_words(g: PatchGeom) -> Seq<u32> {
    seq![
        g.v0.x,
        g.v0.y,
        g.v0.z,
        g._p0,
        g.v1.x,
        g.v1.y,
        g.v1.z,
        g._p1,
        g.v2.x,
        g.v2.y,
        g.v2.z,
        g._p2,
    ]
}

/// The words of an array of patch corners.
pub open spec fn geom_array_words(geoms: Seq<PatchGeom>) -> Seq<u32> {
    Seq::new(geoms.len() * 12, |k: int| geom_words(geoms[k / 12])[k % 12])
}

/// The words of one triple.
pub open spec fn vec3_words(v: Vec3) -> Seq<u32> {
    seq![v.x, v.y, v.z]
}

/// The words of an array of triples.
pub open spec fn vec3_array_words(items: Seq<Vec3>) -> Seq<u32> {
    Seq::new(items.len() * 3, |k: int| vec3_words(items[k / 3])[k % 3])
}

/// The bytes of an array of patches.
pub fn patch_array_bytes(patches: &[Patch]) -> (r: Vec<u8>)
    requires
        patches@.len() * 32 <= usize::MAX,
    ensures
        r@ == word_bytes(patch_array_words(patches@)),
{
    let mut words: Vec<u32> = Vec::new();
    let mut i: usize = 0;
    while i < patches.len()
        invariant
            i <= patches@.len(),
            words@ =~= patch_array_words(patches@.take(i as int)),
        decreases patches@.len() - i,
    {
        let p: Patch = patches[i];
        words.push(p.centroid.x);
        words.push(p.centroid.y);
        words.push(p.centroid.z);
        words.push(p.normal.x);
        words.push(p.normal.y);
        words.push(p.normal.z);
        words.push(p.area);
        words.push(p._pad);
        i += 1;
        proof {
            let longer = patch_array_words(patches@.take(i as int));
            assert forall|k: int| 0 <= k < longer.len() implies #[trigger] longer[k] == words@[k] by {
                if k < (i - 1) * 8 {
                    assert(patches@.take(i as int)[k / 8] == patches@.take(i - 1)[k / 8]);
                } else {
                    assert(k / 8 == i - 1);
                }
            }
        }
    }
    assert(patches@.take(patches@.len() as int) =~= patches@);
    pod_as_bytes(words.as_slice())
}

/// The bytes of an array of patch corners.
pub fn geom_array_bytes(geoms: &[PatchGeom]) -> (r: Vec<u8>)
    requires
        geoms@.len() * 48 <= usize::MAX,
    ensures
        r@ == word_bytes(geom_array_words(geoms@)),
{
    let mut words: Vec<u32> = Vec::new();
    let mut i: usize = 0;
    while i < geoms.len()
        invariant
            i <= geoms@.len(),
            words@ =~= geom_array_words(geoms@.take(i as int)),
        decreases geoms@.len() - i,
    {
        let g: PatchGeom = geoms[i];
        words.push(g.v0.x);
        words.push(g.v0.y);
        words.push(g.v0.z);
        words.push(g._p0);
        words.push(g.v1.x);
        words.push(g.v1.y);
        words.push(g.v1.z);
        words.push(g._p1);
        words.push(g.v2.x);
        words.push(g.v2.y);
        words.push(g.v2.z);
        words.push(g._p2);
        i += 1;
        proof {
            let longer = geom_array_words(geoms@.take(i as int));
            assert forall|k: int| 0 <= k < longer.len() implies #[trigger] longer[k] == words@[k] by {
                if k < (i - 1) * 12 {
                    assert(geoms@.take(i as int)[k / 12] == geoms@.take(i - 1)[k / 12]);
                } else {
                    assert(k / 12 == i - 1);
                }
            }
        }
    }
    assert(geoms@.take(geoms@.len() as int) =~= geoms@);
    pod_as_bytes(words.as_slice())
}

/// The bytes of an array of triples.
pub fn vec3_array_bytes(items: &[Vec3]) -> (r: Vec<u8>)
    requires
        items@.len() * 12 <= usize::MAX,
    ensures
        r@ == word_bytes(vec3_array_words(items@)),
{
    let mut words: Vec<u32> = Vec::new();
    let mut i: usize = 0;
    while i < items.len()
        invariant
            i <= items@.len(),
            words@ =~= vec3_array_words(items@.take(i as int)),
        decreases items@.len() - i,
    {
        let v: Vec3 = items[i];
        words.push(v.x);
        words.push(v.y);
        words.push(v.z);
        i += 1;
        proof {
            let longer = vec3_array_words(items@.take(i as int));
            assert forall|k: int| 0 <= k < longer.len() implies #[trigger] longer[k] == words@[k] by {
                if k < (i - 1) * 3 {
                    assert(items@.take(i as int)[k / 3] == items@.take(i - 1)[k / 3]);
                } else {
                    assert(k / 3 == i - 1);
                }
            }
        }
    }
    assert(items@.take(items@.len() as int) =~= items@);
    pod_as_bytes(words.as_slice())
}

/// The kernel finds word `k` of patch `i` 32 bytes per patch into the array.
pub proof fn law_patch_array_layout(patches: Seq<Patch>, i: int, k: int)
    requires
        0 <= i < patches.len(),
        0 <= k < 8,
    ensures
        word_at(word_bytes(patch_array_words(patches)), 32 * i + 4 * k) == patch_words(
            patches[i],
        )[k],
{
    law_word_round_trip(patch_array_words(patches), 8 * i + k);
}

/// The kernel finds word `k` of the corners of patch `i` 48 bytes per patch into
/// the array.
pub proof fn law_geom_array_layout(geoms: Seq<PatchGeom>, i: int, k: int)
    requires
        0 <= i < geoms.len(),
        0 <= k < 12,
    ensures
        word_at(word_bytes(geom_array_words(geoms)), 48 * i + 4 * k) == geom_words(geoms[i])[k],
{
    law_word_round_trip(geom_array_words(geoms), 12 * i + k);
}

/// The kernel finds component `k` of triple `i` 12 bytes per triple into the
/// array.
pub proof fn law_vec3_array_layout(items: Seq<Vec3>, i: int, k: int)
    requires
        0 <= i < items.len(),
        0 <= k < 3,
    ensures
        word_at(word_bytes(vec3_array_words(items)), 12 * i + 4 * k) == vec3_words(items[i])[k],
{
    law_word_round_trip(vec3_array_words(items), 3 * i + k);
}

/// The patch at `i` in the words of an array of patches.
pub open spec fn patch_at(words: Seq<u32>, i: int) -> Patch {
    Patch {
        centroid: Vec3 { x: words[8 * i], y: words[8 * i + 1], z: words[8 * i + 2] },
        normal: Vec3 { x: words[8 * i + 3], y: words[8 * i + 4], z: words[8 * i + 5] },
        area: words[8 * i + 6],
        _pad: words[8 * i + 7],
    }
}

/// Reads patch `i` from the words of an array of patches.
pub fn read_patch(words: &[u32], i: usize) -> (r: Patch)
    requires
        8 * i + 8 <= words@.len(),
    ensures
        r == patch_at(words@, i as int),
        patch_words(r) == words@.subrange(8 * i as int, 8 * i + 8),
{
    let len: usize = words.len();
    assert(8 * i + 8 <= len);
    let k: usize = 8 * i;
    let r = Patch {
        centroid: Vec3 { x: words[k], y: words[k + 1], z: words[k + 2] },
        normal: Vec3 { x: words[k + 3], y: words[k + 4], z: words[k + 5] },
        area: words[k + 6],
        _pad: words[k + 7],
    };
    assert(patch_words(r) =~= words@.subrange(8 * i as int, 8 * i + 8));
    r
}

/// Reads the corners of patches from their words.
pub fn read_geoms(words: &[u32]) -> (r: Vec<PatchGeom>)
    requires
        words@.len() % 12 == 0,
    ensures
        geom_array_words(r@) == words@,
{
    let len: usize = words.len();
    let n: usize = len / 12;
    let mut out: Vec<PatchGeom> = Vec::new();
    let mut i: usize = 0;
    while i < n
        invariant
            i <= n,
            len == words@.len(),
            len == 12 * n,
            out@.len() == i,
            geom_array_words(out@) =~= words@.take(12 * i as int),
        decreases n - i,
    {
        let k: usize = 12 * i;
        let g = PatchGeom {
            v0: Vec3 { x: words[k], y: words[k + 1], z: words[k + 2] },
            _p0: words[k + 3],
            v1: Vec3 { x: words[k + 4], y: words[k + 5], z: words[k + 6] },
            _p1: words[k + 7],
            v2: Vec3 { x: words[k + 8], y: words[k + 9], z: words[k + 10] },
            _p2: words[k + 11],
        };
        let ghost before = out@;
        out.push(g);
        proof {
            let longer = geom_array_words(out@);
            assert(geom_words(g) =~= words@.subrange(12 * i as int, 12 * i + 12));
            assert forall|j: int| 0 <= j < longer.len() implies longer[j] == words@[j] by {
                if j < 12 * i {
                    assert(out@[j / 12] == before[j / 12]);
                    assert(geom_array_words(before)[j] == words@.take(12 * i as int)[j]);
                } else {
                    assert(j / 12 == i);
                    assert(geom_words(g)[j % 12] == words@.subrange(12 * i as int, 12 * i + 12)[j
                        % 12]);
                }
            }
        }
        i += 1;
    }
    assert(words@.take(len as int) =~= words@);
    out
}

/// Reads triples from their words.
pub fn read_vec3s(words: &[u32]) -> (r: Vec<Vec3>)
    requires
        words@.len() % 3 == 0,
    ensures
        vec3_array_words(r@) == words@,
{
    let len: usize = words.len();
    let n: usize = len / 3;
    let mut out: Vec<Vec3> = Vec::new();
    let mut i: usize = 0;
    while i < n
        invariant
            i <= n,
            len == words@.len(),
            len == 3 * n,
            out@.len() == i,
            vec3_array_words(out@) =~= words@.take(3 * i as int),
        decreases n - i,
    {
        let k: usize = 3 * i;
        let v = Vec3 { x: words[k], y: words[k + 1], z: words[k + 2] };
        let ghost before = out@;
        out.push(v);
        proof {
            let longer = vec3_array_words(out@);
            assert forall|j: int| 0 <= j < longer.len() implies longer[j] == words@[j] by {
                if j < 3 * i {
                    assert(out@[j / 3] == before[j / 3]);
                    assert(vec3_array_words(before)[j] == words@.take(3 * i as int)[j]);
                } else {
                    assert(j / 3 == i);
                }
            }
        }
        i += 1;
    }
    assert(words@.take(len as int) =~= words@);
    out
}

/// The kernel reads the patch that the host wrote.
pub proof fn law_patch_read_back(patches: Seq<Patch>, i: int)
    requires
        0 <= i < patches.len(),
    ensures
        patch_at(patch_array_words(patches), i) == patches[i],
{
    let words = patch_array_words(patches);
    assert forall|k: int| 0 <= k < 8 implies #[trigger] words[8 * i + k] == patch_words(
        patches[i],
    )[k] by {
        assert((8 * i + k) / 8 == i && (8 * i + k) % 8 == k);
    }
    assert(words[8 * i + 0] == patch_words(patches[i])[0]);
    assert(words[8 * i + 1] == patch_words(patches[i])[1]);
    assert(words[8 * i + 2] == patch_words(patches[i])[2]);
    assert(words[8 * i + 3] == patch_words(patches[i])[3]);
    assert(words[8 * i + 4] == patch_words(patches[i])[4]);
    assert(words[8 * i + 5] == patch_words(patches[i])[5]);
    assert(words[8 * i + 6] == patch_words(patches[i])[6]);
    assert(words[8 * i + 7] == patch_words(patches[i])[7]);
}

/// The kernel reads the corners that the host wrote.
pub proof fn law_geoms_read_back(sent: Seq<PatchGeom>, received: Seq<PatchGeom>)
    requires
        geom_array_words(received) == geom_array_words(sent),
    ensures
        received == sent,
{
    let (a, b) = (geom_array_words(received), geom_array_words(sent));
    assert(a.len() == b.len());
    assert forall|i: int| 0 <= i < sent.len() implies received[i] == sent[i] by {
        assert forall|k: int| 0 <= k < 12 implies geom_words(received[i])[k] == geom_words(
            sent[i],
        )[k] by {
            assert(a[12 * i + k] == b[12 * i + k]);
            assert((12 * i + k) / 12 == i && (12 * i + k) % 12 == k);
        }
        lemma_words_agree(geom_words(received[i]), geom_words(sent[i]));
    }
    assert(received =~= sent);
}

/// The kernel reads the triples that the host wrote.
pub proof fn law_vec3s_read_back(sent: Seq<Vec3>, received: Seq<Vec3>)
    requires
        vec3_array_words(received) == vec3_array_words(sent),
    ensures
        received == sent,
{
    let (a, b) = (vec3_array_words(received), vec3_array_words(sent));
    assert(a.len() == b.len());
    assert forall|i: int| 0 <= i < sent.len() implies received[i] == sent[i] by {
        assert(a[3 * i] == b[3 * i] && a[3 * i + 1] == b[3 * i + 1] && a[3 * i + 2] == b[3 * i
            + 2]);
        assert((3 * i + 1) / 3 == i && (3 * i + 2) / 3 == i);
    }
    assert(received =~= sent);
}

/// Equal sequences of words are equal word by word.
proof fn lemma_words_agree(a: Seq<u32>, b: Seq<u32>)
    requires
        a.len() == b.len(),
        a.len() <= 12,
        forall|k: int| 0 <= k < a.len() ==> a[k] == b[k],
    ensures
        a.len() > 0 ==> a[0] == b[0],
        a.len() > 1 ==> a[1] == b[1],
        a.len() > 2 ==> a[2] == b[2],
        a.len() > 3 ==> a[3] == b[3],
        a.len() > 4 ==> a[4] == b[4],
        a.len() > 5 ==> a[5] == b[5],
        a.len() > 6 ==> a[6] == b[6],
        a.len() > 7 ==> a[7] == b[7],
        a.len() > 8 ==> a[8] == b[8],
        a.len() > 9 ==> a[9] == b[9],
        a.len() > 10 ==> a[10] == b[10],
        a.len() > 11 ==> a[11] == b[11],
{
}

// ---------------------------------------------------------------------------
// Launch arguments in device memory
// ---------------------------------------------------------------------------

impl FormFactorArgs {
    /// The ten words of the arguments, in the documented order.
    pub open spec fn words(self) -> Seq<u32> {
        seq![
            low_word(self.patches_addr),
            high_word(self.patches_addr),
            low_word(self.ff_matrix_addr),
            high_word(self.ff_matrix_addr),
            low_word(self.occluder_addr),
            high_word(self.occluder_addr),
            self.n_patches,
            self.n_harts,
            self.n_occluders,
            self._pad,
        ]
    }

    /// The 40 bytes that the host stages for the kernel.
    pub fn to_bytes(&self) -> (r: Vec<u8>)
        ensures
            r@ == word_bytes(self.words()),
    {
        let mut words: Vec<u32> = Vec::new();
        push_address(&mut words, self.patches_addr);
        push_address(&mut words, self.ff_matrix_addr);
        push_address(&mut words, self.occluder_addr);
        words.push(self.n_patches);
        words.push(self.n_harts);
        words.push(self.n_occluders);
        words.push(self._pad);
        assert(words@ =~= self.words());
        pod_as_bytes(words.as_slice())
    }

    /// The arguments that the kernel finds in the staged bytes.
    pub fn from_bytes(bytes: &[u8]) -> (r: FormFactorArgs)
        requires
            bytes@.len() == 40,
        ensures
            forall|i: int|
                0 <= i < 10 ==> #[trigger] r.words()[i] == word_at(bytes@, 4 * i),
    {
        let w: Vec<u32> = words_from_bytes(bytes);
        let r = FormFactorArgs {
            patches_addr: address(w[0], w[1]),
            ff_matrix_addr: address(w[2], w[3]),
            occluder_addr: address(w[4], w[5]),
            n_patches: w[6],
            n_harts: w[7],
            n_occluders: w[8],
            _pad: w[9],
        };
        assert(r.words() =~= w@);
        r
    }
}

impl RenderArgs {
    /// The eighteen words of the arguments, in the documented order, the last
    /// one filling the struct up to its alignment.
    pub open spec fn words(self) -> Seq<u32> {
        seq![
            low_word(self.patch_geom_addr),
            high_word(self.patch_geom_addr),
            low_word(self.vert_rad_addr),
            high_word(self.vert_rad_addr),
            low_word(self.patch_vi_addr),
            high_word(self.patch_vi_addr),
            low_word(self.pixels_addr),
            high_word(self.pixels_addr),
            low_word(self.camera_addr),
            high_word(self.camera_addr),
            self.white,
            self.width,
            self.height,
            self.n_patches,
            self.n_verts,
            self.n_harts,
            self._pad,
            0,
        ]
    }

    /// The 72 bytes that the host stages for the kernel.
    pub fn to_bytes(&self) -> (r: Vec<u8>)
        ensures
            r@ == word_bytes(self.words()),
    {
        let mut words: Vec<u32> = Vec::new();
        push_address(&mut words, self.patch_geom_addr);
        push_address(&mut words, self.vert_rad_addr);
        push_address(&mut words, self.patch_vi_addr);
        push_address(&mut words, self.pixels_addr);
        push_address(&mut words, self.camera_addr);
        words.push(self.white);
        words.push(self.width);
        words.push(self.height);
        words.push(self.n_patches);
        words.push(self.n_verts);
        words.push(self.n_harts);
        words.push(self._pad);
        words.push(0);
        assert(words@ =~= self.words());
        pod_as_bytes(words.as_slice())
    }

    /// The arguments that the kernel finds in the staged bytes.
    pub fn from_bytes(bytes: &[u8]) -> (r: RenderArgs)
        requires
            bytes@.len() == 72,
        ensures
            forall|i: int|
                0 <= i < 17 ==> #[trigger] r.words()[i] == word_at(bytes@, 4 * i),
    {
        let w: Vec<u32> = words_from_bytes(bytes);
        let r = RenderArgs {
            patch_geom_addr: address(w[0], w[1]),
            vert_rad_addr: address(w[2], w[3]),
            patch_vi_addr: address(w[4], w[5]),
            pixels_addr: address(w[6], w[7]),
            camera_addr: address(w[8], w[9]),
            white: w[10],
            width: w[11],
            height: w[12],
            n_patches: w[13],
            n_verts: w[14],
            n_harts: w[15],
            _pad: w[16],
        };
        assert(r.words().take(17) =~= w@.take(17));
        assert forall|i: int| 0 <= i < 17 implies #[trigger] r.words()[i] == word_at(bytes@, 4 * i) by {
            assert(r.words().take(17)[i] == w@.take(17)[i]);
        }
        r
    }
}

/// Appends the two words of a device address.
fn push_address(words: &mut Vec<u32>, v: u64)
    ensures
        final(words)@ == old(words)@ + seq![low_word(v), high_word(v)],
{
    words.push((v % 0x1_0000_0000) as u32);
    words.push((v / 0x1_0000_0000) as u32);
    assert(words@ =~= old(words)@ + seq![low_word(v), high_word(v)]);
}

/// The device address of two words.
fn address(low: u32, high: u32) -> (r: u64)
    ensures
        low_word(r) == low,
        high_word(r) == high,
{
    low as u64 + high as u64 * 0x1_0000_0000
}

/// The kernel reads the form-factor arguments that the host staged.
pub proof fn law_form_factor_args_round_trip(sent: FormFactorArgs, received: FormFactorArgs)
    requires
        forall|i: int|
            0 <= i < 10 ==> #[trigger] received.words()[i] == word_at(
                word_bytes(sent.words()),
                4 * i,
            ),
    ensures
        received == sent,
{
    assert forall|i: int| 0 <= i < 10 implies #[trigger] received.words()[i] == sent.words()[i] by {
        law_word_round_trip(sent.words(), i);
    }
    lemma_words_determine(sent.patches_addr, received.patches_addr);
    lemma_words_determine(sent.ff_matrix_addr, received.ff_matrix_addr);
    lemma_words_determine(sent.occluder_addr, received.occluder_addr);
    let (s, r) = (sent.words(), received.words());
    assert(r[0] == s[0] && r[1] == s[1] && r[2] == s[2] && r[3] == s[3] && r[4] == s[4]);
    assert(r[5] == s[5] && r[6] == s[6] && r[7] == s[7] && r[8] == s[8] && r[9] == s[9]);
}

/// The kernel reads the render arguments that the host staged.
pub proof fn law_render_args_round_trip(sent: RenderArgs, received: RenderArgs)
    requires
        forall|i: int|
            0 <= i < 17 ==> #[trigger] received.words()[i] == word_at(
                word_bytes(sent.words()),
                4 * i,
            ),
    ensures
        received == sent,
{
    assert forall|i: int| 0 <= i < 17 implies #[trigger] received.words()[i] == sent.words()[i] by {
        law_word_round_trip(sent.words(), i);
    }
    lemma_words_determine(sent.patch_geom_addr, received.patch_geom_addr);
    lemma_words_determine(sent.vert_rad_addr, received.vert_rad_addr);
    lemma_words_determine(sent.patch_vi_addr, received.patch_vi_addr);
    lemma_words_determine(sent.pixels_addr, received.pixels_addr);
    lemma_words_determine(sent.camera_addr, received.camera_addr);
    let (s, r) = (sent.words(), received.words());
    assert(r[0] == s[0] && r[1] == s[1] && r[2] == s[2] && r[3] == s[3] && r[4] == s[4]);
    assert(r[5] == s[5] && r[6] == s[6] && r[7] == s[7] && r[8] == s[8] && r[9] == s[9]);
    assert(r[10] == s[10] && r[11] == s[11] && r[12] == s[12] && r[13] == s[13] && r[14] == s[14]);
    assert(r[15] == s[15] && r[16] == s[16]);
}

proof fn lemma_words_determine(a: u64, b: u64)
    ensures
        low_word(a) == low_word(b) && high_word(a) == high_word(b) ==> a == b,
{
    assert(a / 0x1_0000_0000 < 0x1_0000_0000 && b / 0x1_0000_0000 < 0x1_0000_0000);
}

// ---------------------------------------------------------------------------
// What the calls come to
// ---------------------------------------------------------------------------

/// A call of `pod_as_bytes` gives every word four bytes, of which the first counts
/// ones, the second 256s, and so on.
pub proof fn law_call_little_endian(words: &[u32], r: Vec<u8>, i: int)
    requires
        call_ensures(pod_as_bytes, (words,), r),
        0 <= i < words@.len(),
    ensures
        r@.len() == 4 * words@.len(),
        r@[4 * i] + r@[4 * i + 1] * 256 + r@[4 * i + 2] * 65536 + r@[4 * i + 3] * 16777216
            == words@[i],
{
    law_word_round_trip(words@, i);
}

/// A call of `words_from_bytes` reads words of four bytes in the same way, and undoes
/// `pod_as_bytes`.
pub proof fn law_call_reads_words(bytes: &[u8], r: Vec<u32>, i: int)
    requires
        call_ensures(words_from_bytes, (bytes,), r),
        0 <= i < bytes@.len() / 4,
    ensures
        r@.len() == bytes@.len() / 4,
        r@[i] == bytes@[4 * i] + bytes@[4 * i + 1] * 256 + bytes@[4 * i + 2] * 65536 + bytes@[4 * i
            + 3] * 16777216,
{
    assert(r@[i] == word_at(bytes@, 4 * i));
}

/// A call of `patch_array_bytes` puts the fields of patch `i` at `32 i`: centroid,
/// normal, area, padding.
pub proof fn law_call_patch_bytes(patches: &[Patch], r: Vec<u8>, i: int)
    requires
        call_ensures(patch_array_bytes, (patches,), r),
        0 <= i < patches@.len(),
    ensures
        r@.len() == 32 * patches@.len(),
        word_at(r@, 32 * i + 0) == patches@[i].centroid.x,
        word_at(r@, 32 * i + 4) == patches@[i].centroid.y,
        word_at(r@, 32 * i + 8) == patches@[i].centroid.z,
        word_at(r@, 32 * i + 12) == patches@[i].normal.x,
        word_at(r@, 32 * i + 16) == patches@[i].normal.y,
        word_at(r@, 32 * i + 20) == patches@[i].normal.z,
        word_at(r@, 32 * i + 24) == patches@[i].area,
        word_at(r@, 32 * i + 28) == patches@[i]._pad,
{
    law_patch_array_layout(patches@, i, 0);
    law_patch_array_layout(patches@, i, 1);
    law_patch_array_layout(patches@, i, 2);
    law_patch_array_layout(patches@, i, 3);
    law_patch_array_layout(patches@, i, 4);
    law_patch_array_layout(patches@, i, 5);
    law_patch_array_layout(patches@, i, 6);
    law_patch_array_layout(patches@, i, 7);
}

/// A call of `geom_array_bytes` puts the corners of patch `i` at `48 i`, four words
/// each.
pub proof fn law_call_geom_bytes(geoms: &[PatchGeom], r: Vec<u8>, i: int, k: int)
    requires
        call_ensures(geom_array_bytes, (geoms,), r),
        0 <= i < geoms@.len(),
        0 <= k < 12,
    ensures
        r@.len() == 48 * geoms@.len(),
        ({
            let g = geoms@[i];
            let word = word_at(r@, 48 * i + 4 * k);
            &&& k == 0 ==> word == g.v0.x
            &&& k == 1 ==> word == g.v0.y
            &&& k == 2 ==> word == g.v0.z
            &&& k == 3 ==> word == g._p0
            &&& k == 4 ==> word == g.v1.x
            &&& k == 5 ==> word == g.v1.y
            &&& k == 6 ==> word == g.v1.z
            &&& k == 7 ==> word == g._p1
            &&& k == 8 ==> word == g.v2.x
            &&& k == 9 ==> word == g.v2.y
            &&& k == 10 ==> word == g.v2.z
            &&& k == 11 ==> word == g._p2
        }),
{
    law_geom_array_layout(geoms@, i, k);
}

/// A call of `vec3_array_bytes` puts the components of triple `i` at `12 i`.
pub proof fn law_call_vec3_bytes(items: &[Vec3], r: Vec<u8>, i: int)
    requires
        call_ensures(vec3_array_bytes, (items,), r),
        0 <= i < items@.len(),
    ensures
        r@.len() == 12 * items@.len(),
        word_at(r@, 12 * i + 0) == items@[i].x,
        word_at(r@, 12 * i + 4) == items@[i].y,
        word_at(r@, 12 * i + 8) == items@[i].z,
{
    law_vec3_array_layout(items@, i, 0);
    law_vec3_array_layout(items@, i, 1);
    law_vec3_array_layout(items@, i, 2);
}

/// A call of `read_patch` takes the fields of patch `i` from the eight words at `8 i`.
pub proof fn law_call_reads_patch(words: &[u32], i: usize, r: Patch)
    requires
        call_ensures(read_patch, (words, i), r),
    ensures
        r.centroid.x == words@[8 * i + 0],
        r.centroid.y == words@[8 * i + 1],
        r.centroid.z == words@[8 * i + 2],
        r.normal.x == words@[8 * i + 3],
        r.normal.y == words@[8 * i + 4],
        r.normal.z == words@[8 * i + 5],
        r.area == words@[8 * i + 6],
        r._pad == words@[8 * i + 7],
{
}

/// A call of `read_geoms` takes the corners of patch `i` from the twelve words at
/// `12 i`.
pub proof fn law_call_reads_geoms(words: &[u32], r: Vec<PatchGeom>, i: int)
    requires
        call_ensures(read_geoms, (words,), r),
        0 <= i,
        12 * i + 12 <= words@.len(),
    ensures
        12 * r@.len() == words@.len(),
        r@[i].v0.x == words@[12 * i + 0],
        r@[i].v0.y == words@[12 * i + 1],
        r@[i].v0.z == words@[12 * i + 2],
        r@[i]._p0 == words@[12 * i + 3],
        r@[i].v1.x == words@[12 * i + 4],
        r@[i].v1.y == words@[12 * i + 5],
        r@[i].v1.z == words@[12 * i + 6],
        r@[i]._p1 == words@[12 * i + 7],
        r@[i].v2.x == words@[12 * i + 8],
        r@[i].v2.y == words@[12 * i + 9],
        r@[i].v2.z == words@[12 * i + 10],
        r@[i]._p2 == words@[12 * i + 11],
{
    let w = geom_array_words(r@);
    assert forall|k: int| 0 <= k < 12 implies geom_words(r@[i])[k] == #[trigger] words@[12 * i
        + k] by {
        assert(w[12 * i + k] == words@[12 * i + k]);
        assert((12 * i + k) / 12 == i && (12 * i + k) % 12 == k);
    }
    let g = geom_words(r@[i]);
    assert(g[0] == words@[12 * i + 0]);
    assert(g[1] == words@[12 * i + 1]);
    assert(g[2] == words@[12 * i + 2]);
    assert(g[3] == words@[12 * i + 3]);
    assert(g[4] == words@[12 * i + 4]);
    assert(g[5] == words@[12 * i + 5]);
    assert(g[6] == words@[12 * i + 6]);
    assert(g[7] == words@[12 * i + 7]);
    assert(g[8] == words@[12 * i + 8]);
    assert(g[9] == words@[12 * i + 9]);
    assert(g[10] == words@[12 * i + 10]);
    assert(g[11] == words@[12 * i + 11]);
}

/// A call of `read_vec3s` takes the components of triple `i` from the three words at
/// `3 i`.
pub proof fn law_call_reads_vec3s(words: &[u32], r: Vec<Vec3>, i: int)
    requires
        call_ensures(read_vec3s, (words,), r),
        0 <= i,
        3 * i + 3 <= words@.len(),
    ensures
        3 * r@.len() == words@.len(),
        r@[i].x == words@[3 * i],
        r@[i].y == words@[3 * i + 1],
        r@[i].z == words@[3 * i + 2],
{
    let w = vec3_array_words(r@);
    assert(w[3 * i] == words@[3 * i]);
    assert(w[3 * i + 1] == words@[3 * i + 1]);
    assert(w[3 * i + 2] == words@[3 * i + 2]);
    assert(vec3_words(r@[i])[0] == w[3 * i]);
    assert(vec3_words(r@[i])[1] == w[3 * i + 1]);
    assert(vec3_words(r@[i])[2] == w[3 * i + 2]);
}

/// A call of `FormFactorArgs::to_bytes` puts every field at its documented offset.
pub proof fn law_call_form_factor_args(args: FormFactorArgs, r: Vec<u8>)
    requires
        call_ensures(FormFactorArgs::to_bytes, (&args,), r),
    ensures
        r@.len() == 40,
        word_at(r@, 0) + word_at(r@, 4) * 0x1_0000_0000 == args.patches_addr,
        word_at(r@, 8) + word_at(r@, 12) * 0x1_0000_0000 == args.ff_matrix_addr,
        word_at(r@, 16) + word_at(r@, 20) * 0x1_0000_0000 == args.occluder_addr,
        word_at(r@, 24) == args.n_patches,
        word_at(r@, 28) == args.n_harts,
        word_at(r@, 32) == args.n_occluders,
        word_at(r@, 36) == args._pad,
{
    let w = args.words();
    law_word_round_trip(w, 0);
    law_word_round_trip(w, 1);
    law_word_round_trip(w, 2);
    law_word_round_trip(w, 3);
    law_word_round_trip(w, 4);
    law_word_round_trip(w, 5);
    law_word_round_trip(w, 6);
    law_word_round_trip(w, 7);
    law_word_round_trip(w, 8);
    law_word_round_trip(w, 9);
}

/// A call of `RenderArgs::to_bytes` puts every field at its documented offset.
pub proof fn law_call_render_args(args: RenderArgs, r: Vec<u8>)
    requires
        call_ensures(RenderArgs::to_bytes, (&args,), r),
    ensures
        r@.len() == 72,
        word_at(r@, 0) + word_at(r@, 4) * 0x1_0000_0000 == args.patch_geom_addr,
        word_at(r@, 8) + word_at(r@, 12) * 0x1_0000_0000 == args.vert_rad_addr,
        word_at(r@, 16) + word_at(r@, 20) * 0x1_0000_0000 == args.patch_vi_addr,
        word_at(r@, 24) + word_at(r@, 28) * 0x1_0000_0000 == args.pixels_addr,
        word_at(r@, 32) + word_at(r@, 36) * 0x1_0000_0000 == args.camera_addr,
        word_at(r@, 40) == args.white,
        word_at(r@, 44) == args.width,
        word_at(r@, 48) == args.height,
        word_at(r@, 52) == args.n_patches,
        word_at(r@, 56) == args.n_verts,
        word_at(r@, 60) == args.n_harts,
        word_at(r@, 64) == args._pad,
{
    let w = args.words();
    law_word_round_trip(w, 0);
    law_word_round_trip(w, 1);
    law_word_round_trip(w, 2);
    law_word_round_trip(w, 3);
    law_word_round_trip(w, 4);
    law_word_round_trip(w, 5);
    law_word_round_trip(w, 6);
    law_word_round_trip(w, 7);
    law_word_round_trip(w, 8);
    law_word_round_trip(w, 9);
    law_word_round_trip(w, 10);
    law_word_round_trip(w, 11);
    law_word_round_trip(w, 12);
    law_word_round_trip(w, 13);
    law_word_round_trip(w, 14);
    law_word_round_trip(w, 15);
    law_word_round_trip(w, 16);
}

/// What the kernel reads of form-factor arguments is what the host wrote.
pub proof fn law_calls_pass_form_factor_args(
    sent: FormFactorArgs,
    bytes: Vec<u8>,
    slice: &[u8],
    received: FormFactorArgs,
)
    requires
        call_ensures(FormFactorArgs::to_bytes, (&sent,), bytes),
        slice@ == bytes@,
        call_ensures(FormFactorArgs::from_bytes, (slice,), received),
    ensures
        received == sent,
{
    assert forall|i: int| 0 <= i < 10 implies #[trigger] received.words()[i] == word_at(
        word_bytes(sent.words()),
        4 * i,
    ) by {
        assert(received.words()[i] == word_at(slice@, 4 * i));
    }
    law_form_factor_args_round_trip(sent, received);
}

/// What the kernel reads of render arguments is what the host wrote.
pub proof fn law_calls_pass_render_args(
    sent: RenderArgs,
    bytes: Vec<u8>,
    slice: &[u8],
    received: RenderArgs,
)
    requires
        call_ensures(RenderArgs::to_bytes, (&sent,), bytes),
        slice@ == bytes@,
        call_ensures(RenderArgs::from_bytes, (slice,), received),
    ensures
        received == sent,
{
    assert forall|i: int| 0 <= i < 17 implies #[trigger] received.words()[i] == word_at(
        word_bytes(sent.words()),
        4 * i,
    ) by {
        assert(received.words()[i] == word_at(slice@, 4 * i));
    }
    law_render_args_round_trip(sent, received);
}

} // verus!
