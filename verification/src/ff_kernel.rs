//! Decisions of the form-factor kernel: which rows a hart owns, where its
//! results go, and when a pair of patches exchanges no energy.

use vstd::prelude::*;

use crate::abi::{patch_at, read_patch, FormFactorArgs, Patch};
use crate::ieee::{is_nan, le, less, less_or_equal, lt, rank, Vec3, ONE, ZERO};
use crate::scene::OccluderTriangle;

verus! {

/// `1.0e-6`: centroids closer than this see nothing of each other.
pub const MIN_DISTANCE: u32 = 0x3586_37BD;

/// `1.0e-3`: margin at both ends of a shadow ray.
pub const T_MIN: u32 = 0x3A83_126F;

/// `1.0e-7`: below it a ray counts as parallel to a triangle, or as starting
/// on it.
pub const EPS: u32 = 0x33D6_BF95;

/// `1.0e-8`: smallest squared distance that has a form factor.
pub const MIN_DISTANCE_SQUARED: u32 = 0x322B_CC77;

// ---------------------------------------------------------------------------
// Row partition
// ---------------------------------------------------------------------------

/// Rows per hart: the number of rows divided by the number of harts, rounded up.
pub open spec fn rows_per_hart(n: int, n_harts: int) -> int {
    (n + n_harts - 1) / n_harts
}

/// First row of a hart, or the end of the matrix.
pub open spec fn row_start(n: int, n_harts: int, hart: int) -> int {
    if hart * rows_per_hart(n, n_harts) < n {
        hart * rows_per_hart(n, n_harts)
    } else {
        n
    }
}

/// The rows that `hart` computes, as a half-open range.
pub fn row_range(n: u32, n_harts: u32, hart: u32) -> (r: (u32, u32))
    requires
        n_harts > 0,
    ensures
        r.0 == row_start(n as int, n_harts as int, hart as int),
        r.1 == row_start(n as int, n_harts as int, hart + 1),
        r.0 <= r.1 <= n,
{
    let rows: u64 = (n as u64 + n_harts as u64 - 1) / n_harts as u64;
    proof {
        lemma_rows_per_hart(n as int, n_harts as int);
        let k = hart as int;
        assert(0 <= k * rows <= (k + 1) * rows) by (nonlinear_arith)
            requires
                k >= 0,
                rows >= 0,
        ;
        assert((k + 1) * rows <= 0x1_0000_0000 * 0xFFFF_FFFF) by (nonlinear_arith)
            requires
                0 <= k < 0x1_0000_0000,
                0 <= rows <= 0xFFFF_FFFF,
        ;
    }
    let first: u64 = hart as u64 * rows;
    let last: u64 = (hart as u64 + 1) * rows;
    let start: u32 = if first < n as u64 { first as u32 } else { n };
    let end: u32 = if last < n as u64 { last as u32 } else { n };
    (start, end)
}

proof fn lemma_rows_per_hart(n: int, n_harts: int)
    requires
        n >= 0,
        n_harts > 0,
    ensures
        0 <= rows_per_hart(n, n_harts) <= n,
        n > 0 ==> rows_per_hart(n, n_harts) > 0,
        n_harts * rows_per_hart(n, n_harts) >= n,
{
    let r = rows_per_hart(n, n_harts);
    let m = n + n_harts - 1;
    vstd::arithmetic::div_mod::lemma_fundamental_div_mod(m, n_harts);
    vstd::arithmetic::div_mod::lemma_mod_bound(m, n_harts);
    assert(r <= n && r >= 0 && (n > 0 ==> r > 0)) by (nonlinear_arith)
        requires
            m == n_harts * r + m % n_harts,
            0 <= m % n_harts < n_harts,
            m == n + n_harts - 1,
            n >= 0,
            n_harts > 0,
    ;
}

/// Whether `row` is among the rows that `hart` computes.
pub open spec fn owns_row(n: int, n_harts: int, hart: int, row: int) -> bool {
    row_start(n, n_harts, hart) <= row < row_start(n, n_harts, hart + 1)
}

/// Every row belongs to exactly one of the `n_harts` harts.
pub proof fn law_rows_partitioned(n: u32, n_harts: u32, row: u32)
    requires
        n_harts > 0,
        row < n,
    ensures
        exists|h: int| 0 <= h < n_harts && #[trigger] owns_row(n as int, n_harts as int, h, row as int),
        forall|g: int, h: int|
            0 <= g && 0 <= h && #[trigger] owns_row(n as int, n_harts as int, g, row as int)
                && #[trigger] owns_row(n as int, n_harts as int, h, row as int) ==> g == h,
{
    let (n, p, i) = (n as int, n_harts as int, row as int);
    let r = rows_per_hart(n, p);
    lemma_rows_per_hart(n, p);
    let h = i / r;
    vstd::arithmetic::div_mod::lemma_fundamental_div_mod(i, r);
    vstd::arithmetic::div_mod::lemma_mod_bound(i, r);
    assert(h * r <= i < (h + 1) * r) by (nonlinear_arith)
        requires
            i == r * h + i % r,
            0 <= i % r < r,
    ;
    assert(0 <= h < p) by (nonlinear_arith)
        requires
            h * r <= i < (h + 1) * r,
            0 <= i < n,
            n <= p * r,
            r > 0,
    ;
    assert(owns_row(n, p, h, i));
    assert forall|g: int, h: int|
        0 <= g && 0 <= h && #[trigger] owns_row(n, p, g, i) && #[trigger] owns_row(
            n,
            p,
            h,
            i,
        ) implies g == h by {
        assert(g == h) by (nonlinear_arith)
            requires
                g * r <= i < (g + 1) * r,
                h * r <= i < (h + 1) * r,
                r > 0,
        ;
    }
}

/// The ranges of consecutive harts join up, from the first row to the last.
pub proof fn law_rows_contiguous(n: u32, n_harts: u32)
    requires
        n_harts > 0,
    ensures
        row_start(n as int, n_harts as int, 0) == 0,
        row_start(n as int, n_harts as int, n_harts as int) == n,
        forall|h: int|
            0 <= h ==> #[trigger] row_start(n as int, n_harts as int, h) <= row_start(
                n as int,
                n_harts as int,
                h + 1,
            ),
{
    let (n, p) = (n as int, n_harts as int);
    let r = rows_per_hart(n, p);
    lemma_rows_per_hart(n, p);
    assert(0 * r == 0) by (nonlinear_arith);
    assert forall|h: int| 0 <= h implies #[trigger] row_start(n, p, h) <= row_start(n, p, h + 1) by {
        assert(h * r <= (h + 1) * r) by (nonlinear_arith)
            requires
                r >= 0,
        ;
    }
}

// ---------------------------------------------------------------------------
// Matrix
// ---------------------------------------------------------------------------

/// Position of element `(i, j)` in the row-major `n x n` matrix.
pub open spec fn cell(n: int, i: int, j: int) -> int {
    i * n + j
}

/// Whether `value` is what the kernel stores at `(i, j)`: zero on the diagonal,
/// else the form factor of the pair.
pub open spec fn stored(
    factor: spec_fn(u32, u32, u32) -> bool,
    i: u32,
    j: u32,
    value: u32,
) -> bool {
    if i == j {
        value == ZERO
    } else {
        factor(i, j, value)
    }
}

/// What one hart writes: consecutive words from `address` on.
pub struct RowBlock {
    /// Device address of the first word.
    pub address: u64,
    /// The hart's rows, one after the other.
    pub values: Vec<u32>,
    /// Whether this hart reports the launch in the trace.
    pub reports: bool,
}

/// Whether `block` holds all rows of `hart`, at the place of its first one.
pub open spec fn rows_stored(
    args: FormFactorArgs,
    factor: spec_fn(u32, u32, u32) -> bool,
    hart: int,
    block: RowBlock,
) -> bool {
    let n = args.n_patches as int;
    let start = row_start(n, args.n_harts as int, hart);
    let end = row_start(n, args.n_harts as int, hart + 1);
    &&& block.address == args.ff_matrix_addr + cell(n, start, 0) * 4
    &&& block.values@.len() == (end - start) * n
    &&& forall|i: u32, j: u32|
        start <= i < end && j < n ==> stored(
            factor,
            i,
            j,
            block.values@[#[trigger] cell(n, i as int, j as int) - cell(n, start, 0)],
        )
}

/// Whether the block that `hart` writes covers the matrix word at `position`.
pub open spec fn writes_word(n: int, n_harts: int, hart: int, position: int) -> bool {
    cell(n, row_start(n, n_harts, hart), 0) <= position < cell(
        n,
        row_start(n, n_harts, hart + 1),
        0,
    )
}

/// Every element of the matrix lies in the block of exactly one hart, and
/// within the `n * n` words of the matrix.
pub proof fn law_elements_written_once(n: u32, n_harts: u32, i: u32, j: u32)
    requires
        n_harts > 0,
        i < n,
        j < n,
    ensures
        0 <= cell(n as int, i as int, j as int) < n * n,
        exists|h: int|
            0 <= h < n_harts && #[trigger] writes_word(
                n as int,
                n_harts as int,
                h,
                cell(n as int, i as int, j as int),
            ),
        forall|g: int, h: int|
            0 <= g && 0 <= h && #[trigger] writes_word(
                n as int,
                n_harts as int,
                g,
                cell(n as int, i as int, j as int),
            ) && #[trigger] writes_word(
                n as int,
                n_harts as int,
                h,
                cell(n as int, i as int, j as int),
            ) ==> g == h,
{
    law_rows_partitioned(n, n_harts, i);
    let (m, p) = (n as int, n_harts as int);
    let c = cell(m, i as int, j as int);
    assert(0 <= c < n * n) by (nonlinear_arith)
        requires
            c == i * n + j,
            0 <= i < n,
            0 <= j < n,
    ;
    assert forall|h: int| #[trigger] writes_word(m, p, h, c) == owns_row(m, p, h, i as int) by {
        lemma_block_holds_rows(m, row_start(m, p, h), i as int, j as int);
        lemma_block_holds_rows(m, row_start(m, p, h + 1), i as int, j as int);
    }
    let h = choose|h: int| 0 <= h < p && #[trigger] owns_row(m, p, h, i as int);
    assert(writes_word(m, p, h, c));
    assert forall|g: int, h: int|
        0 <= g && 0 <= h && #[trigger] writes_word(m, p, g, c) && #[trigger] writes_word(
            m,
            p,
            h,
            c,
        ) implies g == h by {
        assert(owns_row(m, p, g, i as int) && owns_row(m, p, h, i as int));
    }
}

proof fn lemma_block_holds_rows(n: int, row: int, i: int, j: int)
    requires
        0 <= j < n,
    ensures
        cell(n, row, 0) <= cell(n, i, j) <==> row <= i,
{
    assert(row * n <= i * n + j <==> row <= i) by (nonlinear_arith)
        requires
            0 <= j < n,
    ;
}

/// The blocks of all harts are, put together, the whole matrix.
pub proof fn law_blocks_make_matrix(
    args: FormFactorArgs,
    factor: spec_fn(u32, u32, u32) -> bool,
    blocks: Seq<RowBlock>,
    matrix: Seq<u32>,
    i: u32,
    j: u32,
)
    requires
        args.n_harts > 0,
        blocks.len() == args.n_harts,
        forall|h: int| 0 <= h < blocks.len() ==> rows_stored(args, factor, h, #[trigger] blocks[h]),
        forall|h: int, p: int|
            0 <= h < blocks.len() && #[trigger] writes_word(
                args.n_patches as int,
                args.n_harts as int,
                h,
                p,
            ) ==> matrix[p] == blocks[h].values@[p - cell(
                args.n_patches as int,
                row_start(args.n_patches as int, args.n_harts as int, h),
                0,
            )],
        i < args.n_patches,
        j < args.n_patches,
    ensures
        stored(factor, i, j, matrix[cell(args.n_patches as int, i as int, j as int)]),
{
    let (n, p) = (args.n_patches as int, args.n_harts as int);
    law_rows_partitioned(args.n_patches, args.n_harts, i);
    let h = choose|h: int| 0 <= h < p && #[trigger] owns_row(n, p, h, i as int);
    let c = cell(n, i as int, j as int);
    lemma_block_holds_rows(n, row_start(n, p, h), i as int, j as int);
    lemma_block_holds_rows(n, row_start(n, p, h + 1), i as int, j as int);
    assert(writes_word(n, p, h, c));
    assert(rows_stored(args, factor, h, blocks[h]));
}

/// Different elements have different positions.
pub proof fn law_elements_distinct(n: u32, i: u32, j: u32, k: u32, l: u32)
    requires
        j < n,
        l < n,
        cell(n as int, i as int, j as int) == cell(n as int, k as int, l as int),
    ensures
        i == k && j == l,
{
    assert(i == k && j == l) by (nonlinear_arith)
        requires
            i * n + j == k * n + l,
            0 <= j < n,
            0 <= l < n,
    ;
}

// ---------------------------------------------------------------------------
// Occluder block
// ---------------------------------------------------------------------------

/// The smallest multiple of eight that is at least `n`.
pub open spec fn padded(n: int) -> int {
    (n + 7) / 8 * 8
}

/// Length of each component array of the occluder block.
pub fn padded_count(n: usize) -> (r: usize)
    requires
        n <= usize::MAX - 7,
    ensures
        r == padded(n as int),
        r % 8 == 0,
        n <= r < n + 8,
{
    (n + 7) / 8 * 8
}

/// The triangle at `i` in a block of nine component arrays of `stride` words:
/// the coordinates of the first corner, then of the second, then of the third.
pub open spec fn occluder_at(soa: Seq<u32>, stride: int, i: int) -> OccluderTriangle {
    OccluderTriangle {
        v0: Vec3 { x: soa[i], y: soa[stride + i], z: soa[2 * stride + i] },
        v1: Vec3 { x: soa[3 * stride + i], y: soa[4 * stride + i], z: soa[5 * stride + i] },
        v2: Vec3 { x: soa[6 * stride + i], y: soa[7 * stride + i], z: soa[8 * stride + i] },
    }
}

/// Whether a block of `n` occluders holds the triangle `t`.
pub open spec fn holds_occluder(soa: Seq<u32>, n: int, t: OccluderTriangle) -> bool {
    exists|i: int| 0 <= i < n && #[trigger] occluder_at(soa, padded(n), i) == t
}

/// Whether every occluder of one block is in the other.
pub open spec fn occluders_among(fewer: Seq<u32>, n: int, more: Seq<u32>, m: int) -> bool {
    forall|i: int|
        0 <= i < n ==> holds_occluder(more, m, #[trigger] occluder_at(fewer, padded(n), i))
}

/// Reads the triangle at `i` of the occluder block.
pub fn read_occluder(soa: &[u32], stride: usize, i: usize) -> (r: OccluderTriangle)
    requires
        soa@.len() == 9 * stride,
        i < stride,
    ensures
        r == occluder_at(soa@, stride as int, i as int),
{
    assert(9 * stride <= usize::MAX) by {
        assert(soa.len() == 9 * stride);
    }
    OccluderTriangle {
        v0: Vec3 { x: soa[i], y: soa[stride + i], z: soa[2 * stride + i] },
        v1: Vec3 { x: soa[3 * stride + i], y: soa[4 * stride + i], z: soa[5 * stride + i] },
        v2: Vec3 { x: soa[6 * stride + i], y: soa[7 * stride + i], z: soa[8 * stride + i] },
    }
}

/// The full batches of eight lie inside the block, and each triangle is either
/// in exactly one of them or in the tail.
pub proof fn law_batches_and_tail_cover(n: int, i: int)
    requires
        0 <= i < n,
    ensures
        n / 8 * 8 <= n <= padded(n),
        i < n / 8 * 8 <==> exists|b: int| 0 <= b < n / 8 && #[trigger] (b * 8) <= i < b * 8 + 8,
        forall|a: int, b: int|
            #[trigger] (a * 8) <= i < a * 8 + 8 && #[trigger] (b * 8) <= i < b * 8 + 8 ==> a == b,
{
    if i < n / 8 * 8 {
        assert((i / 8) * 8 <= i < (i / 8) * 8 + 8);
    }
}

// ---------------------------------------------------------------------------
// Ray-triangle intersection
// ---------------------------------------------------------------------------

/// What the arithmetic of a Moller-Trumbore test yields: the determinant, the
/// two barycentric coordinates, their sum, and the distance along the ray.
#[derive(Clone, Copy, Debug, PartialEq, Eq, Structural)]
pub struct Crossing {
    pub det: u32,
    pub u: u32,
    pub v: u32,
    pub uv: u32,
    pub t: u32,
}

/// Whether the ray meets the front of the triangle.
pub open spec fn meets_front(c: Crossing) -> bool {
    &&& !lt(c.det, EPS)
    &&& !lt(c.u, ZERO)
    &&& !lt(ONE, c.u)
    &&& !lt(c.v, ZERO)
    &&& !lt(ONE, c.uv)
}

/// The distance at which a ray hits the front of a triangle, or `None` for a miss
/// or a back-face hit.
pub open spec fn front_distance(c: Crossing) -> Option<u32> {
    if meets_front(c) && lt(EPS, c.t) {
        Some(c.t)
    } else {
        None
    }
}

/// The distance at which a ray hits the front of a triangle.
pub fn moller_trumbore(c: &Crossing) -> (r: Option<u32>)
    ensures
        r == front_distance(*c),
{
    // Behind, or nearly parallel.
    if less(c.det, EPS) {
        return None;
    }
    if less(c.u, ZERO) || less(ONE, c.u) {
        return None;
    }
    if less(c.v, ZERO) || less(ONE, c.uv) {
        return None;
    }
    if less(EPS, c.t) {
        Some(c.t)
    } else {
        None
    }
}

/// A ray that is not parallel to a triangle hits it wherever it passes between the
/// three edges, ahead of its start: with a determinant of at least `1.0e-7`, weights
/// that are not negative and sum to at most one, and a distance above `1.0e-7`, the
/// distance is what comes back.
pub proof fn law_crossing_is_hit(c: Crossing)
    requires
        le(EPS, c.det),
        le(ZERO, c.u),
        le(ZERO, c.v),
        le(c.u, c.uv),
        le(c.uv, ONE),
        lt(EPS, c.t),
    ensures
        front_distance(c) == Some(c.t),
{
}

/// Nothing else is hit: whatever distance comes back is that of the crossing, which
/// is no back face, lies between the edges and ahead.
pub proof fn law_hit_is_crossing(c: Crossing, t: u32)
    requires
        front_distance(c) == Some(t),
    ensures
        t == c.t,
        lt(EPS, t),
        !lt(c.det, EPS),
        !lt(c.u, ZERO),
        !lt(c.v, ZERO),
        !lt(ONE, c.u),
        !lt(ONE, c.uv),
{
}

/// The size of a triangle does not decide whether it is hit: the determinant may be
/// any number from `1.0e-7` on.
pub proof fn law_size_does_not_matter(c: Crossing, det: u32)
    requires
        le(EPS, c.det),
        le(EPS, det),
    ensures
        front_distance(c) == front_distance((Crossing { det, ..c })),
{
}

/// The second and the third corner of a triangle count alike: exchanging their
/// weights, neither of which exceeds their sum, changes nothing.
pub proof fn law_corners_count_alike(c: Crossing)
    requires
        le(c.u, c.uv),
        le(c.v, c.uv),
    ensures
        front_distance(c) == front_distance((Crossing { u: c.v, v: c.u, ..c })),
{
}

/// What is hit stays hit as it moves away, and the distance goes along.
pub proof fn law_hit_moves_along(c: Crossing, t: u32)
    requires
        front_distance(c) is Some,
        le(c.t, t),
    ensures
        front_distance((Crossing { t, ..c })) == Some(t),
{
}

/// No triangle is hit from both sides of one ray: of two determinants of opposite
/// sign one at most makes a hit.
pub proof fn law_one_side_is_hit(c: Crossing, d: Crossing)
    requires
        rank(c.det) == -rank(d.det),
        !is_nan(c.det),
        !is_nan(d.det),
        front_distance(c) is Some,
    ensures
        front_distance(d) is None,
{
}

// ---------------------------------------------------------------------------
// Visibility
// ---------------------------------------------------------------------------

/// Whether a hit at `t` lies on the segment, away from both ends; `far` is its
/// length less the margin.
pub open spec fn blocks(t: Option<u32>, far: u32) -> bool {
    t matches Some(t) && lt(T_MIN, t) && lt(t, far)
}

/// The triangle seen from behind.
pub open spec fn reversed(t: OccluderTriangle) -> OccluderTriangle {
    OccluderTriangle { v0: t.v2, v1: t.v1, v2: t.v0 }
}

/// The constants of the eight-lane shadow test.
pub open spec fn shadow_constants(far: u32) -> Seq<u32> {
    seq![ZERO, EPS, T_MIN, far]
}

fn within(t: Option<u32>, far: u32) -> (r: bool)
    ensures
        r == blocks(t, far),
{
    match t {
        Some(t) => less(T_MIN, t) && less(t, far),
        None => false,
    }
}

/// A hit blocks exactly if it is more than a millimetre away from the start and
/// nearer than the far end less the margin.
pub proof fn law_blocks_between_the_margins(t: u32, far: u32)
    ensures
        blocks(Some(t), far) <==> lt(T_MIN, t) && lt(t, far),
        !blocks(None, far),
{
}

/// A longer segment is blocked by all that blocks a shorter one, and between two
/// hits that block every hit does.
pub proof fn law_blocking_is_an_interval(a: u32, b: u32, t: u32, near: u32, far: u32)
    requires
        blocks(Some(a), near),
        blocks(Some(b), near),
        le(a, t),
        le(t, b),
        le(near, far),
    ensures
        blocks(Some(t), near),
        blocks(Some(a), far),
{
}

/// The segment between two centroids: where it starts, its unit direction, and
/// its length.
#[derive(Clone, Copy, Debug, PartialEq, Eq, Structural)]
pub struct Segment {
    pub origin: Vec3,
    pub direction: Vec3,
    pub length: u32,
}

/// The arithmetic on a pair of patches.
pub struct PairMath<F, A, N, S, X, Q, C, K> {
    /// Numbers with the signs of the cosines at two patches, from the centroid and
    /// the normal of each.
    pub facing: F,
    /// The segment from the first centroid to the second.
    pub aim: A,
    /// The difference of two numbers.
    pub minus: N,
    /// The eight-lane shadow test on an occluder block: its stride, the number of
    /// batches, the segment and the constants. Zero says that nothing blocks.
    pub shadow_test: S,
    /// The crossing of a segment and a triangle.
    pub cross: X,
    /// The squared distance of two centroids.
    pub squared: Q,
    /// The cosines at two patches, from the centroid and the normal of each.
    pub cosines: C,
    /// The form factor from the two cosines, the squared distance and the area of
    /// the second patch.
    pub formula: K,
}

impl<F, A, N, S, X, Q, C, K> PairMath<F, A, N, S, X, Q, C, K> where
    F: Fn(Vec3, Vec3, Vec3, Vec3) -> (u32, u32),
    A: Fn(Vec3, Vec3) -> Segment,
    N: Fn(u32, u32) -> u32,
    S: Fn(&[u32], usize, usize, Segment, &[u32]) -> u64,
    X: Fn(Segment, OccluderTriangle) -> Crossing,
    Q: Fn(Vec3, Vec3) -> u32,
    C: Fn(Vec3, Vec3, Vec3, Vec3) -> (u32, u32),
    K: Fn(u32, u32, u32, u32) -> u32,
 {
    /// Whether the arithmetic is defined on all patches.
    pub open spec fn total(self) -> bool {
        &&& forall|p: Vec3, m: Vec3, q: Vec3, n: Vec3| self.facing.requires((p, m, q, n))
        &&& forall|p: Vec3, q: Vec3| self.aim.requires((p, q))
        &&& forall|a: u32, b: u32| self.minus.requires((a, b))
        &&& forall|soa: &[u32], n: usize, b: usize, seg: Segment, k: &[u32]|
            self.shadow_test.requires((soa, n, b, seg, k))
        &&& forall|seg: Segment, t: OccluderTriangle| self.cross.requires((seg, t))
        &&& forall|p: Vec3, q: Vec3| self.squared.requires((p, q))
        &&& forall|p: Vec3, m: Vec3, q: Vec3, n: Vec3| self.cosines.requires((p, m, q, n))
        &&& forall|a: u32, b: u32, c: u32, d: u32| self.formula.requires((a, b, c, d))
    }

    /// Whether neither side of `tri` blocks the segment up to `far`.
    pub open spec fn clears(self, seg: Segment, tri: OccluderTriangle, far: u32) -> bool {
        exists|front: Crossing, back: Crossing| #[trigger]
            self.cross.ensures((seg, tri), front) && #[trigger] self.cross.ensures(
                (seg, reversed(tri)),
                back,
            ) && !blocks(front_distance(front), far) && !blocks(front_distance(back), far)
    }

    /// Whether one side of `tri` blocks the segment before `far`.
    pub open spec fn obstructs(self, seg: Segment, tri: OccluderTriangle, far: u32) -> bool {
        ||| exists|front: Crossing| #[trigger]
            self.cross.ensures((seg, tri), front) && blocks(front_distance(front), far)
        ||| exists|back: Crossing| #[trigger]
            self.cross.ensures((seg, reversed(tri)), back) && blocks(front_distance(back), far)
    }

    /// Whether the batch test answered `clear`.
    pub open spec fn batches_answer(
        self,
        soa: &[u32],
        n_padded: usize,
        full_batches: usize,
        seg: Segment,
        far: u32,
        clear: bool,
    ) -> bool {
        exists|k: &[u32], code: u64|
            k@ == shadow_constants(far) && #[trigger] self.shadow_test.ensures(
                (soa, n_padded, full_batches, seg, k),
                code,
            ) && clear == (code == 0)
    }

    /// Whether neither a full batch nor a triangle after them blocks the segment.
    pub open spec fn unblocked(self, soa: &[u32], n_occ: usize, seg: Segment, far: u32) -> bool {
        let stride = padded(n_occ as int);
        &&& n_occ >= 8 ==> self.batches_answer(soa, stride as usize, n_occ / 8, seg, far, true)
        &&& forall|i: int|
            n_occ / 8 * 8 <= i < n_occ ==> #[trigger] self.clears(
                seg,
                occluder_at(soa@, stride, i),
                far,
            )
    }

    /// Whether a full batch or a triangle after them blocks the segment.
    pub open spec fn blocked(self, soa: &[u32], n_occ: usize, seg: Segment, far: u32) -> bool {
        let stride = padded(n_occ as int);
        ||| n_occ >= 8 && self.batches_answer(soa, stride as usize, n_occ / 8, seg, far, false)
        ||| exists|i: int|
            n_occ / 8 * 8 <= i < n_occ && #[trigger] self.obstructs(
                seg,
                occluder_at(soa@, stride, i),
                far,
            )
    }

    /// Whether `v` tells if two patches see each other: coinciding centroids do
    /// not, others do if nothing blocks the segment between them.
    pub open spec fn seen(
        self,
        pi: Patch,
        pj: Patch,
        soa: &[u32],
        n_occ: usize,
        v: bool,
    ) -> bool {
        exists|seg: Segment| #[trigger]
            self.aim.ensures((pi.centroid, pj.centroid), seg) && (if lt(seg.length, MIN_DISTANCE) {
                !v
            } else {
                exists|far: u32| #[trigger]
                    self.minus.ensures((seg.length, T_MIN), far) && (if v {
                        self.unblocked(soa, n_occ, seg, far)
                    } else {
                        self.blocked(soa, n_occ, seg, far)
                    })
            })
    }

    /// Whether `value` is the form factor of two patches that see each other: zero
    /// for coinciding centroids and for directions in the back hemisphere of either
    /// patch.
    pub open spec fn received(self, pi: Patch, pj: Patch, value: u32) -> bool {
        exists|r2: u32| #[trigger]
            self.squared.ensures((pi.centroid, pj.centroid), r2) && (if lt(r2, MIN_DISTANCE_SQUARED) {
                value == ZERO
            } else {
                exists|c: (u32, u32)| #[trigger]
                    self.cosines.ensures(
                    (pi.centroid, pi.normal, pj.centroid, pj.normal),
                    c) && (if lt(ZERO, c.0) && lt(ZERO, c.1) {
                        self.formula.ensures((c.0, c.1, r2, pj.area), value)
                    } else {
                        value == ZERO
                    })
            })
    }

    /// Whether `value` is the form factor of two patches: zero unless they face
    /// each other and, if there are occluders, see each other.
    pub open spec fn factor(
        self,
        pi: Patch,
        pj: Patch,
        soa: &[u32],
        n_occ: usize,
        value: u32,
    ) -> bool {
        exists|s: (u32, u32)| #[trigger]
            self.facing.ensures(
                    (pi.centroid, pi.normal, pj.centroid, pj.normal),
                    s) && (if le(s.0, ZERO) || le(s.1, ZERO) {
                value == ZERO
            } else if n_occ == 0 {
                self.received(pi, pj, value)
            } else {
                ||| self.seen(pi, pj, soa, n_occ, false) && value == ZERO
                ||| self.seen(pi, pj, soa, n_occ, true) && self.received(pi, pj, value)
            })
    }

    /// Which values are form factors of the patches at `i` and `j` of an array.
    pub open spec fn factors(
        self,
        patches: Seq<u32>,
        soa: &[u32],
        n_occ: usize,
    ) -> spec_fn(u32, u32, u32) -> bool {
        |i: u32, j: u32, value: u32|
            self.factor(
                patch_at(patches, i as int),
                patch_at(patches, j as int),
                soa,
                n_occ,
                value,
            )
    }

    /// Runs the eight-lane shadow test over `full_batches` batches. True if no
    /// triangle in them blocks the segment.
    pub fn is_visible_simd8(
        &self,
        soa: &[u32],
        n_padded: usize,
        full_batches: usize,
        seg: Segment,
        far: u32,
    ) -> (r: bool)
        requires
            self.total(),
            soa@.len() == 9 * n_padded,
            full_batches * 8 <= n_padded,
        ensures
            self.batches_answer(soa, n_padded, full_batches, seg, far, r),
    {
        let consts: [u32; 4] = [ZERO, EPS, T_MIN, far];
        let k: &[u32] = consts.as_slice();
        assert(k@ =~= shadow_constants(far));
        let code: u64 = (self.shadow_test)(soa, n_padded, full_batches, seg, k);
        code == 0
    }

    /// Whether the segment between two centroids is blocked by no occluder. Full
    /// batches of eight triangles go to the shadow test; the triangles after them
    /// are tested one by one, from both sides.
    pub fn is_visible(&self, pi: Patch, pj: Patch, soa: &[u32], n_occ: usize) -> (r: bool)
        requires
            self.total(),
            n_occ <= usize::MAX - 7,
            soa@.len() == 9 * padded(n_occ as int),
        ensures
            self.seen(pi, pj, soa, n_occ, r),
    {
        let seg: Segment = (self.aim)(pi.centroid, pj.centroid);
        if less(seg.length, MIN_DISTANCE) {
            return false;
        }
        let far: u32 = (self.minus)(seg.length, T_MIN);
        let n_padded: usize = padded_count(n_occ);
        let full_batches: usize = n_occ / 8;
        if full_batches > 0 {
            if !self.is_visible_simd8(soa, n_padded, full_batches, seg, far) {
                assert(self.blocked(soa, n_occ, seg, far));
                return false;
            }
        }
        let mut i: usize = full_batches * 8;
        while i < n_occ
            invariant
                self.total(),
                n_occ / 8 * 8 <= i <= n_occ,
                n_padded == padded(n_occ as int),
                n_occ <= n_padded,
                soa@.len() == 9 * n_padded,
                self.aim.ensures((pi.centroid, pj.centroid), seg),
                !lt(seg.length, MIN_DISTANCE),
                self.minus.ensures((seg.length, T_MIN), far),
                forall|k: int|
                    n_occ / 8 * 8 <= k < i ==> #[trigger] self.clears(
                        seg,
                        occluder_at(soa@, n_padded as int, k),
                        far,
                    ),
            decreases n_occ - i,
        {
            let tri = read_occluder(soa, n_padded, i);
            let front = (self.cross)(seg, tri);
            if within(moller_trumbore(&front), far) {
                assert(self.obstructs(seg, occluder_at(soa@, n_padded as int, i as int), far));
                assert(self.blocked(soa, n_occ, seg, far));
                return false;
            }
            let back = (self.cross)(seg, OccluderTriangle { v0: tri.v2, v1: tri.v1, v2: tri.v0 });
            if within(moller_trumbore(&back), far) {
                assert(self.obstructs(seg, occluder_at(soa@, n_padded as int, i as int), far));
                assert(self.blocked(soa, n_occ, seg, far));
                return false;
            }
            assert(self.clears(seg, occluder_at(soa@, n_padded as int, i as int), far));
            i += 1;
        }
        assert(self.unblocked(soa, n_occ, seg, far));
        true
    }

    /// The form factor of two patches that see each other.
    pub fn compute_form_factor(&self, pi: Patch, pj: Patch) -> (r: u32)
        requires
            self.total(),
        ensures
            self.received(pi, pj, r),
    {
        let r2: u32 = (self.squared)(pi.centroid, pj.centroid);
        if less(r2, MIN_DISTANCE_SQUARED) {
            return ZERO;
        }
        let c: (u32, u32) = (self.cosines)(pi.centroid, pi.normal, pj.centroid, pj.normal);
        if less(ZERO, c.0) && less(ZERO, c.1) {
            (self.formula)(c.0, c.1, r2, pj.area)
        } else {
            ZERO
        }
    }

    /// The form factor of two patches. Occluders are asked about only if there are
    /// any and the patches face each other.
    pub fn form_factor_with_visibility(
        &self,
        pi: Patch,
        pj: Patch,
        soa: &[u32],
        n_occ: usize,
    ) -> (r: u32)
        requires
            self.total(),
            n_occ <= usize::MAX - 7,
            soa@.len() == 9 * padded(n_occ as int),
        ensures
            self.factor(pi, pj, soa, n_occ, r),
    {
        let s: (u32, u32) = (self.facing)(pi.centroid, pi.normal, pj.centroid, pj.normal);
        if less_or_equal(s.0, ZERO) || less_or_equal(s.1, ZERO) {
            return ZERO;
        }
        if n_occ > 0 && !self.is_visible(pi, pj, soa, n_occ) {
            return ZERO;
        }
        self.compute_form_factor(pi, pj)
    }

    /// Whether the arithmetic is the same from either patch: the squared distance
    /// is, the cosines and their signs change places, and the formula does not tell
    /// them apart.
    pub open spec fn symmetric(self) -> bool {
        &&& forall|p: Vec3, q: Vec3, r2: u32| #[trigger]
            self.squared.ensures((p, q), r2) ==> self.squared.ensures((q, p), r2)
        &&& forall|p: Vec3, m: Vec3, q: Vec3, n: Vec3, c: (u32, u32)| #[trigger]
            self.cosines.ensures((p, m, q, n), c) ==> self.cosines.ensures(
                (q, n, p, m),
                (c.1, c.0),
            )
        &&& forall|p: Vec3, m: Vec3, q: Vec3, n: Vec3, s: (u32, u32)| #[trigger]
            self.facing.ensures((p, m, q, n), s) ==> self.facing.ensures(
                (q, n, p, m),
                (s.1, s.0),
            )
        &&& forall|a: u32, b: u32, r2: u32, area: u32, v: u32| #[trigger]
            self.formula.ensures((a, b, r2, area), v) ==> self.formula.ensures((b, a, r2, area), v)
    }

    /// The form factor does not depend on the area of the patch that sends.
    pub proof fn law_sender_area_unused(
        self,
        pi: Patch,
        pj: Patch,
        soa: &[u32],
        n_occ: usize,
        area: u32,
        value: u32,
    )
        ensures
            self.received(pi, pj, value) <==> self.received((Patch { area, ..pi }), pj, value),
            self.factor(pi, pj, soa, n_occ, value) <==> self.factor(
                (Patch { area, ..pi }),
                pj,
                soa,
                n_occ,
                value,
            ),
    {
    }

    /// Reciprocity of equal patches: with symmetric arithmetic, two patches of the
    /// same area have the same form factors either way.
    pub proof fn law_equal_areas_reciprocal(self, pi: Patch, pj: Patch, value: u32)
        requires
            self.symmetric(),
            pi.area == pj.area,
        ensures
            self.received(pi, pj, value) <==> self.received(pj, pi, value),
    {
        if self.received(pi, pj, value) {
            self.lemma_received_back(pi, pj, value);
        }
        if self.received(pj, pi, value) {
            self.lemma_received_back(pj, pi, value);
        }
    }

    proof fn lemma_received_back(self, pi: Patch, pj: Patch, value: u32)
        requires
            self.symmetric(),
            pi.area == pj.area,
            self.received(pi, pj, value),
        ensures
            self.received(pj, pi, value),
    {
        let (p, m, q, n) = (pi.centroid, pi.normal, pj.centroid, pj.normal);
        let r2 = choose|r2: u32| #[trigger]
            self.squared.ensures((p, q), r2) && (if lt(r2, MIN_DISTANCE_SQUARED) {
                value == ZERO
            } else {
                exists|c: (u32, u32)| #[trigger]
                    self.cosines.ensures((p, m, q, n), c) && (if lt(ZERO, c.0) && lt(ZERO, c.1) {
                        self.formula.ensures((c.0, c.1, r2, pj.area), value)
                    } else {
                        value == ZERO
                    })
            });
        assert(self.squared.ensures((q, p), r2));
        if !lt(r2, MIN_DISTANCE_SQUARED) {
            let c = choose|c: (u32, u32)| #[trigger]
                self.cosines.ensures((p, m, q, n), c) && (if lt(ZERO, c.0) && lt(ZERO, c.1) {
                    self.formula.ensures((c.0, c.1, r2, pj.area), value)
                } else {
                    value == ZERO
                });
            assert(self.cosines.ensures((q, n, p, m), (c.1, c.0)));
        }
    }

    /// Reciprocity of equal patches in an empty room: where nothing occludes, the
    /// matrix entries of two patches of the same area are the same either way.
    pub proof fn law_empty_room_reciprocal(
        self,
        pi: Patch,
        pj: Patch,
        soa: &[u32],
        value: u32,
    )
        requires
            self.symmetric(),
            pi.area == pj.area,
        ensures
            self.factor(pi, pj, soa, 0, value) <==> self.factor(pj, pi, soa, 0, value),
    {
        let (p, m, q, n) = (pi.centroid, pi.normal, pj.centroid, pj.normal);
        self.law_equal_areas_reciprocal(pi, pj, value);
        if self.factor(pi, pj, soa, 0, value) {
            let s = choose|s: (u32, u32)| #[trigger]
                self.facing.ensures((p, m, q, n), s) && (if le(s.0, ZERO) || le(s.1, ZERO) {
                    value == ZERO
                } else {
                    self.received(pi, pj, value)
                });
            assert(self.facing.ensures((q, n, p, m), (s.1, s.0)));
        }
        if self.factor(pj, pi, soa, 0, value) {
            let s = choose|s: (u32, u32)| #[trigger]
                self.facing.ensures((q, n, p, m), s) && (if le(s.0, ZERO) || le(s.1, ZERO) {
                    value == ZERO
                } else {
                    self.received(pj, pi, value)
                });
            assert(self.facing.ensures((p, m, q, n), (s.1, s.0)));
        }
    }

    /// Whether distances and cosines have one outcome per argument list.
    pub open spec fn measured(self) -> bool {
        &&& forall|p: Vec3, q: Vec3, r: u32, s: u32| #[trigger]
            self.squared.ensures((p, q), r) && #[trigger] self.squared.ensures((p, q), s) ==> r == s
        &&& forall|p: Vec3, m: Vec3, q: Vec3, n: Vec3, r: (u32, u32), s: (u32, u32)| #[trigger]
            self.cosines.ensures((p, m, q, n), r) && #[trigger] self.cosines.ensures(
                (p, m, q, n),
                s,
            ) ==> r == s
    }

    /// Reciprocity: `A_i F_ij` is in balance with `A_j F_ji`, in whatever sense of
    /// balance (equality, or equality up to rounding) the formula keeps for any two
    /// areas and two zeros have.
    pub proof fn law_reciprocity(
        self,
        balanced: spec_fn(u32, u32, u32, u32) -> bool,
        pi: Patch,
        pj: Patch,
        there: u32,
        back: u32,
    )
        requires
            self.symmetric(),
            self.measured(),
            forall|a: u32, b: u32, r2: u32, area_i: u32, area_j: u32, v: u32, w: u32| #[trigger]
                self.formula.ensures((a, b, r2, area_j), v) && #[trigger] self.formula.ensures(
                    (a, b, r2, area_i),
                    w,
                ) ==> balanced(area_i, v, area_j, w),
            balanced(pi.area, ZERO, pj.area, ZERO),
            self.received(pi, pj, there),
            self.received(pj, pi, back),
        ensures
            balanced(pi.area, there, pj.area, back),
    {
        let (p, m, q, n) = (pi.centroid, pi.normal, pj.centroid, pj.normal);
        let r2 = choose|r2: u32| #[trigger] self.squared.ensures((p, q), r2);
        assert(self.squared.ensures((q, p), r2));
        if !lt(r2, MIN_DISTANCE_SQUARED) {
            let c = choose|c: (u32, u32)| #[trigger] self.cosines.ensures((p, m, q, n), c);
            assert(self.cosines.ensures((q, n, p, m), (c.1, c.0)));
            if lt(ZERO, c.0) && lt(ZERO, c.1) {
                assert(self.formula.ensures((c.0, c.1, r2, pj.area), there));
                assert(self.formula.ensures((c.1, c.0, r2, pi.area), back));
                assert(self.formula.ensures((c.0, c.1, r2, pi.area), back));
            }
        }
    }

    /// Whether segments, crossings and batch tests have one outcome per argument
    /// list.
    pub open spec fn decided(self) -> bool {
        &&& forall|p: Vec3, q: Vec3, r: Segment, s: Segment| #[trigger]
            self.aim.ensures((p, q), r) && #[trigger] self.aim.ensures((p, q), s) ==> r == s
        &&& forall|a: u32, b: u32, r: u32, s: u32| #[trigger]
            self.minus.ensures((a, b), r) && #[trigger] self.minus.ensures((a, b), s) ==> r == s
        &&& forall|seg: Segment, t: OccluderTriangle, r: Crossing, s: Crossing|
            #[trigger] self.cross.ensures((seg, t), r) && #[trigger] self.cross.ensures(
                (seg, t),
                s,
            ) ==> r == s
        &&& forall|soa: &[u32], p: usize, b: usize, seg: Segment, j: &[u32], k: &[u32], c: u64, d: u64|
            j@ == k@ && #[trigger] self.shadow_test.ensures((soa, p, b, seg, j), c)
                && #[trigger] self.shadow_test.ensures((soa, p, b, seg, k), d) ==> c == d
    }

    /// With one outcome per crossing and per batch test, a segment is not both
    /// blocked and unblocked: visibility is decided.
    pub proof fn law_visibility_decided(
        self,
        soa: &[u32],
        n_occ: usize,
        seg: Segment,
        far: u32,
    )
        requires
            self.decided(),
            self.unblocked(soa, n_occ, seg, far),
        ensures
            !self.blocked(soa, n_occ, seg, far),
    {
        let stride = padded(n_occ as int);
        if exists|i: int|
            n_occ / 8 * 8 <= i < n_occ && #[trigger] self.obstructs(
                seg,
                occluder_at(soa@, stride, i),
                far,
            ) {
            let i = choose|i: int|
                n_occ / 8 * 8 <= i < n_occ && #[trigger] self.obstructs(
                    seg,
                    occluder_at(soa@, stride, i),
                    far,
                );
            assert(self.clears(seg, occluder_at(soa@, stride, i), far));
        }
    }

    /// Whether the batch test, if there is a full batch to ask about, answers as the
    /// triangles of its batches do one by one.
    pub open spec fn batches_agree(
        self,
        soa: &[u32],
        n_occ: usize,
        seg: Segment,
        far: u32,
    ) -> bool {
        let stride = padded(n_occ as int);
        n_occ >= 8 ==> (self.batches_answer(soa, stride as usize, n_occ / 8, seg, far, true)
            <==> forall|i: int|
            0 <= i < n_occ / 8 * 8 ==> #[trigger] self.clears(
                seg,
                occluder_at(soa@, stride, i),
                far,
            ))
    }

    /// More occluders never unblock a segment, and their order does not matter: what
    /// is unblocked past a list of occluders is unblocked past any list of some of
    /// them, as long as the batch test answers as the triangles do one by one.
    pub proof fn law_occluders_never_unblock(
        self,
        more: &[u32],
        n_more: usize,
        fewer: &[u32],
        n_fewer: usize,
        seg: Segment,
        far: u32,
    )
        requires
            self.batches_agree(more, n_more, seg, far),
            self.batches_agree(fewer, n_fewer, seg, far),
            occluders_among(fewer@, n_fewer as int, more@, n_more as int),
            self.unblocked(more, n_more, seg, far),
        ensures
            self.unblocked(fewer, n_fewer, seg, far),
    {
        let (p, q) = (padded(n_more as int), padded(n_fewer as int));
        assert forall|i: int| 0 <= i < n_fewer implies #[trigger] self.clears(
            seg,
            occluder_at(fewer@, q, i),
            far,
        ) by {
            let t = occluder_at(fewer@, q, i);
            assert(holds_occluder(more@, n_more as int, t));
            let j = choose|j: int| 0 <= j < n_more && #[trigger] occluder_at(more@, p, j) == t;
            assert(self.clears(seg, occluder_at(more@, p, j), far));
        }
    }

    /// More occluders never reveal a patch, and their order does not matter: two
    /// patches that see each other past a list of occluders see each other past any
    /// list of some of them, and with arithmetic of one outcome are never told not
    /// to.
    pub proof fn law_occluders_never_reveal(
        self,
        pi: Patch,
        pj: Patch,
        more: &[u32],
        n_more: usize,
        fewer: &[u32],
        n_fewer: usize,
    )
        requires
            forall|seg: Segment, far: u32| #[trigger] self.batches_agree(more, n_more, seg, far),
            forall|seg: Segment, far: u32| #[trigger] self.batches_agree(fewer, n_fewer, seg, far),
            occluders_among(fewer@, n_fewer as int, more@, n_more as int),
            self.seen(pi, pj, more, n_more, true),
        ensures
            self.seen(pi, pj, fewer, n_fewer, true),
            self.decided() ==> !self.seen(pi, pj, fewer, n_fewer, false),
    {
        let (p, q) = (pi.centroid, pj.centroid);
        let seg = choose|seg: Segment| #[trigger]
            self.aim.ensures((p, q), seg) && !lt(seg.length, MIN_DISTANCE) && exists|far: u32|
                #[trigger]
                self.minus.ensures((seg.length, T_MIN), far) && self.unblocked(
                    more,
                    n_more,
                    seg,
                    far,
                );
        let far = choose|far: u32| #[trigger]
            self.minus.ensures((seg.length, T_MIN), far) && self.unblocked(more, n_more, seg, far);
        assert(self.batches_agree(more, n_more, seg, far));
        assert(self.batches_agree(fewer, n_fewer, seg, far));
        self.law_occluders_never_unblock(more, n_more, fewer, n_fewer, seg, far);
        if self.decided() {
            self.law_visibility_decided(fewer, n_fewer, seg, far);
        }
    }
}

impl<F, A, N, S, X, Q, C, K> PairMath<F, A, N, S, X, Q, C, K> where
    F: Fn(Vec3, Vec3, Vec3, Vec3) -> (u32, u32),
    A: Fn(Vec3, Vec3) -> Segment,
    N: Fn(u32, u32) -> u32,
    S: Fn(&[u32], usize, usize, Segment, &[u32]) -> u64,
    X: Fn(Segment, OccluderTriangle) -> Crossing,
    Q: Fn(Vec3, Vec3) -> u32,
    C: Fn(Vec3, Vec3, Vec3, Vec3) -> (u32, u32),
    K: Fn(u32, u32, u32, u32) -> u32,
 {
    /// An occluder blocks whenever the segment crosses it away from its ends, from
    /// whichever side: the triangle may be taken with its corners in either order.
    pub proof fn law_crossing_obstructs(
        self,
        seg: Segment,
        tri: OccluderTriangle,
        far: u32,
        c: Crossing,
    )
        requires
            self.cross.ensures((seg, tri), c) || self.cross.ensures(
                (seg, (OccluderTriangle { v0: tri.v2, v1: tri.v1, v2: tri.v0 })),
                c,
            ),
            le(EPS, c.det),
            le(ZERO, c.u),
            le(ZERO, c.v),
            le(c.u, c.uv),
            le(c.uv, ONE),
            lt(T_MIN, c.t),
            lt(c.t, far),
        ensures
            self.obstructs(seg, tri, far),
            self.decided() ==> !self.clears(seg, tri, far),
    {
        law_crossing_is_hit(c);
    }

    /// Nothing else blocks: an occluder that does is crossed, from one side or the
    /// other, between its edges and between the margins.
    pub proof fn law_obstruction_is_crossing(self, seg: Segment, tri: OccluderTriangle, far: u32)
        requires
            self.obstructs(seg, tri, far),
        ensures
            exists|side: OccluderTriangle, c: Crossing| #[trigger]
                self.cross.ensures((seg, side), c) && (side == tri || side == (OccluderTriangle {
                    v0: tri.v2,
                    v1: tri.v1,
                    v2: tri.v0,
                })) && !lt(c.det, EPS) && !lt(c.u, ZERO) && !lt(ONE, c.u) && !lt(c.v, ZERO) && !lt(
                    ONE,
                    c.uv,
                ) && lt(T_MIN, c.t) && lt(c.t, far),
    {
        let back = OccluderTriangle { v0: tri.v2, v1: tri.v1, v2: tri.v0 };
        if exists|c: Crossing| #[trigger]
            self.cross.ensures((seg, tri), c) && blocks(front_distance(c), far) {
            let c = choose|c: Crossing| #[trigger]
                self.cross.ensures((seg, tri), c) && blocks(front_distance(c), far);
            law_hit_is_crossing(c, c.t);
            assert(self.cross.ensures((seg, tri), c));
        } else {
            let c = choose|c: Crossing| #[trigger]
                self.cross.ensures((seg, back), c) && blocks(front_distance(c), far);
            law_hit_is_crossing(c, c.t);
            assert(self.cross.ensures((seg, back), c));
        }
    }

    /// The order in which an occluder names its corners does not matter.
    pub proof fn law_winding_does_not_matter(self, seg: Segment, tri: OccluderTriangle, far: u32)
        ensures
            self.obstructs(seg, tri, far) <==> self.obstructs(
                seg,
                (OccluderTriangle { v0: tri.v2, v1: tri.v1, v2: tri.v0 }),
                far,
            ),
            self.clears(seg, tri, far) <==> self.clears(
                seg,
                (OccluderTriangle { v0: tri.v2, v1: tri.v1, v2: tri.v0 }),
                far,
            ),
    {
        let back = OccluderTriangle { v0: tri.v2, v1: tri.v1, v2: tri.v0 };
        assert(reversed(back) == tri);
        assert(reversed(tri) == back);
        if self.clears(seg, back, far) {
            let (f, b) = choose|f: Crossing, b: Crossing| #[trigger]
                self.cross.ensures((seg, back), f) && #[trigger] self.cross.ensures((seg, tri), b)
                    && !blocks(front_distance(f), far) && !blocks(front_distance(b), far);
            assert(self.cross.ensures((seg, tri), b));
        }
        if self.clears(seg, tri, far) {
            let (f, b) = choose|f: Crossing, b: Crossing| #[trigger]
                self.cross.ensures((seg, tri), f) && #[trigger] self.cross.ensures((seg, back), b)
                    && !blocks(front_distance(f), far) && !blocks(front_distance(b), far);
            assert(self.cross.ensures((seg, back), b));
        }
    }

    /// Whether a segment and a triangle have a crossing.
    pub open spec fn crosses(self, seg: Segment, tri: OccluderTriangle) -> bool {
        exists|c: Crossing| #[trigger] self.cross.ensures((seg, tri), c)
    }

    /// Patches that see each other are apart, and no occluder of the block is crossed
    /// between them: triangle `i`, whose coordinates lie `i` words into the nine
    /// component arrays, is not, in either order of its corners.
    pub proof fn law_visible_past_every_occluder(
        self,
        pi: Patch,
        pj: Patch,
        soa: &[u32],
        n_occ: usize,
        seg: Segment,
        far: u32,
        i: int,
        c: Crossing,
    )
        requires
            self.decided(),
            self.batches_agree(soa, n_occ, seg, far),
            self.aim.ensures((pi.centroid, pj.centroid), seg),
            self.minus.ensures((seg.length, T_MIN), far),
            self.seen(pi, pj, soa, n_occ, true),
            0 <= i < n_occ,
            ({
                let s = (n_occ + 7) / 8 * 8;
                let a = Vec3 { x: soa@[i], y: soa@[s + i], z: soa@[2 * s + i] };
                let b = Vec3 { x: soa@[3 * s + i], y: soa@[4 * s + i], z: soa@[5 * s + i] };
                let d = Vec3 { x: soa@[6 * s + i], y: soa@[7 * s + i], z: soa@[8 * s + i] };
                ||| self.cross.ensures((seg, (OccluderTriangle { v0: a, v1: b, v2: d })), c)
                ||| self.cross.ensures((seg, (OccluderTriangle { v0: d, v1: b, v2: a })), c)
            }),
            le(EPS, c.det),
            le(ZERO, c.u),
            le(ZERO, c.v),
            le(c.u, c.uv),
            le(c.uv, ONE),
        ensures
            !lt(seg.length, MIN_DISTANCE),
            !(lt(T_MIN, c.t) && lt(c.t, far)),
    {
        let s = padded(n_occ as int);
        let tri = occluder_at(soa@, s, i);
        assert(self.unblocked(soa, n_occ, seg, far));
        if i < n_occ / 8 * 8 {
            assert(self.clears(seg, tri, far));
        }
        if lt(T_MIN, c.t) && lt(c.t, far) {
            self.law_crossing_obstructs(seg, tri, far, c);
        }
    }

    /// Patches that do not see each other coincide, or an occluder of the block is
    /// crossed between them.
    pub proof fn law_hidden_by_some_occluder(
        self,
        pi: Patch,
        pj: Patch,
        soa: &[u32],
        n_occ: usize,
        seg: Segment,
        far: u32,
    )
        requires
            self.decided(),
            forall|t: OccluderTriangle| #[trigger] self.crosses(seg, t),
            self.batches_agree(soa, n_occ, seg, far),
            self.aim.ensures((pi.centroid, pj.centroid), seg),
            self.minus.ensures((seg.length, T_MIN), far),
            self.seen(pi, pj, soa, n_occ, false),
        ensures
            lt(seg.length, MIN_DISTANCE) || exists|i: int|
                #![trigger occluder_at(soa@, (n_occ + 7) / 8 * 8, i)]
                0 <= i < n_occ && ({
                    let s = (n_occ + 7) / 8 * 8;
                    let a = Vec3 { x: soa@[i], y: soa@[s + i], z: soa@[2 * s + i] };
                    let b = Vec3 { x: soa@[3 * s + i], y: soa@[4 * s + i], z: soa@[5 * s + i] };
                    let d = Vec3 { x: soa@[6 * s + i], y: soa@[7 * s + i], z: soa@[8 * s + i] };
                    self.obstructs(seg, (OccluderTriangle { v0: a, v1: b, v2: d }), far)
                }),
    {
        if !lt(seg.length, MIN_DISTANCE) {
            let s = padded(n_occ as int);
            self.lemma_hidden_is_blocked(pi, pj, soa, n_occ, seg, far);
            self.lemma_some_occluder_obstructs(soa, n_occ, seg, far);
            let i = choose|i: int|
                0 <= i < n_occ && #[trigger] self.obstructs(seg, occluder_at(soa@, s, i), far);
            assert(self.obstructs(seg, occluder_at(soa@, (n_occ + 7) / 8 * 8, i), far));
        }
    }

    proof fn lemma_hidden_is_blocked(
        self,
        pi: Patch,
        pj: Patch,
        soa: &[u32],
        n_occ: usize,
        seg: Segment,
        far: u32,
    )
        requires
            self.decided(),
            self.aim.ensures((pi.centroid, pj.centroid), seg),
            self.minus.ensures((seg.length, T_MIN), far),
            self.seen(pi, pj, soa, n_occ, false),
            !lt(seg.length, MIN_DISTANCE),
        ensures
            self.blocked(soa, n_occ, seg, far),
    {
    }

    proof fn lemma_some_occluder_obstructs(
        self,
        soa: &[u32],
        n_occ: usize,
        seg: Segment,
        far: u32,
    )
        requires
            self.decided(),
            forall|t: OccluderTriangle| #[trigger] self.crosses(seg, t),
            self.batches_agree(soa, n_occ, seg, far),
            self.blocked(soa, n_occ, seg, far),
        ensures
            exists|i: int|
                0 <= i < n_occ && #[trigger] self.obstructs(
                    seg,
                    occluder_at(soa@, padded(n_occ as int), i),
                    far,
                ),
    {
        let s = padded(n_occ as int);
        if !(exists|i: int|
            n_occ / 8 * 8 <= i < n_occ && #[trigger] self.obstructs(
                seg,
                occluder_at(soa@, s, i),
                far,
            )) {
            assert(!self.batches_answer(soa, s as usize, n_occ / 8, seg, far, true));
            let i = choose|i: int|
                0 <= i < n_occ / 8 * 8 && !#[trigger] self.clears(
                    seg,
                    occluder_at(soa@, s, i),
                    far,
                );
            self.lemma_clears_or_obstructs(seg, occluder_at(soa@, s, i), far);
        }
    }

    proof fn lemma_clears_or_obstructs(self, seg: Segment, tri: OccluderTriangle, far: u32)
        requires
            forall|t: OccluderTriangle| #[trigger] self.crosses(seg, t),
        ensures
            self.clears(seg, tri, far) || self.obstructs(seg, tri, far),
    {
        assert(self.crosses(seg, tri) && self.crosses(seg, reversed(tri)));
        let f = choose|c: Crossing| #[trigger] self.cross.ensures((seg, tri), c);
        let b = choose|c: Crossing| #[trigger] self.cross.ensures((seg, reversed(tri)), c);
        assert(self.cross.ensures((seg, tri), f));
        assert(self.cross.ensures((seg, reversed(tri)), b));
    }

    /// Patches that see each other exchange what the formula says of their cosines,
    /// their squared distance and the area of the receiver; nothing if they are
    /// closer than a tenth of a millimetre or one is turned away.
    pub proof fn law_exchange(self, pi: Patch, pj: Patch, r2: u32, c: (u32, u32), value: u32)
        requires
            self.measured(),
            self.squared.ensures((pi.centroid, pj.centroid), r2),
            self.cosines.ensures((pi.centroid, pi.normal, pj.centroid, pj.normal), c),
        ensures
            !lt(r2, MIN_DISTANCE_SQUARED) && lt(ZERO, c.0) && lt(ZERO, c.1) ==> (self.received(
                pi,
                pj,
                value,
            ) <==> self.formula.ensures((c.0, c.1, r2, pj.area), value)),
            lt(r2, MIN_DISTANCE_SQUARED) || !lt(ZERO, c.0) || !lt(ZERO, c.1) ==> (self.received(
                pi,
                pj,
                value,
            ) <==> value == ZERO),
    {
    }

    /// Whether the signs of the cosines have one outcome.
    pub open spec fn turned(self) -> bool {
        forall|p: Vec3, m: Vec3, q: Vec3, n: Vec3, r: (u32, u32), s: (u32, u32)| #[trigger]
            self.facing.ensures((p, m, q, n), r) && #[trigger] self.facing.ensures(
                (p, m, q, n),
                s,
            ) ==> r == s
    }

    /// A matrix entry is what the two patches exchange if they face each other and,
    /// where there are occluders, see each other; else it is zero.
    pub proof fn law_entry_is_exchange(
        self,
        pi: Patch,
        pj: Patch,
        soa: &[u32],
        n_occ: usize,
        s: (u32, u32),
        value: u32,
    )
        requires
            self.turned(),
            self.facing.ensures((pi.centroid, pi.normal, pj.centroid, pj.normal), s),
            self.factor(pi, pj, soa, n_occ, value),
        ensures
            le(s.0, ZERO) || le(s.1, ZERO) ==> value == ZERO,
            !le(s.0, ZERO) && !le(s.1, ZERO) && n_occ == 0 ==> self.received(pi, pj, value),
            !le(s.0, ZERO) && !le(s.1, ZERO) && n_occ > 0 ==> self.seen(pi, pj, soa, n_occ, true)
                && self.received(pi, pj, value) || self.seen(pi, pj, soa, n_occ, false) && value
                == ZERO,
    {
    }

    /// Light gets through: where the formula is positive for positive cosines, two
    /// patches that are apart, face each other and are never told to be hidden have a
    /// positive matrix entry.
    pub proof fn law_light_gets_through(
        self,
        pi: Patch,
        pj: Patch,
        soa: &[u32],
        n_occ: usize,
        s: (u32, u32),
        r2: u32,
        c: (u32, u32),
        value: u32,
    )
        requires
            self.turned(),
            self.measured(),
            self.facing.ensures((pi.centroid, pi.normal, pj.centroid, pj.normal), s),
            self.squared.ensures((pi.centroid, pj.centroid), r2),
            self.cosines.ensures((pi.centroid, pi.normal, pj.centroid, pj.normal), c),
            forall|a: u32, b: u32, d: u32, area: u32, v: u32|
                lt(ZERO, a) && lt(ZERO, b) && #[trigger] self.formula.ensures((a, b, d, area), v)
                    ==> lt(ZERO, v),
            lt(ZERO, s.0),
            lt(ZERO, s.1),
            lt(ZERO, c.0),
            lt(ZERO, c.1),
            le(MIN_DISTANCE_SQUARED, r2),
            n_occ == 0 || !self.seen(pi, pj, soa, n_occ, false),
            self.factor(pi, pj, soa, n_occ, value),
        ensures
            lt(ZERO, value),
    {
        self.law_entry_is_exchange(pi, pj, soa, n_occ, s, value);
        self.law_exchange(pi, pj, r2, c, value);
    }
}

// ---------------------------------------------------------------------------
// Kernel entry point
// ---------------------------------------------------------------------------

/// The rows of the form-factor matrix that `hart` computes, from the words of the
/// patch array and of the occluder block. A hart beyond the launched count writes
/// nothing.
pub fn entry_point<F, A, N, S, X, Q, C, K>(
    args: &FormFactorArgs,
    hart: u32,
    patches: &[u32],
    soa: &[u32],
    math: &PairMath<F, A, N, S, X, Q, C, K>,
) -> (r: Option<RowBlock>) where
    F: Fn(Vec3, Vec3, Vec3, Vec3) -> (u32, u32),
    A: Fn(Vec3, Vec3) -> Segment,
    N: Fn(u32, u32) -> u32,
    S: Fn(&[u32], usize, usize, Segment, &[u32]) -> u64,
    X: Fn(Segment, OccluderTriangle) -> Crossing,
    Q: Fn(Vec3, Vec3) -> u32,
    C: Fn(Vec3, Vec3, Vec3, Vec3) -> (u32, u32),
    K: Fn(u32, u32, u32, u32) -> u32,

    requires
        math.total(),
        patches@.len() == 8 * args.n_patches,
        args.n_occluders <= usize::MAX - 7,
        soa@.len() == 9 * padded(args.n_occluders as int),
        args.ff_matrix_addr + args.n_patches * args.n_patches * 4 <= u64::MAX,
    ensures
        r is None <==> hart >= args.n_harts,
        r matches Some(block) ==> rows_stored(
            *args,
            math.factors(patches@, soa, args.n_occluders as usize),
            hart as int,
            block,
        ) && block.reports == (hart == 0),
{
    if hart >= args.n_harts {
        return None;
    }
    let n: u32 = args.n_patches;
    let n_occ: usize = args.n_occluders as usize;
    let n_words: usize = patches.len();
    let ghost factor = math.factors(patches@, soa, n_occ);
    let (start, end) = row_range(n, args.n_harts, hart);
    proof {
        assert(start * n * 4 <= n * n * 4) by (nonlinear_arith)
            requires
                0 <= start <= n,
        ;
        assert(0 <= start * n) by (nonlinear_arith)
            requires
                0 <= start <= n,
        ;
    }
    let address: u64 = args.ff_matrix_addr + start as u64 * n as u64 * 4;
    let mut values: Vec<u32> = Vec::new();
    let mut i: u32 = start;
    proof {
        assert((start - start) * n == 0) by (nonlinear_arith);
    }
    while i < end
        invariant
            start <= i <= end <= n,
            n == args.n_patches,
            math.total(),
            n_words == patches@.len(),
            n_words == 8 * n,
            n_occ <= usize::MAX - 7,
            soa@.len() == 9 * padded(n_occ as int),
            factor == math.factors(patches@, soa, n_occ),
            values@.len() == (i - start) * n,
            forall|a: u32, b: u32|
                start <= a < i && b < n ==> stored(
                    factor,
                    a,
                    b,
                    values@[#[trigger] cell(n as int, a as int, b as int) - start * n],
                ),
        decreases end - i,
    {
        let mut j: u32 = 0;
        while j < n
            invariant
                start <= i < end <= n,
                j <= n,
                n == args.n_patches,
                math.total(),
                n_words == patches@.len(),
                n_words == 8 * n,
                n_occ <= usize::MAX - 7,
                soa@.len() == 9 * padded(n_occ as int),
                factor == math.factors(patches@, soa, n_occ),
                values@.len() == (i - start) * n + j,
                forall|a: u32, b: u32|
                    start <= a <= i && b < n && (a < i || b < j) ==> stored(
                        factor,
                        a,
                        b,
                        values@[#[trigger] cell(n as int, a as int, b as int) - start * n],
                    ),
            decreases n - j,
        {
            let value: u32 = if i == j {
                ZERO
            } else {
                math.form_factor_with_visibility(
                    read_patch(patches, i as usize),
                    read_patch(patches, j as usize),
                    soa,
                    n_occ,
                )
            };
            assert(stored(factor, i, j, value));
            let ghost before = values@;
            values.push(value);
            proof {
                assert forall|a: u32, b: u32|
                    start <= a <= i && b < n && (a < i || b < j + 1) implies stored(
                    factor,
                    a,
                    b,
                    values@[#[trigger] cell(n as int, a as int, b as int) - start * n],
                ) by {
                    let k = cell(n as int, a as int, b as int) - start * n;
                    assert(k == (a - start) * n + b) by (nonlinear_arith)
                        requires
                            k == a * n + b - start * n,
                    ;
                    if a == i && b == j {
                        assert(k == before.len());
                    } else {
                        assert(0 <= k < before.len()) by (nonlinear_arith)
                            requires
                                k == (a - start) * n + b,
                                before.len() == (i - start) * n + j,
                                start <= a <= i,
                                0 <= b < n,
                                a < i || b < j,
                        ;
                        assert(values@[k] == before[k]);
                    }
                }
            }
            j += 1;
        }
        proof {
            assert((i - start) * n + n == (i + 1 - start) * n) by (nonlinear_arith);
        }
        i += 1;
    }
    proof {
        assert(cell(n as int, start as int, 0) == start * n);
    }
    Some(RowBlock { address, values, reports: hart == 0 })
}

/// Rows are shared evenly: no hart has more than any share that is large enough for
/// all rows, and every hart before one that has rows has as many as the first.
pub proof fn law_rows_shared_evenly(n: u32, n_harts: u32, hart: u32, share: int)
    requires
        n_harts > 0,
        share * n_harts >= n,
    ensures
        row_start(n as int, n_harts as int, hart + 1) - row_start(
            n as int,
            n_harts as int,
            hart as int,
        ) <= share,
        row_start(n as int, n_harts as int, hart + 1) < n ==> row_start(
            n as int,
            n_harts as int,
            hart + 1,
        ) == (hart + 1) * row_start(n as int, n_harts as int, 1),
{
    let (m, p, h) = (n as int, n_harts as int, hart as int);
    let q = rows_per_hart(m, p);
    assert(q <= share) by (nonlinear_arith)
        requires
            q == (m + p - 1) / p,
            share * p >= m,
            p > 0,
    ;
    assert(q >= 0) by (nonlinear_arith)
        requires
            q == (m + p - 1) / p,
            m >= 0,
            p > 0,
    ;
    assert((h + 1) * q == h * q + q) by (nonlinear_arith);
    assert(0 <= h * q) by (nonlinear_arith)
        requires
            h >= 0,
            q >= 0,
    ;
    assert(1 * q == q);
}

/// What a hart leaves at the device address of element `(i, j)`, for a row `i` of its
/// own, is zero on the diagonal and the form factor of the pair elsewhere.
pub proof fn law_element_at_its_address(
    args: FormFactorArgs,
    factor: spec_fn(u32, u32, u32) -> bool,
    hart: int,
    block: RowBlock,
    i: u32,
    j: u32,
)
    requires
        rows_stored(args, factor, hart, block),
        owns_row(args.n_patches as int, args.n_harts as int, hart, i as int),
        0 <= row_start(args.n_patches as int, args.n_harts as int, hart),
        j < args.n_patches,
    ensures
        ({
            let at = args.ff_matrix_addr + (i * args.n_patches + j) * 4;
            let k = (at - block.address) / 4;
            &&& 0 <= k < block.values@.len()
            &&& block.address + 4 * k == at
            &&& i == j ==> block.values@[k] == ZERO
            &&& i != j ==> factor(i, j, block.values@[k])
        }),
{
    let n = args.n_patches as int;
    let (a, b) = (
        row_start(n, args.n_harts as int, hart),
        row_start(n, args.n_harts as int, hart + 1),
    );
    let k = cell(n, i as int, j as int) - cell(n, a, 0);
    assert(0 <= k < (b - a) * n) by (nonlinear_arith)
        requires
            k == i * n + j - (a * n + 0),
            a <= i < b,
            0 <= j < n,
    ;
    assert(stored(factor, i, j, block.values@[k]));
}

/// Row `i` and column `j` of the matrix stand for the patches whose eight words lie
/// at `8 i` and `8 j` of the patch array: centroid, normal, area and padding.
pub proof fn law_pair_of_descriptors<F, A, N, S, X, Q, C, K>(
    math: PairMath<F, A, N, S, X, Q, C, K>,
    words: Seq<u32>,
    soa: &[u32],
    n_occ: usize,
    i: u32,
    j: u32,
    pi: Patch,
    pj: Patch,
    value: u32,
) where
    F: Fn(Vec3, Vec3, Vec3, Vec3) -> (u32, u32),
    A: Fn(Vec3, Vec3) -> Segment,
    N: Fn(u32, u32) -> u32,
    S: Fn(&[u32], usize, usize, Segment, &[u32]) -> u64,
    X: Fn(Segment, OccluderTriangle) -> Crossing,
    Q: Fn(Vec3, Vec3) -> u32,
    C: Fn(Vec3, Vec3, Vec3, Vec3) -> (u32, u32),
    K: Fn(u32, u32, u32, u32) -> u32,

    requires
        words.len() >= 8 * i + 8,
        words.len() >= 8 * j + 8,
        words.subrange(8 * i as int, 8 * i + 8) == seq![
            pi.centroid.x,
            pi.centroid.y,
            pi.centroid.z,
            pi.normal.x,
            pi.normal.y,
            pi.normal.z,
            pi.area,
            pi._pad,
        ],
        words.subrange(8 * j as int, 8 * j + 8) == seq![
            pj.centroid.x,
            pj.centroid.y,
            pj.centroid.z,
            pj.normal.x,
            pj.normal.y,
            pj.normal.z,
            pj.area,
            pj._pad,
        ],
    ensures
        (math.factors(words, soa, n_occ))(i, j, value) <==> math.factor(pi, pj, soa, n_occ, value),
{
    let (a, b) = (words.subrange(8 * i as int, 8 * i + 8), words.subrange(8 * j as int, 8 * j + 8));
    assert forall|k: int| 0 <= k < 8 implies a[k] == words[8 * i + k] && b[k] == words[8 * j + k] by {}
    assert(a[0] == words[8 * i + 0] && a[1] == words[8 * i + 1] && a[2] == words[8 * i + 2]);
    assert(a[3] == words[8 * i + 3] && a[4] == words[8 * i + 4] && a[5] == words[8 * i + 5]);
    assert(a[6] == words[8 * i + 6] && a[7] == words[8 * i + 7]);
    assert(b[0] == words[8 * j + 0] && b[1] == words[8 * j + 1] && b[2] == words[8 * j + 2]);
    assert(b[3] == words[8 * j + 3] && b[4] == words[8 * j + 4] && b[5] == words[8 * j + 5]);
    assert(b[6] == words[8 * j + 6] && b[7] == words[8 * j + 7]);
    assert(patch_at(words, i as int) == pi);
    assert(patch_at(words, j as int) == pj);
}

// ---------------------------------------------------------------------------
// What the calls come to
// ---------------------------------------------------------------------------

/// A call of `moller_trumbore` on a crossing of a triangle that the ray is not
/// parallel to, between the edges and ahead, returns the distance; it returns
/// nothing for a back face, a crossing beyond an edge, or one that is not ahead.
pub proof fn law_call_hits(c: Crossing, r: Option<u32>)
    requires
        call_ensures(moller_trumbore, (&c,), r),
    ensures
        le(EPS, c.det) && le(ZERO, c.u) && le(ZERO, c.v) && le(c.u, c.uv) && le(c.uv, ONE) && lt(
            EPS,
            c.t,
        ) ==> r == Some(c.t),
        lt(c.det, EPS) || lt(c.u, ZERO) || lt(c.v, ZERO) || lt(ONE, c.u) || lt(ONE, c.uv) || !lt(
            EPS,
            c.t,
        ) <==> r is None,
        r is Some ==> r == Some(c.t),
{
}

/// Two calls of `moller_trumbore` that differ in the determinant alone, which is at
/// least `1.0e-7` in both, return the same.
pub proof fn law_calls_ignore_size(c: Crossing, d: Crossing, r: Option<u32>, s: Option<u32>)
    requires
        call_ensures(moller_trumbore, (&c,), r),
        call_ensures(moller_trumbore, (&d,), s),
        le(EPS, c.det),
        le(EPS, d.det),
        c.u == d.u,
        c.v == d.v,
        c.uv == d.uv,
        c.t == d.t,
    ensures
        r == s,
{
}

/// `row_range` gives the first hart a range that starts at the first row, each hart
/// one that starts where that of the hart before ends, and no hart more rows than a
/// share that is large enough for all of them.
pub proof fn law_call_ranges(
    n: u32,
    n_harts: u32,
    hart: u32,
    r: (u32, u32),
    s: (u32, u32),
    share: int,
)
    requires
        n_harts > 0,
        hart < u32::MAX,
        share * n_harts >= n,
        call_ensures(row_range, (n, n_harts, hart), r),
        call_ensures(row_range, (n, n_harts, (hart + 1) as u32), s),
    ensures
        hart == 0 ==> r.0 == 0,
        r.1 == s.0,
        hart + 1 == n_harts ==> r.1 == n,
        r.0 <= r.1 <= n,
        r.1 - r.0 <= share,
{
    law_rows_contiguous(n, n_harts);
    law_rows_shared_evenly(n, n_harts, hart, share);
}

/// `read_occluder` takes coordinate `k` of a triangle from component array `k`.
pub proof fn law_call_reads_components(
    soa: &[u32],
    stride: usize,
    i: usize,
    r: OccluderTriangle,
)
    requires
        call_ensures(read_occluder, (soa, stride, i), r),
    ensures
        r.v0.x == soa@[i as int],
        r.v0.y == soa@[stride + i],
        r.v0.z == soa@[2 * stride + i],
        r.v1.x == soa@[3 * stride + i],
        r.v1.y == soa@[4 * stride + i],
        r.v1.z == soa@[5 * stride + i],
        r.v2.x == soa@[6 * stride + i],
        r.v2.y == soa@[7 * stride + i],
        r.v2.z == soa@[8 * stride + i],
{
}

impl<F, A, N, S, X, Q, C, K> PairMath<F, A, N, S, X, Q, C, K> where
    F: Fn(Vec3, Vec3, Vec3, Vec3) -> (u32, u32),
    A: Fn(Vec3, Vec3) -> Segment,
    N: Fn(u32, u32) -> u32,
    S: Fn(&[u32], usize, usize, Segment, &[u32]) -> u64,
    X: Fn(Segment, OccluderTriangle) -> Crossing,
    Q: Fn(Vec3, Vec3) -> u32,
    C: Fn(Vec3, Vec3, Vec3, Vec3) -> (u32, u32),
    K: Fn(u32, u32, u32, u32) -> u32,
 {
    /// A call of `is_visible` returns true only if the patches are apart and no
    /// occluder of the block is crossed between them, from either side; it returns
    /// false only if they coincide or some occluder is.
    pub proof fn law_call_sees(
        self,
        pi: Patch,
        pj: Patch,
        soa: &[u32],
        n_occ: usize,
        seg: Segment,
        far: u32,
        r: bool,
        i: int,
        c: Crossing,
    )
        requires
            call_ensures(Self::is_visible, (&self, pi, pj, soa, n_occ), r),
            self.decided(),
            self.batches_agree(soa, n_occ, seg, far),
            self.aim.ensures((pi.centroid, pj.centroid), seg),
            self.minus.ensures((seg.length, T_MIN), far),
            0 <= i < n_occ,
            ({
                let s = (n_occ + 7) / 8 * 8;
                let a = Vec3 { x: soa@[i], y: soa@[s + i], z: soa@[2 * s + i] };
                let b = Vec3 { x: soa@[3 * s + i], y: soa@[4 * s + i], z: soa@[5 * s + i] };
                let d = Vec3 { x: soa@[6 * s + i], y: soa@[7 * s + i], z: soa@[8 * s + i] };
                ||| self.cross.ensures((seg, (OccluderTriangle { v0: a, v1: b, v2: d })), c)
                ||| self.cross.ensures((seg, (OccluderTriangle { v0: d, v1: b, v2: a })), c)
            }),
            le(EPS, c.det),
            le(ZERO, c.u),
            le(ZERO, c.v),
            le(c.u, c.uv),
            le(c.uv, ONE),
            lt(T_MIN, c.t),
            lt(c.t, far),
        ensures
            !r,
    {
        if r {
            self.law_visible_past_every_occluder(pi, pj, soa, n_occ, seg, far, i, c);
        }
    }

    /// A call of `is_visible` on two patches that are apart, with no occluder or with
    /// a miss of every occluder from both sides, returns true.
    pub proof fn law_call_sees_past_misses(
        self,
        pi: Patch,
        pj: Patch,
        soa: &[u32],
        n_occ: usize,
        seg: Segment,
        far: u32,
        r: bool,
    )
        requires
            call_ensures(Self::is_visible, (&self, pi, pj, soa, n_occ), r),
            self.decided(),
            self.batches_agree(soa, n_occ, seg, far),
            self.aim.ensures((pi.centroid, pj.centroid), seg),
            self.minus.ensures((seg.length, T_MIN), far),
            !lt(seg.length, MIN_DISTANCE),
            forall|t: OccluderTriangle| #[trigger] self.crosses(seg, t),
            forall|t: OccluderTriangle, c: Crossing| #[trigger]
                self.cross.ensures((seg, t), c) ==> lt(c.det, EPS) || lt(c.u, ZERO) || lt(c.v, ZERO)
                    || lt(ONE, c.uv) || le(c.t, T_MIN) || le(far, c.t),
        ensures
            r,
    {
        if !r {
            self.lemma_hidden_is_blocked(pi, pj, soa, n_occ, seg, far);
            self.lemma_some_occluder_obstructs(soa, n_occ, seg, far);
            let s = padded(n_occ as int);
            let i = choose|i: int|
                0 <= i < n_occ && #[trigger] self.obstructs(seg, occluder_at(soa@, s, i), far);
            self.law_obstruction_is_crossing(seg, occluder_at(soa@, s, i), far);
        }
    }

    /// A call of `is_visible_simd8` hands the block, its stride, the number of batches,
    /// the segment and the constants zero, `1.0e-7`, `1.0e-3` and the far end to the
    /// shadow test, and returns true exactly if that answers zero.
    pub proof fn law_call_asks_batches(
        self,
        soa: &[u32],
        n_padded: usize,
        full_batches: usize,
        seg: Segment,
        far: u32,
        answer: u64,
        r: bool,
    )
        requires
            call_ensures(
                Self::is_visible_simd8,
                (&self, soa, n_padded, full_batches, seg, far),
                r,
            ),
            forall|k: &[u32], code: u64|
                k@ == seq![ZERO, EPS, T_MIN, far] && #[trigger] self.shadow_test.ensures(
                    (soa, n_padded, full_batches, seg, k),
                    code,
                ) ==> code == answer,
        ensures
            r == (answer == 0),
    {
    }

    /// Coinciding patches never see each other.
    pub proof fn law_call_separates(
        self,
        pi: Patch,
        pj: Patch,
        soa: &[u32],
        n_occ: usize,
        seg: Segment,
        r: bool,
    )
        requires
            call_ensures(Self::is_visible, (&self, pi, pj, soa, n_occ), r),
            self.decided(),
            self.aim.ensures((pi.centroid, pj.centroid), seg),
            lt(seg.length, MIN_DISTANCE),
        ensures
            !r,
    {
    }

    /// A call of `compute_form_factor` returns what the formula gives for the
    /// cosines, the squared distance and the receiver's area, or zero for patches
    /// that are too close or turned away.
    pub proof fn law_call_computes(self, pi: Patch, pj: Patch, r2: u32, c: (u32, u32), r: u32)
        requires
            call_ensures(Self::compute_form_factor, (&self, pi, pj), r),
            self.measured(),
            self.squared.ensures((pi.centroid, pj.centroid), r2),
            self.cosines.ensures((pi.centroid, pi.normal, pj.centroid, pj.normal), c),
        ensures
            !lt(r2, MIN_DISTANCE_SQUARED) && lt(ZERO, c.0) && lt(ZERO, c.1)
                ==> self.formula.ensures((c.0, c.1, r2, pj.area), r),
            lt(r2, MIN_DISTANCE_SQUARED) || !lt(ZERO, c.0) || !lt(ZERO, c.1) ==> r == ZERO,
    {
        self.law_exchange(pi, pj, r2, c, r);
    }

    /// A call of `form_factor_with_visibility` on patches that face each other and
    /// are not hidden returns what a call of `compute_form_factor` may; on others it
    /// returns zero.
    pub proof fn law_call_filters(
        self,
        pi: Patch,
        pj: Patch,
        soa: &[u32],
        n_occ: usize,
        s: (u32, u32),
        r: u32,
        seen: bool,
    )
        requires
            call_ensures(Self::form_factor_with_visibility, (&self, pi, pj, soa, n_occ), r),
            call_ensures(Self::is_visible, (&self, pi, pj, soa, n_occ), seen),
            self.turned(),
            self.facing.ensures((pi.centroid, pi.normal, pj.centroid, pj.normal), s),
            n_occ > 0 ==> !(self.seen(pi, pj, soa, n_occ, true) && self.seen(
                pi,
                pj,
                soa,
                n_occ,
                false,
            )),
        ensures
            le(s.0, ZERO) || le(s.1, ZERO) ==> r == ZERO,
            n_occ > 0 && !seen ==> r == ZERO,
            !le(s.0, ZERO) && !le(s.1, ZERO) && (n_occ == 0 || seen) ==> self.received(pi, pj, r),
    {
        self.law_entry_is_exchange(pi, pj, soa, n_occ, s, r);
    }
}

/// A call of the kernel's entry point on a hart of the launch leaves, at the device
/// address of every element of the hart's rows, zero on the diagonal and elsewhere a
/// form factor of the two patches whose words the array holds at that row and that
/// column.
pub proof fn law_call_writes_rows<F, A, N, S, X, Q, C, K>(
    args: FormFactorArgs,
    hart: u32,
    patches: &[u32],
    soa: &[u32],
    math: PairMath<F, A, N, S, X, Q, C, K>,
    r: Option<RowBlock>,
    rows: (u32, u32),
    i: u32,
    j: u32,
    pi: Patch,
    pj: Patch,
) where
    F: Fn(Vec3, Vec3, Vec3, Vec3) -> (u32, u32),
    A: Fn(Vec3, Vec3) -> Segment,
    N: Fn(u32, u32) -> u32,
    S: Fn(&[u32], usize, usize, Segment, &[u32]) -> u64,
    X: Fn(Segment, OccluderTriangle) -> Crossing,
    Q: Fn(Vec3, Vec3) -> u32,
    C: Fn(Vec3, Vec3, Vec3, Vec3) -> (u32, u32),
    K: Fn(u32, u32, u32, u32) -> u32,

    requires
        call_ensures(
            entry_point::<F, A, N, S, X, Q, C, K>,
            (&args, hart, patches, soa, &math),
            r,
        ),
        args.n_harts > 0,
        call_ensures(row_range, (args.n_patches, args.n_harts, hart), rows),
        rows.0 <= i < rows.1,
        j < args.n_patches,
        patches@.len() == 8 * args.n_patches,
        patches@.subrange(8 * i as int, 8 * i + 8) == seq![
            pi.centroid.x,
            pi.centroid.y,
            pi.centroid.z,
            pi.normal.x,
            pi.normal.y,
            pi.normal.z,
            pi.area,
            pi._pad,
        ],
        patches@.subrange(8 * j as int, 8 * j + 8) == seq![
            pj.centroid.x,
            pj.centroid.y,
            pj.centroid.z,
            pj.normal.x,
            pj.normal.y,
            pj.normal.z,
            pj.area,
            pj._pad,
        ],
    ensures
        hart >= args.n_harts ==> r is None,
        hart < args.n_harts ==> r is Some,
        r matches Some(block) ==> {
            let at = args.ff_matrix_addr + (i * args.n_patches + j) * 4;
            let k = (at - block.address) / 4;
            &&& block.reports == (hart == 0)
            &&& 0 <= k < block.values@.len()
            &&& block.address + 4 * k == at
            &&& i == j ==> block.values@[k] == ZERO
            &&& i != j ==> math.factor(
                pi,
                pj,
                soa,
                args.n_occluders as usize,
                block.values@[k],
            )
        },
{
    if let Some(block) = r {
        let n_occ = args.n_occluders as usize;
        let factor = math.factors(patches@, soa, n_occ);
        law_element_at_its_address(args, factor, hart as int, block, i, j);
        let at = args.ff_matrix_addr + (i * args.n_patches + j) * 4;
        let k = (at - block.address) / 4;
        law_pair_of_descriptors(math, patches@, soa, n_occ, i, j, pi, pj, block.values@[k]);
    }
}

/// A call of `padded_count` returns the next multiple of eight.
pub proof fn law_call_pads(n: usize, r: usize)
    requires
        call_ensures(padded_count, (n,), r),
    ensures
        r % 8 == 0,
        n <= r < n + 8,
{
}

} // verus!
