//! Host side of the two kernels: what is uploaded and launched, what becomes of
//! the downloaded results, and the radiosity solve.

use vstd::prelude::*;

use crate::abi::{
    geom_array_bytes, geom_array_words, law_geoms_read_back, law_patch_read_back,
    law_vec3s_read_back, law_word_round_trip, patch_array_bytes, patch_array_words, pod_as_bytes,
    read_geoms, read_patch, read_vec3s, vec3_array_bytes, vec3_array_words, word_at, word_bytes,
    words_from_bytes, FormFactorArgs, Patch, PatchGeom, RenderArgs,
};
use crate::ff_kernel::{cell, occluder_at, padded, padded_count, read_occluder};
use crate::fold::{folds, folds_to, functional, lemma_folds_to_empty, lemma_folds_to_push, law_fold_unique};
use crate::ieee::{finite, is_finite, is_nan, le, less, lt, magnitude, zero3, Vec3, ONE, ZERO};
use crate::render::{
    brightest, cornell_camera, geometry, measured, patch_geometry, white_point, Camera,
};
use crate::render_kernel::{
    camera_words, law_camera_round_trip, law_triples_read_back, read_camera, read_triples,
    triple_array_words, widened, VertexTriple,
};
use crate::scene::{OccluderTriangle, Scene, ScenePatch};
use crate::trace::TRACE_BUFFER_BYTES;
use crate::vertices::{build_vertex_radiosity, vertices_built, vertices_known, PatchVerts};

verus! {

/// `1.0e-8`: rows that sum to no more than this are left as they are.
pub const MIN_ROW_SUM: u32 = 0x322B_CC77;

// ---------------------------------------------------------------------------
// Occluder block
// ---------------------------------------------------------------------------

/// The triangle of zeros that pads the block.
pub open spec fn zero_triangle() -> OccluderTriangle {
    OccluderTriangle { v0: zero3(), v1: zero3(), v2: zero3() }
}

/// Whether `soa` is the block of `occluders`: nine component arrays, padded with
/// zeros to a multiple of eight.
pub open spec fn packed(soa: Seq<u32>, occluders: Seq<OccluderTriangle>) -> bool {
    let stride = padded(occluders.len() as int);
    &&& soa.len() == 9 * stride
    &&& forall|k: int|
        0 <= k < stride ==> #[trigger] occluder_at(soa, stride, k) == (if k < occluders.len() {
            occluders[k]
        } else {
            zero_triangle()
        })
}

/// Lays the occluders out component by component.
pub fn pack_occluders(occluders: &[OccluderTriangle]) -> (r: Vec<u32>)
    requires
        9 * padded(occluders@.len() as int) <= usize::MAX,
    ensures
        packed(r@, occluders@),
{
    let n: usize = occluders.len();
    let stride: usize = padded_count(n);
    let mut soa: Vec<u32> = vec![ZERO; 9 * stride];
    let mut i: usize = 0;
    while i < n
        invariant
            i <= n <= stride,
            n == occluders@.len(),
            stride == padded(n as int),
            9 * stride <= usize::MAX,
            soa@.len() == 9 * stride,
            forall|k: int|
                0 <= k < stride ==> #[trigger] occluder_at(soa@, stride as int, k) == (if k < i {
                    occluders@[k]
                } else {
                    zero_triangle()
                }),
        decreases n - i,
    {
        let o: OccluderTriangle = occluders[i];
        let ghost before = soa@;
        soa.set(i, o.v0.x);
        soa.set(stride + i, o.v0.y);
        soa.set(2 * stride + i, o.v0.z);
        soa.set(3 * stride + i, o.v1.x);
        soa.set(4 * stride + i, o.v1.y);
        soa.set(5 * stride + i, o.v1.z);
        soa.set(6 * stride + i, o.v2.x);
        soa.set(7 * stride + i, o.v2.y);
        soa.set(8 * stride + i, o.v2.z);
        proof {
            assert forall|k: int| 0 <= k < stride implies #[trigger] occluder_at(
                soa@,
                stride as int,
                k,
            ) == (if k < i + 1 {
                occluders@[k]
            } else {
                zero_triangle()
            }) by {
                assert(occluder_at(before, stride as int, k) == (if k < i {
                    occluders@[k]
                } else {
                    zero_triangle()
                }));
            }
        }
        i += 1;
    }
    soa
}

// ---------------------------------------------------------------------------
// Form-factor matrix
// ---------------------------------------------------------------------------

/// A scalar with infinities and NaN replaced by zero.
pub open spec fn sanitised(x: u32) -> u32 {
    if finite(x) {
        x
    } else {
        ZERO
    }
}

/// Row `i` of a row-major `n x n` matrix.
pub open spec fn matrix_row(m: Seq<u32>, n: int, i: int) -> Seq<u32> {
    Seq::new(n as nat, |j: int| m[cell(n, i, j)])
}

/// Whether `out` is the normalised form of `row`: every element sanitised and,
/// if their left-to-right sum exceeds `1.0e-8`, divided by it.
pub open spec fn row_normalised<A, D>(plus: A, divide: D, row: Seq<u32>, out: Seq<u32>) -> bool where
    A: Fn(u32, u32) -> u32,
    D: Fn(u32, u32) -> u32,
 {
    let clean = row.map_values(|x: u32| sanitised(x));
    &&& out.len() == row.len()
    &&& exists|sum: u32| #[trigger]
        folds_to(plus, ZERO, clean, sum) && forall|j: int|
            0 <= j < row.len() ==> (if lt(MIN_ROW_SUM, sum) {
                divide.ensures((clean[j], sum), #[trigger] out[j])
            } else {
                out[j] == clean[j]
            })
}

fn normalise_row<A, D>(row: &[u32], start: usize, n: usize, plus: &A, divide: &D) -> (r: Vec<u32>) where
    A: Fn(u32, u32) -> u32,
    D: Fn(u32, u32) -> u32,

    requires
        start + n <= row@.len(),
        forall|a: u32, b: u32| plus.requires((a, b)),
        forall|a: u32, b: u32| divide.requires((a, b)),
    ensures
        row_normalised(*plus, *divide, row@.subrange(start as int, start + n), r@),
{
    let ghost given = row@.subrange(start as int, start + n);
    let ghost clean = given.map_values(|x: u32| sanitised(x));
    let len: usize = row.len();
    let mut out: Vec<u32> = Vec::new();
    let mut sum: u32 = ZERO;
    let mut j: usize = 0;
    proof {
        lemma_folds_to_empty::<u32, u32, A>(*plus, ZERO);
        assert(clean.take(0) =~= Seq::<u32>::empty());
    }
    while j < n
        invariant
            j <= n,
            len == row@.len(),
            start + n <= len,
            given == row@.subrange(start as int, start + n),
            clean == given.map_values(|x: u32| sanitised(x)),
            forall|a: u32, b: u32| plus.requires((a, b)),
            out@ =~= clean.take(j as int),
            folds_to(*plus, ZERO, clean.take(j as int), sum),
        decreases n - j,
    {
        let x: u32 = row[start + j];
        let v: u32 = if is_finite(x) { x } else { ZERO };
        let next: u32 = plus(sum, v);
        proof {
            assert(v == clean[j as int]);
            lemma_folds_to_push(*plus, ZERO, clean.take(j as int), sum, v, next);
            assert(clean.take(j as int).push(v) =~= clean.take(j + 1));
        }
        sum = next;
        out.push(v);
        j += 1;
    }
    assert(clean.take(n as int) =~= clean);
    if !less(MIN_ROW_SUM, sum) {
        return out;
    }
    let mut scaled: Vec<u32> = Vec::new();
    let mut k: usize = 0;
    while k < n
        invariant
            k <= n,
            n == clean.len(),
            out@ == clean,
            forall|a: u32, b: u32| divide.requires((a, b)),
            scaled@.len() == k,
            forall|j: int| 0 <= j < k ==> divide.ensures((clean[j], sum), #[trigger] scaled@[j]),
        decreases n - k,
    {
        scaled.push(divide(out[k], sum));
        k += 1;
    }
    scaled
}

/// Whether every row of `out` is the normalised form of that of `ff`.
pub open spec fn rows_normalised<A, D>(
    plus: A,
    divide: D,
    n: int,
    ff: Seq<u32>,
    out: Seq<u32>,
) -> bool where A: Fn(u32, u32) -> u32, D: Fn(u32, u32) -> u32 {
    &&& out.len() == n * n
    &&& forall|i: int|
        0 <= i < n ==> #[trigger] row_normalised(
            plus,
            divide,
            matrix_row(ff, n, i),
            matrix_row(out, n, i),
        )
}

/// Normalises every row of the downloaded matrix so that it conserves energy.
pub fn normalise_rows<A, D>(ff: &[u32], n: usize, plus: A, divide: D) -> (r: Vec<u32>) where
    A: Fn(u32, u32) -> u32,
    D: Fn(u32, u32) -> u32,

    requires
        n > 0,
        ff@.len() == n * n,
        forall|a: u32, b: u32| plus.requires((a, b)),
        forall|a: u32, b: u32| divide.requires((a, b)),
    ensures
        r@.len() == n * n,
        rows_normalised(plus, divide, n as int, ff@, r@),
{
    let total: usize = ff.len();
    let mut out: Vec<u32> = Vec::new();
    let mut i: usize = 0;
    while i < n
        invariant
            i <= n,
            total == ff@.len(),
            total == n * n,
            forall|a: u32, b: u32| plus.requires((a, b)),
            forall|a: u32, b: u32| divide.requires((a, b)),
            out@.len() == i * n,
            forall|k: int|
                0 <= k < i ==> #[trigger] row_normalised(
                    plus,
                    divide,
                    matrix_row(ff@, n as int, k),
                    matrix_row(out@, n as int, k),
                ),
        decreases n - i,
    {
        proof {
            assert(i * n + n <= n * n) by (nonlinear_arith)
                requires
                    0 <= i < n,
            ;
            assert(0 <= i * n) by (nonlinear_arith);
        }
        let start: usize = i * n;
        let mut row: Vec<u32> = normalise_row(ff, start, n, &plus, &divide);
        let ghost before = out@;
        let ghost fresh = row@;
        out.append(&mut row);
        proof {
            assert((i + 1) * n == i * n + n) by (nonlinear_arith);
            assert(ff@.subrange(start as int, start + n) =~= matrix_row(ff@, n as int, i as int));
            assert(matrix_row(out@, n as int, i as int) =~= fresh);
            assert forall|k: int| 0 <= k < i implies #[trigger] row_normalised(
                plus,
                divide,
                matrix_row(ff@, n as int, k),
                matrix_row(out@, n as int, k),
            ) by {
                assert forall|j: int| 0 <= j < n implies 0 <= #[trigger] cell(n as int, k, j)
                    < before.len() by {
                    assert(0 <= k * n + j < i * n) by (nonlinear_arith)
                        requires
                            0 <= k < i,
                            0 <= j < n,
                    ;
                }
                assert(matrix_row(out@, n as int, k) =~= matrix_row(before, n as int, k));
            }
        }
        i += 1;
    }
    out
}

/// Whether a scalar is finite and not negative.
pub open spec fn amount(x: u32) -> bool {
    finite(x) && le(ZERO, x)
}

/// Whether a sum is never below its parts: one so far, which is not negative, and
/// one amount more.
pub open spec fn sums_grow<A: Fn(u32, u32) -> u32>(plus: A) -> bool {
    forall|a: u32, b: u32, r: u32|
        le(ZERO, a) && amount(b) && #[trigger] plus.ensures((a, b), r) ==> le(a, r) && le(b, r)
}

/// Whether a part over a positive whole is a share in [0, 1].
pub open spec fn shares_fit<D: Fn(u32, u32) -> u32>(divide: D) -> bool {
    forall|a: u32, s: u32, r: u32|
        amount(a) && le(a, s) && lt(ZERO, s) && #[trigger] divide.ensures((a, s), r) ==> share(r)
}

/// Whether a scalar lies in [0, 1].
pub open spec fn share(x: u32) -> bool {
    le(ZERO, x) && le(x, ONE)
}

/// Whether the finite elements of a row are not negative, as form factors are.
pub open spec fn row_of_amounts(row: Seq<u32>) -> bool {
    forall|j: int| 0 <= j < row.len() && finite(#[trigger] row[j]) ==> le(ZERO, row[j])
}

/// Energy is conserved element by element: with a sum that is never below its
/// parts, and parts over their sum in [0, 1], every element of a normalised row
/// lies in [0, 1].
pub proof fn law_normalised_shares<A, D>(
    plus: A,
    divide: D,
    row: Seq<u32>,
    out: Seq<u32>,
    j: int,
) where A: Fn(u32, u32) -> u32, D: Fn(u32, u32) -> u32
    requires
        sums_grow(plus),
        shares_fit(divide),
        row_of_amounts(row),
        row_normalised(plus, divide, row, out),
        0 <= j < row.len(),
    ensures
        share(out[j]),
        amount(out[j]),
{
    let clean = row.map_values(|x: u32| sanitised(x));
    let sum = choose|sum: u32| #[trigger]
        folds_to(plus, ZERO, clean, sum) && forall|j: int|
            0 <= j < row.len() ==> (if lt(MIN_ROW_SUM, sum) {
                divide.ensures((clean[j], sum), #[trigger] out[j])
            } else {
                out[j] == clean[j]
            });
    let t = choose|t: Seq<u32>| #[trigger] folds(plus, ZERO, clean, t) && t.last() == sum;
    assert forall|k: int| 0 <= k < clean.len() implies amount(#[trigger] clean[k]) by {
        assert(clean[k] == sanitised(row[k]));
    }
    lemma_parts_below(plus, clean, t, j, clean.len() as int);
    assert(amount(clean[j]));
    if lt(MIN_ROW_SUM, sum) {
        assert(divide.ensures((clean[j], sum), out[j]));
    } else {
        assert(out[j] == clean[j]);
    }
}

proof fn lemma_parts_below<A: Fn(u32, u32) -> u32>(
    plus: A,
    parts: Seq<u32>,
    t: Seq<u32>,
    j: int,
    k: int,
)
    requires
        sums_grow(plus),
        folds(plus, ZERO, parts, t),
        forall|i: int| 0 <= i < parts.len() ==> amount(#[trigger] parts[i]),
        0 <= k <= parts.len(),
        0 <= j,
    ensures
        le(ZERO, t[k]),
        j < k ==> le(parts[j], t[k]),
    decreases k,
{
    if k > 0 {
        lemma_parts_below(plus, parts, t, j, k - 1);
        assert(plus.ensures((t[k - 1], parts[k - 1]), t[(k - 1) + 1]));
        assert(amount(parts[k - 1]));
    }
}

/// A normalised matrix holds shares only, so that a solve gathers amounts.
pub proof fn law_matrix_of_shares<A, D>(
    plus: A,
    divide: D,
    ff: Seq<u32>,
    n: int,
    out: Seq<u32>,
    i: int,
    j: int,
) where A: Fn(u32, u32) -> u32, D: Fn(u32, u32) -> u32
    requires
        sums_grow(plus),
        shares_fit(divide),
        row_of_amounts(matrix_row(ff, n, i)),
        row_normalised(plus, divide, matrix_row(ff, n, i), matrix_row(out, n, i)),
        0 <= i < n,
        0 <= j < n,
    ensures
        share(out[cell(n, i, j)]),
        amount(out[cell(n, i, j)]),
{
    law_normalised_shares(plus, divide, matrix_row(ff, n, i), matrix_row(out, n, i), j);
    assert(matrix_row(out, n, i)[j] == out[cell(n, i, j)]);
}

// ---------------------------------------------------------------------------
// Radiosity solve
// ---------------------------------------------------------------------------

/// What patch `i` gathers: each form factor of its row with the radiosity of the
/// patch it leads to.
pub open spec fn incoming(ff: Seq<u32>, b: Seq<Vec3>, i: int) -> Seq<(u32, Vec3)> {
    Seq::new(b.len(), |j: int| (ff[cell(b.len() as int, i, j)], b[j]))
}

/// Whether `out` is the next radiosity of patch `i`: its emission with what its
/// reflectance sends back of the light gathered, in order, from all patches.
pub open spec fn relit<G, R>(
    gather: G,
    relight: R,
    patches: Seq<ScenePatch>,
    ff: Seq<u32>,
    b: Seq<Vec3>,
    i: int,
    out: Vec3,
) -> bool where G: Fn(Vec3, (u32, Vec3)) -> Vec3, R: Fn(Vec3, Vec3, Vec3) -> Vec3 {
    exists|light: Vec3| #[trigger]
        folds_to(gather, zero3(), incoming(ff, b, i), light) && relight.ensures(
            (patches[i].emission, patches[i].reflectance, light),
            out,
        )
}

/// Whether `next` is the iterate after `b`: every patch relit from `b` alone.
pub open spec fn swept<G, R>(
    gather: G,
    relight: R,
    patches: Seq<ScenePatch>,
    ff: Seq<u32>,
    b: Seq<Vec3>,
    next: Seq<Vec3>,
) -> bool where G: Fn(Vec3, (u32, Vec3)) -> Vec3, R: Fn(Vec3, Vec3, Vec3) -> Vec3 {
    &&& next.len() == patches.len()
    &&& forall|i: int|
        0 <= i < patches.len() ==> relit(gather, relight, patches, ff, b, i, #[trigger] next[i])
}

/// The self-emission of every patch, where the iteration starts.
pub open spec fn emissions(patches: Seq<ScenePatch>) -> Seq<Vec3> {
    patches.map_values(|p: ScenePatch| p.emission)
}

/// Whether `iterates` are the Jacobi iterates from the emissions on.
pub open spec fn jacobi<G, R>(
    gather: G,
    relight: R,
    patches: Seq<ScenePatch>,
    ff: Seq<u32>,
    iterates: Seq<Seq<Vec3>>,
) -> bool where G: Fn(Vec3, (u32, Vec3)) -> Vec3, R: Fn(Vec3, Vec3, Vec3) -> Vec3 {
    &&& iterates.len() > 0
    &&& iterates[0] == emissions(patches)
    &&& forall|k: int|
        0 <= k < iterates.len() - 1 ==> swept(
            gather,
            relight,
            patches,
            ff,
            iterates[k],
            #[trigger] iterates[k + 1],
        )
}

fn gather_light<G>(ff: &[u32], b: &Vec<Vec3>, i: usize, gather: &G) -> (r: Vec3) where
    G: Fn(Vec3, (u32, Vec3)) -> Vec3,

    requires
        i < b@.len(),
        ff@.len() == b@.len() * b@.len(),
        forall|a: Vec3, f: (u32, Vec3)| gather.requires((a, f)),
    ensures
        folds_to(*gather, zero3(), incoming(ff@, b@, i as int), r),
{
    let n: usize = b.len();
    let total: usize = ff.len();
    let ghost items = incoming(ff@, b@, i as int);
    proof {
        assert(0 <= i * n && i * n + n <= n * n) by (nonlinear_arith)
            requires
                0 <= i < n,
        ;
        lemma_folds_to_empty::<Vec3, (u32, Vec3), G>(*gather, zero3());
        assert(items.take(0) =~= Seq::<(u32, Vec3)>::empty());
    }
    let row_start: usize = i * n;
    let mut light = Vec3 { x: ZERO, y: ZERO, z: ZERO };
    let mut j: usize = 0;
    while j < n
        invariant
            j <= n,
            n == b@.len(),
            total == ff@.len(),
            row_start == i * n,
            row_start + n <= total,
            items == incoming(ff@, b@, i as int),
            forall|a: Vec3, f: (u32, Vec3)| gather.requires((a, f)),
            folds_to(*gather, zero3(), items.take(j as int), light),
        decreases n - j,
    {
        let item: (u32, Vec3) = (ff[row_start + j], b[j]);
        let next = gather(light, item);
        proof {
            assert(item == items[j as int]);
            lemma_folds_to_push(*gather, zero3(), items.take(j as int), light, item, next);
            assert(items.take(j as int).push(item) =~= items.take(j + 1));
        }
        light = next;
        j += 1;
    }
    assert(items.take(n as int) =~= items);
    light
}

fn jacobi_sweep<G, R>(
    patches: &[ScenePatch],
    ff: &[u32],
    b: &Vec<Vec3>,
    gather: &G,
    relight: &R,
) -> (r: Vec<Vec3>) where
    G: Fn(Vec3, (u32, Vec3)) -> Vec3,
    R: Fn(Vec3, Vec3, Vec3) -> Vec3,

    requires
        b@.len() == patches@.len(),
        ff@.len() == patches@.len() * patches@.len(),
        forall|a: Vec3, f: (u32, Vec3)| gather.requires((a, f)),
        forall|e: Vec3, rho: Vec3, g: Vec3| relight.requires((e, rho, g)),
    ensures
        swept(*gather, *relight, patches@, ff@, b@, r@),
{
    let mut next: Vec<Vec3> = Vec::new();
    let mut i: usize = 0;
    while i < patches.len()
        invariant
            i <= patches@.len(),
            b@.len() == patches@.len(),
            ff@.len() == patches@.len() * patches@.len(),
            forall|a: Vec3, f: (u32, Vec3)| gather.requires((a, f)),
            forall|e: Vec3, rho: Vec3, g: Vec3| relight.requires((e, rho, g)),
            next@.len() == i,
            forall|k: int|
                0 <= k < i ==> relit(
                    *gather,
                    *relight,
                    patches@,
                    ff@,
                    b@,
                    k,
                    #[trigger] next@[k],
                ),
        decreases patches@.len() - i,
    {
        let light = gather_light(ff, b, i, gather);
        let out = relight(patches[i].emission, patches[i].reflectance, light);
        assert(relit(*gather, *relight, patches@, ff@, b@, i as int, out));
        next.push(out);
        i += 1;
    }
    next
}

/// Whether an iteration is reported: every twentieth is, from the first on.
pub fn reports_iteration(iter: u32) -> (r: bool)
    ensures
        r == (iter % 20 == 0),
{
    iter % 20 == 0
}

/// Solves `B = E + rho * (F * B)` by Jacobi iteration and returns the radiosity
/// of every patch. `gather` adds one form factor times one radiosity to the
/// light so far; `relight` turns emission, reflectance and gathered light into a
/// radiosity; `report` hears of every twentieth iteration, and of no other.
pub fn solve_radiosity<G, R, P>(
    patches: &[ScenePatch],
    ff: &[u32],
    iterations: u32,
    gather: G,
    relight: R,
    report: P,
) -> (r: Vec<Vec3>) where
    G: Fn(Vec3, (u32, Vec3)) -> Vec3,
    R: Fn(Vec3, Vec3, Vec3) -> Vec3,
    P: Fn(u32),

    requires
        ff@.len() == patches@.len() * patches@.len(),
        forall|a: Vec3, f: (u32, Vec3)| gather.requires((a, f)),
        forall|e: Vec3, rho: Vec3, g: Vec3| relight.requires((e, rho, g)),
        forall|k: u32| k < iterations && k % 20 == 0 ==> report.requires((k,)),
    ensures
        forall|k: u32| k < iterations && k % 20 == 0 ==> #[trigger] report.ensures((k,), ()),
        exists|iterates: Seq<Seq<Vec3>>| #[trigger]
            jacobi(gather, relight, patches@, ff@, iterates) && iterates.len() == iterations + 1
                && r@ == iterates.last(),
{
    let mut b: Vec<Vec3> = Vec::new();
    let mut i: usize = 0;
    while i < patches.len()
        invariant
            i <= patches@.len(),
            b@ =~= emissions(patches@).take(i as int),
        decreases patches@.len() - i,
    {
        b.push(patches[i].emission);
        i += 1;
    }
    let ghost mut iterates: Seq<Seq<Vec3>> = seq![b@];
    assert(b@ =~= emissions(patches@));
    let mut iter: u32 = 0;
    while iter < iterations
        invariant
            iter <= iterations,
            ff@.len() == patches@.len() * patches@.len(),
            forall|a: Vec3, f: (u32, Vec3)| gather.requires((a, f)),
            forall|e: Vec3, rho: Vec3, g: Vec3| relight.requires((e, rho, g)),
            forall|k: u32| k < iterations && k % 20 == 0 ==> report.requires((k,)),
            forall|k: u32| k < iter && k % 20 == 0 ==> #[trigger] report.ensures((k,), ()),
            b@.len() == patches@.len(),
            jacobi(gather, relight, patches@, ff@, iterates),
            iterates.len() == iter + 1,
            b@ == iterates.last(),
        decreases iterations - iter,
    {
        let next = jacobi_sweep(patches, ff, &b, &gather, &relight);
        proof {
            let longer = iterates.push(next@);
            assert forall|k: int| 0 <= k < longer.len() - 1 implies swept(
                gather,
                relight,
                patches@,
                ff@,
                longer[k],
                #[trigger] longer[k + 1],
            ) by {
                if k < iterates.len() - 1 {
                    assert(longer[k + 1] == iterates[k + 1]);
                }
            }
            iterates = longer;
        }
        b = next;
        if reports_iteration(iter) {
            report(iter);
        }
        iter += 1;
    }
    b
}

/// Whether `relight` has one outcome per argument list.
pub open spec fn relights_functionally<R: Fn(Vec3, Vec3, Vec3) -> Vec3>(relight: R) -> bool {
    forall|e: Vec3, rho: Vec3, g: Vec3, r: Vec3, s: Vec3|
        #[trigger] relight.ensures((e, rho, g), r) && #[trigger] relight.ensures((e, rho, g), s)
            ==> r == s
}

/// The solution is determined: with arithmetic of one outcome, two solves of the
/// same scene agree at every iteration that both reach.
pub proof fn law_solution_determined<G, R>(
    gather: G,
    relight: R,
    patches: Seq<ScenePatch>,
    ff: Seq<u32>,
    one: Seq<Seq<Vec3>>,
    other: Seq<Seq<Vec3>>,
    k: int,
) where G: Fn(Vec3, (u32, Vec3)) -> Vec3, R: Fn(Vec3, Vec3, Vec3) -> Vec3
    requires
        functional(gather),
        relights_functionally(relight),
        jacobi(gather, relight, patches, ff, one),
        jacobi(gather, relight, patches, ff, other),
        0 <= k < one.len(),
        k < other.len(),
    ensures
        one[k] == other[k],
    decreases k,
{
    if k > 0 {
        law_solution_determined(gather, relight, patches, ff, one, other, k - 1);
        let b = one[k - 1];
        assert(swept(gather, relight, patches, ff, b, one[k - 1 + 1]));
        assert(swept(gather, relight, patches, ff, b, other[k - 1 + 1]));
        assert forall|i: int| 0 <= i < patches.len() implies one[k][i] == other[k][i] by {
            let (r, s) = (one[k][i], other[k][i]);
            assert(relit(gather, relight, patches, ff, b, i, r));
            assert(relit(gather, relight, patches, ff, b, i, s));
            let x = choose|light: Vec3| #[trigger]
                folds_to(gather, zero3(), incoming(ff, b, i), light) && relight.ensures(
                    (patches[i].emission, patches[i].reflectance, light),
                    r,
                );
            let y = choose|light: Vec3| #[trigger]
                folds_to(gather, zero3(), incoming(ff, b, i), light) && relight.ensures(
                    (patches[i].emission, patches[i].reflectance, light),
                    s,
                );
            law_fold_unique(gather, zero3(), incoming(ff, b, i), x, y);
        }
        assert(one[k] =~= other[k]);
    }
}

/// Componentwise `<=`.
pub open spec fn le3(a: Vec3, b: Vec3) -> bool {
    le(a.x, b.x) && le(a.y, b.y) && le(a.z, b.z)
}

/// Whether all three components are finite.
pub open spec fn finite3(a: Vec3) -> bool {
    finite(a.x) && finite(a.y) && finite(a.z)
}

/// Whether all three components are finite and not negative.
pub open spec fn amounts(a: Vec3) -> bool {
    finite3(a) && le3(zero3(), a)
}

/// Whether gathering keeps the order of light: from amounts it never makes less
/// than nothing, and of more light it never makes less.
pub open spec fn gather_keeps_order<G: Fn(Vec3, (u32, Vec3)) -> Vec3>(gather: G) -> bool {
    forall|a: Vec3, c: Vec3, f: u32, b: Vec3, d: Vec3, r: Vec3, s: Vec3|
        le3(zero3(), a) && le3(a, c) && amount(f) && amounts(b) && le3(b, d) && finite3(d)
            && #[trigger] gather.ensures((a, (f, b)), r) && #[trigger] gather.ensures(
            (c, (f, d)),
            s,
        ) ==> le3(zero3(), r) && le3(r, s)
}

/// Whether relighting keeps the order of light as long as it does not overflow: it
/// never takes from the emission, and of more light it never makes less.
pub open spec fn relight_keeps_order<R: Fn(Vec3, Vec3, Vec3) -> Vec3>(relight: R) -> bool {
    forall|e: Vec3, rho: Vec3, g: Vec3, h: Vec3, r: Vec3, s: Vec3|
        amounts(e) && amounts(rho) && le3(zero3(), g) && le3(g, h) && finite3(r) && finite3(s)
            && #[trigger] relight.ensures((e, rho, g), r) && #[trigger] relight.ensures(
            (e, rho, h),
            s,
        ) ==> le3(e, r) && le3(r, s)
}

proof fn lemma_gathered_order<G: Fn(Vec3, (u32, Vec3)) -> Vec3>(
    gather: G,
    items: Seq<(u32, Vec3)>,
    brighter: Seq<(u32, Vec3)>,
    t: Seq<Vec3>,
    u: Seq<Vec3>,
    k: int,
)
    requires
        gather_keeps_order(gather),
        folds(gather, zero3(), items, t),
        folds(gather, zero3(), brighter, u),
        items.len() == brighter.len(),
        forall|j: int|
            0 <= j < items.len() ==> (#[trigger] items[j]).0 == brighter[j].0 && amount(
                items[j].0,
            ) && amounts(items[j].1) && le3(items[j].1, brighter[j].1) && finite3(brighter[j].1),
        0 <= k <= items.len(),
    ensures
        le3(zero3(), t[k]),
        le3(t[k], u[k]),
    decreases k,
{
    if k > 0 {
        lemma_gathered_order(gather, items, brighter, t, u, k - 1);
        let j = k - 1;
        assert(items[j].0 == brighter[j].0);
        assert(gather.ensures((t[j], items[j]), t[j + 1]));
        assert(gather.ensures((u[j], brighter[j]), u[j + 1]));
        assert(items[j] == (items[j].0, items[j].1));
        assert(brighter[j] == (items[j].0, brighter[j].1));
    }
}

/// Whether a scene and its matrix hold nothing but amounts.
pub open spec fn all_amounts(patches: Seq<ScenePatch>, ff: Seq<u32>) -> bool {
    &&& forall|i: int|
        0 <= i < patches.len() ==> amounts((#[trigger] patches[i]).emission) && amounts(
            patches[i].reflectance,
        )
    &&& forall|c: int| 0 <= c < patches.len() * patches.len() ==> amount(#[trigger] ff[c])
}

/// Every further iteration only adds light: with arithmetic that keeps the order,
/// and without overflow, no radiosity is below the emission or below what an
/// earlier iteration gave.
pub proof fn law_iterations_add_light<G, R>(
    gather: G,
    relight: R,
    patches: Seq<ScenePatch>,
    ff: Seq<u32>,
    iterates: Seq<Seq<Vec3>>,
    k: int,
    l: int,
    i: int,
) where G: Fn(Vec3, (u32, Vec3)) -> Vec3, R: Fn(Vec3, Vec3, Vec3) -> Vec3
    requires
        gather_keeps_order(gather),
        relight_keeps_order(relight),
        all_amounts(patches, ff),
        jacobi(gather, relight, patches, ff, iterates),
        forall|m: int, j: int|
            0 <= m < iterates.len() && 0 <= j < patches.len() ==> finite3(
                #[trigger] iterates[m][j],
            ),
        0 <= k <= l < iterates.len(),
        0 <= i < patches.len(),
    ensures
        le3(patches[i].emission, iterates[k][i]),
        le3(iterates[k][i], iterates[l][i]),
    decreases l - k,
{
    lemma_above_emission(gather, relight, patches, ff, iterates, k, i);
    assert(finite3(iterates[k][i]));
    if k < l {
        law_iterations_add_light(gather, relight, patches, ff, iterates, k, l - 1, i);
        lemma_step_adds_light(gather, relight, patches, ff, iterates, l - 1, i);
    }
}

proof fn lemma_above_emission<G, R>(
    gather: G,
    relight: R,
    patches: Seq<ScenePatch>,
    ff: Seq<u32>,
    iterates: Seq<Seq<Vec3>>,
    k: int,
    i: int,
) where G: Fn(Vec3, (u32, Vec3)) -> Vec3, R: Fn(Vec3, Vec3, Vec3) -> Vec3
    requires
        gather_keeps_order(gather),
        relight_keeps_order(relight),
        all_amounts(patches, ff),
        jacobi(gather, relight, patches, ff, iterates),
        forall|m: int, j: int|
            0 <= m < iterates.len() && 0 <= j < patches.len() ==> finite3(
                #[trigger] iterates[m][j],
            ),
        0 <= k < iterates.len(),
        0 <= i < patches.len(),
    ensures
        le3(patches[i].emission, iterates[k][i]),
        amounts(iterates[k][i]),
    decreases k,
{
    assert(finite3(iterates[k][i]));
    if k > 0 {
        let b = iterates[k - 1];
        assert(swept(gather, relight, patches, ff, b, iterates[k - 1 + 1]));
        let r = iterates[k][i];
        assert(relit(gather, relight, patches, ff, b, i, r));
        let light = choose|light: Vec3| #[trigger]
            folds_to(gather, zero3(), incoming(ff, b, i), light) && relight.ensures(
                (patches[i].emission, patches[i].reflectance, light),
                r,
            );
        let items = incoming(ff, b, i);
        let t = choose|t: Seq<Vec3>| #[trigger]
            folds(gather, zero3(), items, t) && t.last() == light;
        lemma_iterate_len(gather, relight, patches, ff, iterates, k - 1);
        assert forall|j: int| 0 <= j < items.len() implies amount((#[trigger] items[j]).0) && amounts(
            items[j].1,
        ) && le3(items[j].1, items[j].1) && finite3(items[j].1) by {
            lemma_above_emission(gather, relight, patches, ff, iterates, k - 1, j);
            lemma_cell_inside(patches.len() as int, i, j);
        }
        lemma_gathered_order(gather, items, items, t, t, items.len() as int);
    }
}

proof fn lemma_cell_inside(n: int, i: int, j: int)
    requires
        0 <= i < n,
        0 <= j < n,
    ensures
        0 <= cell(n, i, j) < n * n,
{
    assert(0 <= i * n + j < n * n) by (nonlinear_arith)
        requires
            0 <= i < n,
            0 <= j < n,
    ;
}

proof fn lemma_iterate_len<G, R>(
    gather: G,
    relight: R,
    patches: Seq<ScenePatch>,
    ff: Seq<u32>,
    iterates: Seq<Seq<Vec3>>,
    k: int,
) where G: Fn(Vec3, (u32, Vec3)) -> Vec3, R: Fn(Vec3, Vec3, Vec3) -> Vec3
    requires
        jacobi(gather, relight, patches, ff, iterates),
        0 <= k < iterates.len(),
    ensures
        iterates[k].len() == patches.len(),
{
    if k > 0 {
        assert(swept(gather, relight, patches, ff, iterates[k - 1], iterates[k - 1 + 1]));
    }
}

proof fn lemma_step_adds_light<G, R>(
    gather: G,
    relight: R,
    patches: Seq<ScenePatch>,
    ff: Seq<u32>,
    iterates: Seq<Seq<Vec3>>,
    k: int,
    i: int,
) where G: Fn(Vec3, (u32, Vec3)) -> Vec3, R: Fn(Vec3, Vec3, Vec3) -> Vec3
    requires
        gather_keeps_order(gather),
        relight_keeps_order(relight),
        all_amounts(patches, ff),
        jacobi(gather, relight, patches, ff, iterates),
        forall|m: int, j: int|
            0 <= m < iterates.len() && 0 <= j < patches.len() ==> finite3(
                #[trigger] iterates[m][j],
            ),
        0 <= k < iterates.len() - 1,
        0 <= i < patches.len(),
    ensures
        le3(iterates[k][i], iterates[k + 1][i]),
    decreases k,
{
    if k == 0 {
        lemma_above_emission(gather, relight, patches, ff, iterates, 1, i);
    } else {
        let (b, c) = (iterates[k - 1], iterates[k]);
        let (r, s) = (iterates[k][i], iterates[k + 1][i]);
        assert(finite3(r) && finite3(s));
        assert(swept(gather, relight, patches, ff, b, iterates[k - 1 + 1]));
        assert(swept(gather, relight, patches, ff, c, iterates[k + 1]));
        assert(relit(gather, relight, patches, ff, b, i, r));
        assert(relit(gather, relight, patches, ff, c, i, s));
        let g = choose|light: Vec3| #[trigger]
            folds_to(gather, zero3(), incoming(ff, b, i), light) && relight.ensures(
                (patches[i].emission, patches[i].reflectance, light),
                r,
            );
        let h = choose|light: Vec3| #[trigger]
            folds_to(gather, zero3(), incoming(ff, c, i), light) && relight.ensures(
                (patches[i].emission, patches[i].reflectance, light),
                s,
            );
        let (items, brighter) = (incoming(ff, b, i), incoming(ff, c, i));
        let t = choose|t: Seq<Vec3>| #[trigger] folds(gather, zero3(), items, t) && t.last() == g;
        let u = choose|u: Seq<Vec3>| #[trigger]
            folds(gather, zero3(), brighter, u) && u.last() == h;
        lemma_iterate_len(gather, relight, patches, ff, iterates, k - 1);
        lemma_iterate_len(gather, relight, patches, ff, iterates, k);
        assert forall|j: int| 0 <= j < items.len() implies (#[trigger] items[j]).0 == brighter[j].0
            && amount(items[j].0) && amounts(items[j].1) && le3(items[j].1, brighter[j].1)
            && finite3(brighter[j].1) by {
            lemma_above_emission(gather, relight, patches, ff, iterates, k - 1, j);
            lemma_step_adds_light(gather, relight, patches, ff, iterates, k - 1, j);
            lemma_cell_inside(patches.len() as int, i, j);
            assert(finite3(iterates[k][j]));
        }
        lemma_gathered_order(gather, items, brighter, t, u, items.len() as int);
    }
}

/// Whether every step of gathering the light of patch `i` from `b` lies in a range.
pub open spec fn gathers_in_range<G: Fn(Vec3, (u32, Vec3)) -> Vec3>(
    gather: G,
    in_range: spec_fn(Vec3, (u32, Vec3)) -> bool,
    ff: Seq<u32>,
    b: Seq<Vec3>,
    i: int,
) -> bool {
    forall|t: Seq<Vec3>, k: int|
        #![trigger folds(gather, zero3(), incoming(ff, b, i), t), t[k]]
        folds(gather, zero3(), incoming(ff, b, i), t) && 0 <= k < b.len() ==> in_range(
            t[k],
            incoming(ff, b, i)[k],
        )
}

/// Whether gathering respects a way to mix two lights, on steps that lie in a range:
/// what is gathered of a mixture is the mixture of what is gathered.
pub open spec fn gather_mixes<G: Fn(Vec3, (u32, Vec3)) -> Vec3>(
    gather: G,
    mix: spec_fn(Vec3, Vec3) -> Vec3,
    in_range: spec_fn(Vec3, (u32, Vec3)) -> bool,
) -> bool {
    forall|a: Vec3, b: Vec3, f: u32, x: Vec3, y: Vec3, r: Vec3, s: Vec3, t: Vec3|
        in_range(a, (f, x)) && in_range(b, (f, y)) && #[trigger] gather.ensures((a, (f, x)), r)
            && #[trigger] gather.ensures((b, (f, y)), s) && #[trigger] gather.ensures(
            (mix(a, b), (f, mix(x, y))),
            t,
        ) ==> t == mix(r, s)
}

/// Whether relighting respects a way to mix two lights.
pub open spec fn relight_mixes<R: Fn(Vec3, Vec3, Vec3) -> Vec3>(
    relight: R,
    mix: spec_fn(Vec3, Vec3) -> Vec3,
    in_range: spec_fn(Vec3, Vec3, Vec3) -> bool,
) -> bool {
    forall|d: Vec3, e: Vec3, rho: Vec3, g: Vec3, h: Vec3, r: Vec3, s: Vec3, t: Vec3|
        in_range(d, rho, g) && in_range(e, rho, h) && #[trigger] relight.ensures((d, rho, g), r)
            && #[trigger] relight.ensures((e, rho, h), s) && #[trigger] relight.ensures(
            (mix(d, e), rho, mix(g, h)),
            t,
        ) ==> t == mix(r, s)
}

/// Whether every step of a solve lies in the given ranges.
pub open spec fn solves_in_range<G, R>(
    gather: G,
    relight: R,
    gathers: spec_fn(Vec3, (u32, Vec3)) -> bool,
    relights: spec_fn(Vec3, Vec3, Vec3) -> bool,
    patches: Seq<ScenePatch>,
    ff: Seq<u32>,
    iterates: Seq<Seq<Vec3>>,
) -> bool where G: Fn(Vec3, (u32, Vec3)) -> Vec3, R: Fn(Vec3, Vec3, Vec3) -> Vec3 {
    &&& forall|k: int, i: int|
        0 <= k < iterates.len() - 1 && 0 <= i < patches.len() ==> #[trigger] gathers_in_range(
            gather,
            gathers,
            ff,
            iterates[k],
            i,
        )
    &&& forall|k: int, i: int, light: Vec3|
        0 <= k < iterates.len() - 1 && 0 <= i < patches.len() && #[trigger] folds_to(
            gather,
            zero3(),
            incoming(ff, iterates[k], i),
            light,
        ) ==> relights(patches[i].emission, patches[i].reflectance, light)
}

/// Whether `mixed` is lit by a mixture of the emissions of two scenes that are
/// otherwise the same.
pub open spec fn emissions_mixed(
    mix: spec_fn(Vec3, Vec3) -> Vec3,
    one: Seq<ScenePatch>,
    other: Seq<ScenePatch>,
    mixed: Seq<ScenePatch>,
) -> bool {
    &&& one.len() == other.len()
    &&& one.len() == mixed.len()
    &&& forall|i: int|
        0 <= i < one.len() ==> (#[trigger] mixed[i]).emission == mix(
            one[i].emission,
            other[i].emission,
        ) && mixed[i].reflectance == one[i].reflectance && mixed[i].reflectance
            == other[i].reflectance
}

proof fn lemma_gathered_mixes<G: Fn(Vec3, (u32, Vec3)) -> Vec3>(
    gather: G,
    mix: spec_fn(Vec3, Vec3) -> Vec3,
    in_range: spec_fn(Vec3, (u32, Vec3)) -> bool,
    ff: Seq<u32>,
    one: Seq<Vec3>,
    other: Seq<Vec3>,
    mixed: Seq<Vec3>,
    i: int,
    t: Seq<Vec3>,
    u: Seq<Vec3>,
    v: Seq<Vec3>,
    k: int,
)
    requires
        mix(zero3(), zero3()) == zero3(),
        gather_mixes(gather, mix, in_range),
        gathers_in_range(gather, in_range, ff, one, i),
        gathers_in_range(gather, in_range, ff, other, i),
        one.len() == other.len(),
        one.len() == mixed.len(),
        forall|j: int| 0 <= j < one.len() ==> #[trigger] mixed[j] == mix(one[j], other[j]),
        folds(gather, zero3(), incoming(ff, one, i), t),
        folds(gather, zero3(), incoming(ff, other, i), u),
        folds(gather, zero3(), incoming(ff, mixed, i), v),
        0 <= k <= one.len(),
    ensures
        v[k] == mix(t[k], u[k]),
    decreases k,
{
    if k > 0 {
        let j = k - 1;
        lemma_gathered_mixes(
            gather,
            mix,
            in_range,
            ff,
            one,
            other,
            mixed,
            i,
            t,
            u,
            v,
            j,
        );
        let f = ff[cell(one.len() as int, i, j)];
        assert(incoming(ff, one, i)[j] == (f, one[j]));
        assert(incoming(ff, other, i)[j] == (f, other[j]));
        assert(incoming(ff, mixed, i)[j] == (f, mix(one[j], other[j])));
        assert(gather.ensures((t[j], incoming(ff, one, i)[j]), t[j + 1]));
        assert(gather.ensures((u[j], incoming(ff, other, i)[j]), u[j + 1]));
        assert(gather.ensures((v[j], incoming(ff, mixed, i)[j]), v[j + 1]));
        assert(in_range(t[j], incoming(ff, one, i)[j]));
        assert(in_range(u[j], incoming(ff, other, i)[j]));
    }
}

/// The solution is linear in the emission: with arithmetic that respects a way to
/// mix lights, on steps that lie in its range, the solution for mixed emissions is
/// the mixture of the solutions, at every iteration.
pub proof fn law_solution_linear<G, R>(
    gather: G,
    relight: R,
    mix: spec_fn(Vec3, Vec3) -> Vec3,
    gathers: spec_fn(Vec3, (u32, Vec3)) -> bool,
    relights: spec_fn(Vec3, Vec3, Vec3) -> bool,
    ff: Seq<u32>,
    one: Seq<ScenePatch>,
    other: Seq<ScenePatch>,
    mixed: Seq<ScenePatch>,
    a: Seq<Seq<Vec3>>,
    b: Seq<Seq<Vec3>>,
    c: Seq<Seq<Vec3>>,
    k: int,
) where G: Fn(Vec3, (u32, Vec3)) -> Vec3, R: Fn(Vec3, Vec3, Vec3) -> Vec3
    requires
        mix(zero3(), zero3()) == zero3(),
        gather_mixes(gather, mix, gathers),
        relight_mixes(relight, mix, relights),
        emissions_mixed(mix, one, other, mixed),
        jacobi(gather, relight, one, ff, a),
        jacobi(gather, relight, other, ff, b),
        jacobi(gather, relight, mixed, ff, c),
        solves_in_range(gather, relight, gathers, relights, one, ff, a),
        solves_in_range(gather, relight, gathers, relights, other, ff, b),
        0 <= k < a.len(),
        k < b.len(),
        k < c.len(),
    ensures
        c[k].len() == a[k].len(),
        forall|i: int| 0 <= i < one.len() ==> #[trigger] c[k][i] == mix(a[k][i], b[k][i]),
    decreases k,
{
    lemma_iterate_len(gather, relight, one, ff, a, k);
    lemma_iterate_len(gather, relight, other, ff, b, k);
    lemma_iterate_len(gather, relight, mixed, ff, c, k);
    if k > 0 {
        let (x, y, z) = (a[k - 1], b[k - 1], c[k - 1]);
        law_solution_linear(
            gather,
            relight,
            mix,
            gathers,
            relights,
            ff,
            one,
            other,
            mixed,
            a,
            b,
            c,
            k - 1,
        );
        lemma_iterate_len(gather, relight, one, ff, a, k - 1);
        lemma_iterate_len(gather, relight, other, ff, b, k - 1);
        lemma_iterate_len(gather, relight, mixed, ff, c, k - 1);
        assert(swept(gather, relight, one, ff, x, a[k - 1 + 1]));
        assert(swept(gather, relight, other, ff, y, b[k - 1 + 1]));
        assert(swept(gather, relight, mixed, ff, z, c[k - 1 + 1]));
        assert forall|i: int| 0 <= i < one.len() implies #[trigger] c[k][i] == mix(
            a[k][i],
            b[k][i],
        ) by {
            let (p, q, r) = (a[k][i], b[k][i], c[k][i]);
            assert(relit(gather, relight, one, ff, x, i, p));
            assert(relit(gather, relight, other, ff, y, i, q));
            assert(relit(gather, relight, mixed, ff, z, i, r));
            let g = choose|light: Vec3| #[trigger]
                folds_to(gather, zero3(), incoming(ff, x, i), light) && relight.ensures(
                    (one[i].emission, one[i].reflectance, light),
                    p,
                );
            let h = choose|light: Vec3| #[trigger]
                folds_to(gather, zero3(), incoming(ff, y, i), light) && relight.ensures(
                    (other[i].emission, other[i].reflectance, light),
                    q,
                );
            let l = choose|light: Vec3| #[trigger]
                folds_to(gather, zero3(), incoming(ff, z, i), light) && relight.ensures(
                    (mixed[i].emission, mixed[i].reflectance, light),
                    r,
                );
            let t = choose|t: Seq<Vec3>| #[trigger]
                folds(gather, zero3(), incoming(ff, x, i), t) && t.last() == g;
            let u = choose|u: Seq<Vec3>| #[trigger]
                folds(gather, zero3(), incoming(ff, y, i), u) && u.last() == h;
            let v = choose|v: Seq<Vec3>| #[trigger]
                folds(gather, zero3(), incoming(ff, z, i), v) && v.last() == l;
            assert(gathers_in_range(gather, gathers, ff, a[k - 1], i));
            assert(gathers_in_range(gather, gathers, ff, b[k - 1], i));
            lemma_gathered_mixes(
                gather,
                mix,
                gathers,
                ff,
                x,
                y,
                z,
                i,
                t,
                u,
                v,
                x.len() as int,
            );
            assert(l == mix(g, h));
            assert(relights(one[i].emission, one[i].reflectance, g));
            assert(relights(other[i].emission, other[i].reflectance, h));
            assert(mixed[i].emission == mix(one[i].emission, other[i].emission));
        }
    }
}

/// Scaling the emission scales the solution: with arithmetic that respects a way to
/// scale lights, such as doubling them, on steps that lie in its range.
pub proof fn law_solution_scales<G, R>(
    gather: G,
    relight: R,
    scale: spec_fn(Vec3) -> Vec3,
    gathers: spec_fn(Vec3, (u32, Vec3)) -> bool,
    relights: spec_fn(Vec3, Vec3, Vec3) -> bool,
    ff: Seq<u32>,
    patches: Seq<ScenePatch>,
    scaled: Seq<ScenePatch>,
    a: Seq<Seq<Vec3>>,
    b: Seq<Seq<Vec3>>,
    k: int,
    i: int,
) where G: Fn(Vec3, (u32, Vec3)) -> Vec3, R: Fn(Vec3, Vec3, Vec3) -> Vec3
    requires
        scale(zero3()) == zero3(),
        gather_mixes(gather, |x: Vec3, y: Vec3| scale(x), gathers),
        relight_mixes(relight, |x: Vec3, y: Vec3| scale(x), relights),
        emissions_mixed(|x: Vec3, y: Vec3| scale(x), patches, patches, scaled),
        jacobi(gather, relight, patches, ff, a),
        jacobi(gather, relight, scaled, ff, b),
        solves_in_range(gather, relight, gathers, relights, patches, ff, a),
        0 <= k < a.len(),
        k < b.len(),
        0 <= i < patches.len(),
    ensures
        b[k][i] == scale(a[k][i]),
{
    let mix = |x: Vec3, y: Vec3| scale(x);
    law_solution_linear(
        gather,
        relight,
        mix,
        gathers,
        relights,
        ff,
        patches,
        patches,
        scaled,
        a,
        a,
        b,
        k,
    );
    assert(b[k][i] == mix(a[k][i], a[k][i]));
}

// ---------------------------------------------------------------------------
// Form-factor launch
// ---------------------------------------------------------------------------

/// What a form-factor launch uploads and allocates.
pub struct FormFactorJob {
    pub n_patches: u32,
    pub n_occluders: u32,
    /// The patch array.
    pub patch_bytes: Vec<u8>,
    /// The occluder block, if there are occluders.
    pub occluder_bytes: Option<Vec<u8>>,
    /// Size of the matrix that the kernel fills.
    pub matrix_bytes: u64,
    /// Size of the trace buffer, if the launch is traced.
    pub trace_bytes: Option<u64>,
}

/// Whether a scene fits a launch on this machine.
pub open spec fn launchable(n_patches: int, n_occluders: int) -> bool {
    &&& n_patches <= u32::MAX
    &&& n_occluders <= u32::MAX
    &&& 32 * n_patches <= usize::MAX
    &&& 4 * (n_patches * n_patches) <= usize::MAX
    &&& 36 * padded(n_occluders) <= usize::MAX
}

/// The device descriptors of all patches.
pub open spec fn descriptors(patches: Seq<ScenePatch>) -> Seq<Patch> {
    patches.map_values(|p: ScenePatch| p.abi)
}

impl FormFactorJob {
    /// Whether this is the job of a scene.
    pub open spec fn of(self, scene: Scene, trace: bool) -> bool {
        &&& self.n_patches == scene.patches@.len()
        &&& self.n_occluders == scene.occluders@.len()
        &&& self.patch_bytes@ == word_bytes(patch_array_words(descriptors(scene.patches@)))
        &&& match self.occluder_bytes {
            Some(bytes) => scene.occluders@.len() > 0 && exists|soa: Seq<u32>| #[trigger]
                packed(soa, scene.occluders@) && bytes@ == word_bytes(soa),
            None => scene.occluders@.len() == 0,
        }
        &&& self.matrix_bytes == 4 * (scene.patches@.len() * scene.patches@.len())
        &&& self.trace_bytes == (if trace {
            Some(TRACE_BUFFER_BYTES)
        } else {
            None
        })
    }

    /// Lays out a scene for the form-factor kernel.
    pub fn prepare(scene: &Scene, trace: bool) -> (r: FormFactorJob)
        requires
            launchable(scene.patches@.len() as int, scene.occluders@.len() as int),
        ensures
            r.of(*scene, trace),
    {
        let n: usize = scene.patches.len();
        let mut abi: Vec<Patch> = Vec::new();
        let mut i: usize = 0;
        while i < n
            invariant
                i <= n,
                n == scene.patches@.len(),
                abi@ =~= descriptors(scene.patches@).take(i as int),
            decreases n - i,
        {
            abi.push(scene.patches[i].abi);
            i += 1;
        }
        assert(abi@ =~= descriptors(scene.patches@));
        let patch_bytes: Vec<u8> = patch_array_bytes(abi.as_slice());
        let n_occ: usize = scene.occluders.len();
        let occluder_bytes: Option<Vec<u8>> = if n_occ == 0 {
            None
        } else {
            let soa: Vec<u32> = pack_occluders(scene.occluders.as_slice());
            let bytes = pod_as_bytes(soa.as_slice());
            assert(packed(soa@, scene.occluders@));
            Some(bytes)
        };
        proof {
            assert(n * n <= 4 * (n * n) && 0 <= n * n) by (nonlinear_arith)
                requires
                    n >= 0,
            ;
        }
        let matrix_bytes: u64 = (n * n * 4) as u64;
        FormFactorJob {
            n_patches: n as u32,
            n_occluders: n_occ as u32,
            patch_bytes,
            occluder_bytes,
            matrix_bytes,
            trace_bytes: if trace { Some(TRACE_BUFFER_BYTES) } else { None },
        }
    }

    /// The launch arguments, once the buffers have their addresses; the occluder
    /// block has one exactly if there are occluders.
    pub fn args(
        &self,
        patches_addr: u64,
        ff_matrix_addr: u64,
        occluders: Option<u64>,
        n_harts: u32,
    ) -> (r: FormFactorArgs)
        requires
            occluders is Some <==> self.n_occluders > 0,
        ensures
            r.patches_addr == patches_addr,
            r.ff_matrix_addr == ff_matrix_addr,
            r.occluder_addr == (match occluders {
                Some(addr) => addr,
                None => 0,
            }),
            r.n_patches == self.n_patches,
            r.n_harts == n_harts,
            r.n_occluders == self.n_occluders,
            r._pad == 0,
    {
        let occluder_addr: u64 = match occluders {
            Some(addr) => addr,
            None => 0,
        };
        FormFactorArgs {
            patches_addr,
            ff_matrix_addr,
            occluder_addr,
            n_patches: self.n_patches,
            n_harts,
            n_occluders: self.n_occluders,
            _pad: 0,
        }
    }
}

/// The form-factor matrix in the downloaded bytes: the little-endian words, each
/// row normalised so that it conserves energy.
pub fn form_factor_matrix<A, D>(raw: &[u8], n: usize, plus: A, divide: D) -> (r: Vec<u32>) where
    A: Fn(u32, u32) -> u32,
    D: Fn(u32, u32) -> u32,

    requires
        n > 0,
        raw@.len() == 4 * (n * n),
        forall|a: u32, b: u32| plus.requires((a, b)),
        forall|a: u32, b: u32| divide.requires((a, b)),
    ensures
        r@.len() == n * n,
        rows_normalised(plus, divide, n as int, downloaded(raw@), r@),
{
    let words: Vec<u32> = words_from_bytes(raw);
    assert(words@ =~= downloaded(raw@));
    normalise_rows(words.as_slice(), n, plus, divide)
}

/// The words of downloaded bytes.
pub open spec fn downloaded(raw: Seq<u8>) -> Seq<u32> {
    Seq::new(raw.len() / 4, |i: int| word_at(raw, 4 * i) as u32)
}

/// Downloading gives back the words that were written, in either direction.
pub proof fn law_download_round_trip(words: Seq<u32>)
    ensures
        downloaded(word_bytes(words)) == words,
{
    assert forall|i: int| 0 <= i < words.len() implies downloaded(word_bytes(words))[i]
        == words[i] by {
        law_word_round_trip(words, i);
    }
    assert(downloaded(word_bytes(words)) =~= words);
}

/// The kernel finds in the uploaded block the occluders of the scene, and zeros
/// behind them.
pub proof fn law_occluders_read_back(soa: Seq<u32>, occluders: Seq<OccluderTriangle>, i: int)
    requires
        packed(soa, occluders),
        0 <= i < padded(occluders.len() as int),
    ensures
        occluder_at(downloaded(word_bytes(soa)), padded(occluders.len() as int), i) == (if i
            < occluders.len() {
            occluders[i]
        } else {
            zero_triangle()
        }),
{
    law_download_round_trip(soa);
}

// ---------------------------------------------------------------------------
// Render launch
// ---------------------------------------------------------------------------

/// What a render launch uploads and allocates.
pub struct RenderJob {
    pub n_patches: u32,
    pub n_verts: u32,
    pub width: u32,
    pub height: u32,
    pub white: u32,
    /// The triangles of the patches.
    pub geom_bytes: Vec<u8>,
    /// The radiosity of every vertex.
    pub vert_rad_bytes: Vec<u8>,
    /// The vertices of every patch.
    pub patch_vi_bytes: Vec<u8>,
    /// The camera parameters.
    pub camera_bytes: Vec<u8>,
    /// Size of the pixel buffer that the kernel fills.
    pub pixel_bytes: u64,
}

/// Whether `triples` hold the same indices as `verts`.
pub open spec fn narrowed(verts: Seq<PatchVerts>, triples: Seq<VertexTriple>) -> bool {
    &&& triples.len() == verts.len()
    &&& forall|i: int| 0 <= i < verts.len() ==> widened(#[trigger] triples[i]) == verts[i]
}

fn narrow(verts: &[PatchVerts], n_verts: usize) -> (r: Vec<VertexTriple>)
    requires
        vertices_known(verts@.len() as int, verts@, n_verts as int),
        n_verts <= u32::MAX,
    ensures
        narrowed(verts@, r@),
{
    let mut triples: Vec<VertexTriple> = Vec::new();
    let mut i: usize = 0;
    while i < verts.len()
        invariant
            i <= verts@.len(),
            vertices_known(verts@.len() as int, verts@, n_verts as int),
            n_verts <= u32::MAX,
            triples@.len() == i,
            forall|k: int| 0 <= k < i ==> widened(#[trigger] triples@[k]) == verts@[k],
        decreases verts@.len() - i,
    {
        let v: PatchVerts = verts[i];
        triples.push(VertexTriple { vi0: v.vi0 as u32, vi1: v.vi1 as u32, vi2: v.vi2 as u32 });
        i += 1;
    }
    triples
}

fn triple_array_bytes(triples: &[VertexTriple]) -> (r: Vec<u8>)
    requires
        triples@.len() * 12 <= usize::MAX,
    ensures
        r@ == word_bytes(triple_array_words(triples@)),
{
    let mut words: Vec<u32> = Vec::new();
    let mut i: usize = 0;
    while i < triples.len()
        invariant
            i <= triples@.len(),
            words@ =~= triple_array_words(triples@.take(i as int)),
        decreases triples@.len() - i,
    {
        let t: VertexTriple = triples[i];
        words.push(t.vi0);
        words.push(t.vi1);
        words.push(t.vi2);
        i += 1;
        proof {
            let longer = triple_array_words(triples@.take(i as int));
            assert forall|k: int| 0 <= k < longer.len() implies #[trigger] longer[k] == words@[k] by {
                if k < (i - 1) * 3 {
                    assert(triples@.take(i as int)[k / 3] == triples@.take(i - 1)[k / 3]);
                } else {
                    assert(k / 3 == i - 1);
                }
            }
        }
    }
    assert(triples@.take(triples@.len() as int) =~= triples@);
    pod_as_bytes(words.as_slice())
}

/// Whether a render fits a launch on this machine.
pub open spec fn renderable(n_patches: int, n_verts: int, width: int, height: int) -> bool {
    &&& n_patches <= u32::MAX
    &&& n_verts <= u32::MAX
    &&& 48 * n_patches <= usize::MAX
    &&& 12 * n_verts <= usize::MAX
    &&& 3 * (width * height) <= u64::MAX
}

impl RenderJob {
    /// Whether this is the job of rendering the given patches.
    pub open spec fn of(
        self,
        patches: Seq<ScenePatch>,
        vert_rad: Seq<Vec3>,
        verts: Seq<PatchVerts>,
        camera: Camera,
        aspect: u32,
        white: u32,
    ) -> bool {
        &&& self.n_patches == patches.len()
        &&& self.n_verts == vert_rad.len()
        &&& self.width == camera.width
        &&& self.height == camera.height
        &&& self.white == white
        &&& self.geom_bytes@ == word_bytes(
            geom_array_words(patches.map_values(|p: ScenePatch| geometry(p))),
        )
        &&& self.vert_rad_bytes@ == word_bytes(vec3_array_words(vert_rad))
        &&& exists|triples: Seq<VertexTriple>| #[trigger]
            narrowed(verts, triples) && self.patch_vi_bytes@ == word_bytes(
                triple_array_words(triples),
            )
        &&& self.camera_bytes@ == word_bytes(camera_words(camera, aspect))
        &&& self.pixel_bytes == 3 * (camera.width * camera.height)
    }

    /// Lays out patches, vertices and camera for the render kernel.
    pub fn prepare(
        patches: &[ScenePatch],
        vert_rad: &[Vec3],
        verts: &[PatchVerts],
        camera: &Camera,
        aspect: u32,
        white: u32,
    ) -> (r: RenderJob)
        requires
            renderable(
                patches@.len() as int,
                vert_rad@.len() as int,
                camera.width as int,
                camera.height as int,
            ),
            vertices_known(patches@.len() as int, verts@, vert_rad@.len() as int),
        ensures
            r.of(patches@, vert_rad@, verts@, *camera, aspect, white),
    {
        let n: usize = patches.len();
        let n_verts: usize = vert_rad.len();
        let geom: Vec<PatchGeom> = patch_geometry(patches);
        let geom_bytes = geom_array_bytes(geom.as_slice());
        let vert_rad_bytes = vec3_array_bytes(vert_rad);
        let triples: Vec<VertexTriple> = narrow(verts, n_verts);
        let patch_vi_bytes = triple_array_bytes(triples.as_slice());
        let words: [u32; 14] = [
            camera.eye.x,
            camera.eye.y,
            camera.eye.z,
            camera.forward.x,
            camera.forward.y,
            camera.forward.z,
            camera.right.x,
            camera.right.y,
            camera.right.z,
            camera.up.x,
            camera.up.y,
            camera.up.z,
            camera.tan_half_fov,
            aspect,
        ];
        let cam: &[u32] = words.as_slice();
        assert(cam@ =~= camera_words(*camera, aspect));
        let camera_bytes = pod_as_bytes(cam);
        proof {
            let (w, h) = (camera.width as int, camera.height as int);
            assert(0 <= w * h) by (nonlinear_arith)
                requires
                    w >= 0,
                    h >= 0,
            ;
        }
        let pixel_bytes: u64 = camera.width as u64 * camera.height as u64 * 3;
        RenderJob {
            n_patches: n as u32,
            n_verts: n_verts as u32,
            width: camera.width,
            height: camera.height,
            white,
            geom_bytes,
            vert_rad_bytes,
            patch_vi_bytes,
            camera_bytes,
            pixel_bytes,
        }
    }

    /// Lays out the render of a solution: welds the vertices, finds the white point
    /// and aims the default camera. `ratio` divides width by height; the other
    /// functions are those of the vertices and of the white point.
    pub fn plan<Q, A, P, M, L, R>(
        patches: &[ScenePatch],
        radiosities: &[Vec3],
        width: u32,
        height: u32,
        tan_half_fov: u32,
        quantize: Q,
        zero: A,
        plus: P,
        mean: M,
        luminance: L,
        ratio: R,
    ) -> (r: RenderJob) where
        Q: Fn(u32) -> i32,
        A: Copy,
        P: Fn(A, Vec3) -> A,
        M: Fn(A, usize) -> Vec3,
        L: Fn(Vec3) -> u32,
        R: Fn(u32, u32) -> u32,

        requires
            patches@.len() <= radiosities@.len(),
            renderable(
                patches@.len() as int,
                3 * patches@.len() as int,
                width as int,
                height as int,
            ),
            forall|x: u32| quantize.requires((x,)),
            forall|a: A, b: Vec3| plus.requires((a, b)),
            forall|a: A, n: usize| n > 0 ==> mean.requires((a, n)),
            forall|x: Vec3| luminance.requires((x,)),
            ratio.requires((width, height)),
        ensures
            exists|
                vert_rad: Seq<Vec3>,
                verts: Seq<PatchVerts>,
                luminances: Seq<u32>,
                aspect: u32,
            |
                #![trigger vertices_built(
                    quantize,
                    zero,
                    plus,
                    mean,
                    patches@,
                    radiosities@,
                    vert_rad,
                    verts,
                ), measured(luminance, radiosities@, luminances), ratio.ensures(
                    (width, height),
                    aspect,
                )]
                {
                    &&& vertices_built(
                        quantize,
                        zero,
                        plus,
                        mean,
                        patches@,
                        radiosities@,
                        vert_rad,
                        verts,
                    )
                    &&& measured(luminance, radiosities@, luminances)
                    &&& brightest(luminances, r.white)
                    &&& ratio.ensures((width, height), aspect)
                    &&& r.of(
                        patches@,
                        vert_rad,
                        verts,
                        cornell_camera(width, height, tan_half_fov),
                        aspect,
                        r.white,
                    )
                },
    {
        let (vert_rad, verts) = build_vertex_radiosity(
            patches,
            radiosities,
            quantize,
            zero,
            plus,
            mean,
        );
        let camera = Camera::cornell_default(width, height, tan_half_fov);
        let aspect: u32 = ratio(width, height);
        let white: u32 = white_point(radiosities, luminance);
        RenderJob::prepare(
            patches,
            vert_rad.as_slice(),
            verts.as_slice(),
            &camera,
            aspect,
            white,
        )
    }

    /// The launch arguments, once the buffers have their addresses.
    pub fn args(
        &self,
        patch_geom_addr: u64,
        vert_rad_addr: u64,
        patch_vi_addr: u64,
        pixels_addr: u64,
        camera_addr: u64,
        n_harts: u32,
    ) -> (r: RenderArgs)
        ensures
            r.patch_geom_addr == patch_geom_addr,
            r.vert_rad_addr == vert_rad_addr,
            r.patch_vi_addr == patch_vi_addr,
            r.pixels_addr == pixels_addr,
            r.camera_addr == camera_addr,
            r.white == self.white,
            r.width == self.width,
            r.height == self.height,
            r.n_patches == self.n_patches,
            r.n_verts == self.n_verts,
            r.n_harts == n_harts,
            r._pad == 0,
    {
        RenderArgs {
            patch_geom_addr,
            vert_rad_addr,
            patch_vi_addr,
            pixels_addr,
            camera_addr,
            white: self.white,
            width: self.width,
            height: self.height,
            n_patches: self.n_patches,
            n_verts: self.n_verts,
            n_harts,
            _pad: 0,
        }
    }
}

// ---------------------------------------------------------------------------
// What the calls come to
// ---------------------------------------------------------------------------

/// Whether `sums` gathers, from nothing on, every radiosity of `b` with the form
/// factor that row `i` of the matrix has for it.
pub open spec fn row_gathered<G: Fn(Vec3, (u32, Vec3)) -> Vec3>(
    gather: G,
    ff: Seq<u32>,
    b: Seq<Vec3>,
    i: int,
    sums: Seq<Vec3>,
) -> bool {
    &&& sums.len() == b.len() + 1
    &&& sums[0] == (Vec3 { x: 0, y: 0, z: 0 })
    &&& forall|j: int|
        0 <= j < b.len() ==> gather.ensures(
            (sums[j], (ff[i * b.len() + j], b[j])),
            #[trigger] sums[j + 1],
        )
}

/// Every iterate after the first solves the radiosity equation from the one before:
/// patch `i` gathers every form factor of its row as it stands, with the radiosity of
/// the patch that it leads to, and adds what its reflectance sends back to its
/// emission.
pub proof fn law_iterate_from_before<G, R>(
    gather: G,
    relight: R,
    patches: Seq<ScenePatch>,
    ff: Seq<u32>,
    iterates: Seq<Seq<Vec3>>,
    k: int,
    i: int,
) where G: Fn(Vec3, (u32, Vec3)) -> Vec3, R: Fn(Vec3, Vec3, Vec3) -> Vec3
    requires
        jacobi(gather, relight, patches, ff, iterates),
        0 <= k < iterates.len() - 1,
        0 <= i < patches.len(),
    ensures
        iterates[k].len() == patches.len(),
        iterates[0][i] == patches[i].emission,
        exists|sums: Seq<Vec3>| #[trigger]
            row_gathered(gather, ff, iterates[k], i, sums) && relight.ensures(
                (patches[i].emission, patches[i].reflectance, sums[patches.len() as int]),
                iterates[k + 1][i],
            ),
{
    let b = iterates[k];
    lemma_iterate_len(gather, relight, patches, ff, iterates, k);
    assert(relit(gather, relight, patches, ff, b, i, iterates[k + 1][i]));
    let light = choose|light: Vec3| #[trigger]
        folds_to(gather, zero3(), incoming(ff, b, i), light) && relight.ensures(
            (patches[i].emission, patches[i].reflectance, light),
            iterates[k + 1][i],
        );
    let sums = choose|t: Seq<Vec3>| #[trigger]
        folds(gather, zero3(), incoming(ff, b, i), t) && t.last() == light;
    assert forall|j: int| 0 <= j < b.len() implies gather.ensures(
        (sums[j], (ff[i * b.len() + j], b[j])),
        #[trigger] sums[j + 1],
    ) by {
        assert(incoming(ff, b, i)[j] == (ff[i * b.len() + j], b[j]));
        assert(gather.ensures((sums[j], incoming(ff, b, i)[j]), sums[j + 1]));
    }
    assert(row_gathered(gather, ff, b, i, sums));
}

/// What a patch gathers takes every form factor of its row as it stands in the
/// matrix.
pub proof fn law_every_factor_counts(ff: Seq<u32>, b: Seq<Vec3>, i: int, j: int)
    requires
        0 <= j < b.len(),
    ensures
        incoming(ff, b, i).len() == b.len(),
        incoming(ff, b, i)[j] == (ff[i * b.len() + j], b[j]),
{
}

/// A call of `solve_radiosity` returns the iterate of the asked number: the emissions
/// if none is asked for, and else a solution of the radiosity equation from what a
/// call for one iteration less may return.
pub proof fn law_call_solves<G, R, P>(
    patches: &[ScenePatch],
    ff: &[u32],
    iterations: u32,
    gather: G,
    relight: R,
    report: P,
    r: Vec<Vec3>,
    i: int,
) where
    G: Fn(Vec3, (u32, Vec3)) -> Vec3,
    R: Fn(Vec3, Vec3, Vec3) -> Vec3,
    P: Fn(u32),

    requires
        call_ensures(
            solve_radiosity::<G, R, P>,
            (patches, ff, iterations, gather, relight, report),
            r,
        ),
        0 <= i < patches@.len(),
    ensures
        r@.len() == patches@.len(),
        iterations == 0 ==> r@[i] == patches@[i].emission,
        iterations > 0 ==> exists|iterates: Seq<Seq<Vec3>>, sums: Seq<Vec3>|
            {
                let b = iterates[iterations - 1];
                &&& #[trigger] jacobi(gather, relight, patches@, ff@, iterates)
                &&& iterates.len() == iterations
                &&& b.len() == patches@.len()
                &&& #[trigger] row_gathered(gather, ff@, iterates[iterations - 1], i, sums)
                &&& relight.ensures(
                    (
                        patches@[i].emission,
                        patches@[i].reflectance,
                        sums[patches@.len() as int],
                    ),
                    r@[i],
                )
            },
{
    let iterates = choose|iterates: Seq<Seq<Vec3>>| #[trigger]
        jacobi(gather, relight, patches@, ff@, iterates) && iterates.len() == iterations + 1
            && r@ == iterates.last();
    lemma_iterate_len(gather, relight, patches@, ff@, iterates, iterations as int);
    if iterations > 0 {
        let k = iterations - 1;
        law_iterate_from_before(gather, relight, patches@, ff@, iterates, k, i);
        let sums = choose|sums: Seq<Vec3>| #[trigger]
            row_gathered(gather, ff@, iterates[k], i, sums) && relight.ensures(
                (patches@[i].emission, patches@[i].reflectance, sums[patches@.len() as int]),
                iterates[k + 1][i],
            );
        let fewer = iterates.take(iterations as int);
        assert forall|m: int| 0 <= m < fewer.len() - 1 implies swept(
            gather,
            relight,
            patches@,
            ff@,
            fewer[m],
            #[trigger] fewer[m + 1],
        ) by {
            assert(fewer[m + 1] == iterates[m + 1]);
        }
        assert(jacobi(gather, relight, patches@, ff@, fewer));
        assert(row_gathered(gather, ff@, fewer[iterations - 1], i, sums));
    }
}

/// Whether gathering never loses light in the channel `ch`, and a positive form
/// factor gathers light from a patch that has some.
pub open spec fn light_arrives<G: Fn(Vec3, (u32, Vec3)) -> Vec3>(
    gather: G,
    ch: spec_fn(Vec3) -> u32,
) -> bool {
    forall|a: Vec3, f: u32, b: Vec3, r: Vec3|
        #![trigger gather.ensures((a, (f, b)), r)]
        gather.ensures((a, (f, b)), r) && le(ZERO, ch(a)) && amount(f) && amount(ch(b)) ==> {
            &&& le(ZERO, ch(r))
            &&& lt(ZERO, ch(a)) ==> lt(ZERO, ch(r))
            &&& lt(ZERO, f) && lt(ZERO, ch(b)) ==> lt(ZERO, ch(r))
        }
}

/// Whether a positive reflectance sends light back in the channel `ch`.
pub open spec fn light_returns<R: Fn(Vec3, Vec3, Vec3) -> Vec3>(
    relight: R,
    ch: spec_fn(Vec3) -> u32,
) -> bool {
    forall|e: Vec3, rho: Vec3, g: Vec3, r: Vec3|
        #![trigger relight.ensures((e, rho, g), r)]
        relight.ensures((e, rho, g), r) && lt(ZERO, ch(rho)) && lt(ZERO, ch(g)) ==> lt(
            ch(e),
            ch(r),
        )
}

/// Whether all elements of a row are amounts.
pub open spec fn row_of_amounts_only(row: Seq<u32>) -> bool {
    forall|l: int| 0 <= l < row.len() ==> amount(#[trigger] row[l])
}

/// Light bounces: with arithmetic that never loses light, the next radiosity of patch
/// `i` exceeds its emission, in any channel, whenever the patch reflects in that
/// channel and some patch that has light in it has a positive form factor in row `i`.
pub proof fn law_light_bounces<G, R>(
    gather: G,
    relight: R,
    ch: spec_fn(Vec3) -> u32,
    patches: Seq<ScenePatch>,
    ff: Seq<u32>,
    iterates: Seq<Seq<Vec3>>,
    k: int,
    i: int,
    j: int,
) where G: Fn(Vec3, (u32, Vec3)) -> Vec3, R: Fn(Vec3, Vec3, Vec3) -> Vec3
    requires
        jacobi(gather, relight, patches, ff, iterates),
        0 <= k < iterates.len() - 1,
        0 <= i < patches.len(),
        0 <= j < patches.len(),
        light_arrives(gather, ch),
        light_returns(relight, ch),
        ch(zero3()) == ZERO,
        row_of_amounts_only(matrix_row(ff, patches.len() as int, i)),
        forall|l: int| 0 <= l < patches.len() ==> amount(ch(#[trigger] iterates[k][l])),
        lt(ZERO, ch(patches[i].reflectance)),
        lt(ZERO, ff[i * patches.len() + j]),
        lt(ZERO, ch(iterates[k][j])),
    ensures
        lt(ch(patches[i].emission), ch(iterates[k + 1][i])),
{
    law_iterate_from_before(gather, relight, patches, ff, iterates, k, i);
    let n = patches.len() as int;
    let b = iterates[k];
    let sums = choose|sums: Seq<Vec3>| #[trigger]
        row_gathered(gather, ff, b, i, sums) && relight.ensures(
            (patches[i].emission, patches[i].reflectance, sums[n]),
            iterates[k + 1][i],
        );
    lemma_light_gathered(gather, ch, ff, b, i, j, sums, n);
}

proof fn lemma_light_gathered<G: Fn(Vec3, (u32, Vec3)) -> Vec3>(
    gather: G,
    ch: spec_fn(Vec3) -> u32,
    ff: Seq<u32>,
    b: Seq<Vec3>,
    i: int,
    j: int,
    sums: Seq<Vec3>,
    m: int,
)
    requires
        light_arrives(gather, ch),
        ch(zero3()) == ZERO,
        row_gathered(gather, ff, b, i, sums),
        row_of_amounts_only(matrix_row(ff, b.len() as int, i)),
        forall|l: int| 0 <= l < b.len() ==> amount(ch(#[trigger] b[l])),
        0 <= j < b.len(),
        lt(ZERO, ff[i * b.len() + j]),
        lt(ZERO, ch(b[j])),
        0 <= m <= b.len(),
    ensures
        le(ZERO, ch(sums[m])),
        j < m ==> lt(ZERO, ch(sums[m])),
    decreases m,
{
    if m > 0 {
        lemma_light_gathered(gather, ch, ff, b, i, j, sums, m - 1);
        let l = m - 1;
        assert(amount(ch(b[l])));
        assert(amount(matrix_row(ff, b.len() as int, i)[l]));
        assert(gather.ensures((sums[l], (ff[i * b.len() + l], b[l])), sums[l + 1]));
    }
}

/// A call of `solve_radiosity` for one iteration lights every patch that reflects and
/// has a positive form factor for an emitter, beyond its own emission.
pub proof fn law_call_bounces_light<G, R, P>(
    patches: &[ScenePatch],
    ff: &[u32],
    gather: G,
    relight: R,
    report: P,
    r: Vec<Vec3>,
    ch: spec_fn(Vec3) -> u32,
    i: int,
    j: int,
) where
    G: Fn(Vec3, (u32, Vec3)) -> Vec3,
    R: Fn(Vec3, Vec3, Vec3) -> Vec3,
    P: Fn(u32),

    requires
        call_ensures(solve_radiosity::<G, R, P>, (patches, ff, 1u32, gather, relight, report), r),
        0 <= i < patches@.len(),
        0 <= j < patches@.len(),
        light_arrives(gather, ch),
        light_returns(relight, ch),
        ch(zero3()) == ZERO,
        row_of_amounts_only(matrix_row(ff@, patches@.len() as int, i)),
        forall|l: int|
            0 <= l < patches@.len() ==> amount(ch((#[trigger] patches@[l]).emission)),
        lt(ZERO, ch(patches@[i].reflectance)),
        lt(ZERO, ff@[i * patches@.len() + j]),
        lt(ZERO, ch(patches@[j].emission)),
    ensures
        lt(ch(patches@[i].emission), ch(r@[i])),
{
    let iterates = choose|iterates: Seq<Seq<Vec3>>| #[trigger]
        jacobi(gather, relight, patches@, ff@, iterates) && iterates.len() == 2 && r@
            == iterates.last();
    assert forall|l: int| 0 <= l < patches@.len() implies amount(
        ch(#[trigger] iterates[0][l]),
    ) by {
        assert(amount(ch(patches@[l].emission)));
        assert(iterates[0][l] == patches@[l].emission);
    }
    law_light_bounces(gather, relight, ch, patches@, ff@, iterates, 0, i, j);
}

/// A patch that no form factor leads to does not matter: with arithmetic that gathers
/// nothing at a form factor of zero, the radiosity of patch `j` may be any other.
pub proof fn law_unseen_patch_ignored<G, R>(
    gather: G,
    relight: R,
    patches: Seq<ScenePatch>,
    ff: Seq<u32>,
    b: Seq<Vec3>,
    i: int,
    j: int,
    other: Vec3,
    out: Vec3,
) where G: Fn(Vec3, (u32, Vec3)) -> Vec3, R: Fn(Vec3, Vec3, Vec3) -> Vec3
    requires
        forall|a: Vec3, x: Vec3, r: Vec3| #[trigger] gather.ensures((a, (ZERO, x)), r) <==> r == a,
        0 <= j < b.len(),
        ff[i * b.len() + j] == ZERO,
        relit(gather, relight, patches, ff, b, i, out),
    ensures
        relit(gather, relight, patches, ff, b.update(j, other), i, out),
{
    let c = b.update(j, other);
    let light = choose|light: Vec3| #[trigger]
        folds_to(gather, zero3(), incoming(ff, b, i), light) && relight.ensures(
            (patches[i].emission, patches[i].reflectance, light),
            out,
        );
    let t = choose|t: Seq<Vec3>| #[trigger]
        folds(gather, zero3(), incoming(ff, b, i), t) && t.last() == light;
    assert forall|k: int| 0 <= k < c.len() implies gather.ensures(
        (t[k], incoming(ff, c, i)[k]),
        #[trigger] t[k + 1],
    ) by {
        assert(gather.ensures((t[k], incoming(ff, b, i)[k]), t[k + 1]));
        assert(incoming(ff, b, i)[k] == (ff[i * b.len() + k], b[k]));
        assert(incoming(ff, c, i)[k] == (ff[i * b.len() + k], c[k]));
        if k == j {
            assert(gather.ensures((t[k], (ZERO, b[j])), t[k + 1]));
            assert(gather.ensures((t[k], (ZERO, other)), t[k + 1]));
        } else {
            assert(c[k] == b[k]);
        }
    }
    assert(incoming(ff, c, i).len() == c.len());
    assert(folds(gather, zero3(), incoming(ff, c, i), t));
    assert(folds_to(gather, zero3(), incoming(ff, c, i), light));
}

/// A patch that reflects nothing keeps its emission, however many iterations a call
/// of `solve_radiosity` is asked for.
pub proof fn law_call_leaves_black_patches<G, R, P>(
    patches: &[ScenePatch],
    ff: &[u32],
    iterations: u32,
    gather: G,
    relight: R,
    report: P,
    r: Vec<Vec3>,
    i: int,
) where
    G: Fn(Vec3, (u32, Vec3)) -> Vec3,
    R: Fn(Vec3, Vec3, Vec3) -> Vec3,
    P: Fn(u32),

    requires
        call_ensures(
            solve_radiosity::<G, R, P>,
            (patches, ff, iterations, gather, relight, report),
            r,
        ),
        0 <= i < patches@.len(),
        patches@[i].reflectance == (Vec3 { x: 0, y: 0, z: 0 }),
        forall|e: Vec3, g: Vec3, s: Vec3| #[trigger]
            relight.ensures((e, (Vec3 { x: 0, y: 0, z: 0 }), g), s) ==> s == e,
    ensures
        r@[i] == patches@[i].emission,
{
    law_call_solves(patches, ff, iterations, gather, relight, report, r, i);
}

/// A call of `normalise_rows` replaces what is no finite number by zero and, in rows
/// whose elements add up to more than `1.0e-8`, divides every element by that sum.
pub proof fn law_call_normalises<A, D>(
    ff: &[u32],
    n: usize,
    plus: A,
    divide: D,
    r: Vec<u32>,
    i: int,
) where A: Fn(u32, u32) -> u32, D: Fn(u32, u32) -> u32
    requires
        call_ensures(normalise_rows::<A, D>, (ff, n, plus, divide), r),
        ff@.len() == n * n,
        0 <= i < n,
    ensures
        r@.len() == n * n,
        exists|sums: Seq<u32>|
            {
                &&& sums.len() == n + 1
                &&& sums[0] == 0
                &&& forall|j: int|
                    0 <= j < n ==> plus.ensures(
                        (
                            #[trigger] sums[j],
                            if magnitude(ff@[i * n + j]) < 0x7F80_0000 {
                                ff@[i * n + j]
                            } else {
                                0
                            },
                        ),
                        sums[j + 1],
                    )
                &&& forall|j: int|
                    0 <= j < n ==> {
                        let x: u32 = if magnitude(ff@[i * n + j]) < 0x7F80_0000 {
                            ff@[i * n + j]
                        } else {
                            0
                        };
                        if lt(MIN_ROW_SUM, sums[n as int]) {
                            divide.ensures((x, sums[n as int]), #[trigger] r@[i * n + j])
                        } else {
                            r@[i * n + j] == x
                        }
                    }
            },
{
    assert(rows_normalised(plus, divide, n as int, ff@, r@));
    lemma_row_normalised_sums(plus, divide, ff@, r@, n as int, i);
}

proof fn lemma_row_normalised_sums<A, D>(
    plus: A,
    divide: D,
    ff: Seq<u32>,
    out: Seq<u32>,
    n: int,
    i: int,
) where A: Fn(u32, u32) -> u32, D: Fn(u32, u32) -> u32
    requires
        n > 0,
        row_normalised(plus, divide, matrix_row(ff, n, i), matrix_row(out, n, i)),
    ensures
        exists|sums: Seq<u32>|
            {
                &&& sums.len() == n + 1
                &&& sums[0] == 0
                &&& forall|j: int|
                    0 <= j < n ==> plus.ensures(
                        (
                            #[trigger] sums[j],
                            if magnitude(ff[i * n + j]) < 0x7F80_0000 {
                                ff[i * n + j]
                            } else {
                                0
                            },
                        ),
                        sums[j + 1],
                    )
                &&& forall|j: int|
                    0 <= j < n ==> {
                        let x: u32 = if magnitude(ff[i * n + j]) < 0x7F80_0000 {
                            ff[i * n + j]
                        } else {
                            0
                        };
                        if lt(MIN_ROW_SUM, sums[n as int]) {
                            divide.ensures((x, sums[n as int]), #[trigger] out[i * n + j])
                        } else {
                            out[i * n + j] == x
                        }
                    }
            },
{
    let row = matrix_row(ff, n, i);
    let clean = row.map_values(|x: u32| sanitised(x));
    let sum = choose|sum: u32| #[trigger]
        folds_to(plus, ZERO, clean, sum) && forall|j: int|
            0 <= j < row.len() ==> (if lt(MIN_ROW_SUM, sum) {
                divide.ensures((clean[j], sum), #[trigger] matrix_row(out, n, i)[j])
            } else {
                matrix_row(out, n, i)[j] == clean[j]
            });
    let sums = choose|t: Seq<u32>| #[trigger] folds(plus, ZERO, clean, t) && t.last() == sum;
    assert forall|j: int| 0 <= j < n implies plus.ensures(
        (
            #[trigger] sums[j],
            if magnitude(ff[i * n + j]) < 0x7F80_0000 {
                ff[i * n + j]
            } else {
                0
            },
        ),
        sums[j + 1],
    ) by {
        assert(plus.ensures((sums[j], clean[j]), sums[j + 1]));
    }
    assert forall|j: int| 0 <= j < n implies ({
        let x: u32 = if magnitude(ff[i * n + j]) < 0x7F80_0000 {
            ff[i * n + j]
        } else {
            0
        };
        if lt(MIN_ROW_SUM, sums[n as int]) {
            divide.ensures((x, sums[n as int]), #[trigger] out[i * n + j])
        } else {
            out[i * n + j] == x
        }
    }) by {
        assert(matrix_row(out, n, i)[j] == out[i * n + j]);
        assert(clean[j] == sanitised(ff[i * n + j]));
    }
    assert(sums.len() == n + 1);
}

/// Whether `plus` and `divide` are exact on what `value` says of numbers, `unit`
/// being what it says of one.
pub open spec fn exact_arithmetic<A, D>(
    plus: A,
    divide: D,
    value: spec_fn(u32) -> int,
    unit: int,
) -> bool where A: Fn(u32, u32) -> u32, D: Fn(u32, u32) -> u32 {
    &&& value(ZERO) == 0
    &&& forall|s: u32| lt(MIN_ROW_SUM, s) ==> #[trigger] value(s) > 0
    &&& forall|a: u32, b: u32, r: u32| #[trigger]
        plus.ensures((a, b), r) ==> value(r) == value(a) + value(b)
    &&& forall|a: u32, s: u32, r: u32| #[trigger]
        divide.ensures((a, s), r) ==> value(r) * value(s) == value(a) * unit
}

/// Energy is conserved: with exact arithmetic, a normalised row adds up to one if its
/// elements added up to more than `1.0e-8` before.
pub proof fn law_rows_add_up_to_one<A, D>(
    plus: A,
    divide: D,
    value: spec_fn(u32) -> int,
    unit: int,
    row: Seq<u32>,
    out: Seq<u32>,
    before: u32,
    total: u32,
) where A: Fn(u32, u32) -> u32, D: Fn(u32, u32) -> u32
    requires
        exact_arithmetic(plus, divide, value, unit),
        functional(plus),
        row_normalised(plus, divide, row, out),
        forall|j: int| 0 <= j < row.len() ==> finite(#[trigger] row[j]),
        folds_to(plus, ZERO, row, before),
        lt(MIN_ROW_SUM, before),
        folds_to(plus, ZERO, out, total),
    ensures
        out.len() == row.len(),
        value(total) == unit,
{
    let clean = row.map_values(|x: u32| sanitised(x));
    assert(clean =~= row);
    let sum = choose|sum: u32| #[trigger]
        folds_to(plus, ZERO, clean, sum) && forall|j: int|
            0 <= j < row.len() ==> (if lt(MIN_ROW_SUM, sum) {
                divide.ensures((clean[j], sum), #[trigger] out[j])
            } else {
                out[j] == clean[j]
            });
    law_fold_unique(plus, ZERO, row, sum, before);
    let t = choose|t: Seq<u32>| #[trigger] folds(plus, ZERO, row, t) && t.last() == sum;
    let u = choose|u: Seq<u32>| #[trigger] folds(plus, ZERO, out, u) && u.last() == total;
    lemma_shares_add_up(plus, divide, value, unit, row, out, sum, t, u, row.len() as int);
    let (a, s) = (value(total), value(sum));
    assert(a * s == s * unit);
    assert(a == unit) by (nonlinear_arith)
        requires
            a * s == s * unit,
            s > 0,
    ;
}

proof fn lemma_shares_add_up<A, D>(
    plus: A,
    divide: D,
    value: spec_fn(u32) -> int,
    unit: int,
    row: Seq<u32>,
    out: Seq<u32>,
    sum: u32,
    t: Seq<u32>,
    u: Seq<u32>,
    k: int,
) where A: Fn(u32, u32) -> u32, D: Fn(u32, u32) -> u32
    requires
        exact_arithmetic(plus, divide, value, unit),
        folds(plus, ZERO, row, t),
        folds(plus, ZERO, out, u),
        out.len() == row.len(),
        forall|j: int| 0 <= j < row.len() ==> divide.ensures((row[j], sum), #[trigger] out[j]),
        0 <= k <= row.len(),
    ensures
        value(u[k]) * value(sum) == value(t[k]) * unit,
    decreases k,
{
    let s = value(sum);
    if k > 0 {
        let j = k - 1;
        lemma_shares_add_up(plus, divide, value, unit, row, out, sum, t, u, j);
        assert(plus.ensures((t[j], row[j]), t[j + 1]));
        assert(plus.ensures((u[j], out[j]), u[j + 1]));
        assert(divide.ensures((row[j], sum), out[j]));
        let (a, b, c, d) = (value(u[j]), value(out[j]), value(t[j]), value(row[j]));
        assert((a + b) * s == (c + d) * unit) by (nonlinear_arith)
            requires
                a * s == c * unit,
                b * s == d * unit,
        ;
    } else {
        assert(0 * s == 0 * unit) by (nonlinear_arith);
    }
}

/// A call of `pack_occluders` puts coordinate `k` of every triangle into component
/// array `k`, each array as long as the next multiple of eight and filled up with
/// zeros.
pub proof fn law_call_packs(
    occluders: &[OccluderTriangle],
    r: Vec<u32>,
    i: int,
    t: OccluderTriangle,
)
    requires
        call_ensures(pack_occluders, (occluders,), r),
        0 <= i < (occluders@.len() + 7) / 8 * 8,
        i < occluders@.len() ==> t == occluders@[i],
        i >= occluders@.len() ==> t == (OccluderTriangle {
            v0: Vec3 { x: 0, y: 0, z: 0 },
            v1: Vec3 { x: 0, y: 0, z: 0 },
            v2: Vec3 { x: 0, y: 0, z: 0 },
        }),
    ensures
        ({
            let s = (occluders@.len() + 7) / 8 * 8;
            &&& r@.len() == 9 * s
            &&& r@[i] == t.v0.x
            &&& r@[s + i] == t.v0.y
            &&& r@[2 * s + i] == t.v0.z
            &&& r@[3 * s + i] == t.v1.x
            &&& r@[4 * s + i] == t.v1.y
            &&& r@[5 * s + i] == t.v1.z
            &&& r@[6 * s + i] == t.v2.x
            &&& r@[7 * s + i] == t.v2.y
            &&& r@[8 * s + i] == t.v2.z
        }),
{
    let s = padded(occluders@.len() as int);
    assert(occluder_at(r@, s, i) == t);
}

/// A call of `FormFactorJob::prepare` counts the scene, asks for four bytes per matrix
/// element, and for a trace buffer only if there is to be a trace.
pub proof fn law_call_prepares_sizes(scene: Scene, trace: bool, r: FormFactorJob)
    requires
        call_ensures(FormFactorJob::prepare, (&scene, trace), r),
    ensures
        r.n_patches == scene.patches@.len(),
        r.n_occluders == scene.occluders@.len(),
        r.matrix_bytes == 4 * (scene.patches@.len() * scene.patches@.len()),
        r.occluder_bytes is Some <==> scene.occluders@.len() > 0,
        r.trace_bytes == (if trace {
            Some(262144u64)
        } else {
            None
        }),
{
}

/// What the kernel reads of the patch array that `FormFactorJob::prepare` laid out are
/// the descriptors of the scene's patches.
pub proof fn law_calls_pass_patches(
    scene: Scene,
    trace: bool,
    r: FormFactorJob,
    bytes: &[u8],
    words: Vec<u32>,
    slice: &[u32],
    i: usize,
    p: Patch,
)
    requires
        call_ensures(FormFactorJob::prepare, (&scene, trace), r),
        bytes@ == r.patch_bytes@,
        call_ensures(words_from_bytes, (bytes,), words),
        slice@ == words@,
        i < scene.patches@.len(),
        call_ensures(read_patch, (slice, i), p),
    ensures
        p == scene.patches@[i as int].abi,
{
    let sent = patch_array_words(descriptors(scene.patches@));
    assert(words@ =~= downloaded(bytes@));
    law_download_round_trip(sent);
    law_patch_read_back(descriptors(scene.patches@), i as int);
}

/// What the kernel reads of the occluder block that `FormFactorJob::prepare` laid out
/// are the scene's occluders.
pub proof fn law_calls_pass_occluders(
    scene: Scene,
    trace: bool,
    r: FormFactorJob,
    bytes: &[u8],
    words: Vec<u32>,
    slice: &[u32],
    n: usize,
    stride: usize,
    i: usize,
    t: OccluderTriangle,
)
    requires
        call_ensures(FormFactorJob::prepare, (&scene, trace), r),
        n == scene.occluders@.len(),
        i < n,
        r.occluder_bytes is Some,
        bytes@ == r.occluder_bytes->0@,
        call_ensures(words_from_bytes, (bytes,), words),
        slice@ == words@,
        call_ensures(padded_count, (n,), stride),
        call_ensures(read_occluder, (slice, stride, i), t),
    ensures
        t == scene.occluders@[i as int],
{
    let soa = choose|soa: Seq<u32>| #[trigger]
        packed(soa, scene.occluders@) && bytes@ == word_bytes(soa);
    assert(words@ =~= downloaded(bytes@));
    law_download_round_trip(soa);
    assert(occluder_at(soa, padded(n as int), i as int) == scene.occluders@[i as int]);
}

/// A call of `form_factor_matrix` normalises the words that the bytes hold, as
/// `normalise_rows` does.
pub proof fn law_call_matrix<A, D>(
    raw: &[u8],
    n: usize,
    plus: A,
    divide: D,
    r: Vec<u32>,
    words: Vec<u32>,
) where A: Fn(u32, u32) -> u32, D: Fn(u32, u32) -> u32
    requires
        call_ensures(form_factor_matrix::<A, D>, (raw, n, plus, divide), r),
        call_ensures(words_from_bytes, (raw,), words),
    ensures
        rows_normalised(plus, divide, n as int, words@, r@),
{
    assert(words@ =~= downloaded(raw@));
}

/// Every row of a matrix whose rows are normalised has a sum of its finite elements,
/// taken from the left; it is divided by that sum if that is above `1.0e-8`, and else
/// left as it is, but for what is no finite number.
pub proof fn law_rows_divided<A, D>(
    plus: A,
    divide: D,
    n: int,
    ff: Seq<u32>,
    out: Seq<u32>,
    i: int,
) where A: Fn(u32, u32) -> u32, D: Fn(u32, u32) -> u32
    requires
        rows_normalised(plus, divide, n, ff, out),
        0 <= i < n,
    ensures
        exists|sums: Seq<u32>|
            {
                &&& sums.len() == n + 1
                &&& sums[0] == 0
                &&& forall|j: int|
                    0 <= j < n ==> plus.ensures(
                        (
                            #[trigger] sums[j],
                            if magnitude(ff[i * n + j]) < 0x7F80_0000 {
                                ff[i * n + j]
                            } else {
                                0
                            },
                        ),
                        sums[j + 1],
                    )
                &&& forall|j: int|
                    0 <= j < n ==> {
                        let x: u32 = if magnitude(ff[i * n + j]) < 0x7F80_0000 {
                            ff[i * n + j]
                        } else {
                            0
                        };
                        if lt(MIN_ROW_SUM, sums[n as int]) {
                            divide.ensures((x, sums[n as int]), #[trigger] out[i * n + j])
                        } else {
                            out[i * n + j] == x
                        }
                    }
            },
{
    lemma_row_normalised_sums(plus, divide, ff, out, n, i);
}

/// What a job holds of a rendering: sizes as counted, three bytes per pixel.
pub proof fn law_render_job_sizes(
    job: RenderJob,
    patches: Seq<ScenePatch>,
    vert_rad: Seq<Vec3>,
    verts: Seq<PatchVerts>,
    camera: Camera,
    aspect: u32,
    white: u32,
)
    requires
        job.of(patches, vert_rad, verts, camera, aspect, white),
    ensures
        job.n_patches == patches.len(),
        job.n_verts == vert_rad.len(),
        job.width == camera.width,
        job.height == camera.height,
        job.white == white,
        job.pixel_bytes == 3 * (camera.width * camera.height),
{
}

/// What the kernel reads of the buffers of a job are the corners of the patches, the
/// radiosities of the vertices, the vertices of the patches, and the camera.
pub proof fn law_calls_pass_rendering(
    job: RenderJob,
    patches: Seq<ScenePatch>,
    vert_rad: Seq<Vec3>,
    verts: Seq<PatchVerts>,
    camera: Camera,
    aspect: u32,
    white: u32,
    geom_words: &[u32],
    rad_words: &[u32],
    vi_words: &[u32],
    cam_words: &[u32],
    geoms: Vec<PatchGeom>,
    rads: Vec<Vec3>,
    triples: Vec<VertexTriple>,
    cam: (Camera, u32),
)
    requires
        job.of(patches, vert_rad, verts, camera, aspect, white),
        geom_words@ == downloaded(job.geom_bytes@),
        rad_words@ == downloaded(job.vert_rad_bytes@),
        vi_words@ == downloaded(job.patch_vi_bytes@),
        cam_words@ == downloaded(job.camera_bytes@),
        call_ensures(read_geoms, (geom_words,), geoms),
        call_ensures(read_vec3s, (rad_words,), rads),
        call_ensures(read_triples, (vi_words,), triples),
        call_ensures(read_camera, (cam_words, camera.width, camera.height), cam),
    ensures
        geoms@.len() == patches.len(),
        forall|i: int|
            0 <= i < patches.len() ==> (#[trigger] geoms@[i]).v0 == patches[i].v0 && geoms@[i].v1
                == patches[i].v1 && geoms@[i].v2 == patches[i].v2,
        rads@ == vert_rad,
        triples@.len() == verts.len(),
        forall|i: int|
            0 <= i < verts.len() ==> (#[trigger] triples@[i]).vi0 == verts[i].vi0 && triples@[i].vi1
                == verts[i].vi1 && triples@[i].vi2 == verts[i].vi2,
        cam == (camera, aspect),
{
    let sent = patches.map_values(|p: ScenePatch| geometry(p));
    law_download_round_trip(geom_array_words(sent));
    law_geoms_read_back(sent, geoms@);
    law_download_round_trip(vec3_array_words(vert_rad));
    law_vec3s_read_back(vert_rad, rads@);
    let narrow = choose|t: Seq<VertexTriple>| #[trigger]
        narrowed(verts, t) && job.patch_vi_bytes@ == word_bytes(triple_array_words(t));
    law_download_round_trip(triple_array_words(narrow));
    law_triples_read_back(narrow, triples@);
    law_download_round_trip(camera_words(camera, aspect));
    law_camera_round_trip(camera, aspect, cam);
    assert forall|i: int| 0 <= i < verts.len() implies (#[trigger] triples@[i]).vi0 == verts[i].vi0
        && triples@[i].vi1 == verts[i].vi1 && triples@[i].vi2 == verts[i].vi2 by {
        assert(widened(narrow[i]) == verts[i]);
    }
}

/// A call of `RenderJob::plan` lays out the patches with their vertices, as seen by the
/// camera in front of the box, under the brightest luminance.
pub proof fn law_call_plans<Q, A, P, M, L, R>(
    patches: &[ScenePatch],
    radiosities: &[Vec3],
    width: u32,
    height: u32,
    tan_half_fov: u32,
    quantize: Q,
    zero: A,
    plus: P,
    mean: M,
    luminance: L,
    ratio: R,
    r: RenderJob,
    camera: Camera,
    i: int,
    l: u32,
) where
    Q: Fn(u32) -> i32,
    A: Copy,
    P: Fn(A, Vec3) -> A,
    M: Fn(A, usize) -> Vec3,
    L: Fn(Vec3) -> u32,
    R: Fn(u32, u32) -> u32,

    requires
        call_ensures(
            RenderJob::plan::<Q, A, P, M, L, R>,
            (
                patches,
                radiosities,
                width,
                height,
                tan_half_fov,
                quantize,
                zero,
                plus,
                mean,
                luminance,
                ratio,
            ),
            r,
        ),
        call_ensures(Camera::cornell_default, (width, height, tan_half_fov), camera),
        0 <= i < radiosities@.len(),
        forall|a: u32| #[trigger] luminance.ensures((radiosities@[i],), a) ==> a == l,
        !is_nan(l),
    ensures
        r.n_patches == patches@.len(),
        r.width == width,
        r.height == height,
        r.pixel_bytes == 3 * (width * height),
        le(ONE, r.white),
        le(l, r.white),
        r.white == ONE || exists|j: int|
            0 <= j < radiosities@.len() && luminance.ensures((#[trigger] radiosities@[j],), r.white),
        exists|vert_rad: Seq<Vec3>, verts: Seq<PatchVerts>, aspect: u32|
            #![trigger vertices_built(
                quantize,
                zero,
                plus,
                mean,
                patches@,
                radiosities@,
                vert_rad,
                verts,
            ), ratio.ensures((width, height), aspect)]
            vertices_built(quantize, zero, plus, mean, patches@, radiosities@, vert_rad, verts)
                && ratio.ensures((width, height), aspect) && r.of(
                patches@,
                vert_rad,
                verts,
                camera,
                aspect,
                r.white,
            ),
{
    let (vert_rad, verts, luminances, aspect) = choose|
        vert_rad: Seq<Vec3>,
        verts: Seq<PatchVerts>,
        luminances: Seq<u32>,
        aspect: u32,
    |
        #![trigger vertices_built(
            quantize,
            zero,
            plus,
            mean,
            patches@,
            radiosities@,
            vert_rad,
            verts,
        ), measured(luminance, radiosities@, luminances), ratio.ensures((width, height), aspect)]
        vertices_built(quantize, zero, plus, mean, patches@, radiosities@, vert_rad, verts)
            && measured(luminance, radiosities@, luminances) && brightest(luminances, r.white)
            && ratio.ensures((width, height), aspect) && r.of(
            patches@,
            vert_rad,
            verts,
            cornell_camera(width, height, tan_half_fov),
            aspect,
            r.white,
        );
    assert(luminance.ensures((radiosities@[i],), luminances[i]));
    if r.white != ONE {
        let j = luminances.index_of(r.white);
        assert(luminance.ensures((radiosities@[j],), luminances[j]));
    }
}

/// A call of `FormFactorJob::args` passes every address and count on as it is, and no
/// occluder address where there are no occluders.
pub proof fn law_call_form_factor_args(
    job: FormFactorJob,
    patches_addr: u64,
    ff_matrix_addr: u64,
    occluders: Option<u64>,
    n_harts: u32,
    r: FormFactorArgs,
)
    requires
        call_ensures(
            FormFactorJob::args,
            (&job, patches_addr, ff_matrix_addr, occluders, n_harts),
            r,
        ),
    ensures
        r.patches_addr == patches_addr,
        r.ff_matrix_addr == ff_matrix_addr,
        occluders is Some ==> r.occluder_addr == occluders->0,
        occluders is None ==> r.occluder_addr == 0,
        r.n_patches == job.n_patches,
        r.n_occluders == job.n_occluders,
        r.n_harts == n_harts,
{
}

/// A call of `RenderJob::args` passes every address and count on as it is.
pub proof fn law_call_render_args(
    job: RenderJob,
    patch_geom_addr: u64,
    vert_rad_addr: u64,
    patch_vi_addr: u64,
    pixels_addr: u64,
    camera_addr: u64,
    n_harts: u32,
    r: RenderArgs,
)
    requires
        call_ensures(
            RenderJob::args,
            (
                &job,
                patch_geom_addr,
                vert_rad_addr,
                patch_vi_addr,
                pixels_addr,
                camera_addr,
                n_harts,
            ),
            r,
        ),
    ensures
        r.patch_geom_addr == patch_geom_addr,
        r.vert_rad_addr == vert_rad_addr,
        r.patch_vi_addr == patch_vi_addr,
        r.pixels_addr == pixels_addr,
        r.camera_addr == camera_addr,
        r.white == job.white,
        r.width == job.width,
        r.height == job.height,
        r.n_patches == job.n_patches,
        r.n_verts == job.n_verts,
        r.n_harts == n_harts,
{
}

/// A call of `RenderJob::prepare` lays out exactly the rendering that it is given.
pub proof fn law_call_prepares_rendering(
    patches: &[ScenePatch],
    vert_rad: &[Vec3],
    verts: &[PatchVerts],
    camera: Camera,
    aspect: u32,
    white: u32,
    r: RenderJob,
)
    requires
        call_ensures(
            RenderJob::prepare,
            (patches, vert_rad, verts, &camera, aspect, white),
            r,
        ),
    ensures
        r.of(patches@, vert_rad@, verts@, camera, aspect, white),
        r.n_patches == patches@.len(),
        r.n_verts == vert_rad@.len(),
        r.width == camera.width,
        r.height == camera.height,
        r.white == white,
        r.pixel_bytes == 3 * (camera.width * camera.height),
{
}

/// A call of `reports_iteration` is true at every twentieth iteration, from the first
/// on, and at no other.
pub proof fn law_call_reports(iter: u32, k: u32, r: bool)
    requires
        call_ensures(reports_iteration, (iter,), r),
    ensures
        iter == 20 * k ==> r,
        20 * k < iter < 20 * k + 20 ==> !r,
{
}

} // verus!
