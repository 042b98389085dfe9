//! Per-vertex radiosity for Gouraud shading: patch corners that fall on the same
//! grid point become one vertex, whose radiosity is the mean over its patches.

use std::collections::HashMap;
use vstd::prelude::*;

use crate::fold::{folds, folds_to, lemma_folds_to_empty, lemma_folds_to_push};
use crate::ieee::Vec3;
use crate::scene::ScenePatch;

verus! {

/// A grid point.
#[derive(Clone, Copy, Debug, PartialEq, Eq, Structural)]
pub struct VertexKey {
    pub x: i32,
    pub y: i32,
    pub z: i32,
}

/// The vertices of a patch, as positions in the vertex list.
#[derive(Clone, Copy, Debug, PartialEq, Eq, Structural)]
pub struct PatchVerts {
    pub vi0: usize,
    pub vi1: usize,
    pub vi2: usize,
}

/// The grid points of `keys`, each once, in order of first appearance.
pub open spec fn distinct(keys: Seq<VertexKey>) -> Seq<VertexKey>
    decreases keys.len(),
{
    if keys.len() == 0 {
        Seq::empty()
    } else {
        let d = distinct(keys.drop_last());
        if d.contains(keys.last()) {
            d
        } else {
            d.push(keys.last())
        }
    }
}

/// Whether patch `p` has a corner at `key`.
pub open spec fn touches(keys: Seq<VertexKey>, p: int, key: VertexKey) -> bool {
    keys[3 * p] == key || keys[3 * p + 1] == key || keys[3 * p + 2] == key
}

/// The radiosities of those of the first `n` patches that have a corner at `key`,
/// each patch once, in order.
pub open spec fn incident(
    keys: Seq<VertexKey>,
    radiosities: Seq<Vec3>,
    n: int,
    key: VertexKey,
) -> Seq<Vec3>
    decreases n,
{
    if n <= 0 {
        Seq::empty()
    } else {
        let before = incident(keys, radiosities, n - 1, key);
        if touches(keys, n - 1, key) {
            before.push(radiosities[n - 1])
        } else {
            before
        }
    }
}

/// The corner `j` of a patch.
pub open spec fn patch_corner(p: ScenePatch, j: int) -> Vec3 {
    if j == 0 {
        p.v0
    } else if j == 1 {
        p.v1
    } else {
        p.v2
    }
}

/// Whether `key` is the grid point of `v`.
pub open spec fn quantised<Q: Fn(u32) -> i32>(quantize: Q, v: Vec3, key: VertexKey) -> bool {
    quantize.ensures((v.x,), key.x) && quantize.ensures((v.y,), key.y) && quantize.ensures(
        (v.z,),
        key.z,
    )
}

/// Whether `keys` are the grid points of all corners, three per patch.
pub open spec fn corner_keys<Q: Fn(u32) -> i32>(
    quantize: Q,
    patches: Seq<ScenePatch>,
    keys: Seq<VertexKey>,
) -> bool {
    &&& keys.len() == 3 * patches.len()
    &&& forall|c: int|
        0 <= c < keys.len() ==> quantised(
            quantize,
            patch_corner(patches[c / 3], c % 3),
            #[trigger] keys[c],
        )
}

/// The vertex of corner `j` of a patch.
pub open spec fn corner_vertex(v: PatchVerts, j: int) -> usize {
    if j == 0 {
        v.vi0
    } else if j == 1 {
        v.vi1
    } else {
        v.vi2
    }
}

/// Whether `r` is the mean of `values`: their sum from `zero` on, in order,
/// shared among as many.
pub open spec fn averaged<A, P: Fn(A, Vec3) -> A, M: Fn(A, usize) -> Vec3>(
    zero: A,
    plus: P,
    mean: M,
    values: Seq<Vec3>,
    r: Vec3,
) -> bool {
    exists|sum: A| #[trigger]
        folds_to(plus, zero, values, sum) && mean.ensures((sum, values.len() as usize), r)
}

proof fn lemma_incident_prefix(
    keys: Seq<VertexKey>,
    longer: Seq<VertexKey>,
    radiosities: Seq<Vec3>,
    n: int,
    key: VertexKey,
)
    requires
        3 * n <= keys.len() <= longer.len(),
        forall|c: int| 0 <= c < keys.len() ==> keys[c] == longer[c],
    ensures
        incident(longer, radiosities, n, key) == incident(keys, radiosities, n, key),
    decreases n,
{
    if n > 0 {
        lemma_incident_prefix(keys, longer, radiosities, n - 1, key);
    }
}

proof fn lemma_distinct_bounded(keys: Seq<VertexKey>)
    ensures
        distinct(keys).len() <= keys.len(),
    decreases keys.len(),
{
    if keys.len() > 0 {
        lemma_distinct_bounded(keys.drop_last());
    }
}

/// No grid point is listed twice.
pub proof fn law_vertices_distinct(keys: Seq<VertexKey>)
    ensures
        distinct(keys).no_duplicates(),
    decreases keys.len(),
{
    if keys.len() > 0 {
        law_vertices_distinct(keys.drop_last());
    }
}

/// Every grid point of a corner is listed, and nothing else is.
pub proof fn law_vertices_complete(keys: Seq<VertexKey>, key: VertexKey)
    ensures
        distinct(keys).contains(key) <==> keys.contains(key),
    decreases keys.len(),
{
    if keys.len() > 0 {
        let short = keys.drop_last();
        law_vertices_complete(short, key);
        let (d, e) = (distinct(short), distinct(keys));
        if short.contains(key) {
            let i = short.index_of(key);
            assert(keys[i] == key);
            let j = d.index_of(key);
            assert(e[j] == key);
        }
        if keys.last() == key {
            assert(keys[keys.len() - 1] == key);
            if d.contains(key) {
                let j = d.index_of(key);
                assert(e[j] == key);
            } else {
                assert(e[e.len() - 1] == key);
            }
        }
        if e.contains(key) && keys.last() != key {
            let j = e.index_of(key);
            assert(d[j] == key);
        }
        if keys.contains(key) && keys.last() != key {
            let i = keys.index_of(key);
            assert(short[i] == key);
        }
    }
}

/// Two corners get the same vertex exactly when they fall on the same grid point.
pub proof fn law_corners_share_vertices(
    keys: Seq<VertexKey>,
    n: int,
    verts: Seq<PatchVerts>,
    p: int,
    i: int,
    q: int,
    j: int,
)
    requires
        corners_placed(keys, n, verts),
        0 <= p < n,
        0 <= i < 3,
        0 <= q < n,
        0 <= j < 3,
    ensures
        corner_vertex(verts[p], i) == corner_vertex(verts[q], j) <==> keys[3 * p + i] == keys[3 * q
            + j],
{
    law_vertices_distinct(keys);
    let (a, b) = (corner_vertex(verts[p], i), corner_vertex(verts[q], j));
    assert(distinct(keys)[a as int] == keys[3 * p + i]);
    assert(distinct(keys)[b as int] == keys[3 * q + j]);
}

/// Every vertex has a patch at it, so no mean is taken of nothing.
pub proof fn law_vertices_incident(
    keys: Seq<VertexKey>,
    radiosities: Seq<Vec3>,
    n: int,
    v: int,
)
    requires
        keys.len() == 3 * n,
        0 <= v < distinct(keys).len(),
    ensures
        incident(keys, radiosities, n, distinct(keys)[v]).len() > 0,
{
    let key = distinct(keys)[v];
    assert(distinct(keys).contains(key));
    law_vertices_complete(keys, key);
    let c = keys.index_of(key);
    let p = c / 3;
    assert(c == 3 * p || c == 3 * p + 1 || c == 3 * p + 2);
    assert(touches(keys, p, key));
    lemma_incident_grows(keys, radiosities, p + 1, n, key);
}

proof fn lemma_incident_grows(
    keys: Seq<VertexKey>,
    radiosities: Seq<Vec3>,
    m: int,
    n: int,
    key: VertexKey,
)
    requires
        m <= n,
    ensures
        incident(keys, radiosities, m, key).len() <= incident(keys, radiosities, n, key).len(),
    decreases n - m,
{
    if m < n {
        lemma_incident_grows(keys, radiosities, m, n - 1, key);
    }
}

/// A patch counts once at each vertex it has a corner at, however many of its
/// corners merged there: no more radiosities are averaged than there are patches.
pub proof fn law_patches_count_once(
    keys: Seq<VertexKey>,
    radiosities: Seq<Vec3>,
    n: int,
    key: VertexKey,
)
    requires
        n >= 0,
    ensures
        incident(keys, radiosities, n, key).len() <= n,
        incident(keys, radiosities, n + 1, key).len() == incident(keys, radiosities, n, key).len()
            + (if touches(keys, n, key) {
            1int
        } else {
            0
        }),
    decreases n,
{
    if n > 0 {
        law_patches_count_once(keys, radiosities, n - 1, key);
    }
}

// ---------------------------------------------------------------------------
// Vertex table
// ---------------------------------------------------------------------------

/// The number under which a grid point is found again.
pub open spec fn key_code(k: VertexKey) -> int {
    (k.x + 0x8000_0000) * 0x1_0000_0000_0000_0000 + (k.y + 0x8000_0000) * 0x1_0000_0000 + (k.z
        + 0x8000_0000)
}

fn encode(k: VertexKey) -> (r: u128)
    ensures
        r == key_code(k),
{
    let x: u128 = (k.x as i64 + 0x8000_0000) as u128;
    let y: u128 = (k.y as i64 + 0x8000_0000) as u128;
    let z: u128 = (k.z as i64 + 0x8000_0000) as u128;
    x * 0x1_0000_0000_0000_0000 + y * 0x1_0000_0000 + z
}

proof fn lemma_key_code_injective(a: VertexKey, b: VertexKey)
    ensures
        key_code(a) == key_code(b) ==> a == b,
{
}

/// The vertices met so far: where each grid point stands, and the sum and number
/// of the radiosities at it.
struct VertexTable<A> {
    index: HashMap<u128, usize>,
    sums: Vec<A>,
    counts: Vec<usize>,
}

impl<A: Copy> VertexTable<A> {
    /// Whether the table lists the grid points of `keys`, with the sum and the
    /// number of the values `at` each of them.
    spec fn holds<P: Fn(A, Vec3) -> A>(
        self,
        zero: A,
        plus: P,
        keys: Seq<VertexKey>,
        at: spec_fn(VertexKey) -> Seq<Vec3>,
    ) -> bool {
        let d = distinct(keys);
        &&& self.sums@.len() == d.len()
        &&& self.counts@.len() == d.len()
        &&& forall|v: int|
            0 <= v < d.len() ==> #[trigger] self.index@.contains_key(key_code(d[v]) as u128)
                && self.index@[key_code(d[v]) as u128] == v
        &&& forall|code: u128| #[trigger]
            self.index@.contains_key(code) ==> self.index@[code] < d.len() && key_code(
                d[self.index@[code] as int],
            ) == code
        &&& forall|v: int|
            0 <= v < d.len() ==> folds_to(plus, zero, at(d[v]), #[trigger] self.sums@[v])
        &&& forall|v: int| 0 <= v < d.len() ==> #[trigger] self.counts@[v] == at(d[v]).len()
        &&& forall|k: VertexKey| !d.contains(k) ==> (#[trigger] at(k)) == Seq::<Vec3>::empty()
    }

    /// The vertex at a grid point, entered with no radiosity if it is new.
    fn vertex<P: Fn(A, Vec3) -> A>(
        &mut self,
        zero: A,
        plus: &P,
        key: VertexKey,
        Ghost(keys): Ghost<Seq<VertexKey>>,
        Ghost(at): Ghost<spec_fn(VertexKey) -> Seq<Vec3>>,
    ) -> (r: usize)
        requires
            old(self).holds(zero, *plus, keys, at),
        ensures
            final(self).holds(zero, *plus, keys.push(key), at),
            r < distinct(keys.push(key)).len(),
            distinct(keys.push(key))[r as int] == key,
            distinct(keys).is_prefix_of(distinct(keys.push(key))),
    {
        let ghost d = distinct(keys);
        let ghost keys2 = keys.push(key);
        let ghost d2 = distinct(keys2);
        proof {
            assert(keys2.drop_last() =~= keys);
        }
        let code: u128 = encode(key);
        let known: Option<usize> = match self.index.get(&code) {
            Some(v) => Some(*v),
            None => None,
        };
        match known {
            Some(v) => {
                proof {
                    lemma_key_code_injective(key, d[v as int]);
                    assert(d[v as int] == key);
                    assert(d2 == d);
                }
                v
            },
            None => {
                let v: usize = self.sums.len();
                self.sums.push(zero);
                self.counts.push(0);
                self.index.insert(code, v);
                proof {
                    if d.contains(key) {
                        let w = d.index_of(key);
                        assert(old(self).index@.contains_key(key_code(d[w]) as u128));
                    }
                    assert(d2 == d.push(key));
                    assert(at(key) == Seq::<Vec3>::empty());
                    lemma_folds_to_empty::<A, Vec3, P>(*plus, zero);
                    assert forall|w: int| 0 <= w < d2.len() implies folds_to(
                        *plus,
                        zero,
                        at(d2[w]),
                        #[trigger] self.sums@[w],
                    ) by {
                        if w < d.len() {
                            assert(d2[w] == d[w]);
                            assert(self.sums@[w] == old(self).sums@[w]);
                        }
                    }
                    assert forall|w: int| 0 <= w < d2.len() implies #[trigger] self.counts@[w] == at(
                        d2[w],
                    ).len() by {
                        if w < d.len() {
                            assert(d2[w] == d[w]);
                            assert(self.counts@[w] == old(self).counts@[w]);
                        }
                    }
                    assert forall|w: int| 0 <= w < d2.len() implies #[trigger] self.index@.contains_key(
                        key_code(d2[w]) as u128,
                    ) && self.index@[key_code(d2[w]) as u128] == w by {
                        if w < d.len() {
                            assert(old(self).index@.contains_key(key_code(d[w]) as u128));
                            lemma_key_code_injective(d[w], key);
                        }
                    }
                    assert forall|k: VertexKey| !d2.contains(k) implies (#[trigger] at(k))
                        == Seq::<Vec3>::empty() by {
                        if d.contains(k) {
                            assert(d2[d.index_of(k)] == k);
                        }
                    }
                }
                v
            },
        }
    }

    /// Adds a radiosity to a vertex.
    fn attach<P: Fn(A, Vec3) -> A>(
        &mut self,
        zero: A,
        plus: &P,
        vi: usize,
        value: Vec3,
        Ghost(keys): Ghost<Seq<VertexKey>>,
        Ghost(at): Ghost<spec_fn(VertexKey) -> Seq<Vec3>>,
    )
        requires
            old(self).holds(zero, *plus, keys, at),
            vi < distinct(keys).len(),
            at(distinct(keys)[vi as int]).len() < usize::MAX,
            forall|a: A, b: Vec3| plus.requires((a, b)),
        ensures
            final(self).holds(zero, *plus, keys, attached(at, distinct(keys)[vi as int], value)),
    {
        let ghost d = distinct(keys);
        let ghost key = d[vi as int];
        let ghost more = attached(at, key, value);
        let ghost sum_before = self.sums@[vi as int];
        let sum: A = plus(self.sums[vi], value);
        self.sums.set(vi, sum);
        let count: usize = self.counts[vi] + 1;
        self.counts.set(vi, count);
        proof {
            law_vertices_distinct(keys);
            lemma_folds_to_push(*plus, zero, at(key), sum_before, value, sum);
            assert forall|v: int| 0 <= v < d.len() implies folds_to(
                *plus,
                zero,
                more(d[v]),
                #[trigger] self.sums@[v],
            ) by {
                if v != vi {
                    assert(d[v] != key);
                    assert(self.sums@[v] == old(self).sums@[v]);
                }
            }
            assert forall|v: int| 0 <= v < d.len() implies #[trigger] self.counts@[v] == more(
                d[v],
            ).len() by {
                if v != vi {
                    assert(d[v] != key);
                    assert(self.counts@[v] == old(self).counts@[v]);
                }
            }
            assert(d.contains(key));
            assert(forall|k: VertexKey| !d.contains(k) ==> (#[trigger] more(k)) == at(k));
        }
    }
}

/// The values at each grid point after one more at `key`.
spec fn attached(
    at: spec_fn(VertexKey) -> Seq<Vec3>,
    key: VertexKey,
    value: Vec3,
) -> spec_fn(VertexKey) -> Seq<Vec3> {
    |k: VertexKey|
        if k == key {
            at(k).push(value)
        } else {
            at(k)
        }
}

/// The values at each grid point of the first `n` patches.
spec fn gathered(
    keys: Seq<VertexKey>,
    radiosities: Seq<Vec3>,
    n: int,
) -> spec_fn(VertexKey) -> Seq<Vec3> {
    |k: VertexKey| incident(keys, radiosities, n, k)
}

// ---------------------------------------------------------------------------
// Per-vertex radiosity
// ---------------------------------------------------------------------------

/// Whether `verts` gives every corner of the first `n` patches its vertex.
pub open spec fn corners_placed(keys: Seq<VertexKey>, n: int, verts: Seq<PatchVerts>) -> bool {
    &&& verts.len() == n
    &&& forall|p: int, j: int|
        0 <= p < n && 0 <= j < 3 ==> #[trigger] corner_vertex(verts[p], j) < distinct(keys).len()
            && distinct(keys)[corner_vertex(verts[p], j) as int] == keys[3 * p + j]
}

/// Whether `radiosity` gives every vertex the mean of the patches at it.
pub open spec fn vertices_averaged<A, P: Fn(A, Vec3) -> A, M: Fn(A, usize) -> Vec3>(
    zero: A,
    plus: P,
    mean: M,
    keys: Seq<VertexKey>,
    radiosities: Seq<Vec3>,
    n: int,
    radiosity: Seq<Vec3>,
) -> bool {
    &&& radiosity.len() == distinct(keys).len()
    &&& forall|v: int|
        0 <= v < radiosity.len() ==> averaged(
            zero,
            plus,
            mean,
            incident(keys, radiosities, n, distinct(keys)[v]),
            #[trigger] radiosity[v],
        )
}

/// Whether every patch has its vertices, and they are in the vertex list.
pub open spec fn vertices_known(n: int, verts: Seq<PatchVerts>, n_verts: int) -> bool {
    &&& verts.len() == n
    &&& forall|i: int|
        0 <= i < n ==> {
            let v = #[trigger] verts[i];
            v.vi0 < n_verts && v.vi1 < n_verts && v.vi2 < n_verts
        }
}

/// Whether `radiosity` and `verts` are the vertices of the patches.
pub open spec fn vertices_built<Q, A, P, M>(
    quantize: Q,
    zero: A,
    plus: P,
    mean: M,
    patches: Seq<ScenePatch>,
    radiosities: Seq<Vec3>,
    radiosity: Seq<Vec3>,
    verts: Seq<PatchVerts>,
) -> bool where Q: Fn(u32) -> i32, P: Fn(A, Vec3) -> A, M: Fn(A, usize) -> Vec3 {
    exists|keys: Seq<VertexKey>| #[trigger]
        corner_keys(quantize, patches, keys) && corners_placed(keys, patches.len() as int, verts)
            && vertices_averaged(
            zero,
            plus,
            mean,
            keys,
            radiosities,
            patches.len() as int,
            radiosity,
        )
}

/// Merges the patch corners that fall on the same grid point and gives each of
/// these vertices the mean radiosity of the patches at it; a patch counts once,
/// even if several of its corners merged there. Vertices are numbered in order of
/// first appearance. `quantize` places a coordinate on the grid, `plus` adds a
/// radiosity to a sum and `mean` divides a sum by a number of patches.
///
/// Returns the radiosity of every vertex and the vertices of every patch.
pub fn build_vertex_radiosity<Q, A, P, M>(
    patches: &[ScenePatch],
    radiosities: &[Vec3],
    quantize: Q,
    zero: A,
    plus: P,
    mean: M,
) -> (r: (Vec<Vec3>, Vec<PatchVerts>)) where
    Q: Fn(u32) -> i32,
    A: Copy,
    P: Fn(A, Vec3) -> A,
    M: Fn(A, usize) -> Vec3,

    requires
        patches@.len() <= radiosities@.len(),
        3 * patches@.len() <= usize::MAX,
        forall|x: u32| quantize.requires((x,)),
        forall|a: A, b: Vec3| plus.requires((a, b)),
        forall|a: A, n: usize| n > 0 ==> mean.requires((a, n)),
    ensures
        vertices_built(quantize, zero, plus, mean, patches@, radiosities@, r.0@, r.1@),
        vertices_known(patches@.len() as int, r.1@, r.0@.len() as int),
        r.0@.len() <= 3 * patches@.len(),
{
    let n: usize = patches.len();
    let mut table = VertexTable { index: HashMap::new(), sums: Vec::new(), counts: Vec::new() };
    let mut verts: Vec<PatchVerts> = Vec::new();
    let ghost mut keys: Seq<VertexKey> = Seq::empty();
    let mut i: usize = 0;
    proof {
        assert(forall|k: VertexKey| (#[trigger] gathered(keys, radiosities@, 0)(k)) == Seq::<
            Vec3,
        >::empty());
    }
    while i < n
        invariant
            i <= n,
            n == patches@.len(),
            n <= radiosities@.len(),
            3 * n <= usize::MAX,
            forall|x: u32| quantize.requires((x,)),
            forall|a: A, b: Vec3| plus.requires((a, b)),
            keys.len() == 3 * i,
            forall|c: int|
                0 <= c < keys.len() ==> quantised(
                    quantize,
                    patch_corner(patches@[c / 3], c % 3),
                    #[trigger] keys[c],
                ),
            table.holds(zero, plus, keys, gathered(keys, radiosities@, i as int)),
            corners_placed(keys, i as int, verts@),
        decreases n - i,
    {
        let radiosity: Vec3 = radiosities[i];
        let patch: &ScenePatch = &patches[i];
        let ghost at0 = gathered(keys, radiosities@, i as int);
        proof {
            assert forall|k: VertexKey| (#[trigger] at0(k)).len() <= i by {
                law_patches_count_once(keys, radiosities@, i as int, k);
            }
        }
        let k0 = place(patch.v0, &quantize);
        let vi0: usize = table.vertex(zero, &plus, k0, Ghost(keys), Ghost(at0));
        let ghost keys1 = keys.push(k0);
        table.attach(zero, &plus, vi0, radiosity, Ghost(keys1), Ghost(at0));
        let ghost at1 = attached(at0, k0, radiosity);
        let k1 = place(patch.v1, &quantize);
        let vi1: usize = table.vertex(zero, &plus, k1, Ghost(keys1), Ghost(at1));
        let ghost keys2 = keys1.push(k1);
        let ghost mut at2 = at1;
        proof {
            law_vertices_distinct(keys2);
            assert(distinct(keys2)[vi0 as int] == k0);
        }
        if vi1 != vi0 {
            table.attach(zero, &plus, vi1, radiosity, Ghost(keys2), Ghost(at1));
            proof {
                at2 = attached(at1, k1, radiosity);
            }
        }
        let k2 = place(patch.v2, &quantize);
        let vi2: usize = table.vertex(zero, &plus, k2, Ghost(keys2), Ghost(at2));
        let ghost keys3 = keys2.push(k2);
        let ghost mut at3 = at2;
        proof {
            law_vertices_distinct(keys3);
            assert(distinct(keys3)[vi0 as int] == k0);
            assert(distinct(keys3)[vi1 as int] == k1);
        }
        if vi2 != vi0 && vi2 != vi1 {
            table.attach(zero, &plus, vi2, radiosity, Ghost(keys3), Ghost(at2));
            proof {
                at3 = attached(at2, k2, radiosity);
            }
        }
        let ghost before = verts@;
        verts.push(PatchVerts { vi0, vi1, vi2 });
        proof {
            let d3 = distinct(keys3);
            assert forall|p: int, j: int| 0 <= p < i + 1 && 0 <= j < 3 implies #[trigger] corner_vertex(
                verts@[p],
                j,
            ) < d3.len() && d3[corner_vertex(verts@[p], j) as int] == keys3[3 * p + j] by {
                if p < i {
                    let v = corner_vertex(before[p], j);
                    assert(v < distinct(keys).len());
                    assert(d3[v as int] == distinct(keys)[v as int]);
                }
            }
            let goal = gathered(keys3, radiosities@, i + 1);
            assert forall|k: VertexKey| #[trigger] at3(k) == goal(k) by {
                lemma_incident_prefix(keys, keys3, radiosities@, i as int, k);
                assert(keys3[3 * i] == k0 && keys3[3 * i + 1] == k1 && keys3[3 * i + 2] == k2);
            }
            assert(at3 =~= goal);
            keys = keys3;
        }
        i += 1;
    }
    let ghost at = gathered(keys, radiosities@, n as int);
    let mut radiosity: Vec<Vec3> = Vec::new();
    let mut v: usize = 0;
    while v < table.sums.len()
        invariant
            v <= table.sums@.len(),
            keys.len() == 3 * n,
            3 * n <= usize::MAX,
            at == gathered(keys, radiosities@, n as int),
            table.holds(zero, plus, keys, at),
            forall|a: A, n: usize| n > 0 ==> mean.requires((a, n)),
            radiosity@.len() == v,
            forall|w: int|
                0 <= w < v ==> averaged(
                    zero,
                    plus,
                    mean,
                    incident(keys, radiosities@, n as int, distinct(keys)[w]),
                    #[trigger] radiosity@[w],
                ),
        decreases table.sums@.len() - v,
    {
        let ghost key = distinct(keys)[v as int];
        proof {
            law_vertices_incident(keys, radiosities@, n as int, v as int);
            law_patches_count_once(keys, radiosities@, n as int, key);
            assert(at(key) == incident(keys, radiosities@, n as int, key));
        }
        let r: Vec3 = mean(table.sums[v], table.counts[v]);
        proof {
            assert(folds_to(plus, zero, at(key), table.sums@[v as int]));
            assert(at(key).len() as usize == table.counts@[v as int]);
        }
        radiosity.push(r);
        v += 1;
    }
    assert(corner_keys(quantize, patches@, keys));
    proof {
        lemma_distinct_bounded(keys);
        assert forall|p: int| 0 <= p < n implies {
            let v = #[trigger] verts@[p];
            v.vi0 < radiosity@.len() && v.vi1 < radiosity@.len() && v.vi2 < radiosity@.len()
        } by {
            assert(corner_vertex(verts@[p], 0) < distinct(keys).len());
            assert(corner_vertex(verts@[p], 1) < distinct(keys).len());
            assert(corner_vertex(verts@[p], 2) < distinct(keys).len());
        }
    }
    (radiosity, verts)
}

fn place<Q: Fn(u32) -> i32>(v: Vec3, quantize: &Q) -> (r: VertexKey)
    requires
        forall|x: u32| quantize.requires((x,)),
    ensures
        quantised(*quantize, v, r),
{
    VertexKey { x: quantize(v.x), y: quantize(v.y), z: quantize(v.z) }
}

// ---------------------------------------------------------------------------
// What a call comes to
// ---------------------------------------------------------------------------

/// Whether two points lie at the same point of a grid, in all three coordinates.
pub open spec fn same_point(grid: spec_fn(u32) -> i32, a: Vec3, b: Vec3) -> bool {
    grid(a.x) == grid(b.x) && grid(a.y) == grid(b.y) && grid(a.z) == grid(b.z)
}

/// Among the vertices of patches, two corners of any patches have the same vertex
/// exactly if the grid takes all three of their coordinates to the same place.
pub proof fn law_merges_corners<Q, A, P, M>(
    patches: Seq<ScenePatch>,
    radiosities: Seq<Vec3>,
    quantize: Q,
    zero: A,
    plus: P,
    mean: M,
    means: Seq<Vec3>,
    verts: Seq<PatchVerts>,
    grid: spec_fn(u32) -> i32,
    p: int,
    q: int,
) where Q: Fn(u32) -> i32, P: Fn(A, Vec3) -> A, M: Fn(A, usize) -> Vec3
    requires
        vertices_built(quantize, zero, plus, mean, patches, radiosities, means, verts),
        forall|x: u32, k: i32| #[trigger] quantize.ensures((x,), k) ==> k == grid(x),
        0 <= p < patches.len(),
        0 <= q < patches.len(),
    ensures
        verts.len() == patches.len(),
        verts[p].vi0 == verts[q].vi0 <==> same_point(grid, patches[p].v0, patches[q].v0),
        verts[p].vi1 == verts[q].vi1 <==> same_point(grid, patches[p].v1, patches[q].v1),
        verts[p].vi2 == verts[q].vi2 <==> same_point(grid, patches[p].v2, patches[q].v2),
        verts[p].vi0 == verts[q].vi1 <==> same_point(grid, patches[p].v0, patches[q].v1),
        verts[p].vi0 == verts[q].vi2 <==> same_point(grid, patches[p].v0, patches[q].v2),
        verts[p].vi1 == verts[q].vi2 <==> same_point(grid, patches[p].v1, patches[q].v2),
{
    let n = patches.len() as int;
    let keys = choose|keys: Seq<VertexKey>| #[trigger]
        corner_keys(quantize, patches, keys) && corners_placed(keys, n, verts)
            && vertices_averaged(zero, plus, mean, keys, radiosities, n, means);
    lemma_key_of_corner(quantize, patches, keys, grid, p);
    lemma_key_of_corner(quantize, patches, keys, grid, q);
    law_corners_share_vertices(keys, n, verts, p, 0, q, 0);
    law_corners_share_vertices(keys, n, verts, p, 1, q, 1);
    law_corners_share_vertices(keys, n, verts, p, 2, q, 2);
    law_corners_share_vertices(keys, n, verts, p, 0, q, 1);
    law_corners_share_vertices(keys, n, verts, p, 0, q, 2);
    law_corners_share_vertices(keys, n, verts, p, 1, q, 2);
}

/// In the result of a call of `build_vertex_radiosity`, two corners of any patches
/// have the same vertex exactly if the grid takes all three of their coordinates to
/// the same place.
pub proof fn law_call_merges_corners<Q, A, P, M>(
    patches: &[ScenePatch],
    radiosities: &[Vec3],
    quantize: Q,
    zero: A,
    plus: P,
    mean: M,
    r: (Vec<Vec3>, Vec<PatchVerts>),
    grid: spec_fn(u32) -> i32,
    p: int,
    q: int,
) where Q: Fn(u32) -> i32, A: Copy, P: Fn(A, Vec3) -> A, M: Fn(A, usize) -> Vec3
    requires
        call_ensures(
            build_vertex_radiosity::<Q, A, P, M>,
            (patches, radiosities, quantize, zero, plus, mean),
            r,
        ),
        forall|x: u32, k: i32| #[trigger] quantize.ensures((x,), k) ==> k == grid(x),
        0 <= p < patches@.len(),
        0 <= q < patches@.len(),
    ensures
        r.1@.len() == patches@.len(),
        r.1@[p].vi0 == r.1@[q].vi0 <==> same_point(grid, patches@[p].v0, patches@[q].v0),
        r.1@[p].vi1 == r.1@[q].vi1 <==> same_point(grid, patches@[p].v1, patches@[q].v1),
        r.1@[p].vi2 == r.1@[q].vi2 <==> same_point(grid, patches@[p].v2, patches@[q].v2),
        r.1@[p].vi0 == r.1@[q].vi1 <==> same_point(grid, patches@[p].v0, patches@[q].v1),
        r.1@[p].vi0 == r.1@[q].vi2 <==> same_point(grid, patches@[p].v0, patches@[q].v2),
        r.1@[p].vi1 == r.1@[q].vi2 <==> same_point(grid, patches@[p].v1, patches@[q].v2),
{
    law_merges_corners(
        patches@,
        radiosities@,
        quantize,
        zero,
        plus,
        mean,
        r.0@,
        r.1@,
        grid,
        p,
        q,
    );
}

/// The grid point of a corner takes all three of its coordinates.
proof fn lemma_key_of_corner<Q: Fn(u32) -> i32>(
    quantize: Q,
    patches: Seq<ScenePatch>,
    keys: Seq<VertexKey>,
    grid: spec_fn(u32) -> i32,
    p: int,
)
    requires
        corner_keys(quantize, patches, keys),
        forall|x: u32, k: i32| #[trigger] quantize.ensures((x,), k) ==> k == grid(x),
        0 <= p < patches.len(),
    ensures
        keys[3 * p] == (VertexKey {
            x: grid(patches[p].v0.x),
            y: grid(patches[p].v0.y),
            z: grid(patches[p].v0.z),
        }),
        keys[3 * p + 1] == (VertexKey {
            x: grid(patches[p].v1.x),
            y: grid(patches[p].v1.y),
            z: grid(patches[p].v1.z),
        }),
        keys[3 * p + 2] == (VertexKey {
            x: grid(patches[p].v2.x),
            y: grid(patches[p].v2.y),
            z: grid(patches[p].v2.z),
        }),
{
    let c = 3 * p;
    assert(quantised(quantize, patch_corner(patches[c / 3], c % 3), keys[c]));
    assert(quantised(quantize, patch_corner(patches[(c + 1) / 3], (c + 1) % 3), keys[c + 1]));
    assert(quantised(quantize, patch_corner(patches[(c + 2) / 3], (c + 2) % 3), keys[c + 2]));
}

/// The patches among the first `n` that have a corner at `key`, in order.
spec fn touching(keys: Seq<VertexKey>, n: int, key: VertexKey) -> Seq<int>
    decreases n,
{
    if n <= 0 {
        Seq::empty()
    } else if touches(keys, n - 1, key) {
        touching(keys, n - 1, key).push(n - 1)
    } else {
        touching(keys, n - 1, key)
    }
}

proof fn lemma_touching(keys: Seq<VertexKey>, radiosities: Seq<Vec3>, n: int, key: VertexKey)
    requires
        n >= 0,
    ensures
        touching(keys, n, key).len() == incident(keys, radiosities, n, key).len(),
        forall|k: int|
            0 <= k < touching(keys, n, key).len() ==> 0 <= #[trigger] touching(keys, n, key)[k] < n
                && incident(keys, radiosities, n, key)[k] == radiosities[touching(keys, n, key)[k]],
        forall|j: int, k: int|
            0 <= j < k < touching(keys, n, key).len() ==> #[trigger] touching(keys, n, key)[j]
                < #[trigger] touching(keys, n, key)[k],
        forall|p: int|
            0 <= p < n ==> (#[trigger] touching(keys, n, key).contains(p) <==> touches(
                keys,
                p,
                key,
            )),
    decreases n,
{
    if n > 0 {
        lemma_touching(keys, radiosities, n - 1, key);
        let before = touching(keys, n - 1, key);
        let now = touching(keys, n, key);
        assert forall|p: int| 0 <= p < n implies (#[trigger] now.contains(p) <==> touches(
            keys,
            p,
            key,
        )) by {
            if p < n - 1 {
                assert(before.contains(p) <==> touches(keys, p, key));
                if before.contains(p) {
                    let k = before.index_of(p);
                    assert(now[k] == p);
                }
                if now.contains(p) {
                    let k = now.index_of(p);
                    if k < before.len() {
                        assert(before[k] == p);
                    }
                }
            } else {
                if touches(keys, p, key) {
                    assert(now[before.len() as int] == p);
                }
                if now.contains(p) && !touches(keys, p, key) {
                    let k = now.index_of(p);
                    assert(before[k] == p);
                }
            }
        }
    }
}

/// Whether `at` lists, in order, the patches with a corner at vertex `v`, all of them
/// and no other, and `out` is the mean of their radiosities, added up in `sums`.
pub open spec fn mean_at<A, P: Fn(A, Vec3) -> A, M: Fn(A, usize) -> Vec3>(
    zero: A,
    plus: P,
    mean: M,
    radiosities: Seq<Vec3>,
    verts: Seq<PatchVerts>,
    v: int,
    at: Seq<int>,
    sums: Seq<A>,
    out: Vec3,
) -> bool {
    &&& at.len() > 0
    &&& forall|j: int, k: int| 0 <= j < k < at.len() ==> #[trigger] at[j] < #[trigger] at[k]
    &&& forall|k: int| 0 <= k < at.len() ==> 0 <= #[trigger] at[k] < verts.len()
    &&& forall|p: int|
        0 <= p < verts.len() ==> (#[trigger] at.contains(p) <==> verts[p].vi0 == v || verts[p].vi1
            == v || verts[p].vi2 == v)
    &&& sums.len() == at.len() + 1
    &&& sums[0] == zero
    &&& forall|k: int|
        0 <= k < at.len() ==> plus.ensures((sums[k], radiosities[at[k]]), #[trigger] sums[k + 1])
    &&& mean.ensures((sums[at.len() as int], at.len() as usize), out)
}

/// Among the vertices of patches, every vertex has the mean of the patches that have a
/// corner there: each of them once, in order, and no other.
pub proof fn law_averages_patches<Q, A, P, M>(
    patches: Seq<ScenePatch>,
    radiosities: Seq<Vec3>,
    quantize: Q,
    zero: A,
    plus: P,
    mean: M,
    means: Seq<Vec3>,
    verts: Seq<PatchVerts>,
    v: int,
) where Q: Fn(u32) -> i32, P: Fn(A, Vec3) -> A, M: Fn(A, usize) -> Vec3
    requires
        vertices_built(quantize, zero, plus, mean, patches, radiosities, means, verts),
        0 <= v < means.len(),
    ensures
        exists|at: Seq<int>, sums: Seq<A>| #[trigger]
            mean_at(zero, plus, mean, radiosities, verts, v, at, sums, means[v]),
{
    let n = patches.len() as int;
    let keys = choose|keys: Seq<VertexKey>| #[trigger]
        corner_keys(quantize, patches, keys) && corners_placed(keys, n, verts)
            && vertices_averaged(zero, plus, mean, keys, radiosities, n, means);
    let key = distinct(keys)[v];
    let values = incident(keys, radiosities, n, key);
    assert(averaged(zero, plus, mean, values, means[v]));
    let sum = choose|sum: A| #[trigger]
        folds_to(plus, zero, values, sum) && mean.ensures((sum, values.len() as usize), means[v]);
    let sums = choose|t: Seq<A>| #[trigger] folds(plus, zero, values, t) && t.last() == sum;
    let at = touching(keys, n, key);
    lemma_touching(keys, radiosities, n, key);
    law_vertices_incident(keys, radiosities, n, v);
    law_vertices_distinct(keys);
    assert forall|p: int| 0 <= p < n implies (#[trigger] at.contains(p) <==> verts[p].vi0 == v
        || verts[p].vi1 == v || verts[p].vi2 == v) by {
        let w = verts[p];
        assert(corner_vertex(w, 0) < distinct(keys).len() && distinct(keys)[corner_vertex(w, 0) as int]
            == keys[3 * p + 0]);
        assert(corner_vertex(w, 1) < distinct(keys).len() && distinct(keys)[corner_vertex(w, 1) as int]
            == keys[3 * p + 1]);
        assert(corner_vertex(w, 2) < distinct(keys).len() && distinct(keys)[corner_vertex(w, 2) as int]
            == keys[3 * p + 2]);
        assert(at.contains(p) <==> touches(keys, p, key));
    }
    assert forall|k: int| 0 <= k < at.len() implies plus.ensures(
        (sums[k], radiosities[at[k]]),
        #[trigger] sums[k + 1],
    ) by {
        assert(values[k] == radiosities[at[k]]);
        assert(plus.ensures((sums[k], values[k]), sums[k + 1]));
    }
    assert(mean_at(zero, plus, mean, radiosities, verts, v, at, sums, means[v]));
}

/// In the result of a call of `build_vertex_radiosity`, every vertex has the mean of
/// the patches that have a corner there: each of them once, in order, and no other.
pub proof fn law_call_averages_patches<Q, A, P, M>(
    patches: &[ScenePatch],
    radiosities: &[Vec3],
    quantize: Q,
    zero: A,
    plus: P,
    mean: M,
    r: (Vec<Vec3>, Vec<PatchVerts>),
    v: int,
) where Q: Fn(u32) -> i32, A: Copy, P: Fn(A, Vec3) -> A, M: Fn(A, usize) -> Vec3
    requires
        call_ensures(
            build_vertex_radiosity::<Q, A, P, M>,
            (patches, radiosities, quantize, zero, plus, mean),
            r,
        ),
        0 <= v < r.0@.len(),
    ensures
        exists|at: Seq<int>, sums: Seq<A>| #[trigger]
            mean_at(zero, plus, mean, radiosities@, r.1@, v, at, sums, r.0@[v]),
{
    law_averages_patches(
        patches@,
        radiosities@,
        quantize,
        zero,
        plus,
        mean,
        r.0@,
        r.1@,
        v,
    );
}

/// In the result of a call of `build_vertex_radiosity`, vertices are numbered in the
/// order in which corners first meet them: any number below that of a corner belongs
/// to a corner of an earlier patch or to an earlier corner of the same one.
pub proof fn law_call_numbers_in_order<Q, A, P, M>(
    patches: &[ScenePatch],
    radiosities: &[Vec3],
    quantize: Q,
    zero: A,
    plus: P,
    mean: M,
    r: (Vec<Vec3>, Vec<PatchVerts>),
    p: int,
    w: int,
) where Q: Fn(u32) -> i32, A: Copy, P: Fn(A, Vec3) -> A, M: Fn(A, usize) -> Vec3
    requires
        call_ensures(
            build_vertex_radiosity::<Q, A, P, M>,
            (patches, radiosities, quantize, zero, plus, mean),
            r,
        ),
        0 <= p < patches@.len(),
        0 <= w,
    ensures
        ({
            let earlier = exists|q: int|
                0 <= q < p && ((#[trigger] r.1@[q]).vi0 == w || r.1@[q].vi1 == w || r.1@[q].vi2
                    == w);
            let v = r.1@[p];
            &&& w < v.vi0 ==> earlier
            &&& w < v.vi1 ==> earlier || w == v.vi0
            &&& w < v.vi2 ==> earlier || w == v.vi0 || w == v.vi1
        }),
{
    let n = patches@.len() as int;
    let keys = choose|keys: Seq<VertexKey>| #[trigger]
        corner_keys(quantize, patches@, keys) && corners_placed(keys, n, r.1@)
            && vertices_averaged(zero, plus, mean, keys, radiosities@, n, r.0@);
    let v = r.1@[p];
    if w < v.vi0 {
        lemma_lower_given(keys, n, r.1@, p, 0, w);
    }
    if w < v.vi1 {
        lemma_lower_given(keys, n, r.1@, p, 1, w);
    }
    if w < v.vi2 {
        lemma_lower_given(keys, n, r.1@, p, 2, w);
    }
}

proof fn lemma_lower_given(
    keys: Seq<VertexKey>,
    n: int,
    verts: Seq<PatchVerts>,
    p: int,
    j: int,
    w: int,
)
    requires
        keys.len() == 3 * n,
        corners_placed(keys, n, verts),
        0 <= p < n,
        0 <= j < 3,
        0 <= w < corner_vertex(verts[p], j),
    ensures
        exists|q: int, i: int|
            0 <= q <= p && 0 <= i < 3 && (q < p || i < j) && #[trigger] corner_vertex(verts[q], i)
                == w,
{
    let d = distinct(keys);
    let c = 3 * p + j;
    let v = corner_vertex(verts[p], j);
    assert(v < d.len() && d[v as int] == keys[3 * p + j]);
    law_vertices_distinct(keys);
    lemma_prefix_distinct(keys, c);
    lemma_prefix_distinct(keys, c + 1);
    let before = distinct(keys.take(c));
    let after = distinct(keys.take(c + 1));
    assert(keys.take(c + 1).drop_last() =~= keys.take(c));
    assert(keys.take(c + 1).last() == keys[c]);
    law_vertices_complete(keys.take(c + 1), keys[c]);
    assert(keys.take(c + 1)[c] == keys[c]);
    let k = after.index_of(keys[c]);
    assert(d[k] == keys[c]);
    assert(k == v);
    assert(w < before.len());
    assert(before[w] == d[w]);
    law_vertices_complete(keys.take(c), d[w]);
    assert(before.contains(d[w]));
    let e = keys.take(c).index_of(d[w]);
    assert(keys[e] == d[w]);
    let (q, i) = (e / 3, e % 3);
    assert(corner_vertex(verts[q], i) < d.len() && d[corner_vertex(verts[q], i) as int] == keys[3 * q
        + i]);
    assert(3 * q + i == e);
}

proof fn lemma_prefix_distinct(keys: Seq<VertexKey>, n: int)
    requires
        0 <= n <= keys.len(),
    ensures
        distinct(keys.take(n)).len() <= n,
        distinct(keys.take(n)).is_prefix_of(distinct(keys)),
    decreases keys.len(),
{
    if n == keys.len() {
        assert(keys.take(n) =~= keys);
        lemma_distinct_len(keys);
    } else {
        let before = keys.drop_last();
        lemma_prefix_distinct(before, n);
        assert(before.take(n) =~= keys.take(n));
    }
}

proof fn lemma_distinct_len(keys: Seq<VertexKey>)
    ensures
        distinct(keys).len() <= keys.len(),
    decreases keys.len(),
{
    if keys.len() > 0 {
        lemma_distinct_len(keys.drop_last());
    }
}

} // verus!
