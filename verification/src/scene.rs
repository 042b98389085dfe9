//! Scene discretisation: faces of a loaded mesh become a lattice of patches, and
//! the faces of interior objects become occluders as well.

use vstd::prelude::*;

use crate::abi::Patch;
use crate::ieee::{le, less, lt, zero3, Vec3, ONE, ZERO};
use crate::text::same_text;

verus! {

/// `1.0e-12`: faces smaller than this are skipped.
pub const MIN_AREA: u32 = 0x2B8C_BCCC;

/// `0.5`: reflectance of a surface without a material.
pub const DEFAULT_REFLECTANCE: u32 = 0x3F00_0000;

// ---------------------------------------------------------------------------
// Scene
// ---------------------------------------------------------------------------

/// A host-side scene patch: the device descriptor with material data and the
/// triangle it covers.
#[derive(Debug)]
pub struct ScenePatch {
    /// Geometry descriptor uploaded to the device.
    pub abi: Patch,
    /// Diffuse reflectance, RGB; in [0, 1] if that of the material is.
    pub reflectance: Vec3,
    /// Self-emission radiance, RGB; non-zero only for light sources.
    pub emission: Vec3,
    /// Triangle vertices in world space.
    pub v0: Vec3,
    pub v1: Vec3,
    pub v2: Vec3,
    /// Material name.
    pub material: String,
}

impl Clone for ScenePatch {
    fn clone(&self) -> (r: ScenePatch)
        ensures
            r == *self,
    {
        ScenePatch {
            abi: self.abi,
            reflectance: self.reflectance,
            emission: self.emission,
            v0: self.v0,
            v1: self.v1,
            v2: self.v2,
            material: self.material.clone(),
        }
    }
}

/// An un-tessellated face triangle used for shadow-ray visibility testing.
#[derive(Clone, Copy, Debug, PartialEq, Eq, Structural)]
pub struct OccluderTriangle {
    pub v0: Vec3,
    pub v1: Vec3,
    pub v2: Vec3,
}

/// The patches and the occluders of a scene.
pub struct Scene {
    pub patches: Vec<ScenePatch>,
    pub occluders: Vec<OccluderTriangle>,
}

/// Whether a name is that of a material of the room envelope.
pub open spec fn wall_material(name: Seq<char>) -> bool {
    name == "white"@ || name == "red"@ || name == "green"@ || name == "light"@
}

/// Whether a material belongs to the room envelope, whose faces never occlude.
/// Any other material is that of interior geometry.
pub fn is_wall_material(name: &str) -> (r: bool)
    ensures
        r == wall_material(name@),
{
    same_text(name, "white") || same_text(name, "red") || same_text(name, "green") || same_text(
        name,
        "light",
    )
}

// ---------------------------------------------------------------------------
// Lattice
// ---------------------------------------------------------------------------

/// A sub-triangle of a face that is cut into `divs` rows: `upper` ones point away
/// from the first corner.
#[derive(Clone, Copy, Debug, PartialEq, Eq, Structural)]
pub struct Cell {
    pub row: usize,
    pub col: usize,
    pub upper: bool,
}

/// A point of the lattice, in steps along the edge to the second corner and along
/// the edge to the third.
#[derive(Clone, Copy, Debug, PartialEq, Eq, Structural)]
pub struct LatticePoint {
    pub u: usize,
    pub v: usize,
}

/// The cells of one row, left to right, lower and upper in turn.
pub open spec fn row_cells(divs: int, row: int) -> Seq<Cell> {
    Seq::new(
        (2 * (divs - row) - 1) as nat,
        |k: int| Cell { row: row as usize, col: (k / 2) as usize, upper: k % 2 == 1 },
    )
}

/// The cells of the first `rows` rows.
pub open spec fn cells_before(divs: int, rows: int) -> Seq<Cell>
    decreases rows,
{
    if rows <= 0 {
        Seq::empty()
    } else {
        cells_before(divs, rows - 1) + row_cells(divs, rows - 1)
    }
}

/// All cells of a face.
pub open spec fn lattice(divs: int) -> Seq<Cell> {
    cells_before(divs, divs)
}

/// Whether a cell lies on the face.
pub open spec fn on_face(divs: int, c: Cell) -> bool {
    c.row + c.col + (if c.upper {
        1int
    } else {
        0
    }) < divs
}

/// Lattice coordinates of corner `j` of a cell.
pub open spec fn cell_corner(c: Cell, j: int) -> (int, int) {
    let (r, k) = (c.row as int, c.col as int);
    if c.upper {
        if j == 0 {
            (k + 1, r)
        } else if j == 1 {
            (k + 1, r + 1)
        } else {
            (k, r + 1)
        }
    } else {
        if j == 0 {
            (k, r)
        } else if j == 1 {
            (k + 1, r)
        } else {
            (k, r + 1)
        }
    }
}

/// Twice the signed area of a cell, in lattice steps.
pub open spec fn doubled_area(c: Cell) -> int {
    let (a, b, d) = (cell_corner(c, 0), cell_corner(c, 1), cell_corner(c, 2));
    (b.0 - a.0) * (d.1 - a.1) - (d.0 - a.0) * (b.1 - a.1)
}

/// Whether the point `(p / m, q / m)` lies in a cell, its border included.
pub open spec fn cell_holds(c: Cell, m: int, p: int, q: int) -> bool {
    let (x, y) = (p - c.col * m, q - c.row * m);
    if c.upper {
        x <= m && y <= m && x + y >= m
    } else {
        x >= 0 && y >= 0 && x + y <= m
    }
}

/// Whether the point `(p / m, q / m)` lies inside a cell, off its border.
pub open spec fn cell_interior(c: Cell, m: int, p: int, q: int) -> bool {
    let (x, y) = (p - c.col * m, q - c.row * m);
    if c.upper {
        x < m && y < m && x + y > m
    } else {
        x > 0 && y > 0 && x + y < m
    }
}

proof fn lemma_cells_before_len(divs: int, rows: int)
    requires
        0 <= rows <= divs,
    ensures
        cells_before(divs, rows).len() == divs * divs - (divs - rows) * (divs - rows),
    decreases rows,
{
    if rows > 0 {
        lemma_cells_before_len(divs, rows - 1);
        assert(divs * divs - (divs - rows + 1) * (divs - rows + 1) + 2 * (divs - rows + 1) - 1 == divs
            * divs - (divs - rows) * (divs - rows)) by (nonlinear_arith);
    } else {
        assert(divs * divs - (divs - 0) * (divs - 0) == 0) by (nonlinear_arith);
    }
}

/// A face of `divs` rows has `divs * divs` cells.
pub proof fn law_lattice_count(divs: usize)
    ensures
        lattice(divs as int).len() == divs * divs,
{
    lemma_cells_before_len(divs as int, divs as int);
    assert((divs - divs) * (divs - divs) == 0) by (nonlinear_arith);
}

proof fn lemma_cells_before_members(divs: usize, rows: int, c: Cell)
    requires
        0 <= rows <= divs,
    ensures
        cells_before(divs as int, rows).contains(c) <==> c.row < rows && on_face(divs as int, c),
    decreases rows,
{
    if rows > 0 {
        lemma_cells_before_members(divs, rows - 1, c);
        let (a, b) = (cells_before(divs as int, rows - 1), row_cells(divs as int, rows - 1));
        let s = cells_before(divs as int, rows);
        if a.contains(c) {
            let i = a.index_of(c);
            assert(s[i] == c);
        }
        if c.row == rows - 1 && on_face(divs as int, c) {
            let k = 2 * c.col + (if c.upper {
                1int
            } else {
                0
            });
            assert(b[k] == c);
            assert(s[a.len() + k] == c);
        }
        if s.contains(c) {
            let i = s.index_of(c);
            if i < a.len() {
                assert(a[i] == c);
            } else {
                assert(b[i - a.len()] == c);
            }
        }
    }
}

/// The lattice lists exactly the cells on the face.
pub proof fn law_lattice_members(divs: usize, c: Cell)
    ensures
        lattice(divs as int).contains(c) <==> on_face(divs as int, c),
{
    lemma_cells_before_members(divs, divs as int, c);
}

/// No cell is listed twice.
pub proof fn law_lattice_distinct(divs: usize)
    ensures
        lattice(divs as int).no_duplicates(),
{
    lemma_cells_before_distinct(divs, divs as int);
}

proof fn lemma_cells_before_distinct(divs: usize, rows: int)
    requires
        0 <= rows <= divs,
    ensures
        cells_before(divs as int, rows).no_duplicates(),
    decreases rows,
{
    if rows > 0 {
        lemma_cells_before_distinct(divs, rows - 1);
        let (a, b) = (cells_before(divs as int, rows - 1), row_cells(divs as int, rows - 1));
        let s = cells_before(divs as int, rows);
        assert forall|i: int, j: int| 0 <= i < j < s.len() implies s[i] != s[j] by {
            if j >= a.len() {
                assert(s[j] == b[j - a.len()]);
                if i < a.len() {
                    assert(s[i] == a[i]);
                    assert(a.contains(a[i]));
                    lemma_cells_before_members(divs, rows - 1, a[i]);
                } else {
                    assert(s[i] == b[i - a.len()]);
                }
            } else {
                assert(s[i] == a[i] && s[j] == a[j]);
            }
        }
    }
}

/// The corners of a cell lie on the face.
pub proof fn law_cell_inside(divs: usize, c: Cell, j: int)
    requires
        on_face(divs as int, c),
        0 <= j < 3,
    ensures
        cell_corner(c, j).0 >= 0,
        cell_corner(c, j).1 >= 0,
        cell_corner(c, j).0 + cell_corner(c, j).1 <= divs,
{
}

/// All cells have the same area and the winding of the face.
pub proof fn law_cell_area(c: Cell)
    ensures
        doubled_area(c) == 1,
{
    let (a, b, d) = (cell_corner(c, 0), cell_corner(c, 1), cell_corner(c, 2));
    if c.upper {
        assert(b.0 - a.0 == 0 && d.1 - a.1 == 1 && d.0 - a.0 == -1 && b.1 - a.1 == 1);
    } else {
        assert(b.0 - a.0 == 1 && d.1 - a.1 == 1 && d.0 - a.0 == 0 && b.1 - a.1 == 0);
    }
}

/// Whether two lattice points are one step apart along an edge of the face.
pub open spec fn one_step(a: (int, int), b: (int, int)) -> bool {
    let (u, v) = (b.0 - a.0, b.1 - a.1);
    ||| (u == 1 || u == -1) && v == 0
    ||| u == 0 && (v == 1 || v == -1)
    ||| (u == 1 || u == -1) && v == -u
}

/// Every edge of a cell is one lattice step along an edge of the face.
pub proof fn law_cell_edges(c: Cell, i: int, j: int)
    requires
        0 <= i < 3,
        0 <= j < 3,
        i != j,
    ensures
        one_step(cell_corner(c, i), cell_corner(c, j)),
{
}

/// `divs` times the coordinate of a lattice point, on a face whose corners have
/// the coordinates `x`, `y` and `z`.
pub open spec fn scaled_coordinate(divs: int, x: int, y: int, z: int, at: (int, int)) -> int {
    (divs - at.0 - at.1) * x + at.0 * y + at.1 * z
}

/// `divs` times the point of a face at a lattice point.
pub open spec fn scaled_point(
    divs: int,
    a: (int, int, int),
    b: (int, int, int),
    c: (int, int, int),
    at: (int, int),
) -> (int, int, int) {
    (
        scaled_coordinate(divs, a.0, b.0, c.0, at),
        scaled_coordinate(divs, a.1, b.1, c.1, at),
        scaled_coordinate(divs, a.2, b.2, c.2, at),
    )
}

/// The squared distance of two points.
pub open spec fn distance_squared(p: (int, int, int), q: (int, int, int)) -> int {
    (q.0 - p.0) * (q.0 - p.0) + (q.1 - p.1) * (q.1 - p.1) + (q.2 - p.2) * (q.2 - p.2)
}

/// No edge of a patch is longer than the longest edge of its face divided by the
/// number of rows, so rows enough for the face keep patches within a given side.
/// Stated of points with whole coordinates: `divs` times the edge of the patch
/// stays within any bound on the edges of the face.
pub proof fn law_patch_size(
    divs: int,
    a: (int, int, int),
    b: (int, int, int),
    c: (int, int, int),
    cell: Cell,
    i: int,
    j: int,
    bound: int,
)
    requires
        0 <= i < 3,
        0 <= j < 3,
        i != j,
        distance_squared(a, b) <= bound,
        distance_squared(a, c) <= bound,
        distance_squared(b, c) <= bound,
    ensures
        distance_squared(
            scaled_point(divs, a, b, c, cell_corner(cell, i)),
            scaled_point(divs, a, b, c, cell_corner(cell, j)),
        ) <= bound,
{
    let (s, t) = (cell_corner(cell, i), cell_corner(cell, j));
    law_cell_edges(cell, i, j);
    let (u, v) = (t.0 - s.0, t.1 - s.1);
    lemma_step_difference(divs, a.0, b.0, c.0, s, t);
    lemma_step_difference(divs, a.1, b.1, c.1, s, t);
    lemma_step_difference(divs, a.2, b.2, c.2, s, t);
    let (p, q) = (scaled_point(divs, a, b, c, s), scaled_point(divs, a, b, c, t));
    let d = (q.0 - p.0, q.1 - p.1, q.2 - p.2);
    let ab = (b.0 - a.0, b.1 - a.1, b.2 - a.2);
    let ac = (c.0 - a.0, c.1 - a.1, c.2 - a.2);
    let bc = (c.0 - b.0, c.1 - b.1, c.2 - b.2);
    lemma_squares(d, ab);
    lemma_squares(d, ac);
    lemma_squares(d, bc);
}

proof fn lemma_step_difference(
    divs: int,
    x: int,
    y: int,
    z: int,
    s: (int, int),
    t: (int, int),
)
    requires
        one_step(s, t),
    ensures
        ({
            let d = scaled_coordinate(divs, x, y, z, t) - scaled_coordinate(divs, x, y, z, s);
            let (u, v) = (t.0 - s.0, t.1 - s.1);
            &&& u == 1 && v == 0 ==> d == y - x
            &&& u == -1 && v == 0 ==> d == -(y - x)
            &&& u == 0 && v == 1 ==> d == z - x
            &&& u == 0 && v == -1 ==> d == -(z - x)
            &&& u == -1 && v == 1 ==> d == z - y
            &&& u == 1 && v == -1 ==> d == -(z - y)
        }),
{
    let (u, v) = (t.0 - s.0, t.1 - s.1);
    let d = scaled_coordinate(divs, x, y, z, t) - scaled_coordinate(divs, x, y, z, s);
    lemma_coordinate_split(divs, x, y, z, t);
    lemma_coordinate_split(divs, x, y, z, s);
    assert(t.0 * (y - x) - s.0 * (y - x) == u * (y - x)) by (nonlinear_arith)
        requires
            u == t.0 - s.0,
    ;
    assert(t.1 * (z - x) - s.1 * (z - x) == v * (z - x)) by (nonlinear_arith)
        requires
            v == t.1 - s.1,
    ;
}

proof fn lemma_coordinate_split(divs: int, x: int, y: int, z: int, s: (int, int))
    ensures
        scaled_coordinate(divs, x, y, z, s) == divs * x + s.0 * (y - x) + s.1 * (z - x),
{
    let (i, j) = s;
    assert((divs - i - j) * x == divs * x - i * x - j * x) by (nonlinear_arith);
    assert(i * (y - x) == i * y - i * x) by (nonlinear_arith);
    assert(j * (z - x) == j * z - j * x) by (nonlinear_arith);
}

proof fn lemma_squares(d: (int, int, int), e: (int, int, int))
    ensures
        d == e || d == (-e.0, -e.1, -e.2) ==> d.0 * d.0 + d.1 * d.1 + d.2 * d.2 == e.0 * e.0 + e.1
            * e.1 + e.2 * e.2,
{
    assert((-e.0) * (-e.0) == e.0 * e.0) by (nonlinear_arith);
    assert((-e.1) * (-e.1) == e.1 * e.1) by (nonlinear_arith);
    assert((-e.2) * (-e.2) == e.2 * e.2) by (nonlinear_arith);
}

/// The cells cover the face: every point of it lies in one of them.
pub proof fn law_lattice_covers(divs: usize, m: int, p: int, q: int)
    requires
        divs > 0,
        m > 0,
        p >= 0,
        q >= 0,
        p + q <= divs * m,
    ensures
        exists|c: Cell| lattice(divs as int).contains(c) && #[trigger] cell_holds(c, m, p, q),
{
    let d = divs as int;
    let (k, x) = (p / m, p % m);
    let (r, y) = (q / m, q % m);
    vstd::arithmetic::div_mod::lemma_fundamental_div_mod(p, m);
    vstd::arithmetic::div_mod::lemma_fundamental_div_mod(q, m);
    vstd::arithmetic::div_mod::lemma_mod_bound(p, m);
    vstd::arithmetic::div_mod::lemma_mod_bound(q, m);
    assert(k >= 0 && r >= 0 && k + r <= d && (k + r == d ==> x == 0 && y == 0) && (k + r + 1 == d
        ==> x + y <= m)) by (nonlinear_arith)
        requires
            p == m * k + x,
            q == m * r + y,
            0 <= x < m,
            0 <= y < m,
            p >= 0,
            q >= 0,
            p + q <= d * m,
    ;
    assert(k * m == m * k && r * m == m * r) by (nonlinear_arith);
    let c = if k + r == d {
        if k > 0 {
            Cell { row: r as usize, col: (k - 1) as usize, upper: false }
        } else {
            Cell { row: (r - 1) as usize, col: k as usize, upper: false }
        }
    } else if x + y <= m {
        Cell { row: r as usize, col: k as usize, upper: false }
    } else {
        Cell { row: r as usize, col: k as usize, upper: true }
    };
    assert((k - 1) * m == k * m - m && (r - 1) * m == r * m - m) by (nonlinear_arith);
    assert(cell_holds(c, m, p, q));
    law_lattice_members(divs, c);
}

/// The cells do not overlap: no point lies inside two of them.
pub proof fn law_lattice_disjoint(c: Cell, d: Cell, m: int, p: int, q: int)
    requires
        m > 0,
        cell_interior(c, m, p, q),
        cell_interior(d, m, p, q),
    ensures
        c == d,
{
    lemma_interior_place(c, m, p, q);
    lemma_interior_place(d, m, p, q);
    assert(c.col == d.col && c.row == d.row) by (nonlinear_arith)
        requires
            m > 0,
            c.col * m < p < c.col * m + m,
            d.col * m < p < d.col * m + m,
            c.row * m < q < c.row * m + m,
            d.row * m < q < d.row * m + m,
    ;
}

proof fn lemma_interior_place(c: Cell, m: int, p: int, q: int)
    requires
        m > 0,
        cell_interior(c, m, p, q),
    ensures
        c.col * m < p < c.col * m + m,
        c.row * m < q < c.row * m + m,
{
}

// ---------------------------------------------------------------------------
// Tessellation
// ---------------------------------------------------------------------------

/// A face about to be cut up: its triangle, its unit normal, the number of rows,
/// the area of each cell, and its material.
pub struct Facet {
    pub corners: OccluderTriangle,
    pub normal: Vec3,
    pub divs: usize,
    pub sub_area: u32,
    pub surface: Surface,
}

/// Material data of a mesh.
pub struct Surface {
    pub reflectance: Vec3,
    pub emission: Vec3,
    pub name: String,
}

/// The lattice point at the given coordinates.
pub open spec fn point(at: (int, int)) -> LatticePoint {
    LatticePoint { u: at.0 as usize, v: at.1 as usize }
}

/// Whether `p` is the patch of cell `c` of a face: its corners located on the
/// face, their centre, and the data that all patches of the face share.
pub open spec fn covers<L, C>(locate: L, centre: C, f: Facet, c: Cell, p: ScenePatch) -> bool where
    L: Fn(OccluderTriangle, LatticePoint, usize) -> Vec3,
    C: Fn(Vec3, Vec3, Vec3) -> Vec3,
 {
    &&& locate.ensures((f.corners, point(cell_corner(c, 0)), f.divs), p.v0)
    &&& locate.ensures((f.corners, point(cell_corner(c, 1)), f.divs), p.v1)
    &&& locate.ensures((f.corners, point(cell_corner(c, 2)), f.divs), p.v2)
    &&& centre.ensures((p.v0, p.v1, p.v2), p.abi.centroid)
    &&& p.abi.normal == f.normal
    &&& p.abi.area == f.sub_area
    &&& p.abi._pad == ZERO
    &&& p.reflectance == f.surface.reflectance
    &&& p.emission == f.surface.emission
    &&& p.material@ == f.surface.name@
}

/// Whether `patches` are those of `cells`, one by one.
pub open spec fn tiled<L, C>(
    locate: L,
    centre: C,
    f: Facet,
    cells: Seq<Cell>,
    patches: Seq<ScenePatch>,
) -> bool where
    L: Fn(OccluderTriangle, LatticePoint, usize) -> Vec3,
    C: Fn(Vec3, Vec3, Vec3) -> Vec3,
 {
    &&& patches.len() == cells.len()
    &&& forall|i: int|
        0 <= i < patches.len() ==> covers(locate, centre, f, cells[i], #[trigger] patches[i])
}

/// Corners of a lower cell.
fn bary_lower(row: usize, col: usize) -> (r: (LatticePoint, LatticePoint, LatticePoint))
    requires
        row + col < usize::MAX,
    ensures
        r.0 == point(cell_corner(Cell { row, col, upper: false }, 0)),
        r.1 == point(cell_corner(Cell { row, col, upper: false }, 1)),
        r.2 == point(cell_corner(Cell { row, col, upper: false }, 2)),
{
    (
        LatticePoint { u: col, v: row },
        LatticePoint { u: col + 1, v: row },
        LatticePoint { u: col, v: row + 1 },
    )
}

/// Corners of an upper cell.
fn bary_upper(row: usize, col: usize) -> (r: (LatticePoint, LatticePoint, LatticePoint))
    requires
        row + col < usize::MAX,
    ensures
        r.0 == point(cell_corner(Cell { row, col, upper: true }, 0)),
        r.1 == point(cell_corner(Cell { row, col, upper: true }, 1)),
        r.2 == point(cell_corner(Cell { row, col, upper: true }, 2)),
{
    (
        LatticePoint { u: col + 1, v: row },
        LatticePoint { u: col + 1, v: row + 1 },
        LatticePoint { u: col, v: row + 1 },
    )
}

/// Appends the patch of one cell.
fn push_sub<L, C>(
    f: &Facet,
    bary: (LatticePoint, LatticePoint, LatticePoint),
    locate: &L,
    centre: &C,
    out: &mut Vec<ScenePatch>,
    Ghost(c): Ghost<Cell>,
) where
    L: Fn(OccluderTriangle, LatticePoint, usize) -> Vec3,
    C: Fn(Vec3, Vec3, Vec3) -> Vec3,

    requires
        bary.0 == point(cell_corner(c, 0)),
        bary.1 == point(cell_corner(c, 1)),
        bary.2 == point(cell_corner(c, 2)),
        forall|p: LatticePoint|
            p.u + p.v <= f.divs ==> #[trigger] locate.requires((f.corners, p, f.divs)),
        forall|x: Vec3, y: Vec3, z: Vec3| centre.requires((x, y, z)),
        on_face(f.divs as int, c),
    ensures
        final(out)@ == old(out)@.push(final(out)@.last()),
        covers(*locate, *centre, *f, c, final(out)@.last()),
{
    let v0 = locate(f.corners, bary.0, f.divs);
    let v1 = locate(f.corners, bary.1, f.divs);
    let v2 = locate(f.corners, bary.2, f.divs);
    let centroid = centre(v0, v1, v2);
    out.push(
        ScenePatch {
            abi: Patch { centroid, normal: f.normal, area: f.sub_area, _pad: ZERO },
            reflectance: f.surface.reflectance,
            emission: f.surface.emission,
            v0,
            v1,
            v2,
            material: f.surface.name.clone(),
        },
    );
    assert(out@ =~= old(out)@.push(out@.last()));
}

/// Cuts a face into its lattice of patches and appends them to `out`, row by row.
/// `locate` places a lattice point on the face; `centre` is the centroid of three
/// points.
pub fn tessellate_triangle<L, C>(f: &Facet, locate: &L, centre: &C, out: &mut Vec<ScenePatch>) where
    L: Fn(OccluderTriangle, LatticePoint, usize) -> Vec3,
    C: Fn(Vec3, Vec3, Vec3) -> Vec3,

    requires
        forall|p: LatticePoint|
            p.u + p.v <= f.divs ==> #[trigger] locate.requires((f.corners, p, f.divs)),
        forall|x: Vec3, y: Vec3, z: Vec3| centre.requires((x, y, z)),
    ensures
        exists|tiles: Seq<ScenePatch>| #[trigger]
            tiled(*locate, *centre, *f, lattice(f.divs as int), tiles) && final(out)@ == old(out)@
                + tiles,
{
    let divs: usize = f.divs;
    let ghost mut tiles: Seq<ScenePatch> = Seq::empty();
    let mut row: usize = 0;
    while row < divs
        invariant
            row <= divs,
            divs == f.divs,
            forall|p: LatticePoint|
                p.u + p.v <= f.divs ==> #[trigger] locate.requires((f.corners, p, f.divs)),
            forall|x: Vec3, y: Vec3, z: Vec3| centre.requires((x, y, z)),
            tiled(*locate, *centre, *f, cells_before(divs as int, row as int), tiles),
            out@ == old(out)@ + tiles,
        decreases divs - row,
    {
        let ghost above = cells_before(divs as int, row as int);
        let ghost here = row_cells(divs as int, row as int);
        let len: usize = divs - row;
        let mut col: usize = 0;
        proof {
            assert(above + here.take(0) =~= above);
        }
        while col < len
            invariant
                row < divs,
                col <= len,
                len == divs - row,
                divs == f.divs,
                here == row_cells(divs as int, row as int),
                forall|p: LatticePoint|
                    p.u + p.v <= f.divs ==> #[trigger] locate.requires((f.corners, p, f.divs)),
                forall|x: Vec3, y: Vec3, z: Vec3| centre.requires((x, y, z)),
                tiled(
                    *locate,
                    *centre,
                    *f,
                    above + here.take(
                        if col < len {
                            2 * col as int
                        } else {
                            2 * col - 1
                        },
                    ),
                    tiles,
                ),
                out@ == old(out)@ + tiles,
            decreases len - col,
        {
            let ghost done = above + here.take(2 * col as int);
            let ghost lower = Cell { row, col, upper: false };
            push_sub(f, bary_lower(row, col), locate, centre, out, Ghost(lower));
            proof {
                assert(here[2 * col as int] == lower);
                assert(done.push(lower) =~= above + here.take(2 * col + 1));
                assert((old(out)@ + tiles).push(out@.last()) =~= old(out)@ + tiles.push(out@.last()));
                tiles = tiles.push(out@.last());
            }
            if col + 1 < len {
                let ghost upper = Cell { row, col, upper: true };
                push_sub(f, bary_upper(row, col), locate, centre, out, Ghost(upper));
                proof {
                    assert(here[2 * col + 1] == upper);
                    assert(done.push(lower).push(upper) =~= above + here.take(2 * (col + 1)));
                    assert((old(out)@ + tiles).push(out@.last()) =~= old(out)@ + tiles.push(
                        out@.last(),
                    ));
                    tiles = tiles.push(out@.last());
                }
            }
            col += 1;
        }
        proof {
            assert(here.take(2 * len - 1) =~= here);
        }
        row += 1;
    }
    assert(tiled(*locate, *centre, *f, lattice(divs as int), tiles));
}

// ---------------------------------------------------------------------------
// Loaded meshes
// ---------------------------------------------------------------------------

/// A loaded triangle mesh: three scalars per position, three indices per face.
pub struct Mesh {
    pub positions: Vec<u32>,
    pub indices: Vec<u32>,
    pub material_id: Option<usize>,
}

/// A loaded material.
pub struct Material {
    pub name: String,
    pub diffuse: Option<Vec3>,
    pub emissive: Option<Vec3>,
}

/// What the arithmetic on a face yields: its area, its unit normal, and its
/// longest edge in patch sides, rounded up.
#[derive(Clone, Copy, Debug, PartialEq, Eq, Structural)]
pub struct FaceShape {
    pub area: u32,
    pub normal: Vec3,
    pub cells: usize,
}

/// A face with its material and its shape.
pub struct Face {
    pub corners: OccluderTriangle,
    pub surface: Surface,
    pub shape: FaceShape,
}

/// Number of faces of a mesh.
pub open spec fn face_count(mesh: Mesh) -> int {
    mesh.indices@.len() as int / 3
}

/// The position at index `i`.
pub open spec fn position_at(positions: Seq<u32>, i: int) -> Vec3 {
    Vec3 { x: positions[3 * i], y: positions[3 * i + 1], z: positions[3 * i + 2] }
}

/// Whether the corners of all faces have positions.
pub open spec fn mesh_valid(mesh: Mesh) -> bool {
    forall|k: int|
        0 <= k < 3 * face_count(mesh) ==> 3 * (#[trigger] mesh.indices@[k]) + 2
            < mesh.positions@.len()
}

/// The corners of face `f`.
pub open spec fn face_corners(mesh: Mesh, f: int) -> OccluderTriangle {
    OccluderTriangle {
        v0: position_at(mesh.positions@, mesh.indices@[3 * f] as int),
        v1: position_at(mesh.positions@, mesh.indices@[3 * f + 1] as int),
        v2: position_at(mesh.positions@, mesh.indices@[3 * f + 2] as int),
    }
}

/// The colour of an optional entry; black where it is missing.
pub open spec fn colour_or_black(c: Option<Vec3>) -> Vec3 {
    match c {
        Some(c) => c,
        None => zero3(),
    }
}

/// Whether `s` is the surface with the given material: its diffuse colour and
/// emission, or a dull grey where there is no such material.
pub open spec fn surface_matches(
    materials: Seq<Material>,
    material_id: Option<usize>,
    s: Surface,
) -> bool {
    if material_id is Some && material_id->0 < materials.len() {
        let m = materials[material_id->0 as int];
        &&& s.reflectance == colour_or_black(m.diffuse)
        &&& s.emission == colour_or_black(m.emissive)
        &&& s.name@ == m.name@
    } else {
        &&& s.reflectance == (Vec3 {
            x: DEFAULT_REFLECTANCE,
            y: DEFAULT_REFLECTANCE,
            z: DEFAULT_REFLECTANCE,
        })
        &&& s.emission == zero3()
        &&& s.name@ == "default"@
    }
}

fn read_colour(c: Option<Vec3>) -> (r: Vec3)
    ensures
        r == colour_or_black(c),
{
    match c {
        Some(c) => c,
        None => Vec3 { x: ZERO, y: ZERO, z: ZERO },
    }
}

/// The surface with the given material.
pub fn surface_of(materials: &[Material], material_id: Option<usize>) -> (r: Surface)
    ensures
        surface_matches(materials@, material_id, r),
{
    if let Some(id) = material_id {
        if id < materials.len() {
            let m = &materials[id];
            return Surface {
                reflectance: read_colour(m.diffuse),
                emission: read_colour(m.emissive),
                name: m.name.clone(),
            };
        }
    }
    let half: u32 = DEFAULT_REFLECTANCE;
    Surface {
        reflectance: Vec3 { x: half, y: half, z: half },
        emission: Vec3 { x: ZERO, y: ZERO, z: ZERO },
        name: "default".to_owned(),
    }
}

fn read_position(positions: &Vec<u32>, index: u32) -> (r: Vec3)
    requires
        3 * index + 2 < positions@.len(),
    ensures
        r == position_at(positions@, index as int),
{
    let len: usize = positions.len();
    let i: usize = index as usize * 3;
    Vec3 { x: positions[i], y: positions[i + 1], z: positions[i + 2] }
}

/// Reads the corners of face `f`.
pub fn read_face(mesh: &Mesh, f: usize) -> (r: OccluderTriangle)
    requires
        mesh_valid(*mesh),
        f < face_count(*mesh),
    ensures
        r == face_corners(*mesh, f as int),
{
    let len: usize = mesh.indices.len();
    assert(3 * f + 2 < len);
    let base: usize = f * 3;
    assert(3 * mesh.indices@[base as int] + 2 < mesh.positions@.len());
    assert(3 * mesh.indices@[base + 1] + 2 < mesh.positions@.len());
    assert(3 * mesh.indices@[base + 2] + 2 < mesh.positions@.len());
    OccluderTriangle {
        v0: read_position(&mesh.positions, mesh.indices[base]),
        v1: read_position(&mesh.positions, mesh.indices[base + 1]),
        v2: read_position(&mesh.positions, mesh.indices[base + 2]),
    }
}

// ---------------------------------------------------------------------------
// Scene assembly
// ---------------------------------------------------------------------------

/// Why a scene could not be built.
#[derive(Clone, Copy, Debug, PartialEq, Eq, Structural)]
pub enum SceneError {
    /// No face of any mesh has an area.
    NoUsableFaces,
}

impl SceneError {
    /// The message for the user.
    pub fn message(&self) -> (r: String)
        ensures
            r@ == "OBJ contains no usable faces"@,
    {
        "OBJ contains no usable faces".to_owned()
    }
}

/// Whether a face is too small to be used.
pub open spec fn degenerate(face: Face) -> bool {
    lt(face.shape.area, MIN_AREA)
}

/// Number of lattice rows of a face.
pub open spec fn divisions(shape: FaceShape) -> int {
    if shape.cells > 1 {
        shape.cells as int
    } else {
        1
    }
}

/// Whether the cells of a face, if it is used, can be counted.
pub open spec fn countable(shape: FaceShape) -> bool {
    lt(shape.area, MIN_AREA) || divisions(shape) * divisions(shape) <= usize::MAX
}

/// Number of faces of the first `m` meshes.
pub open spec fn first_face(meshes: Seq<Mesh>, m: int) -> int
    decreases m,
{
    if m <= 0 {
        0
    } else {
        first_face(meshes, m - 1) + face_count(meshes[m - 1])
    }
}

/// The place of face `f` of mesh `m` among all faces.
pub open spec fn face_index(meshes: Seq<Mesh>, m: int, f: int) -> int {
    first_face(meshes, m) + f
}

/// Whether `face` is face `f` of a mesh.
pub open spec fn face_read<M: Fn(OccluderTriangle) -> FaceShape>(
    measure: M,
    mesh: Mesh,
    materials: Seq<Material>,
    f: int,
    face: Face,
) -> bool {
    &&& face.corners == face_corners(mesh, f)
    &&& surface_matches(materials, mesh.material_id, face.surface)
    &&& measure.ensures((face.corners,), face.shape)
}

/// Whether `faces` lists the faces of the first `m` meshes and the first `n` of
/// the next one.
pub open spec fn faces_listed<M: Fn(OccluderTriangle) -> FaceShape>(
    measure: M,
    meshes: Seq<Mesh>,
    materials: Seq<Material>,
    m: int,
    n: int,
    faces: Seq<Face>,
) -> bool {
    &&& faces.len() == face_index(meshes, m, n)
    &&& forall|k: int, f: int|
        0 <= k < meshes.len() && 0 <= f < face_count(meshes[k]) && (k < m || k == m && f < n)
            ==> face_read(
            measure,
            meshes[k],
            materials,
            f,
            faces[#[trigger] face_index(meshes, k, f)],
        )
}

/// Whether `facet` is `face`, ready to be cut up.
pub open spec fn facet_of<S: Fn(u32, usize) -> u32>(share: S, face: Face, facet: Facet) -> bool {
    let divs = divisions(face.shape);
    &&& facet.corners == face.corners
    &&& facet.normal == face.shape.normal
    &&& facet.divs == divs
    &&& facet.surface == face.surface
    &&& share.ensures((face.shape.area, (divs * divs) as usize), facet.sub_area)
}

/// Whether `tiles` are the patches of a face: none for a degenerate one.
pub open spec fn face_tiled<S, L, C>(
    share: S,
    locate: L,
    centre: C,
    face: Face,
    tiles: Seq<ScenePatch>,
) -> bool where
    S: Fn(u32, usize) -> u32,
    L: Fn(OccluderTriangle, LatticePoint, usize) -> Vec3,
    C: Fn(Vec3, Vec3, Vec3) -> Vec3,
 {
    if degenerate(face) {
        tiles.len() == 0
    } else {
        exists|facet: Facet| #[trigger]
            facet_of(share, face, facet) && tiled(
                locate,
                centre,
                facet,
                lattice(divisions(face.shape)),
                tiles,
            )
    }
}

/// Lists put one after the other.
pub open spec fn joined(lists: Seq<Seq<ScenePatch>>) -> Seq<ScenePatch>
    decreases lists.len(),
{
    if lists.len() == 0 {
        Seq::empty()
    } else {
        joined(lists.drop_last()) + lists.last()
    }
}

/// Whether a face casts shadows.
pub open spec fn occludes(face: Face) -> bool {
    !degenerate(face) && !wall_material(face.surface.name@)
}

/// The triangles of the faces that cast shadows, in order.
pub open spec fn occluders_of(faces: Seq<Face>) -> Seq<OccluderTriangle>
    decreases faces.len(),
{
    if faces.len() == 0 {
        Seq::empty()
    } else if occludes(faces.last()) {
        occluders_of(faces.drop_last()).push(faces.last().corners)
    } else {
        occluders_of(faces.drop_last())
    }
}

/// Whether `tiles` are the patches of `faces`, face by face.
pub open spec fn faces_tiled<S, L, C>(
    share: S,
    locate: L,
    centre: C,
    faces: Seq<Face>,
    tiles: Seq<Seq<ScenePatch>>,
) -> bool where
    S: Fn(u32, usize) -> u32,
    L: Fn(OccluderTriangle, LatticePoint, usize) -> Vec3,
    C: Fn(Vec3, Vec3, Vec3) -> Vec3,
 {
    &&& tiles.len() == faces.len()
    &&& forall|i: int|
        0 <= i < faces.len() ==> face_tiled(share, locate, centre, faces[i], #[trigger] tiles[i])
}

/// Whether any face is usable.
pub open spec fn any_usable(faces: Seq<Face>) -> bool {
    exists|i: int| 0 <= i < faces.len() && !degenerate(#[trigger] faces[i])
}

/// Adds one face to the scene.
fn add_face<S, L, C>(face: &Face, scene: &mut Scene, share: &S, locate: &L, centre: &C) where
    S: Fn(u32, usize) -> u32,
    L: Fn(OccluderTriangle, LatticePoint, usize) -> Vec3,
    C: Fn(Vec3, Vec3, Vec3) -> Vec3,

    requires
        countable(face.shape),
        forall|a: u32, n: usize| share.requires((a, n)),
        forall|t: OccluderTriangle, p: LatticePoint, n: usize| locate.requires((t, p, n)),
        forall|x: Vec3, y: Vec3, z: Vec3| centre.requires((x, y, z)),
    ensures
        exists|tiles: Seq<ScenePatch>| #[trigger]
            face_tiled(*share, *locate, *centre, *face, tiles) && final(scene).patches@ == old(
                scene,
            ).patches@ + tiles,
        final(scene).occluders@ == (if occludes(*face) {
            old(scene).occluders@.push(face.corners)
        } else {
            old(scene).occluders@
        }),
{
    if less(face.shape.area, MIN_AREA) {
        assert(face_tiled(*share, *locate, *centre, *face, Seq::<ScenePatch>::empty()));
        assert(scene.patches@ + Seq::<ScenePatch>::empty() =~= scene.patches@);
        return;
    }
    if !is_wall_material(face.surface.name.as_str()) {
        scene.occluders.push(face.corners);
    }
    let divs: usize = if face.shape.cells > 1 { face.shape.cells } else { 1 };
    let sub_area: u32 = share(face.shape.area, divs * divs);
    let facet = Facet {
        corners: face.corners,
        normal: face.shape.normal,
        divs,
        sub_area,
        surface: Surface {
            reflectance: face.surface.reflectance,
            emission: face.surface.emission,
            name: face.surface.name.clone(),
        },
    };
    assert(facet_of(*share, *face, facet));
    tessellate_triangle(&facet, locate, centre, &mut scene.patches);
    proof {
        let tiles = choose|tiles: Seq<ScenePatch>| #[trigger]
            tiled(*locate, *centre, facet, lattice(facet.divs as int), tiles) && scene.patches@
                == old(scene).patches@ + tiles;
        assert(face_tiled(*share, *locate, *centre, *face, tiles));
    }
}

/// A scene has patches exactly if some face of it is usable.
pub proof fn law_patches_iff_usable<S, L, C>(
    share: S,
    locate: L,
    centre: C,
    faces: Seq<Face>,
    tiles: Seq<Seq<ScenePatch>>,
) where
    S: Fn(u32, usize) -> u32,
    L: Fn(OccluderTriangle, LatticePoint, usize) -> Vec3,
    C: Fn(Vec3, Vec3, Vec3) -> Vec3,

    requires
        faces_tiled(share, locate, centre, faces, tiles),
    ensures
        joined(tiles).len() > 0 <==> any_usable(faces),
    decreases faces.len(),
{
    if faces.len() > 0 {
        let (fs, ts) = (faces.drop_last(), tiles.drop_last());
        assert forall|i: int| 0 <= i < fs.len() implies face_tiled(
            share,
            locate,
            centre,
            fs[i],
            #[trigger] ts[i],
        ) by {
            assert(ts[i] == tiles[i]);
        }
        law_patches_iff_usable(share, locate, centre, fs, ts);
        if any_usable(fs) {
            let i = choose|i: int| 0 <= i < fs.len() && !degenerate(#[trigger] fs[i]);
            assert(!degenerate(faces[i]));
        }
        if any_usable(faces) && degenerate(faces.last()) {
            let i = choose|i: int| 0 <= i < faces.len() && !degenerate(#[trigger] faces[i]);
            assert(!degenerate(fs[i]));
        }
        assert(face_tiled(share, locate, centre, faces.last(), tiles[faces.len() - 1]));
        if !degenerate(faces.last()) {
            let d = divisions(faces.last().shape);
            law_lattice_count(d as usize);
            assert(d * d > 0) by (nonlinear_arith)
                requires
                    d > 0,
            ;
            assert(!degenerate(faces[faces.len() - 1]));
        }
    }
}

/// Number of cells of all usable faces.
pub open spec fn cell_total(faces: Seq<Face>) -> int
    decreases faces.len(),
{
    if faces.len() == 0 {
        0
    } else {
        let d = divisions(faces.last().shape);
        cell_total(faces.drop_last()) + (if degenerate(faces.last()) {
            0
        } else {
            d * d
        })
    }
}

/// A scene has one patch per cell of its usable faces.
pub proof fn law_patch_count<S, L, C>(
    share: S,
    locate: L,
    centre: C,
    faces: Seq<Face>,
    tiles: Seq<Seq<ScenePatch>>,
) where
    S: Fn(u32, usize) -> u32,
    L: Fn(OccluderTriangle, LatticePoint, usize) -> Vec3,
    C: Fn(Vec3, Vec3, Vec3) -> Vec3,

    requires
        faces_tiled(share, locate, centre, faces, tiles),
    ensures
        joined(tiles).len() == cell_total(faces),
    decreases faces.len(),
{
    if faces.len() > 0 {
        let (fs, ts) = (faces.drop_last(), tiles.drop_last());
        assert forall|i: int| 0 <= i < fs.len() implies face_tiled(
            share,
            locate,
            centre,
            fs[i],
            #[trigger] ts[i],
        ) by {
            assert(ts[i] == tiles[i]);
        }
        law_patch_count(share, locate, centre, fs, ts);
        assert(face_tiled(share, locate, centre, faces.last(), tiles[faces.len() - 1]));
        if !degenerate(faces.last()) {
            law_lattice_count(divisions(faces.last().shape) as usize);
        }
    }
}

/// The occluders are exactly the usable faces of interior geometry.
pub proof fn law_occluders_are_interior(faces: Seq<Face>, t: OccluderTriangle)
    ensures
        occluders_of(faces).contains(t) <==> exists|i: int|
            0 <= i < faces.len() && occludes(#[trigger] faces[i]) && faces[i].corners == t,
    decreases faces.len(),
{
    if faces.len() > 0 {
        let fs = faces.drop_last();
        law_occluders_are_interior(fs, t);
        let (all, before) = (occluders_of(faces), occluders_of(fs));
        if before.contains(t) {
            let k = before.index_of(t);
            assert(all[k] == t);
            let i = choose|i: int|
                0 <= i < fs.len() && occludes(#[trigger] fs[i]) && fs[i].corners == t;
            assert(occludes(faces[i]) && faces[i].corners == t);
        }
        if occludes(faces.last()) && faces.last().corners == t {
            assert(all[before.len() as int] == t);
            assert(occludes(faces[faces.len() - 1]));
        }
        if all.contains(t) && !before.contains(t) {
            let k = all.index_of(t);
            if k < before.len() {
                assert(before[k] == t);
            }
        }
        if exists|i: int|
            0 <= i < faces.len() && occludes(#[trigger] faces[i]) && faces[i].corners == t {
            let i = choose|i: int|
                0 <= i < faces.len() && occludes(#[trigger] faces[i]) && faces[i].corners == t;
            if i < fs.len() {
                assert(occludes(fs[i]) && fs[i].corners == t);
            }
        }
    }
}

/// Whether all three channels lie in [0, 1].
pub open spec fn unit_range(v: Vec3) -> bool {
    &&& le(ZERO, v.x) && le(v.x, ONE)
    &&& le(ZERO, v.y) && le(v.y, ONE)
    &&& le(ZERO, v.z) && le(v.z, ONE)
}

proof fn lemma_face_found(meshes: Seq<Mesh>, m: int, i: int) -> (r: (int, int))
    requires
        0 <= m <= meshes.len(),
        0 <= i < first_face(meshes, m),
    ensures
        0 <= r.0 < m,
        0 <= r.1 < face_count(meshes[r.0]),
        face_index(meshes, r.0, r.1) == i,
    decreases m,
{
    if m <= 0 {
        (0, 0)
    } else if i < first_face(meshes, m - 1) {
        lemma_face_found(meshes, m - 1, i)
    } else {
        (m - 1, i - first_face(meshes, m - 1))
    }
}

proof fn lemma_joined_member(lists: Seq<Seq<ScenePatch>>, p: int) -> (r: (int, int))
    requires
        0 <= p < joined(lists).len(),
    ensures
        0 <= r.0 < lists.len(),
        0 <= r.1 < lists[r.0].len(),
        lists[r.0][r.1] == joined(lists)[p],
    decreases lists.len(),
{
    if lists.len() == 0 {
        (0, 0)
    } else {
        let before = joined(lists.drop_last());
        if p < before.len() {
            let r = lemma_joined_member(lists.drop_last(), p);
            assert(lists.drop_last()[r.0] == lists[r.0]);
            r
        } else {
            (lists.len() - 1, p - before.len())
        }
    }
}

/// Reflectances lie in [0, 1] whenever those of the materials do.
pub proof fn law_reflectances_in_range<M, S, L, C>(
    measure: M,
    share: S,
    locate: L,
    centre: C,
    meshes: Seq<Mesh>,
    materials: Seq<Material>,
    faces: Seq<Face>,
    tiles: Seq<Seq<ScenePatch>>,
    p: int,
) where
    M: Fn(OccluderTriangle) -> FaceShape,
    S: Fn(u32, usize) -> u32,
    L: Fn(OccluderTriangle, LatticePoint, usize) -> Vec3,
    C: Fn(Vec3, Vec3, Vec3) -> Vec3,

    requires
        faces_listed(measure, meshes, materials, meshes.len() as int, 0, faces),
        faces_tiled(share, locate, centre, faces, tiles),
        forall|m: int|
            0 <= m < materials.len() && (#[trigger] materials[m]).diffuse is Some ==> unit_range(
                materials[m].diffuse->0,
            ),
        0 <= p < joined(tiles).len(),
    ensures
        unit_range(joined(tiles)[p].reflectance),
{
    let (i, k) = lemma_joined_member(tiles, p);
    let (m, f) = lemma_face_found(meshes, meshes.len() as int, i);
    assert(face_read(measure, meshes[m], materials, f, faces[face_index(meshes, m, f)]));
    assert(face_tiled(share, locate, centre, faces[i], tiles[i]));
    let facet = choose|facet: Facet| #[trigger]
        facet_of(share, faces[i], facet) && tiled(
            locate,
            centre,
            facet,
            lattice(divisions(faces[i].shape)),
            tiles[i],
        );
    assert(covers(locate, centre, facet, lattice(divisions(faces[i].shape))[k], tiles[i][k]));
}

/// Discretises the loaded meshes. `measure` computes the shape of a face, `share`
/// divides an area among a number of cells, `locate` and `centre` are those of
/// the tessellation. Fails exactly if no face is usable.
pub fn build_scene<M, S, L, C>(
    meshes: &[Mesh],
    materials: &[Material],
    measure: M,
    share: S,
    locate: L,
    centre: C,
) -> (r: Result<Scene, SceneError>) where
    M: Fn(OccluderTriangle) -> FaceShape,
    S: Fn(u32, usize) -> u32,
    L: Fn(OccluderTriangle, LatticePoint, usize) -> Vec3,
    C: Fn(Vec3, Vec3, Vec3) -> Vec3,

    requires
        forall|m: int| 0 <= m < meshes@.len() ==> mesh_valid(#[trigger] meshes@[m]),
        forall|t: OccluderTriangle| measure.requires((t,)),
        forall|t: OccluderTriangle, shape: FaceShape| #[trigger]
            measure.ensures((t,), shape) ==> countable(shape),
        forall|a: u32, n: usize| share.requires((a, n)),
        forall|t: OccluderTriangle, p: LatticePoint, n: usize| locate.requires((t, p, n)),
        forall|x: Vec3, y: Vec3, z: Vec3| centre.requires((x, y, z)),
    ensures
        exists|faces: Seq<Face>, tiles: Seq<Seq<ScenePatch>>| #[trigger]
            faces_listed(measure, meshes@, materials@, meshes@.len() as int, 0, faces)
                && #[trigger] faces_tiled(share, locate, centre, faces, tiles) && match r {
                Ok(scene) => any_usable(faces) && scene.patches@ == joined(tiles)
                    && scene.occluders@ == occluders_of(faces),
                Err(_) => !any_usable(faces),
            },
{
    let mut scene = Scene { patches: Vec::new(), occluders: Vec::new() };
    let ghost mut faces: Seq<Face> = Seq::empty();
    let ghost mut tiles: Seq<Seq<ScenePatch>> = Seq::empty();
    let mut m: usize = 0;
    while m < meshes.len()
        invariant
            m <= meshes@.len(),
            forall|m: int| 0 <= m < meshes@.len() ==> mesh_valid(#[trigger] meshes@[m]),
            forall|t: OccluderTriangle| measure.requires((t,)),
            forall|t: OccluderTriangle, shape: FaceShape| #[trigger]
                measure.ensures((t,), shape) ==> countable(shape),
            forall|a: u32, n: usize| share.requires((a, n)),
            forall|t: OccluderTriangle, p: LatticePoint, n: usize| locate.requires((t, p, n)),
            forall|x: Vec3, y: Vec3, z: Vec3| centre.requires((x, y, z)),
            faces_listed(measure, meshes@, materials@, m as int, 0, faces),
            faces_tiled(share, locate, centre, faces, tiles),
            scene.patches@ == joined(tiles),
            scene.occluders@ == occluders_of(faces),
        decreases meshes@.len() - m,
    {
        let mesh = &meshes[m];
        let n: usize = mesh.indices.len() / 3;
        let mut f: usize = 0;
        while f < n
            invariant
                m < meshes@.len(),
                *mesh == meshes@[m as int],
                mesh_valid(*mesh),
                n == face_count(*mesh),
                f <= n,
                forall|t: OccluderTriangle| measure.requires((t,)),
                forall|t: OccluderTriangle, shape: FaceShape| #[trigger]
                    measure.ensures((t,), shape) ==> countable(shape),
                forall|a: u32, n: usize| share.requires((a, n)),
                forall|t: OccluderTriangle, p: LatticePoint, n: usize| locate.requires((t, p, n)),
                forall|x: Vec3, y: Vec3, z: Vec3| centre.requires((x, y, z)),
                faces_listed(measure, meshes@, materials@, m as int, f as int, faces),
                faces_tiled(share, locate, centre, faces, tiles),
                scene.patches@ == joined(tiles),
                scene.occluders@ == occluders_of(faces),
            decreases n - f,
        {
            let corners = read_face(mesh, f);
            let shape = measure(corners);
            let face = Face { corners, surface: surface_of(materials, mesh.material_id), shape };
            let ghost before = scene.patches@;
            add_face(&face, &mut scene, &share, &locate, &centre);
            proof {
                let tile = choose|tile: Seq<ScenePatch>| #[trigger]
                    face_tiled(share, locate, centre, face, tile) && scene.patches@ == before
                        + tile;
                lemma_face_added(
                    measure,
                    meshes@,
                    materials@,
                    m as int,
                    f as int,
                    faces,
                    face,
                );
                let (fs, ts) = (faces.push(face), tiles.push(tile));
                assert(fs.drop_last() =~= faces);
                assert(ts.drop_last() =~= tiles);
                assert forall|i: int| 0 <= i < fs.len() implies face_tiled(
                    share,
                    locate,
                    centre,
                    fs[i],
                    #[trigger] ts[i],
                ) by {
                    if i < faces.len() {
                        assert(ts[i] == tiles[i]);
                    }
                }
                faces = fs;
                tiles = ts;
            }
            f += 1;
        }
        proof {
            lemma_mesh_done(measure, meshes@, materials@, m as int, faces);
        }
        m += 1;
    }
    proof {
        law_patches_iff_usable(share, locate, centre, faces, tiles);
    }
    if scene.patches.len() == 0 {
        return Err(SceneError::NoUsableFaces);
    }
    Ok(scene)
}

proof fn lemma_first_face_monotone(meshes: Seq<Mesh>, k: int, m: int)
    requires
        0 <= k <= m,
    ensures
        0 <= first_face(meshes, k) <= first_face(meshes, m),
    decreases m,
{
    if k < m {
        lemma_first_face_monotone(meshes, k, m - 1);
    } else if m > 0 {
        lemma_first_face_monotone(meshes, k - 1, m - 1);
    }
}

proof fn lemma_face_added<M: Fn(OccluderTriangle) -> FaceShape>(
    measure: M,
    meshes: Seq<Mesh>,
    materials: Seq<Material>,
    m: int,
    n: int,
    faces: Seq<Face>,
    face: Face,
)
    requires
        0 <= m < meshes.len(),
        0 <= n < face_count(meshes[m]),
        faces_listed(measure, meshes, materials, m, n, faces),
        face_read(measure, meshes[m], materials, n, face),
    ensures
        faces_listed(measure, meshes, materials, m, n + 1, faces.push(face)),
{
    let longer = faces.push(face);
    assert forall|k: int, f: int|
        0 <= k < meshes.len() && 0 <= f < face_count(meshes[k]) && (k < m || k == m && f < n
            + 1) implies face_read(
        measure,
        meshes[k],
        materials,
        f,
        longer[#[trigger] face_index(meshes, k, f)],
    ) by {
        let i = face_index(meshes, k, f);
        if k < m {
            lemma_first_face_monotone(meshes, k + 1, m);
            lemma_first_face_monotone(meshes, 0, k);
            assert(first_face(meshes, k + 1) == first_face(meshes, k) + face_count(meshes[k]));
            assert(0 <= i < faces.len());
        } else {
            lemma_first_face_monotone(meshes, 0, k);
            if f < n {
                assert(0 <= i < faces.len());
            } else {
                assert(i == faces.len());
            }
        }
        if i < faces.len() {
            assert(longer[i] == faces[i]);
        }
    }
}

proof fn lemma_mesh_done<M: Fn(OccluderTriangle) -> FaceShape>(
    measure: M,
    meshes: Seq<Mesh>,
    materials: Seq<Material>,
    m: int,
    faces: Seq<Face>,
)
    requires
        0 <= m < meshes.len(),
        faces_listed(measure, meshes, materials, m, face_count(meshes[m]), faces),
    ensures
        faces_listed(measure, meshes, materials, m + 1, 0, faces),
{
}

/// Whether a patch emits light.
pub open spec fn emits(p: ScenePatch) -> bool {
    lt(ZERO, p.emission.x) || lt(ZERO, p.emission.y) || lt(ZERO, p.emission.z)
}

/// Number of patches that emit light.
pub open spec fn emitter_count(patches: Seq<ScenePatch>) -> int
    decreases patches.len(),
{
    if patches.len() == 0 {
        0
    } else {
        emitter_count(patches.drop_last()) + (if emits(patches.last()) {
            1int
        } else {
            0
        })
    }
}

/// Counts the patches that emit light.
pub fn count_emitters(patches: &[ScenePatch]) -> (r: usize)
    ensures
        r == emitter_count(patches@),
{
    let mut count: usize = 0;
    let mut i: usize = 0;
    proof {
        assert(patches@.take(0) =~= Seq::<ScenePatch>::empty());
    }
    while i < patches.len()
        invariant
            count <= i <= patches@.len(),
            count == emitter_count(patches@.take(i as int)),
        decreases patches@.len() - i,
    {
        let e: Vec3 = patches[i].emission;
        proof {
            assert(patches@.take(i + 1).drop_last() =~= patches@.take(i as int));
        }
        if less(ZERO, e.x) || less(ZERO, e.y) || less(ZERO, e.z) {
            count += 1;
        }
        i += 1;
    }
    assert(patches@.take(patches@.len() as int) =~= patches@);
    count
}

// ---------------------------------------------------------------------------
// What the cuts and the calls come to
// ---------------------------------------------------------------------------

/// The cells of a face are all that have room in it, each of them once.
pub proof fn law_lattice_is_every_cell(divs: usize, c: Cell)
    ensures
        lattice(divs as int).contains(c) <==> c.row + c.col < divs && (c.upper ==> c.row + c.col + 1
            < divs),
        lattice(divs as int).no_duplicates(),
        lattice(divs as int).len() == divs * divs,
{
    law_lattice_members(divs, c);
    law_lattice_distinct(divs);
    law_lattice_count(divs);
}

/// Whether the corners of `p` stand at three lattice points of the triangle `t`, cut
/// into `divs` rows, and its centroid is the centre of these corners.
pub open spec fn cut_at<L, C>(
    locate: L,
    centre: C,
    t: OccluderTriangle,
    divs: usize,
    a: LatticePoint,
    b: LatticePoint,
    c: LatticePoint,
    p: ScenePatch,
) -> bool where
    L: Fn(OccluderTriangle, LatticePoint, usize) -> Vec3,
    C: Fn(Vec3, Vec3, Vec3) -> Vec3,
 {
    &&& locate.ensures((t, a, divs), p.v0)
    &&& locate.ensures((t, b, divs), p.v1)
    &&& locate.ensures((t, c, divs), p.v2)
    &&& centre.ensures((p.v0, p.v1, p.v2), p.abi.centroid)
}

/// Every patch of a face is one cell of it: a lower one has its corners at the cell's
/// own lattice point, one step on along the row, and one step up; an upper one at the
/// three points around the opposite corner, in the same sense. The centroid is the
/// centre of the patch's own corners, and normal, area and material are the face's.
pub proof fn law_patch_is_cell<L, C>(
    locate: L,
    centre: C,
    f: Facet,
    patches: Seq<ScenePatch>,
    i: int,
) where
    L: Fn(OccluderTriangle, LatticePoint, usize) -> Vec3,
    C: Fn(Vec3, Vec3, Vec3) -> Vec3,

    requires
        tiled(locate, centre, f, lattice(f.divs as int), patches),
        0 <= i < patches.len(),
    ensures
        ({
            let c = lattice(f.divs as int)[i];
            let (row, col) = (c.row as int, c.col as int);
            let p = patches[i];
            &&& row + col < f.divs
            &&& !c.upper ==> cut_at(
                locate,
                centre,
                f.corners,
                f.divs,
                LatticePoint { u: col as usize, v: row as usize },
                LatticePoint { u: (col + 1) as usize, v: row as usize },
                LatticePoint { u: col as usize, v: (row + 1) as usize },
                p,
            )
            &&& c.upper ==> row + col + 1 < f.divs && cut_at(
                locate,
                centre,
                f.corners,
                f.divs,
                LatticePoint { u: (col + 1) as usize, v: row as usize },
                LatticePoint { u: (col + 1) as usize, v: (row + 1) as usize },
                LatticePoint { u: col as usize, v: (row + 1) as usize },
                p,
            )
            &&& p.abi.normal == f.normal
            &&& p.abi.area == f.sub_area
            &&& p.abi._pad == 0
            &&& p.reflectance == f.surface.reflectance
            &&& p.emission == f.surface.emission
            &&& p.material@ == f.surface.name@
        }),
{
    let c = lattice(f.divs as int)[i];
    assert(covers(locate, centre, f, c, patches[i]));
    assert(lattice(f.divs as int).contains(c));
    law_lattice_is_every_cell(f.divs, c);
}

/// The centroid of a cell, a third of the sum of its corners, lies inside it, off its
/// border.
pub proof fn law_centroid_inside(c: Cell)
    ensures
        cell_interior(
            c,
            3,
            cell_corner(c, 0).0 + cell_corner(c, 1).0 + cell_corner(c, 2).0,
            cell_corner(c, 0).1 + cell_corner(c, 1).1 + cell_corner(c, 2).1,
        ),
{
}

/// Different cells have different centroids.
pub proof fn law_centroids_of_cells_differ(c: Cell, d: Cell)
    requires
        cell_corner(c, 0).0 + cell_corner(c, 1).0 + cell_corner(c, 2).0 == cell_corner(d, 0).0
            + cell_corner(d, 1).0 + cell_corner(d, 2).0,
        cell_corner(c, 0).1 + cell_corner(c, 1).1 + cell_corner(c, 2).1 == cell_corner(d, 0).1
            + cell_corner(d, 1).1 + cell_corner(d, 2).1,
    ensures
        c == d,
{
    law_centroid_inside(c);
    law_centroid_inside(d);
    law_lattice_disjoint(
        c,
        d,
        3,
        cell_corner(c, 0).0 + cell_corner(c, 1).0 + cell_corner(c, 2).0,
        cell_corner(c, 0).1 + cell_corner(c, 1).1 + cell_corner(c, 2).1,
    );
}

/// Whether `at` tells exactly where points lie on the face: a located lattice point at
/// thrice its steps, a centre at a third of the sum.
pub open spec fn exact_places<L, C>(
    locate: L,
    centre: C,
    t: OccluderTriangle,
    divs: usize,
    at: spec_fn(Vec3) -> (int, int),
) -> bool where
    L: Fn(OccluderTriangle, LatticePoint, usize) -> Vec3,
    C: Fn(Vec3, Vec3, Vec3) -> Vec3,
 {
    &&& forall|p: LatticePoint, v: Vec3| #[trigger]
        locate.ensures((t, p, divs), v) ==> at(v) == (3 * p.u, 3 * p.v)
    &&& forall|a: Vec3, b: Vec3, c: Vec3, m: Vec3| #[trigger]
        centre.ensures((a, b, c), m) ==> 3 * at(m).0 == at(a).0 + at(b).0 + at(c).0 && 3 * at(m).1
            == at(a).1 + at(b).1 + at(c).1
}

/// With exact arithmetic, every patch of a face has its centroid strictly inside
/// itself, its corners run round it in the sense of the face and span one cell, and
/// no two patches have the same centroid.
pub proof fn law_patches_lie_apart<L, C>(
    locate: L,
    centre: C,
    f: Facet,
    patches: Seq<ScenePatch>,
    at: spec_fn(Vec3) -> (int, int),
    i: int,
    j: int,
) where
    L: Fn(OccluderTriangle, LatticePoint, usize) -> Vec3,
    C: Fn(Vec3, Vec3, Vec3) -> Vec3,

    requires
        tiled(locate, centre, f, lattice(f.divs as int), patches),
        exact_places(locate, centre, f.corners, f.divs, at),
        0 <= i < patches.len(),
        0 <= j < patches.len(),
        i != j,
    ensures
        patches[i].abi.centroid != patches[j].abi.centroid,
        ({
            let (a, b, c) = (at(patches[i].v0), at(patches[i].v1), at(patches[i].v2));
            let m = at(patches[i].abi.centroid);
            &&& (b.0 - a.0) * (c.1 - a.1) - (c.0 - a.0) * (b.1 - a.1) == 9
            &&& (b.0 - a.0) * (m.1 - a.1) - (m.0 - a.0) * (b.1 - a.1) == 3
            &&& (c.0 - b.0) * (m.1 - b.1) - (m.0 - b.0) * (c.1 - b.1) == 3
            &&& (a.0 - c.0) * (m.1 - c.1) - (m.0 - c.0) * (a.1 - c.1) == 3
            &&& 0 < m.0 && 0 < m.1 && m.0 + m.1 < 3 * f.divs
        }),
{
    lemma_patch_places(locate, centre, f, patches, at, i);
    lemma_patch_places(locate, centre, f, patches, at, j);
    let (c, d) = (lattice(f.divs as int)[i], lattice(f.divs as int)[j]);
    law_lattice_distinct(f.divs);
    if patches[i].abi.centroid == patches[j].abi.centroid {
        law_centroids_of_cells_differ(c, d);
    }
    let (p, q, r) = (at(patches[i].v0), at(patches[i].v1), at(patches[i].v2));
    let m = at(patches[i].abi.centroid);
    if c.upper {
        assert(q.0 - p.0 == 0 && q.1 - p.1 == 3 && r.0 - p.0 == -3 && r.1 - p.1 == 3);
        assert(m.0 - p.0 == -1 && m.1 - p.1 == 2 && m.0 - q.0 == -1 && m.1 - q.1 == -1);
        assert(r.0 - q.0 == -3 && r.1 - q.1 == 0 && p.0 - r.0 == 3 && p.1 - r.1 == -3);
        assert(m.0 - r.0 == 2 && m.1 - r.1 == -1);
    } else {
        assert(q.0 - p.0 == 3 && q.1 - p.1 == 0 && r.0 - p.0 == 0 && r.1 - p.1 == 3);
        assert(m.0 - p.0 == 1 && m.1 - p.1 == 1 && m.0 - q.0 == -2 && m.1 - q.1 == 1);
        assert(r.0 - q.0 == -3 && r.1 - q.1 == 3 && p.0 - r.0 == 0 && p.1 - r.1 == -3);
        assert(m.0 - r.0 == 1 && m.1 - r.1 == -2);
    }
}

proof fn lemma_patch_places<L, C>(
    locate: L,
    centre: C,
    f: Facet,
    patches: Seq<ScenePatch>,
    at: spec_fn(Vec3) -> (int, int),
    i: int,
) where
    L: Fn(OccluderTriangle, LatticePoint, usize) -> Vec3,
    C: Fn(Vec3, Vec3, Vec3) -> Vec3,

    requires
        tiled(locate, centre, f, lattice(f.divs as int), patches),
        exact_places(locate, centre, f.corners, f.divs, at),
        0 <= i < patches.len(),
    ensures
        ({
            let k = lattice(f.divs as int)[i];
            let (a, b, c) = (at(patches[i].v0), at(patches[i].v1), at(patches[i].v2));
            let m = at(patches[i].abi.centroid);
            &&& a == (3 * cell_corner(k, 0).0, 3 * cell_corner(k, 0).1)
            &&& b == (3 * cell_corner(k, 1).0, 3 * cell_corner(k, 1).1)
            &&& c == (3 * cell_corner(k, 2).0, 3 * cell_corner(k, 2).1)
            &&& m.0 == cell_corner(k, 0).0 + cell_corner(k, 1).0 + cell_corner(k, 2).0
            &&& m.1 == cell_corner(k, 0).1 + cell_corner(k, 1).1 + cell_corner(k, 2).1
            &&& k.row + k.col + (if k.upper {
                1int
            } else {
                0
            }) < f.divs
        }),
{
    let k = lattice(f.divs as int)[i];
    assert(lattice(f.divs as int).contains(k));
    law_lattice_is_every_cell(f.divs, k);
    assert(covers(locate, centre, f, k, patches[i]));
}

/// Whether `share` divides exactly, on what `value` says of numbers.
pub open spec fn exact_shares<S: Fn(u32, usize) -> u32>(
    share: S,
    value: spec_fn(u32) -> int,
) -> bool {
    forall|a: u32, n: usize, r: u32| #[trigger]
        share.ensures((a, n), r) ==> n * value(r) == value(a)
}

/// A face of an area is cut into as many rows as its longest edge has patch sides, one
/// at least, and into the square of that many patches, whose areas add up to that of
/// the face; a face of none is not cut at all.
pub proof fn law_face_cut_up<S, L, C>(
    share: S,
    locate: L,
    centre: C,
    value: spec_fn(u32) -> int,
    face: Face,
    tiles: Seq<ScenePatch>,
    i: int,
) where
    S: Fn(u32, usize) -> u32,
    L: Fn(OccluderTriangle, LatticePoint, usize) -> Vec3,
    C: Fn(Vec3, Vec3, Vec3) -> Vec3,

    requires
        face_tiled(share, locate, centre, face, tiles),
        countable(face.shape),
        exact_shares(share, value),
        0 <= i < tiles.len(),
    ensures
        !lt(face.shape.area, MIN_AREA),
        ({
            let d = if face.shape.cells == 0 {
                1
            } else {
                face.shape.cells as int
            };
            tiles.len() == d * d
        }),
        tiles.len() * value(tiles[i].abi.area) == value(face.shape.area),
        tiles[i].abi.normal == face.shape.normal,
        tiles[i].reflectance == face.surface.reflectance,
        tiles[i].emission == face.surface.emission,
        tiles[i].material@ == face.surface.name@,
{
    let d = divisions(face.shape);
    let facet = choose|facet: Facet| #[trigger]
        facet_of(share, face, facet) && tiled(locate, centre, facet, lattice(d), tiles);
    law_lattice_count(d as usize);
    assert(covers(locate, centre, facet, lattice(d)[i], tiles[i]));
}

/// A usable face is cut up.
pub proof fn law_usable_face_has_patches<S, L, C>(
    share: S,
    locate: L,
    centre: C,
    face: Face,
    tiles: Seq<ScenePatch>,
) where
    S: Fn(u32, usize) -> u32,
    L: Fn(OccluderTriangle, LatticePoint, usize) -> Vec3,
    C: Fn(Vec3, Vec3, Vec3) -> Vec3,

    requires
        face_tiled(share, locate, centre, face, tiles),
    ensures
        tiles.len() > 0 <==> !lt(face.shape.area, MIN_AREA),
{
    if !lt(face.shape.area, MIN_AREA) {
        let d = divisions(face.shape);
        law_lattice_count(d as usize);
        assert(d * d > 0) by (nonlinear_arith)
            requires
                d >= 1,
        ;
    }
}

/// A call of `is_wall_material` knows the four materials of the room by their exact
/// names.
pub proof fn law_call_walls(name: &str, r: bool)
    requires
        call_ensures(is_wall_material, (name,), r),
    ensures
        r <==> name@ == seq!['w', 'h', 'i', 't', 'e'] || name@ == seq!['r', 'e', 'd'] || name@
            == seq!['g', 'r', 'e', 'e', 'n'] || name@ == seq!['l', 'i', 'g', 'h', 't'],
{
    reveal_strlit("white");
    reveal_strlit("red");
    reveal_strlit("green");
    reveal_strlit("light");
    assert("white"@ =~= seq!['w', 'h', 'i', 't', 'e']);
    assert("red"@ =~= seq!['r', 'e', 'd']);
    assert("green"@ =~= seq!['g', 'r', 'e', 'e', 'n']);
    assert("light"@ =~= seq!['l', 'i', 'g', 'h', 't']);
}

/// A call of `surface_of` gives the colours and the name of the material that the
/// mesh refers to, black where a colour is missing; without such a material it gives
/// half grey that emits nothing.
pub proof fn law_call_surface(materials: &[Material], id: Option<usize>, r: Surface)
    requires
        call_ensures(surface_of, (materials, id), r),
    ensures
        id matches Some(k) ==> k < materials@.len() ==> {
            let m = materials@[k as int];
            &&& m.diffuse matches Some(c) ==> r.reflectance == c
            &&& m.diffuse is None ==> r.reflectance == (Vec3 { x: 0, y: 0, z: 0 })
            &&& m.emissive matches Some(c) ==> r.emission == c
            &&& m.emissive is None ==> r.emission == (Vec3 { x: 0, y: 0, z: 0 })
            &&& r.name@ == m.name@
        },
        (id is None || id->0 >= materials@.len()) ==> r.reflectance == (Vec3 {
            x: 0x3F00_0000,
            y: 0x3F00_0000,
            z: 0x3F00_0000,
        }) && r.emission == (Vec3 { x: 0, y: 0, z: 0 }) && r.name@ == "default"@,
{
}

/// A call of `read_face` takes the three indices at `3 f`, and for each the three
/// coordinates at thrice that index.
pub proof fn law_call_reads_face(mesh: Mesh, f: usize, r: OccluderTriangle)
    requires
        call_ensures(read_face, (&mesh, f), r),
    ensures
        ({
            let (p, n) = (mesh.positions@, mesh.indices@);
            let (a, b, c) = (n[3 * f as int] as int, n[3 * f + 1] as int, n[3 * f + 2] as int);
            &&& r.v0 == (Vec3 { x: p[3 * a], y: p[3 * a + 1], z: p[3 * a + 2] })
            &&& r.v1 == (Vec3 { x: p[3 * b], y: p[3 * b + 1], z: p[3 * b + 2] })
            &&& r.v2 == (Vec3 { x: p[3 * c], y: p[3 * c + 1], z: p[3 * c + 2] })
        }),
{
}

/// Counting emitters over two lists adds up, and a single patch counts if any channel
/// of its emission is above zero.
pub proof fn law_emitters_add_up(a: Seq<ScenePatch>, b: Seq<ScenePatch>, p: ScenePatch)
    ensures
        emitter_count(a + b) == emitter_count(a) + emitter_count(b),
        emitter_count(seq![p]) == (if lt(ZERO, p.emission.x) || lt(ZERO, p.emission.y) || lt(
            ZERO,
            p.emission.z,
        ) {
            1int
        } else {
            0
        }),
        0 <= emitter_count(a) <= a.len(),
    decreases a.len() + b.len(),
{
    reveal_with_fuel(emitter_count, 2);
    assert(seq![p].drop_last() =~= Seq::<ScenePatch>::empty());
    if b.len() == 0 {
        assert(a + b =~= a);
        if a.len() > 0 {
            law_emitters_add_up(a.drop_last(), b, p);
        }
    } else {
        law_emitters_add_up(a, b.drop_last(), p);
        assert((a + b).drop_last() =~= a + b.drop_last());
        assert((a + b).last() == b.last());
    }
}

proof fn lemma_joined_block(lists: Seq<Seq<ScenePatch>>, i: int) -> (start: int)
    requires
        0 <= i < lists.len(),
    ensures
        0 <= start,
        start + lists[i].len() <= joined(lists).len(),
        joined(lists).subrange(start, start + lists[i].len()) == lists[i],
    decreases lists.len(),
{
    let before = joined(lists.drop_last());
    if i == lists.len() - 1 {
        assert(joined(lists).subrange(before.len() as int, joined(lists).len() as int) =~= lists[i]);
        before.len() as int
    } else {
        let start = lemma_joined_block(lists.drop_last(), i);
        assert(lists.drop_last()[i] == lists[i]);
        assert(joined(lists).subrange(start, start + lists[i].len()) =~= before.subrange(
            start,
            start + lists[i].len(),
        ));
        start
    }
}

/// A call of `build_scene` cuts up every face that has an area: somewhere in its
/// result stand, one after the other, the patches of all cells of the face, with the
/// normal that was measured, an even share of the area, and the material of the mesh;
/// and the face casts shadows if that material is none of the room.
pub proof fn law_call_builds_every_face<M, S, L, C>(
    meshes: &[Mesh],
    materials: &[Material],
    measure: M,
    share: S,
    locate: L,
    centre: C,
    r: Result<Scene, SceneError>,
    m: int,
    f: int,
    t: OccluderTriangle,
    shape: FaceShape,
    d: int,
) where
    M: Fn(OccluderTriangle) -> FaceShape,
    S: Fn(u32, usize) -> u32,
    L: Fn(OccluderTriangle, LatticePoint, usize) -> Vec3,
    C: Fn(Vec3, Vec3, Vec3) -> Vec3,

    requires
        call_ensures(
            build_scene::<M, S, L, C>,
            (meshes, materials, measure, share, locate, centre),
            r,
        ),
        0 <= m < meshes@.len(),
        0 <= f,
        3 * f + 3 <= meshes@[m].indices@.len(),
        ({
            let (p, n) = (meshes@[m].positions@, meshes@[m].indices@);
            let (a, b, c) = (n[3 * f] as int, n[3 * f + 1] as int, n[3 * f + 2] as int);
            &&& t.v0 == (Vec3 { x: p[3 * a], y: p[3 * a + 1], z: p[3 * a + 2] })
            &&& t.v1 == (Vec3 { x: p[3 * b], y: p[3 * b + 1], z: p[3 * b + 2] })
            &&& t.v2 == (Vec3 { x: p[3 * c], y: p[3 * c + 1], z: p[3 * c + 2] })
        }),
        forall|s: FaceShape| #[trigger] measure.ensures((t,), s) ==> s == shape,
        !lt(shape.area, MIN_AREA),
        d >= 1,
        d == shape.cells || shape.cells == 0 && d == 1,
    ensures
        r is Ok,
        ({
            let scene = r->Ok_0;
            exists|start: int, end: int, facet: Facet|
                0 <= start && end == start + d * d && end <= scene.patches@.len() && facet.corners == t
                    && facet.normal == shape.normal && facet.divs == d && share.ensures(
                    (shape.area, (d * d) as usize),
                    facet.sub_area,
                ) && surface_matches(materials@, meshes@[m].material_id, facet.surface)
                    && #[trigger] tiled(
                    locate,
                    centre,
                    facet,
                    lattice(d),
                    scene.patches@.subrange(start, end),
                ) && (!wall_material(facet.surface.name@) ==> scene.occluders@.contains(t))
        }),
{
    let (faces, tiles) = choose|faces: Seq<Face>, tiles: Seq<Seq<ScenePatch>>| #[trigger]
        faces_listed(measure, meshes@, materials@, meshes@.len() as int, 0, faces) && #[trigger]
            faces_tiled(share, locate, centre, faces, tiles) && match r {
            Ok(scene) => any_usable(faces) && scene.patches@ == joined(tiles) && scene.occluders@
                == occluders_of(faces),
            Err(_) => !any_usable(faces),
        };
    let i = face_index(meshes@, m, f);
    let face = faces[i];
    assert(face_read(measure, meshes@[m], materials@, f, face));
    lemma_face_counted(meshes@, m, f);
    assert(face.corners == t);
    assert(!degenerate(face));
    assert(d == divisions(shape));
    assert(face_tiled(share, locate, centre, face, tiles[i]));
    let facet = choose|facet: Facet| #[trigger]
        facet_of(share, face, facet) && tiled(locate, centre, facet, lattice(d), tiles[i]);
    law_lattice_count(d as usize);
    let start = lemma_joined_block(tiles, i);
    assert(tiles[i].len() == d * d);
    law_occluders_are_interior(faces, t);
    assert(occludes(face) == !wall_material(face.surface.name@));
    let end = start + d * d;
    assert(tiled(locate, centre, facet, lattice(d), r->Ok_0.patches@.subrange(start, end)));
}

proof fn lemma_face_counted(meshes: Seq<Mesh>, m: int, f: int)
    requires
        0 <= m < meshes.len(),
        0 <= f < face_count(meshes[m]),
    ensures
        0 <= face_index(meshes, m, f) < first_face(meshes, meshes.len() as int),
{
    lemma_first_face_monotone(meshes, 0, m);
    lemma_first_face_monotone(meshes, m + 1, meshes.len() as int);
}

/// Whatever a call of `build_scene` returns to cast shadows is a face of some mesh,
/// has an area, and is of no material of the room.
pub proof fn law_call_builds_nothing_else<M, S, L, C>(
    meshes: &[Mesh],
    materials: &[Material],
    measure: M,
    share: S,
    locate: L,
    centre: C,
    r: Result<Scene, SceneError>,
    k: int,
) where
    M: Fn(OccluderTriangle) -> FaceShape,
    S: Fn(u32, usize) -> u32,
    L: Fn(OccluderTriangle, LatticePoint, usize) -> Vec3,
    C: Fn(Vec3, Vec3, Vec3) -> Vec3,

    requires
        call_ensures(
            build_scene::<M, S, L, C>,
            (meshes, materials, measure, share, locate, centre),
            r,
        ),
        r is Ok,
        0 <= k < r->Ok_0.occluders@.len(),
    ensures
        exists|m: int, f: int, face: Face|
            {
                &&& #[trigger] face_read(measure, meshes@[m], materials@, f, face)
                &&& 0 <= m < meshes@.len()
                &&& 0 <= f
                &&& 3 * f + 3 <= meshes@[m].indices@.len()
                &&& face.corners == r->Ok_0.occluders@[k]
                &&& !lt(face.shape.area, MIN_AREA)
                &&& face.surface.name@ != "white"@
                &&& face.surface.name@ != "red"@
                &&& face.surface.name@ != "green"@
                &&& face.surface.name@ != "light"@
            },
{
    let (faces, tiles) = choose|faces: Seq<Face>, tiles: Seq<Seq<ScenePatch>>| #[trigger]
        faces_listed(measure, meshes@, materials@, meshes@.len() as int, 0, faces) && #[trigger]
            faces_tiled(share, locate, centre, faces, tiles) && match r {
            Ok(scene) => any_usable(faces) && scene.patches@ == joined(tiles) && scene.occluders@
                == occluders_of(faces),
            Err(_) => !any_usable(faces),
        };
    let t = r->Ok_0.occluders@[k];
    law_occluders_are_interior(faces, t);
    assert(occluders_of(faces)[k] == t);
    assert(occluders_of(faces).contains(t));
    let i = choose|i: int|
        0 <= i < faces.len() && occludes(#[trigger] faces[i]) && faces[i].corners == t;
    let (m, f) = lemma_face_found(meshes@, meshes@.len() as int, i);
    assert(face_read(measure, meshes@[m], materials@, f, faces[face_index(meshes@, m, f)]));
}

/// A call of `build_scene` on meshes none of whose faces has an area fails.
pub proof fn law_call_fails_without_faces<M, S, L, C>(
    meshes: &[Mesh],
    materials: &[Material],
    measure: M,
    share: S,
    locate: L,
    centre: C,
    r: Result<Scene, SceneError>,
) where
    M: Fn(OccluderTriangle) -> FaceShape,
    S: Fn(u32, usize) -> u32,
    L: Fn(OccluderTriangle, LatticePoint, usize) -> Vec3,
    C: Fn(Vec3, Vec3, Vec3) -> Vec3,

    requires
        call_ensures(
            build_scene::<M, S, L, C>,
            (meshes, materials, measure, share, locate, centre),
            r,
        ),
        forall|t: OccluderTriangle, s: FaceShape| #[trigger]
            measure.ensures((t,), s) ==> lt(s.area, MIN_AREA),
    ensures
        r is Err,
{
    let (faces, tiles) = choose|faces: Seq<Face>, tiles: Seq<Seq<ScenePatch>>| #[trigger]
        faces_listed(measure, meshes@, materials@, meshes@.len() as int, 0, faces) && #[trigger]
            faces_tiled(share, locate, centre, faces, tiles) && match r {
            Ok(scene) => any_usable(faces) && scene.patches@ == joined(tiles) && scene.occluders@
                == occluders_of(faces),
            Err(_) => !any_usable(faces),
        };
    if any_usable(faces) {
        let i = choose|i: int| 0 <= i < faces.len() && !degenerate(#[trigger] faces[i]);
        let (m, f) = lemma_face_found(meshes@, meshes@.len() as int, i);
        assert(face_read(measure, meshes@[m], materials@, f, faces[face_index(meshes@, m, f)]));
    }
}

/// Shadow casters come in the order of their faces.
pub proof fn law_occluders_in_order(a: Seq<Face>, b: Seq<Face>)
    ensures
        occluders_of(a + b) == occluders_of(a) + occluders_of(b),
    decreases b.len(),
{
    if b.len() == 0 {
        assert(a + b =~= a);
        assert(occluders_of(a) + occluders_of(b) =~= occluders_of(a));
    } else {
        law_occluders_in_order(a, b.drop_last());
        assert((a + b).drop_last() =~= a + b.drop_last());
        assert((a + b).last() == b.last());
        assert(occluders_of(a + b) =~= occluders_of(a) + occluders_of(b));
    }
}

/// The surface of a mesh is that of its material: colours and name as they are given,
/// black for a colour that is not; half grey that emits nothing where there is no
/// such material.
pub proof fn law_surface_is_material(materials: Seq<Material>, id: Option<usize>, s: Surface)
    requires
        surface_matches(materials, id, s),
    ensures
        id matches Some(k) ==> k < materials.len() ==> {
            let m = materials[k as int];
            &&& m.diffuse matches Some(c) ==> s.reflectance == c
            &&& m.diffuse is None ==> s.reflectance == (Vec3 { x: 0, y: 0, z: 0 })
            &&& m.emissive matches Some(c) ==> s.emission == c
            &&& m.emissive is None ==> s.emission == (Vec3 { x: 0, y: 0, z: 0 })
            &&& s.name@ == m.name@
        },
        (id is None || id->0 >= materials.len()) ==> s.reflectance == (Vec3 {
            x: 0x3F00_0000,
            y: 0x3F00_0000,
            z: 0x3F00_0000,
        }) && s.emission == (Vec3 { x: 0, y: 0, z: 0 }) && s.name@ == "default"@,
{
}

/// Every patch that a call of `build_scene` returns is cut from a face of some mesh
/// that has an area, and has the normal that was measured of that face and the material
/// of that mesh.
pub proof fn law_call_cuts_nothing_else<M, S, L, C>(
    meshes: &[Mesh],
    materials: &[Material],
    measure: M,
    share: S,
    locate: L,
    centre: C,
    r: Result<Scene, SceneError>,
    k: int,
) where
    M: Fn(OccluderTriangle) -> FaceShape,
    S: Fn(u32, usize) -> u32,
    L: Fn(OccluderTriangle, LatticePoint, usize) -> Vec3,
    C: Fn(Vec3, Vec3, Vec3) -> Vec3,

    requires
        call_ensures(
            build_scene::<M, S, L, C>,
            (meshes, materials, measure, share, locate, centre),
            r,
        ),
        r is Ok,
        0 <= k < r->Ok_0.patches@.len(),
    ensures
        exists|m: int, f: int, face: Face|
            {
                let p = r->Ok_0.patches@[k];
                &&& #[trigger] face_read(measure, meshes@[m], materials@, f, face)
                &&& 0 <= m < meshes@.len()
                &&& 0 <= f
                &&& 3 * f + 3 <= meshes@[m].indices@.len()
                &&& !lt(face.shape.area, MIN_AREA)
                &&& p.abi.normal == face.shape.normal
                &&& centre.ensures((p.v0, p.v1, p.v2), p.abi.centroid)
                &&& p.reflectance == face.surface.reflectance
                &&& p.emission == face.surface.emission
                &&& p.material@ == face.surface.name@
            },
{
    let (faces, tiles) = choose|faces: Seq<Face>, tiles: Seq<Seq<ScenePatch>>| #[trigger]
        faces_listed(measure, meshes@, materials@, meshes@.len() as int, 0, faces) && #[trigger]
            faces_tiled(share, locate, centre, faces, tiles) && match r {
            Ok(scene) => any_usable(faces) && scene.patches@ == joined(tiles) && scene.occluders@
                == occluders_of(faces),
            Err(_) => !any_usable(faces),
        };
    let (i, j) = lemma_joined_member(tiles, k);
    let (m, f) = lemma_face_found(meshes@, meshes@.len() as int, i);
    let face = faces[i];
    assert(face_read(measure, meshes@[m], materials@, f, faces[face_index(meshes@, m, f)]));
    assert(face_tiled(share, locate, centre, face, tiles[i]));
    let d = divisions(face.shape);
    let facet = choose|facet: Facet| #[trigger]
        facet_of(share, face, facet) && tiled(locate, centre, facet, lattice(d), tiles[i]);
    assert(covers(locate, centre, facet, lattice(d)[j], tiles[i][j]));
}

/// A call of `count_emitters` counts no patch twice and none that is dark: one more
/// patch adds one exactly if any channel of its emission is above zero.
pub proof fn law_calls_count_emitters(
    patches: &[ScenePatch],
    more: &[ScenePatch],
    p: ScenePatch,
    r: usize,
    s: usize,
)
    requires
        call_ensures(count_emitters, (patches,), r),
        call_ensures(count_emitters, (more,), s),
        more@ == patches@.push(p),
    ensures
        s == r + (if lt(ZERO, p.emission.x) || lt(ZERO, p.emission.y) || lt(ZERO, p.emission.z) {
            1int
        } else {
            0
        }),
        patches@.len() == 0 ==> r == 0,
{
    assert(more@ =~= patches@ + seq![p]);
    law_emitters_add_up(patches@, seq![p], p);
}

/// A call of `tessellate_triangle` leaves the patches that were there and adds the
/// square of the number of rows: for every cell of the face one patch, its corners at
/// the lattice points of the cell and its centroid their centre, with what all patches
/// of the face share.
pub proof fn law_call_tessellates<L, C>(
    f: Facet,
    locate: L,
    centre: C,
    out: &mut Vec<ScenePatch>,
    row: usize,
    col: usize,
    upper: bool,
) where
    L: Fn(OccluderTriangle, LatticePoint, usize) -> Vec3,
    C: Fn(Vec3, Vec3, Vec3) -> Vec3,

    requires
        call_ensures(tessellate_triangle::<L, C>, (&f, &locate, &centre, out), ()),
        row + col < f.divs,
        upper ==> row + col + 1 < f.divs,
    ensures
        final(out)@.len() == old(out)@.len() + f.divs * f.divs,
        final(out)@.take(old(out)@.len() as int) == old(out)@,
        exists|i: int|
            {
                let p = #[trigger] final(out)@[i];
                &&& old(out)@.len() <= i < final(out)@.len()
                &&& !upper ==> cut_at(
                    locate,
                    centre,
                    f.corners,
                    f.divs,
                    LatticePoint { u: col, v: row },
                    LatticePoint { u: (col + 1) as usize, v: row },
                    LatticePoint { u: col, v: (row + 1) as usize },
                    p,
                )
                &&& upper ==> cut_at(
                    locate,
                    centre,
                    f.corners,
                    f.divs,
                    LatticePoint { u: (col + 1) as usize, v: row },
                    LatticePoint { u: (col + 1) as usize, v: (row + 1) as usize },
                    LatticePoint { u: col, v: (row + 1) as usize },
                    p,
                )
                &&& p.abi.normal == f.normal
                &&& p.abi.area == f.sub_area
                &&& p.abi._pad == 0
                &&& p.reflectance == f.surface.reflectance
                &&& p.emission == f.surface.emission
                &&& p.material@ == f.surface.name@
            },
{
    let (before, after) = (old(out)@, final(out)@);
    let cells = lattice(f.divs as int);
    let tiles = choose|tiles: Seq<ScenePatch>| #[trigger]
        tiled(locate, centre, f, cells, tiles) && after == before + tiles;
    let c = Cell { row, col, upper };
    law_lattice_is_every_cell(f.divs, c);
    assert(after.take(before.len() as int) =~= before);
    let k = cells.index_of(c);
    law_patch_is_cell(locate, centre, f, tiles, k);
    assert(after[before.len() + k] == tiles[k]);
}

} // verus!
