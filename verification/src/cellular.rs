//! Analytic cellular subtraction of axis-aligned boxes, on the integer grid.
//!
//! Every cutter face plane becomes a grid line on its axis, which partitions
//! the host box into `dims[0] x dims[1] x dims[2]` cells. A cutter then covers
//! a box of whole cells, so each cell is entirely solid or entirely void. A
//! face is emitted wherever a solid cell meets a void cell or the edge of the
//! grid. Corners are addressed by integer grid index and numbered in the order
//! they are first met, so coincident corners share one vertex.
//!
//! Turning coordinates into grid lines (and grid indices back into
//! coordinates) is floating-point work done by the caller; this module is the
//! combinatorial core.

use crate::mesh::first_seen;
use std::collections::BTreeMap;
use vstd::prelude::*;

verus! {

/// A cutter as a box of whole cells: it covers cell `p` exactly when
/// `lo[a] <= p[a] < hi[a]` on every axis `a`.
#[derive(Clone, Copy, Debug, PartialEq, Eq)]
pub struct CellBox {
    pub lo: [usize; 3],
    pub hi: [usize; 3],
}

/// A grid corner `(x, y, z)`: the index of the grid plane on each axis.
pub type GridPoint = (usize, usize, usize);

/// The result: corners in first-met order and three indices per triangle.
pub struct Cells {
    pub grid: Vec<GridPoint>,
    pub indices: Vec<u32>,
}

/// A cell of the grid, by its index on each axis.
pub type Cell = (int, int, int);

/// An emitted face: the solid cell, the axis of its normal and whether it
/// points along `+axis`.
pub type Face = (Cell, int, bool);

pub open spec fn cell_count(dims: [usize; 3]) -> int {
    dims[0] as int * dims[1] as int * dims[2] as int
}

/// Position of cell `p` in the emission order (`x` slowest, `z` fastest).
pub open spec fn linear(dims: [usize; 3], p: Cell) -> int {
    (p.0 * dims[1] + p.1) * dims[2] + p.2
}

/// The cell at position `t` of the emission order.
pub open spec fn cell_of(dims: [usize; 3], t: int) -> Cell {
    (t / (dims[1] as int * dims[2] as int), (t / dims[2] as int) % dims[1] as int, t % dims[2] as int)
}

pub open spec fn in_grid(dims: [usize; 3], p: Cell) -> bool {
    0 <= p.0 < dims[0] && 0 <= p.1 < dims[1] && 0 <= p.2 < dims[2]
}

pub open spec fn covers(c: CellBox, p: Cell) -> bool {
    &&& c.lo[0] <= p.0 < c.hi[0]
    &&& c.lo[1] <= p.1 < c.hi[1]
    &&& c.lo[2] <= p.2 < c.hi[2]
}

/// A cell is solid when it lies in the grid and no cutter covers it.
pub open spec fn solid(dims: [usize; 3], cutters: Seq<CellBox>, p: Cell) -> bool {
    in_grid(dims, p) && !(exists|n: int| 0 <= n < cutters.len() && covers(#[trigger] cutters[n], p))
}

pub open spec fn coord(p: Cell, a: int) -> int {
    if a == 0 {
        p.0
    } else if a == 1 {
        p.1
    } else {
        p.2
    }
}

/// The cell next to `p` across its face on axis `a`, on the `+a` side when
/// `positive`.
pub open spec fn neighbour(p: Cell, a: int, positive: bool) -> Cell {
    let d: int = if positive { 1 } else { -1 };
    if a == 0 {
        (p.0 + d, p.1, p.2)
    } else if a == 1 {
        (p.0, p.1 + d, p.2)
    } else {
        (p.0, p.1, p.2 + d)
    }
}

/// Whether the face of `p` on axis `a` (side `positive`) is on the surface.
pub open spec fn emits(dims: [usize; 3], cutters: Seq<CellBox>, p: Cell, a: int, positive: bool) -> bool {
    solid(dims, cutters, p) && !solid(dims, cutters, neighbour(p, a, positive))
}

pub open spec fn face_if(dims: [usize; 3], cutters: Seq<CellBox>, p: Cell, a: int, positive: bool) -> Seq<Face> {
    if emits(dims, cutters, p, a, positive) {
        seq![(p, a, positive)]
    } else {
        seq![]
    }
}

/// The faces of one cell, axis by axis, the `+` side before the `-` side.
pub open spec fn faces_of_cell(dims: [usize; 3], cutters: Seq<CellBox>, p: Cell) -> Seq<Face> {
    face_if(dims, cutters, p, 0, true) + face_if(dims, cutters, p, 0, false)
        + face_if(dims, cutters, p, 1, true) + face_if(dims, cutters, p, 1, false)
        + face_if(dims, cutters, p, 2, true) + face_if(dims, cutters, p, 2, false)
}

/// The faces of the first `t` cells of the emission order.
pub open spec fn faces_upto(dims: [usize; 3], cutters: Seq<CellBox>, t: int) -> Seq<Face>
    decreases t,
{
    if t <= 0 {
        seq![]
    } else {
        faces_upto(dims, cutters, t - 1) + faces_of_cell(dims, cutters, cell_of(dims, t - 1))
    }
}

/// Every surface face, in emission order.
pub open spec fn surface(dims: [usize; 3], cutters: Seq<CellBox>) -> Seq<Face> {
    faces_upto(dims, cutters, cell_count(dims))
}

/// Corner `(db, dc)` of a face: on the face's plane, offset by `db` along the
/// axis after `a` and by `dc` along the one after that (cyclically), so that
/// the two offsets and the normal form a right-handed frame.
pub open spec fn corner(f: Face, db: int, dc: int) -> GridPoint {
    let p = f.0;
    let a = f.1;
    let plane = if f.2 { coord(p, a) + 1 } else { coord(p, a) };
    if a == 0 {
        (plane as usize, (p.1 + db) as usize, (p.2 + dc) as usize)
    } else if a == 1 {
        ((p.0 + dc) as usize, plane as usize, (p.2 + db) as usize)
    } else {
        ((p.0 + db) as usize, (p.1 + dc) as usize, plane as usize)
    }
}

/// The four corners of a face, in the order they are numbered.
pub open spec fn quad(f: Face) -> Seq<GridPoint> {
    seq![corner(f, 0, 0), corner(f, 1, 0), corner(f, 1, 1), corner(f, 0, 1)]
}

/// The two triangles of a face, wound outward: counter-clockwise seen from
/// the side the normal points to.
pub open spec fn triangles(f: Face) -> Seq<GridPoint> {
    let q = quad(f);
    if f.2 {
        seq![q[0], q[1], q[2], q[0], q[2], q[3]]
    } else {
        seq![q[0], q[2], q[1], q[0], q[3], q[2]]
    }
}

pub open spec fn quads_of(fs: Seq<Face>) -> Seq<GridPoint>
    decreases fs.len(),
{
    if fs.len() == 0 {
        seq![]
    } else {
        quads_of(fs.drop_last()) + quad(fs.last())
    }
}

pub open spec fn corners_of(fs: Seq<Face>) -> Seq<GridPoint>
    decreases fs.len(),
{
    if fs.len() == 0 {
        seq![]
    } else {
        corners_of(fs.drop_last()) + triangles(fs.last())
    }
}

/// Mixed-radix digits: `(i * ny + j) * nz + k` with `j < ny` and `k < nz`
/// determines `(i, j, k)`.
proof fn lemma_digits(ny: int, nz: int, i: int, j: int, k: int)
    requires
        0 <= i,
        0 <= j < ny,
        0 <= k < nz,
    ensures
        0 <= (i * ny + j) * nz + k,
        ((i * ny + j) * nz + k) / (ny * nz) == i,
        (((i * ny + j) * nz + k) / nz) % ny == j,
        ((i * ny + j) * nz + k) % nz == k,
{
    let t = (i * ny + j) * nz + k;
    assert(0 <= i * ny + j && 0 <= (i * ny + j) * nz) by (nonlinear_arith)
        requires 0 <= i, 0 <= j < ny, 0 <= k < nz;
    vstd::arithmetic::div_mod::lemma_fundamental_div_mod_converse(t, nz, i * ny + j, k);
    vstd::arithmetic::div_mod::lemma_fundamental_div_mod_converse(i * ny + j, ny, i, j);
    assert(t == i * (ny * nz) + (j * nz + k) && 0 <= j * nz + k < ny * nz) by (nonlinear_arith)
        requires t == (i * ny + j) * nz + k, 0 <= j < ny, 0 <= k < nz;
    vstd::arithmetic::div_mod::lemma_fundamental_div_mod_converse(t, ny * nz, i, j * nz + k);
}

pub(crate) proof fn lemma_linear(dims: [usize; 3], i: int, j: int, k: int)
    requires
        0 <= i < dims[0],
        0 <= j < dims[1],
        0 <= k < dims[2],
    ensures
        0 <= linear(dims, (i, j, k)) < cell_count(dims),
        cell_of(dims, linear(dims, (i, j, k))) == (i, j, k),
{
    let nx = dims[0] as int;
    let ny = dims[1] as int;
    let nz = dims[2] as int;
    lemma_digits(ny, nz, i, j, k);
    assert((i * ny + j) * nz + k < nx * ny * nz) by (nonlinear_arith)
        requires 0 <= i < nx, 0 <= j < ny, 0 <= k < nz;
}

/// Number of grid corners.
pub open spec fn corner_count(dims: [usize; 3]) -> int {
    (dims[0] + 1) * (dims[1] + 1) * (dims[2] + 1)
}

pub open spec fn in_box(dims: [usize; 3], g: GridPoint) -> bool {
    g.0 <= dims[0] && g.1 <= dims[1] && g.2 <= dims[2]
}

pub open spec fn corner_index(dims: [usize; 3], g: GridPoint) -> int {
    (g.0 * (dims[1] + 1) + g.1) * (dims[2] + 1) + g.2
}

/// Distinct corners of the grid are at most as many as the grid has.
proof fn lemma_corner_bound(dims: [usize; 3], grid: Seq<GridPoint>)
    requires
        grid.no_duplicates(),
        forall|n: int| 0 <= n < grid.len() ==> in_box(dims, #[trigger] grid[n]),
    ensures
        grid.len() <= corner_count(dims),
{
    let ny = dims[1] + 1;
    let nz = dims[2] + 1;
    let m = corner_count(dims);
    let x = grid.to_set();
    let f = |g: GridPoint| corner_index(dims, g);
    grid.unique_seq_to_set();
    assert forall|g: GridPoint| x.contains(g) implies in_box(dims, g) && 0 <= #[trigger] f(g) < m by {
        let n = choose|n: int| 0 <= n < grid.len() && grid[n] == g;
        assert(in_box(dims, grid[n]));
        lemma_digits(ny, nz, g.0 as int, g.1 as int, g.2 as int);
        assert((g.0 * ny + g.1) * nz + g.2 < (dims[0] + 1) * ny * nz) by (nonlinear_arith)
            requires g.0 <= dims[0], g.1 < ny, g.2 < nz;
    }
    assert(vstd::relations::injective_on(f, x)) by {
        assert forall|g: GridPoint, h: GridPoint| x.contains(g) && x.contains(h) && #[trigger] f(g) == #[trigger] f(h) implies g == h by {
            lemma_digits(ny, nz, g.0 as int, g.1 as int, g.2 as int);
            lemma_digits(ny, nz, h.0 as int, h.1 as int, h.2 as int);
        }
    }
    let y = x.map(f);
    vstd::set_lib::lemma_map_size(x, y, f);
    vstd::set_lib::lemma_int_range(0, m);
    assert(y.subset_of(vstd::set_lib::set_int_range(0, m)));
    vstd::set_lib::lemma_len_subset(y, vstd::set_lib::set_int_range(0, m));
}

/// Position of cell `(i, j, k)` in the solid table.
fn at(dims: [usize; 3], i: usize, j: usize, k: usize) -> (t: usize)
    requires
        i < dims[0],
        j < dims[1],
        k < dims[2],
        cell_count(dims) <= usize::MAX,
    ensures
        t == linear(dims, (i as int, j as int, k as int)),
        t < cell_count(dims),
        cell_of(dims, t as int) == (i as int, j as int, k as int),
{
    proof {
        lemma_linear(dims, i as int, j as int, k as int);
        let ny = dims[1] as int;
        let nz = dims[2] as int;
        assert(0 <= i * ny + j <= (i * ny + j) * nz + k) by (nonlinear_arith)
            requires 0 <= i, 0 <= j < ny, 0 <= k < nz;
    }
    (i * dims[1] + j) * dims[2] + k
}

/// Whether some cutter covers cell `(i, j, k)`.
fn covered(cutters: &[CellBox], i: usize, j: usize, k: usize) -> (r: bool)
    ensures
        r == exists|n: int| 0 <= n < cutters@.len() && covers(#[trigger] cutters@[n], (i as int, j as int, k as int)),
{
    let p: Ghost<Cell> = Ghost((i as int, j as int, k as int));
    let mut n: usize = 0;
    while n < cutters.len()
        invariant
            n <= cutters@.len(),
            p@ == (i as int, j as int, k as int),
            forall|m: int| 0 <= m < n ==> !covers(#[trigger] cutters@[m], p@),
        decreases cutters@.len() - n,
    {
        let c = cutters[n];
        if c.lo[0] <= i && i < c.hi[0] && c.lo[1] <= j && j < c.hi[1] && c.lo[2] <= k && k < c.hi[2] {
            assert(covers(cutters@[n as int], p@));
            return true;
        }
        n += 1;
    }
    false
}

/// The solid table: entry `linear(p)` says whether cell `p` is solid.
fn solid_table(dims: [usize; 3], cutters: &[CellBox]) -> (s: Vec<bool>)
    requires
        cell_count(dims) <= usize::MAX,
    ensures
        s@.len() == cell_count(dims),
        forall|t: int| 0 <= t < cell_count(dims) ==> #[trigger] s@[t] == solid(dims, cutters@, cell_of(dims, t)),
{
    let mut s: Vec<bool> = Vec::new();
    let mut i: usize = 0;
    assert(linear(dims, (0, 0, 0)) == 0) by (nonlinear_arith);
    while i < dims[0]
        invariant
            i <= dims[0],
            cell_count(dims) <= usize::MAX,
            s@.len() == linear(dims, (i as int, 0, 0)),
            forall|t: int| 0 <= t < s@.len() ==> #[trigger] s@[t] == solid(dims, cutters@, cell_of(dims, t)),
        decreases dims[0] - i,
    {
        let mut j: usize = 0;
        while j < dims[1]
            invariant
                i < dims[0],
                j <= dims[1],
                cell_count(dims) <= usize::MAX,
                s@.len() == linear(dims, (i as int, j as int, 0)),
                forall|t: int| 0 <= t < s@.len() ==> #[trigger] s@[t] == solid(dims, cutters@, cell_of(dims, t)),
            decreases dims[1] - j,
        {
            let mut k: usize = 0;
            while k < dims[2]
                invariant
                    i < dims[0],
                    j < dims[1],
                    k <= dims[2],
                    cell_count(dims) <= usize::MAX,
                    s@.len() == linear(dims, (i as int, j as int, k as int)),
                    forall|t: int| 0 <= t < s@.len() ==> #[trigger] s@[t] == solid(dims, cutters@, cell_of(dims, t)),
                decreases dims[2] - k,
            {
                let t = at(dims, i, j, k);
                let hit = covered(cutters, i, j, k);
                s.push(!hit);
                k += 1;
            }
            proof {
                let ny = dims[1] as int;
                let nz = dims[2] as int;
                assert((i * ny + j) * nz + nz == (i * ny + j + 1) * nz) by (nonlinear_arith);
            }
            j += 1;
        }
        proof {
            let ny = dims[1] as int;
            let nz = dims[2] as int;
            assert((i * ny + ny) * nz == ((i + 1) * ny) * nz) by (nonlinear_arith);
        }
        i += 1;
    }
    proof {
        let ny = dims[1] as int;
        let nz = dims[2] as int;
        let nx = dims[0] as int;
        assert((nx * ny) * nz == nx * ny * nz) by (nonlinear_arith);
    }
    s
}

/// The surface under construction: the corner registry, the corners in
/// first-met order, the triangle indices, and the faces emitted so far.
struct Surface {
    ids: BTreeMap<GridPoint, u32>,
    grid: Vec<GridPoint>,
    indices: Vec<u32>,
    faces: Ghost<Seq<Face>>,
}

impl Surface {
    /// The registry maps each known corner to its position in `grid`, and
    /// `grid` holds each corner once.
    spec fn registered(&self) -> bool {
        &&& self.grid@.no_duplicates()
        &&& forall|g: GridPoint| #[trigger] self.ids@.contains_key(g) <==> self.grid@.contains(g)
        &&& forall|g: GridPoint| #[trigger] self.ids@.contains_key(g) ==> self.ids@[g] < self.grid@.len() && self.grid@[self.ids@[g] as int] == g
    }

    spec fn inv(&self, dims: [usize; 3]) -> bool {
        &&& self.registered()
        &&& corner_count(dims) <= u32::MAX + 1
        &&& forall|n: int| 0 <= n < self.grid@.len() ==> in_box(dims, #[trigger] self.grid@[n])
        &&& self.grid@ == first_seen(quads_of(self.faces@))
        &&& self.indices@.len() == corners_of(self.faces@).len()
        &&& forall|t: int| 0 <= t < self.indices@.len() ==> {
            &&& self.indices@[t] < self.grid@.len()
            &&& self.grid@[#[trigger] self.indices@[t] as int] == corners_of(self.faces@)[t]
        }
    }

    /// The id of corner `g`, registering it if it is new.
    fn vertex(&mut self, g: GridPoint, Ghost(dims): Ghost<[usize; 3]>, Ghost(seen): Ghost<Seq<GridPoint>>) -> (v: u32)
        requires
            old(self).registered(),
            corner_count(dims) <= u32::MAX + 1,
            forall|n: int| 0 <= n < old(self).grid@.len() ==> in_box(dims, #[trigger] old(self).grid@[n]),
            in_box(dims, g),
            old(self).grid@ == first_seen(seen),
        ensures
            final(self).registered(),
            forall|n: int| 0 <= n < final(self).grid@.len() ==> in_box(dims, #[trigger] final(self).grid@[n]),
            final(self).grid@ == first_seen(seen.push(g)),
            final(self).grid@.len() >= old(self).grid@.len(),
            forall|n: int| 0 <= n < old(self).grid@.len() ==> final(self).grid@[n] == old(self).grid@[n],
            v < final(self).grid@.len(),
            final(self).grid@[v as int] == g,
            final(self).indices == old(self).indices,
            final(self).faces == old(self).faces,
    {
        assert(seen.push(g).drop_last() =~= seen);
        match self.ids.get(&g) {
            Some(v) => {
                let v = *v;
                assert(self.grid@.contains(g));
                v
            },
            None => {
                assert(!self.grid@.contains(g));
                proof {
                    lemma_corner_bound(dims, self.grid@.push(g));
                }
                let v = self.grid.len() as u32;
                self.grid.push(g);
                self.ids.insert(g, v);
                assert(self.ids@ == old(self).ids@.insert(g, v));
                assert forall|h: GridPoint| #[trigger] self.ids@.contains_key(h) <==> self.grid@.contains(h) by {
                    assert(self.grid@[self.grid@.len() - 1] == g);
                    if self.grid@.contains(h) && h != g {
                        let n = choose|n: int| 0 <= n < self.grid@.len() && self.grid@[n] == h;
                        assert(old(self).grid@[n] == h);
                    }
                    if old(self).grid@.contains(h) {
                        let n = choose|n: int| 0 <= n < old(self).grid@.len() && old(self).grid@[n] == h;
                        assert(self.grid@[n] == h);
                    }
                }
                v
            },
        }
    }

    /// Emit the face of cell `(i, j, k)` on axis `a`, side `positive`.
    fn add_face(&mut self, dims: [usize; 3], i: usize, j: usize, k: usize, a: usize, positive: bool)
        requires
            old(self).inv(dims),
            in_grid(dims, (i as int, j as int, k as int)),
            a < 3,
        ensures
            final(self).inv(dims),
            final(self).faces@ == old(self).faces@.push(((i as int, j as int, k as int), a as int, positive)),
    {
        let ghost f: Face = ((i as int, j as int, k as int), a as int, positive);
        let ghost fs = self.faces@;
        let ghost qs = quads_of(fs);
        let ghost cs = corners_of(fs);
        let (c00, c10, c11, c01): (GridPoint, GridPoint, GridPoint, GridPoint) = if a == 0 {
            let plane = if positive { i + 1 } else { i };
            ((plane, j, k), (plane, j + 1, k), (plane, j + 1, k + 1), (plane, j, k + 1))
        } else if a == 1 {
            let plane = if positive { j + 1 } else { j };
            ((i, plane, k), (i, plane, k + 1), (i + 1, plane, k + 1), (i + 1, plane, k))
        } else {
            let plane = if positive { k + 1 } else { k };
            ((i, j, plane), (i + 1, j, plane), (i + 1, j + 1, plane), (i, j + 1, plane))
        };
        assert(quad(f) =~= seq![c00, c10, c11, c01]);
        let p00 = self.vertex(c00, Ghost(dims), Ghost(qs));
        let p10 = self.vertex(c10, Ghost(dims), Ghost(qs.push(c00)));
        let p11 = self.vertex(c11, Ghost(dims), Ghost(qs.push(c00).push(c10)));
        let p01 = self.vertex(c01, Ghost(dims), Ghost(qs.push(c00).push(c10).push(c11)));
        assert(self.grid@[p00 as int] == c00);
        assert(self.grid@[p10 as int] == c10);
        assert(self.grid@[p11 as int] == c11);
        let ghost before = self.indices@;
        if positive {
            self.indices.push(p00);
            self.indices.push(p10);
            self.indices.push(p11);
            self.indices.push(p00);
            self.indices.push(p11);
            self.indices.push(p01);
        } else {
            self.indices.push(p00);
            self.indices.push(p11);
            self.indices.push(p10);
            self.indices.push(p00);
            self.indices.push(p01);
            self.indices.push(p11);
        }
        self.faces = Ghost(fs.push(f));
        proof {
            assert(fs.push(f).drop_last() =~= fs);
            assert(quads_of(fs.push(f)) == qs + quad(f));
            assert(qs + quad(f) =~= qs.push(c00).push(c10).push(c11).push(c01));
            assert(corners_of(fs.push(f)) == cs + triangles(f));
            let tri = triangles(f);
            assert(self.indices@.len() == cs.len() + 6);
            assert forall|t: int| 0 <= t < self.indices@.len() implies {
                &&& self.indices@[t] < self.grid@.len()
                &&& self.grid@[#[trigger] self.indices@[t] as int] == corners_of(self.faces@)[t]
            } by {
                if t < cs.len() {
                    assert(self.indices@[t] == before[t]);
                } else {
                    assert(corners_of(self.faces@)[t] == tri[t - cs.len()]);
                }
            }
        }
    }

    /// Emit the face of solid cell `(i, j, k)` on axis `a`, side `positive`,
    /// if the cell across it is not solid.
    fn add_side(
        &mut self,
        table: &Vec<bool>,
        dims: [usize; 3],
        Ghost(cutters): Ghost<Seq<CellBox>>,
        i: usize,
        j: usize,
        k: usize,
        a: usize,
        positive: bool,
    )
        requires
            old(self).inv(dims),
            tabulates(table@, dims, cutters),
            in_grid(dims, (i as int, j as int, k as int)),
            solid(dims, cutters, (i as int, j as int, k as int)),
            a < 3,
        ensures
            final(self).inv(dims),
            final(self).faces@ == old(self).faces@ + face_if(dims, cutters, (i as int, j as int, k as int), a as int, positive),
    {
        let ghost f0 = self.faces@;
        if !neighbour_solid(table, dims, Ghost(cutters), i, j, k, a, positive) {
            self.add_face(dims, i, j, k, a, positive);
            assert(f0.push(((i as int, j as int, k as int), a as int, positive)) =~= f0 + seq![((i as int, j as int, k as int), a as int, positive)]);
        } else {
            assert(f0 =~= f0 + face_if(dims, cutters, (i as int, j as int, k as int), a as int, positive));
        }
    }

    /// Emit every surface face of solid cell `(i, j, k)`.
    fn add_cell(&mut self, table: &Vec<bool>, dims: [usize; 3], Ghost(cutters): Ghost<Seq<CellBox>>, i: usize, j: usize, k: usize)
        requires
            old(self).inv(dims),
            tabulates(table@, dims, cutters),
            in_grid(dims, (i as int, j as int, k as int)),
            solid(dims, cutters, (i as int, j as int, k as int)),
        ensures
            final(self).inv(dims),
            final(self).faces@ == old(self).faces@ + faces_of_cell(dims, cutters, (i as int, j as int, k as int)),
    {
        let ghost f0 = self.faces@;
        self.add_side(table, dims, Ghost(cutters), i, j, k, 0, true);
        self.add_side(table, dims, Ghost(cutters), i, j, k, 0, false);
        self.add_side(table, dims, Ghost(cutters), i, j, k, 1, true);
        self.add_side(table, dims, Ghost(cutters), i, j, k, 1, false);
        self.add_side(table, dims, Ghost(cutters), i, j, k, 2, true);
        self.add_side(table, dims, Ghost(cutters), i, j, k, 2, false);
        assert(self.faces@ =~= f0 + faces_of_cell(dims, cutters, (i as int, j as int, k as int)));
    }
}

/// `table` says, for each position of the emission order, whether that cell
/// is solid.
pub open spec fn tabulates(table: Seq<bool>, dims: [usize; 3], cutters: Seq<CellBox>) -> bool {
    &&& cell_count(dims) <= usize::MAX
    &&& table.len() == cell_count(dims)
    &&& forall|t: int| 0 <= t < cell_count(dims) ==> #[trigger] table[t] == solid(dims, cutters, cell_of(dims, t))
}

/// Whether the cell across face `(a, positive)` of cell `(i, j, k)` is solid.
fn neighbour_solid(
    table: &Vec<bool>,
    dims: [usize; 3],
    Ghost(cutters): Ghost<Seq<CellBox>>,
    i: usize,
    j: usize,
    k: usize,
    a: usize,
    positive: bool,
) -> (r: bool)
    requires
        tabulates(table@, dims, cutters),
        in_grid(dims, (i as int, j as int, k as int)),
        a < 3,
    ensures
        r == solid(dims, cutters, neighbour((i as int, j as int, k as int), a as int, positive)),
{
    if a == 0 {
        if positive {
            i + 1 < dims[0] && table[at(dims, i + 1, j, k)]
        } else {
            i > 0 && table[at(dims, i - 1, j, k)]
        }
    } else if a == 1 {
        if positive {
            j + 1 < dims[1] && table[at(dims, i, j + 1, k)]
        } else {
            j > 0 && table[at(dims, i, j - 1, k)]
        }
    } else {
        if positive {
            k + 1 < dims[2] && table[at(dims, i, j, k + 1)]
        } else {
            k > 0 && table[at(dims, i, j, k - 1)]
        }
    }
}

impl Cells {
    /// The mesh is the surface of the solid cells: `grid` holds the corners of
    /// the faces in the order they are first met, once each, and `indices`
    /// lists, three per triangle, the corners of the faces' triangles.
    pub open spec fn traces(&self, dims: [usize; 3], cutters: Seq<CellBox>) -> bool {
        let fs = surface(dims, cutters);
        &&& self.grid@ == first_seen(quads_of(fs))
        &&& self.grid@.no_duplicates()
        &&& self.indices@.len() == corners_of(fs).len()
        &&& forall|t: int| 0 <= t < self.indices@.len() ==> {
            &&& self.indices@[t] < self.grid@.len()
            &&& self.grid@[#[trigger] self.indices@[t] as int] == corners_of(fs)[t]
        }
    }
}

/// Subtract the cutters from the host grid of `dims` cells.
///
/// `None` when there is no cutter (nothing to subtract) or when the grid has
/// more than `max_cells` cells; otherwise the surface of the cells that no
/// cutter covers.
pub fn subtract_boxes(dims: [usize; 3], cutters: &[CellBox], max_cells: usize) -> (r: Option<Cells>)
    requires
        cell_count(dims) <= max_cells ==> corner_count(dims) <= u32::MAX + 1,
    ensures
        r is None <==> (cutters@.len() == 0 || cell_count(dims) > max_cells),
        r matches Some(m) ==> m.traces(dims, cutters@),
{
    if cutters.len() == 0 {
        return None;
    }
    let n: usize = if dims[2] == 0 {
        assert(cell_count(dims) == 0) by (nonlinear_arith)
            requires dims[2] == 0;
        0
    } else {
        match dims[0].checked_mul(dims[1]) {
            None => {
                assert(cell_count(dims) > usize::MAX) by (nonlinear_arith)
                    requires dims[0] * dims[1] > usize::MAX, dims[2] >= 1;
                return None;
            },
            Some(xy) => match xy.checked_mul(dims[2]) {
                None => return None,
                Some(n) => n,
            },
        }
    };
    if n > max_cells {
        return None;
    }
    let table = solid_table(dims, cutters);
    let ghost cs = cutters@;
    let ghost none: Seq<Face> = seq![];
    let mut surf = Surface { ids: BTreeMap::new(), grid: Vec::new(), indices: Vec::new(), faces: Ghost(none) };
    assert(linear(dims, (0, 0, 0)) == 0) by (nonlinear_arith);
    let mut i: usize = 0;
    while i < dims[0]
        invariant
            i <= dims[0],
            tabulates(table@, dims, cs),
            surf.inv(dims),
            surf.faces@ == faces_upto(dims, cs, linear(dims, (i as int, 0, 0))),
        decreases dims[0] - i,
    {
        let mut j: usize = 0;
        while j < dims[1]
            invariant
                i < dims[0],
                j <= dims[1],
                tabulates(table@, dims, cs),
                surf.inv(dims),
                surf.faces@ == faces_upto(dims, cs, linear(dims, (i as int, j as int, 0))),
            decreases dims[1] - j,
        {
            let mut k: usize = 0;
            while k < dims[2]
                invariant
                    i < dims[0],
                    j < dims[1],
                    k <= dims[2],
                    tabulates(table@, dims, cs),
                    surf.inv(dims),
                    surf.faces@ == faces_upto(dims, cs, linear(dims, (i as int, j as int, k as int))),
                decreases dims[2] - k,
            {
                let t = at(dims, i, j, k);
                let ghost p: Cell = (i as int, j as int, k as int);
                assert(faces_upto(dims, cs, t + 1) == faces_upto(dims, cs, t as int) + faces_of_cell(dims, cs, p));
                if table[t] {
                    surf.add_cell(&table, dims, Ghost(cs), i, j, k);
                } else {
                    assert(faces_of_cell(dims, cs, p) =~= seq![]);
                    assert(surf.faces@ =~= surf.faces@ + faces_of_cell(dims, cs, p));
                }
                k += 1;
            }
            proof {
                let ny = dims[1] as int;
                let nz = dims[2] as int;
                assert((i * ny + j) * nz + nz == (i * ny + j + 1) * nz) by (nonlinear_arith);
            }
            j += 1;
        }
        proof {
            let ny = dims[1] as int;
            let nz = dims[2] as int;
            assert((i * ny + ny) * nz == ((i + 1) * ny) * nz) by (nonlinear_arith);
        }
        i += 1;
    }
    proof {
        let ny = dims[1] as int;
        let nz = dims[2] as int;
        let nx = dims[0] as int;
        assert((nx * ny) * nz == nx * ny * nz) by (nonlinear_arith);
    }
    Some(Cells { grid: surf.grid, indices: surf.indices })
}

/// Coincident corners are one vertex: two triangle corners of the result
/// carry the same index exactly when they are the same grid corner.
pub proof fn lemma_shared_corners(m: Cells, dims: [usize; 3], cutters: Seq<CellBox>, s: int, t: int)
    requires
        m.traces(dims, cutters),
        0 <= s < m.indices@.len(),
        0 <= t < m.indices@.len(),
    ensures
        (m.indices@[s] == m.indices@[t]) <==> (corners_of(surface(dims, cutters))[s] == corners_of(surface(dims, cutters))[t]),
{
    let g = m.grid@;
    assert(g[m.indices@[s] as int] == corners_of(surface(dims, cutters))[s]);
    assert(g[m.indices@[t] as int] == corners_of(surface(dims, cutters))[t]);
}

/// The result is reproducible: any two results for the same grid and
/// cutters are the same mesh, corner for corner and index for index.
pub proof fn lemma_reproducible(m1: Cells, m2: Cells, dims: [usize; 3], cutters: Seq<CellBox>)
    requires
        m1.traces(dims, cutters),
        m2.traces(dims, cutters),
    ensures
        m1.grid@ == m2.grid@,
        m1.indices@ == m2.indices@,
{
    let fs = surface(dims, cutters);
    assert forall|t: int| 0 <= t < m1.indices@.len() implies m1.indices@[t] == m2.indices@[t] by {
        assert(m1.grid@[m1.indices@[t] as int] == corners_of(fs)[t]);
        assert(m2.grid@[m2.indices@[t] as int] == corners_of(fs)[t]);
    }
    assert(m1.indices@ =~= m2.indices@);
}

} // verus!
