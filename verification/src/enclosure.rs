//! The cellular surface encloses exactly the solid cells: six times the
//! signed volume of its triangles, in grid units, is six times the number
//! of solid cells.
//!
//! Each emitted face contributes its plane's coordinate, signed by the side
//! it faces. Summed per cell, the faces of a solid cell give its volume,
//! less what the faces it does not emit (those shared with a solid
//! neighbour) would have given; those shares telescope away along every
//! axis of the emission order.

use crate::cellular::{
    lemma_linear, cell_count, cell_of, coord, corner, corners_of, emits, faces_of_cell, face_if, in_grid, linear,
    neighbour, solid, surface, triangles, Cell, CellBox, Cells, Face, GridPoint,
};
use vstd::prelude::*;

verus! {

/// Six times the signed volume of the tetrahedron from the origin to the
/// triangle `(a, b, c)`.
pub open spec fn det3(a: Cell, b: Cell, c: Cell) -> int {
    a.0 * (b.1 * c.2 - b.2 * c.1) - a.1 * (b.0 * c.2 - b.2 * c.0) + a.2 * (b.0 * c.1 - b.1 * c.0)
}

pub open spec fn point(u: GridPoint) -> Cell {
    (u.0 as int, u.1 as int, u.2 as int)
}

/// Six times the signed volume enclosed by the triangles listed in `cs`,
/// three corners each.
pub open spec fn tri_volume(cs: Seq<GridPoint>) -> int
    decreases cs.len(),
{
    if cs.len() < 3 {
        0
    } else {
        let n = cs.len() as int;
        tri_volume(cs.subrange(0, n - 3)) + det3(point(cs[n - 3]), point(cs[n - 2]), point(cs[n - 1]))
    }
}

/// Six times the signed volume under the two triangles of face `f`.
#[verifier::opaque]
pub open spec fn face_volume(f: Face) -> int {
    let c = triangles(f);
    det3(point(c[0]), point(c[1]), point(c[2])) + det3(point(c[3]), point(c[4]), point(c[5]))
}

/// The two triangles of a unit square on a grid plane, wound around the
/// axis that points out of the plane, each give the plane's coordinate.
proof fn lemma_unit_squares(x: int, y: int, z: int)
    ensures
        det3((x, y, z), (x, y + 1, z), (x, y + 1, z + 1)) == x,
        det3((x, y, z), (x, y + 1, z + 1), (x, y, z + 1)) == x,
        det3((x, y, z), (x, y, z + 1), (x + 1, y, z + 1)) == y,
        det3((x, y, z), (x + 1, y, z + 1), (x + 1, y, z)) == y,
        det3((x, y, z), (x + 1, y, z), (x + 1, y + 1, z)) == z,
        det3((x, y, z), (x + 1, y + 1, z), (x, y + 1, z)) == z,
{
    assert(det3((x, y, z), (x, y + 1, z), (x, y + 1, z + 1)) == x) by (nonlinear_arith);
    assert(det3((x, y, z), (x, y + 1, z + 1), (x, y, z + 1)) == x) by (nonlinear_arith);
    assert(det3((x, y, z), (x, y, z + 1), (x + 1, y, z + 1)) == y) by (nonlinear_arith);
    assert(det3((x, y, z), (x + 1, y, z + 1), (x + 1, y, z)) == y) by (nonlinear_arith);
    assert(det3((x, y, z), (x + 1, y, z), (x + 1, y + 1, z)) == z) by (nonlinear_arith);
    assert(det3((x, y, z), (x + 1, y + 1, z), (x, y + 1, z)) == z) by (nonlinear_arith);
}

proof fn lemma_det_swap(a: Cell, b: Cell, c: Cell)
    ensures
        det3(a, c, b) == -det3(a, b, c),
{
    vstd::arithmetic::mul::lemma_mul_is_commutative(b.1, c.2);
    vstd::arithmetic::mul::lemma_mul_is_commutative(b.2, c.1);
    vstd::arithmetic::mul::lemma_mul_is_commutative(b.0, c.2);
    vstd::arithmetic::mul::lemma_mul_is_commutative(b.2, c.0);
    vstd::arithmetic::mul::lemma_mul_is_commutative(b.0, c.1);
    vstd::arithmetic::mul::lemma_mul_is_commutative(b.1, c.0);
    let x = b.1 * c.2 - b.2 * c.1;
    let y = b.0 * c.2 - b.2 * c.0;
    let z = b.0 * c.1 - b.1 * c.0;
    vstd::arithmetic::mul::lemma_mul_unary_negation(a.0, x);
    vstd::arithmetic::mul::lemma_mul_unary_negation(a.1, y);
    vstd::arithmetic::mul::lemma_mul_unary_negation(a.2, z);
}

/// A face of a cell in the grid contributes its plane's coordinate twice,
/// with the sign of the side it faces.
proof fn lemma_face_volume(p: Cell, a: int, positive: bool)
    requires
        0 <= a < 3,
        0 <= p.0 && p.0 + 1 <= usize::MAX,
        0 <= p.1 && p.1 + 1 <= usize::MAX,
        0 <= p.2 && p.2 + 1 <= usize::MAX,
    ensures
        face_volume((p, a, positive)) == if positive { 2 * (coord(p, a) + 1) } else { -2 * coord(p, a) },
{
    reveal(face_volume);
    let f = (p, a, positive);
    let plane = if positive { coord(p, a) + 1 } else { coord(p, a) };
    let q0 = point(corner(f, 0, 0));
    let q1 = point(corner(f, 1, 0));
    let q2 = point(corner(f, 1, 1));
    let q3 = point(corner(f, 0, 1));
    if a == 0 {
        lemma_unit_squares(plane, p.1, p.2);
    } else if a == 1 {
        lemma_unit_squares(p.0, plane, p.2);
    } else {
        lemma_unit_squares(p.0, p.1, plane);
    }
    lemma_det_swap(q0, q1, q2);
    lemma_det_swap(q0, q2, q3);
}

/// `h(lo) + ... + h(hi - 1)`.
pub open spec fn sum(h: spec_fn(int) -> int, lo: int, hi: int) -> int
    decreases hi - lo,
{
    if hi <= lo {
        0
    } else {
        sum(h, lo, hi - 1) + h(hi - 1)
    }
}

proof fn lemma_sum_ext(f: spec_fn(int) -> int, g: spec_fn(int) -> int, lo: int, hi: int)
    requires
        forall|t: int| lo <= t < hi ==> #[trigger] f(t) == g(t),
    ensures
        sum(f, lo, hi) == sum(g, lo, hi),
    decreases hi - lo,
{
    if hi > lo {
        lemma_sum_ext(f, g, lo, hi - 1);
    }
}

proof fn lemma_sum_split(h: spec_fn(int) -> int, lo: int, m: int, hi: int)
    requires
        lo <= m <= hi,
    ensures
        sum(h, lo, hi) == sum(h, lo, m) + sum(h, m, hi),
    decreases hi - m,
{
    if hi > m {
        lemma_sum_split(h, lo, m, hi - 1);
    }
}

proof fn lemma_sum_zero(h: spec_fn(int) -> int, lo: int, hi: int)
    requires
        forall|t: int| lo <= t < hi ==> #[trigger] h(t) == 0,
    ensures
        sum(h, lo, hi) == 0,
    decreases hi - lo,
{
    if hi > lo {
        lemma_sum_zero(h, lo, hi - 1);
    }
}

proof fn lemma_sum_shift(h: spec_fn(int) -> int, d: int, lo: int, hi: int)
    ensures
        sum(|t: int| h(t + d), lo, hi) == sum(h, lo + d, hi + d),
    decreases hi - lo,
{
    if hi > lo {
        lemma_sum_shift(h, d, lo, hi - 1);
    }
}

/// Six times the signed volume under the faces `fs`.
pub open spec fn surface_volume(fs: Seq<Face>) -> int
    decreases fs.len(),
{
    if fs.len() == 0 {
        0
    } else {
        surface_volume(fs.drop_last()) + face_volume(fs.last())
    }
}

proof fn lemma_surface_volume_add(a: Seq<Face>, b: Seq<Face>)
    ensures
        surface_volume(a + b) == surface_volume(a) + surface_volume(b),
    decreases b.len(),
{
    if b.len() == 0 {
        assert(a + b =~= a);
    } else {
        assert((a + b).drop_last() =~= a + b.drop_last());
        lemma_surface_volume_add(a, b.drop_last());
    }
}

proof fn lemma_tri_volume(fs: Seq<Face>)
    ensures
        corners_of(fs).len() == 6 * fs.len(),
        tri_volume(corners_of(fs)) == surface_volume(fs),
    decreases fs.len(),
{
    reveal(face_volume);
    if fs.len() > 0 {
        let d = fs.drop_last();
        lemma_tri_volume(d);
        let cs = corners_of(fs);
        let n = cs.len() as int;
        let t = triangles(fs.last());
        assert(cs == corners_of(d) + t);
        let h = cs.subrange(0, n - 3);
        assert(h.subrange(0, n - 6) =~= corners_of(d));
        assert(h[n - 6] == t[0] && h[n - 5] == t[1] && h[n - 4] == t[2]);
        assert(cs[n - 3] == t[3] && cs[n - 2] == t[4] && cs[n - 1] == t[5]);
        assert(tri_volume(h) == tri_volume(h.subrange(0, n - 6)) + det3(point(h[n - 6]), point(h[n - 5]), point(h[n - 4])));
    }
}

/// What side `(a, positive)` of cell `p` contributes: its face, if emitted.
pub open spec fn side_volume(dims: [usize; 3], cutters: Seq<CellBox>, p: Cell, a: int, positive: bool) -> int {
    if emits(dims, cutters, p, a, positive) {
        face_volume((p, a, positive))
    } else {
        0
    }
}

/// What cell `p` contributes: the faces it emits.
pub open spec fn cell_volume(dims: [usize; 3], cutters: Seq<CellBox>, p: Cell) -> int {
    surface_volume(faces_of_cell(dims, cutters, p))
}

proof fn lemma_face_if_volume(dims: [usize; 3], cutters: Seq<CellBox>, p: Cell, a: int, positive: bool)
    ensures
        surface_volume(face_if(dims, cutters, p, a, positive)) == side_volume(dims, cutters, p, a, positive),
{
    if emits(dims, cutters, p, a, positive) {
        let f = seq![(p, a, positive)];
        assert(f.drop_last() =~= Seq::<Face>::empty());
        assert(surface_volume(Seq::<Face>::empty()) == 0);
    } else {
        assert(surface_volume(Seq::<Face>::empty()) == 0);
    }
}

proof fn lemma_cell_sides(dims: [usize; 3], cutters: Seq<CellBox>, p: Cell)
    ensures
        cell_volume(dims, cutters, p) == side_volume(dims, cutters, p, 0, true) + side_volume(dims, cutters, p, 0, false)
            + side_volume(dims, cutters, p, 1, true) + side_volume(dims, cutters, p, 1, false)
            + side_volume(dims, cutters, p, 2, true) + side_volume(dims, cutters, p, 2, false),
{
    let f0 = face_if(dims, cutters, p, 0, true);
    let f1 = face_if(dims, cutters, p, 0, false);
    let f2 = face_if(dims, cutters, p, 1, true);
    let f3 = face_if(dims, cutters, p, 1, false);
    let f4 = face_if(dims, cutters, p, 2, true);
    let f5 = face_if(dims, cutters, p, 2, false);
    lemma_surface_volume_add(f0, f1);
    lemma_surface_volume_add(f0 + f1, f2);
    lemma_surface_volume_add(f0 + f1 + f2, f3);
    lemma_surface_volume_add(f0 + f1 + f2 + f3, f4);
    lemma_surface_volume_add(f0 + f1 + f2 + f3 + f4, f5);
    lemma_face_if_volume(dims, cutters, p, 0, true);
    lemma_face_if_volume(dims, cutters, p, 0, false);
    lemma_face_if_volume(dims, cutters, p, 1, true);
    lemma_face_if_volume(dims, cutters, p, 1, false);
    lemma_face_if_volume(dims, cutters, p, 2, true);
    lemma_face_if_volume(dims, cutters, p, 2, false);
}

/// The share of the face between solid cell `p` and the solid cell before
/// it on axis `a`: that face's plane coordinate, or 0 when there is no
/// such shared face.
pub open spec fn shared(dims: [usize; 3], cutters: Seq<CellBox>, p: Cell, a: int) -> int {
    if solid(dims, cutters, p) && solid(dims, cutters, neighbour(p, a, false)) {
        coord(p, a)
    } else {
        0
    }
}

/// A cell contributes six times its unit volume if solid, less the shares
/// of the faces it does not emit, which telescope along each axis.
proof fn lemma_cell_volume(dims: [usize; 3], cutters: Seq<CellBox>, p: Cell)
    ensures
        cell_volume(dims, cutters, p) == (if solid(dims, cutters, p) { 6int } else { 0int })
            + 2 * (shared(dims, cutters, p, 0) - shared(dims, cutters, neighbour(p, 0, true), 0))
            + 2 * (shared(dims, cutters, p, 1) - shared(dims, cutters, neighbour(p, 1, true), 1))
            + 2 * (shared(dims, cutters, p, 2) - shared(dims, cutters, neighbour(p, 2, true), 2)),
{
    lemma_cell_sides(dims, cutters, p);
    assert(neighbour(neighbour(p, 0, true), 0, false) == p);
    assert(neighbour(neighbour(p, 1, true), 1, false) == p);
    assert(neighbour(neighbour(p, 2, true), 2, false) == p);
    if solid(dims, cutters, p) {
        lemma_face_volume(p, 0, true);
        lemma_face_volume(p, 0, false);
        lemma_face_volume(p, 1, true);
        lemma_face_volume(p, 1, false);
        lemma_face_volume(p, 2, true);
        lemma_face_volume(p, 2, false);
    }
}

/// How far apart in the emission order two cells one step apart along
/// axis `a` are.
pub open spec fn stride(dims: [usize; 3], a: int) -> int {
    if a == 0 {
        dims[1] * dims[2]
    } else if a == 1 {
        dims[2] as int
    } else {
        1
    }
}

/// The shares on axis `a` along the emission order, 0 past its end.
pub open spec fn shares(dims: [usize; 3], cutters: Seq<CellBox>, a: int) -> spec_fn(int) -> int {
    |u: int| if 0 <= u < cell_count(dims) { shared(dims, cutters, cell_of(dims, u), a) } else { 0 }
}

/// A cell on the first plane of axis `a` shares no face before it.
proof fn lemma_first_plane(dims: [usize; 3], cutters: Seq<CellBox>, r: Cell, a: int)
    requires
        0 <= a < 3,
        coord(r, a) == 0,
    ensures
        shared(dims, cutters, r, a) == 0,
{
}

/// The cells that come first in the emission order, before the first step
/// along axis `a`, lie on the first plane of that axis.
proof fn lemma_first_shares(dims: [usize; 3], cutters: Seq<CellBox>, a: int, u: int)
    requires
        0 <= a < 3,
        0 <= u < cell_count(dims),
        u < stride(dims, a),
    ensures
        shares(dims, cutters, a)(u) == 0,
{
    let ny = dims[1] as int;
    let nz = dims[2] as int;
    crate::watertight::lemma_cell_index(dims, u);
    let r = cell_of(dims, u);
    assert(ny > 0 && nz > 0);
    if a == 0 {
        vstd::arithmetic::div_mod::lemma_basic_div(u, ny * nz);
        assert(r.0 == 0);
    } else if a == 1 {
        vstd::arithmetic::div_mod::lemma_basic_div(u, nz);
        vstd::arithmetic::div_mod::lemma_small_mod(0, ny as nat);
        assert(r.1 == (u / nz) % ny);
        assert(r.1 == 0);
    } else {
        vstd::arithmetic::div_mod::lemma_small_mod(0, nz as nat);
        assert(r.2 == 0);
    }
    lemma_first_plane(dims, cutters, r, a);
}

/// The cell one step along axis `a` comes `stride` later in the emission
/// order; where that step leaves the grid, the cell that many later (if
/// any) lies on the first plane of axis `a` and shares nothing before it.
#[verifier::spinoff_prover]
proof fn lemma_next_share(dims: [usize; 3], cutters: Seq<CellBox>, a: int, t: int)
    requires
        0 <= a < 3,
        0 <= t < cell_count(dims),
    ensures
        shared(dims, cutters, neighbour(cell_of(dims, t), a, true), a) == shares(dims, cutters, a)(t + stride(dims, a)),
{
    let nx = dims[0] as int;
    let ny = dims[1] as int;
    let nz = dims[2] as int;
    let n = cell_count(dims);
    crate::watertight::lemma_cell_index(dims, t);
    let p = cell_of(dims, t);
    let (i, j, k) = p;
    let q = neighbour(p, a, true);
    let u = t + stride(dims, a);
    assert(t == (i * ny + j) * nz + k);
    if in_grid(dims, q) {
        lemma_linear(dims, q.0, q.1, q.2);
        if a == 0 {
            assert(linear(dims, q) == u) by (nonlinear_arith)
                requires q == (i + 1, j, k), t == (i * ny + j) * nz + k, u == t + ny * nz, linear(dims, q) == ((i + 1) * ny + j) * nz + k;
        } else if a == 1 {
            assert(linear(dims, q) == u) by (nonlinear_arith)
                requires q == (i, j + 1, k), t == (i * ny + j) * nz + k, u == t + nz, linear(dims, q) == (i * ny + (j + 1)) * nz + k;
        }
    } else {
        if a == 0 {
            assert(u >= n) by (nonlinear_arith)
                requires i + 1 >= nx, t == (i * ny + j) * nz + k, u == t + ny * nz, n == nx * ny * nz, 0 <= j, 0 <= k, 0 <= ny, 0 <= nz;
        } else if a == 1 {
            assert(u == ((i + 1) * ny + 0) * nz + k) by (nonlinear_arith)
                requires j + 1 >= ny, j < ny, t == (i * ny + j) * nz + k, u == t + nz;
            if i + 1 < nx {
                lemma_linear(dims, i + 1, 0, k);
                lemma_first_plane(dims, cutters, (i + 1, 0, k), a);
            } else {
                assert(u >= n) by (nonlinear_arith)
                    requires i + 1 >= nx, u == ((i + 1) * ny + 0) * nz + k, n == nx * ny * nz, 0 <= k, 0 <= ny, 0 <= nz;
            }
        } else {
            assert(u == (i * ny + (j + 1)) * nz + 0) by (nonlinear_arith)
                requires k + 1 >= nz, k < nz, t == (i * ny + j) * nz + k, u == t + 1;
            if j + 1 < ny {
                lemma_linear(dims, i, j + 1, 0);
                lemma_first_plane(dims, cutters, (i, j + 1, 0), a);
            } else {
                assert(u == ((i + 1) * ny + 0) * nz + 0) by (nonlinear_arith)
                    requires j + 1 >= ny, j < ny, u == (i * ny + (j + 1)) * nz + 0;
                if i + 1 < nx {
                    lemma_linear(dims, i + 1, 0, 0);
                    lemma_first_plane(dims, cutters, (i + 1, 0, 0), a);
                } else {
                    assert(u >= n) by (nonlinear_arith)
                        requires i + 1 >= nx, u == ((i + 1) * ny + 0) * nz + 0, n == nx * ny * nz, 0 <= ny, 0 <= nz;
                }
            }
        }
    }
}

proof fn lemma_sum_add(f: spec_fn(int) -> int, g: spec_fn(int) -> int, lo: int, hi: int)
    ensures
        sum(|t: int| f(t) + g(t), lo, hi) == sum(f, lo, hi) + sum(g, lo, hi),
    decreases hi - lo,
{
    if hi > lo {
        lemma_sum_add(f, g, lo, hi - 1);
    }
}

/// Whether the cell at position `t` of the emission order is solid.
pub open spec fn solid_at(dims: [usize; 3], cutters: Seq<CellBox>) -> spec_fn(int) -> int {
    |t: int| if solid(dims, cutters, cell_of(dims, t)) { 1int } else { 0int }
}

/// The number of solid cells.
pub open spec fn solid_count(dims: [usize; 3], cutters: Seq<CellBox>) -> int {
    sum(solid_at(dims, cutters), 0, cell_count(dims))
}

/// What the cells at positions `0 .. k` of the emission order contribute.
pub open spec fn volume_at(dims: [usize; 3], cutters: Seq<CellBox>) -> spec_fn(int) -> int {
    |t: int| cell_volume(dims, cutters, cell_of(dims, t))
}

/// The shares one step further along axis `a`.
pub open spec fn next_shares(dims: [usize; 3], cutters: Seq<CellBox>, a: int) -> spec_fn(int) -> int {
    |t: int| shares(dims, cutters, a)(t + stride(dims, a))
}

proof fn lemma_faces_upto(dims: [usize; 3], cutters: Seq<CellBox>, k: int)
    requires
        0 <= k,
    ensures
        surface_volume(crate::cellular::faces_upto(dims, cutters, k)) == sum(volume_at(dims, cutters), 0, k),
    decreases k,
{
    if k > 0 {
        lemma_faces_upto(dims, cutters, k - 1);
        lemma_surface_volume_add(
            crate::cellular::faces_upto(dims, cutters, k - 1),
            faces_of_cell(dims, cutters, cell_of(dims, k - 1)),
        );
    }
}

/// Summed over the first `k` cells, the contributions are six per solid
/// cell plus the shares on each axis less the shares one step further.
proof fn lemma_sum_cells(dims: [usize; 3], cutters: Seq<CellBox>, k: int)
    requires
        0 <= k <= cell_count(dims),
    ensures
        sum(volume_at(dims, cutters), 0, k) == 6 * sum(solid_at(dims, cutters), 0, k)
            + 2 * (sum(shares(dims, cutters, 0), 0, k) - sum(next_shares(dims, cutters, 0), 0, k))
            + 2 * (sum(shares(dims, cutters, 1), 0, k) - sum(next_shares(dims, cutters, 1), 0, k))
            + 2 * (sum(shares(dims, cutters, 2), 0, k) - sum(next_shares(dims, cutters, 2), 0, k)),
    decreases k,
{
    if k > 0 {
        lemma_sum_cells(dims, cutters, k - 1);
        let t = k - 1;
        lemma_cell_volume(dims, cutters, cell_of(dims, t));
        lemma_next_share(dims, cutters, 0, t);
        lemma_next_share(dims, cutters, 1, t);
        lemma_next_share(dims, cutters, 2, t);
    }
}

/// On each axis the shares telescope: all of them, less all of them one
/// step further, is nothing.
proof fn lemma_telescope(dims: [usize; 3], cutters: Seq<CellBox>, a: int)
    requires
        0 <= a < 3,
    ensures
        sum(shares(dims, cutters, a), 0, cell_count(dims)) == sum(next_shares(dims, cutters, a), 0, cell_count(dims)),
{
    let n = cell_count(dims);
    let h = shares(dims, cutters, a);
    let d = stride(dims, a);
    assert(0 <= n) by (nonlinear_arith)
        requires n == dims[0] as int * dims[1] as int * dims[2] as int;
    assert(0 <= d) by (nonlinear_arith)
        requires d == stride(dims, a), d == dims[1] * dims[2] || d == dims[2] as int || d == 1;
    lemma_sum_shift(h, d, 0, n);
    lemma_sum_ext(next_shares(dims, cutters, a), |t: int| h(t + d), 0, n);
    let m = if d <= n { d } else { n };
    assert forall|u: int| 0 <= u < m implies #[trigger] h(u) == 0 by {
        lemma_first_shares(dims, cutters, a, u);
    }
    lemma_sum_zero(h, 0, m);
    lemma_sum_split(h, 0, m, n);
    assert forall|u: int| n <= u < n + d implies #[trigger] h(u) == 0 by {}
    if d <= n {
        lemma_sum_split(h, d, n, n + d);
        lemma_sum_zero(h, n, n + d);
    } else {
        assert forall|u: int| d <= u < n + d implies #[trigger] h(u) == 0 by {}
        lemma_sum_zero(h, d, n + d);
        assert forall|u: int| 0 <= u < n implies #[trigger] h(u) == 0 by {
            lemma_first_shares(dims, cutters, a, u);
        }
        lemma_sum_zero(h, 0, n);
    }
}

/// The surface encloses exactly the solid cells: six times the signed
/// volume of the result's triangles, in grid units, is six times the
/// number of grid cells that no cutter covers.
pub proof fn lemma_encloses_solid(m: Cells, dims: [usize; 3], cutters: Seq<CellBox>)
    requires
        m.traces(dims, cutters),
    ensures
        tri_volume(crate::watertight::triangle_corners(m)) == 6 * solid_count(dims, cutters),
{
    let fs = surface(dims, cutters);
    let n = cell_count(dims);
    assert(0 <= n) by (nonlinear_arith)
        requires n == dims[0] as int * dims[1] as int * dims[2] as int;
    assert(crate::watertight::triangle_corners(m) =~= corners_of(fs));
    lemma_tri_volume(fs);
    lemma_faces_upto(dims, cutters, n);
    lemma_sum_cells(dims, cutters, n);
    lemma_telescope(dims, cutters, 0);
    lemma_telescope(dims, cutters, 1);
    lemma_telescope(dims, cutters, 2);
}

} // verus!
