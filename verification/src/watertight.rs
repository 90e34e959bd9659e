//! The cellular surface is closed and consistently wound: every directed
//! edge of its triangles is matched by the reverse edge, as often.
//!
//! Only the faces around a grid segment can use it, and those belong to the
//! four cells that share the segment. Each cell contributes the outward
//! faces it emits; a face between two solid cells is emitted by neither,
//! and the two sides of every other face pair up around the segment.

use crate::cellular::{
    lemma_linear,
    cell_count, cell_of, coord, corners_of, emits, neighbour, solid, faces_of_cell, faces_upto, face_if, in_grid, linear, surface,
    triangles, Cell, CellBox, Cells, Face, GridPoint,
};
use vstd::prelude::*;

verus! {

/// How many times triangle `(a, b, c)` traverses `u -> v`.
pub open spec fn one_tri(a: GridPoint, b: GridPoint, c: GridPoint, u: GridPoint, v: GridPoint) -> int {
    (if a == u && b == v { 1int } else { 0int }) + (if b == u && c == v { 1int } else { 0int })
        + (if c == u && a == v { 1int } else { 0int })
}

/// How many times the triangles listed in `cs`, three corners each,
/// traverse `u -> v`.
pub open spec fn tri_uses(cs: Seq<GridPoint>, u: GridPoint, v: GridPoint) -> int
    decreases cs.len(),
{
    if cs.len() < 3 {
        0
    } else {
        let n = cs.len() as int;
        tri_uses(cs.subrange(0, n - 3), u, v) + one_tri(cs[n - 3], cs[n - 2], cs[n - 1], u, v)
    }
}

/// How many times the two triangles of face `f` traverse `u -> v`.
#[verifier::opaque]
pub open spec fn face_uses(f: Face, u: GridPoint, v: GridPoint) -> int {
    let c = triangles(f);
    one_tri(c[0], c[1], c[2], u, v) + one_tri(c[3], c[4], c[5], u, v)
}

/// How many times the faces `fs` traverse `u -> v`.
pub open spec fn surface_uses(fs: Seq<Face>, u: GridPoint, v: GridPoint) -> int
    decreases fs.len(),
{
    if fs.len() == 0 {
        0
    } else {
        surface_uses(fs.drop_last(), u, v) + face_uses(fs.last(), u, v)
    }
}

proof fn lemma_surface_uses_add(a: Seq<Face>, b: Seq<Face>, u: GridPoint, v: GridPoint)
    ensures
        surface_uses(a + b, u, v) == surface_uses(a, u, v) + surface_uses(b, u, v),
    decreases b.len(),
{
    if b.len() == 0 {
        assert(a + b =~= a);
    } else {
        assert((a + b).drop_last() =~= a + b.drop_last());
        lemma_surface_uses_add(a, b.drop_last(), u, v);
    }
}

proof fn lemma_tri_uses(fs: Seq<Face>, u: GridPoint, v: GridPoint)
    ensures
        corners_of(fs).len() == 6 * fs.len(),
        tri_uses(corners_of(fs), u, v) == surface_uses(fs, u, v),
    decreases fs.len(),
{
    reveal(face_uses);
    if fs.len() > 0 {
        let d = fs.drop_last();
        lemma_tri_uses(d, u, v);
        let cs = corners_of(fs);
        let n = cs.len() as int;
        let t = triangles(fs.last());
        assert(cs == corners_of(d) + t);
        assert(cs.subrange(0, n - 3).subrange(0, n - 6) =~= corners_of(d));
        assert(cs.subrange(0, n - 3)[n - 6] == t[0]);
        assert(cs.subrange(0, n - 3)[n - 5] == t[1]);
        assert(cs.subrange(0, n - 3)[n - 4] == t[2]);
        assert(cs[n - 3] == t[3] && cs[n - 2] == t[4] && cs[n - 1] == t[5]);
        let h = cs.subrange(0, n - 3);
        assert(tri_uses(h, u, v) == tri_uses(h.subrange(0, n - 6), u, v) + one_tri(h[n - 6], h[n - 5], h[n - 4], u, v));
        assert(tri_uses(cs, u, v) == tri_uses(h, u, v) + one_tri(cs[n - 3], cs[n - 2], cs[n - 1], u, v));
    }
}

/// What cell `p` contributes to the uses of `u -> v`: the faces it emits.
pub open spec fn cell_uses(dims: [usize; 3], cutters: Seq<CellBox>, p: Cell, u: GridPoint, v: GridPoint) -> int {
    surface_uses(faces_of_cell(dims, cutters, p), u, v)
}

/// What the first `k` cells of the emission order contribute.
pub open spec fn uses_upto(dims: [usize; 3], cutters: Seq<CellBox>, k: int, u: GridPoint, v: GridPoint) -> int
    decreases k,
{
    if k <= 0 {
        0
    } else {
        uses_upto(dims, cutters, k - 1, u, v) + cell_uses(dims, cutters, cell_of(dims, k - 1), u, v)
    }
}

proof fn lemma_uses_upto(dims: [usize; 3], cutters: Seq<CellBox>, k: int, u: GridPoint, v: GridPoint)
    requires
        0 <= k,
    ensures
        surface_uses(faces_upto(dims, cutters, k), u, v) == uses_upto(dims, cutters, k, u, v),
    decreases k,
{
    if k > 0 {
        lemma_uses_upto(dims, cutters, k - 1, u, v);
        lemma_surface_uses_add(faces_upto(dims, cutters, k - 1), faces_of_cell(dims, cutters, cell_of(dims, k - 1)), u, v);
    }
}

/// What side `(a, positive)` of cell `p` contributes: its face, if emitted.
pub open spec fn side_uses(dims: [usize; 3], cutters: Seq<CellBox>, p: Cell, a: int, positive: bool, u: GridPoint, v: GridPoint) -> int {
    if emits(dims, cutters, p, a, positive) {
        face_uses((p, a, positive), u, v)
    } else {
        0
    }
}

/// What the six sides of cell `p` contribute, side by side.
pub open spec fn cell_sum(dims: [usize; 3], cutters: Seq<CellBox>, p: Cell, u: GridPoint, v: GridPoint) -> int {
    side_uses(dims, cutters, p, 0, true, u, v) + side_uses(dims, cutters, p, 0, false, u, v)
        + side_uses(dims, cutters, p, 1, true, u, v) + side_uses(dims, cutters, p, 1, false, u, v)
        + side_uses(dims, cutters, p, 2, true, u, v) + side_uses(dims, cutters, p, 2, false, u, v)
}

proof fn lemma_face_if(dims: [usize; 3], cutters: Seq<CellBox>, p: Cell, a: int, positive: bool, u: GridPoint, v: GridPoint)
    ensures
        surface_uses(face_if(dims, cutters, p, a, positive), u, v) == side_uses(dims, cutters, p, a, positive, u, v),
{
    if emits(dims, cutters, p, a, positive) {
        let f = seq![(p, a, positive)];
        assert(f.drop_last() =~= Seq::<Face>::empty());
        assert(surface_uses(Seq::<Face>::empty(), u, v) == 0);
    } else {
        assert(surface_uses(Seq::<Face>::empty(), u, v) == 0);
    }
}

proof fn lemma_cell_uses(dims: [usize; 3], cutters: Seq<CellBox>, p: Cell, u: GridPoint, v: GridPoint)
    ensures
        cell_uses(dims, cutters, p, u, v) == cell_sum(dims, cutters, p, u, v),
{
    let f0 = face_if(dims, cutters, p, 0, true);
    let f1 = face_if(dims, cutters, p, 0, false);
    let f2 = face_if(dims, cutters, p, 1, true);
    let f3 = face_if(dims, cutters, p, 1, false);
    let f4 = face_if(dims, cutters, p, 2, true);
    let f5 = face_if(dims, cutters, p, 2, false);
    lemma_surface_uses_add(f0, f1, u, v);
    lemma_surface_uses_add(f0 + f1, f2, u, v);
    lemma_surface_uses_add(f0 + f1 + f2, f3, u, v);
    lemma_surface_uses_add(f0 + f1 + f2 + f3, f4, u, v);
    lemma_surface_uses_add(f0 + f1 + f2 + f3 + f4, f5, u, v);
    lemma_face_if(dims, cutters, p, 0, true, u, v);
    lemma_face_if(dims, cutters, p, 0, false, u, v);
    lemma_face_if(dims, cutters, p, 1, true, u, v);
    lemma_face_if(dims, cutters, p, 1, false, u, v);
    lemma_face_if(dims, cutters, p, 2, true, u, v);
    lemma_face_if(dims, cutters, p, 2, false, u, v);
}

/// A grid point as a cell index triple.
pub open spec fn point(u: GridPoint) -> Cell {
    (u.0 as int, u.1 as int, u.2 as int)
}

/// One grid step along axis `c`.
pub open spec fn step(w: Cell, c: int) -> Cell {
    if c == 0 {
        (w.0 + 1, w.1, w.2)
    } else if c == 1 {
        (w.0, w.1 + 1, w.2)
    } else {
        (w.0, w.1, w.2 + 1)
    }
}

/// The cells sharing the grid segment from `w` along axis `c`: `s` and `t`
/// pick the side on the two other axes.
pub open spec fn around_cell(w: Cell, c: int, s: int, t: int) -> Cell {
    if c == 0 {
        (w.0, w.1 - s, w.2 - t)
    } else if c == 1 {
        (w.0 - t, w.1, w.2 - s)
    } else {
        (w.0 - s, w.1 - t, w.2)
    }
}

/// Cell `p` is one of the four cells sharing the grid segment from `w`
/// along axis `c`.
pub open spec fn around(w: Cell, c: int, p: Cell) -> bool {
    let b = (c + 1) % 3;
    let d = (c + 2) % 3;
    &&& coord(p, c) == coord(w, c)
    &&& coord(w, b) - 1 <= coord(p, b) <= coord(w, b)
    &&& coord(w, d) - 1 <= coord(p, d) <= coord(w, d)
}

/// `v` is one grid step from `u` along axis `c` and cell `p` shares that
/// segment.
pub open spec fn on_segment(u: GridPoint, v: GridPoint, c: int, p: Cell) -> bool {
    point(v) == step(point(u), c) && around(point(u), c, p)
}

/// Cell `p` shares the segment `u`-`v`, in either direction.
pub open spec fn touches(p: Cell, u: GridPoint, v: GridPoint) -> bool {
    on_segment(u, v, 0, p) || on_segment(u, v, 1, p) || on_segment(u, v, 2, p) || on_segment(v, u, 0, p)
        || on_segment(v, u, 1, p) || on_segment(v, u, 2, p)
}

/// A face uses an edge and its reverse equally often unless the edge is a
/// side of the face, which the face's cell shares.
#[verifier::spinoff_prover]
proof fn lemma_face_touch(p: Cell, a: int, positive: bool, u: GridPoint, v: GridPoint)
    requires
        0 <= a < 3,
        0 <= p.0 && p.0 + 1 <= usize::MAX,
        0 <= p.1 && p.1 + 1 <= usize::MAX,
        0 <= p.2 && p.2 + 1 <= usize::MAX,
    ensures
        face_uses((p, a, positive), u, v) != face_uses((p, a, positive), v, u) ==> touches(p, u, v),
{
    reveal(face_uses);
}

/// A cell contributes to an edge and its reverse equally unless it lies in
/// the grid and shares the edge.
proof fn lemma_cell_touch(dims: [usize; 3], cutters: Seq<CellBox>, p: Cell, u: GridPoint, v: GridPoint)
    ensures
        cell_uses(dims, cutters, p, u, v) != cell_uses(dims, cutters, p, v, u) ==> in_grid(dims, p) && touches(p, u, v),
{
    lemma_cell_uses(dims, cutters, p, u, v);
    lemma_cell_uses(dims, cutters, p, v, u);
    if in_grid(dims, p) {
        lemma_face_touch(p, 0, true, u, v);
        lemma_face_touch(p, 0, false, u, v);
        lemma_face_touch(p, 1, true, u, v);
        lemma_face_touch(p, 1, false, u, v);
        lemma_face_touch(p, 2, true, u, v);
        lemma_face_touch(p, 2, false, u, v);
    }
}

/// How much more often cell `p` uses `u -> v` than `v -> u`.
pub open spec fn imbalance(dims: [usize; 3], cutters: Seq<CellBox>, p: Cell, u: GridPoint, v: GridPoint) -> int {
    cell_uses(dims, cutters, p, u, v) - cell_uses(dims, cutters, p, v, u)
}

/// How the face on side `(a, positive)` of the cell around a segment uses
/// it: only the two faces that contain the segment do, in opposite senses.
pub open spec fn side_sign(c: int, s: int, t: int, a: int, positive: bool) -> int {
    let sb: int = if s == t { 1 } else { -1 };
    if a == (c + 1) % 3 && positive == (s == 1) {
        sb
    } else if a == (c + 2) % 3 && positive == (t == 1) {
        -sb
    } else {
        0
    }
}

#[verifier::spinoff_prover]
proof fn lemma_side_sign(u: GridPoint, v: GridPoint, c: int, s: int, t: int, a: int, positive: bool)
    requires
        0 <= c < 3,
        0 <= s < 2,
        0 <= t < 2,
        0 <= a < 3,
        point(v) == step(point(u), c),
        0 <= around_cell(point(u), c, s, t).0,
        0 <= around_cell(point(u), c, s, t).1,
        0 <= around_cell(point(u), c, s, t).2,
        around_cell(point(u), c, s, t).0 + 1 <= usize::MAX,
        around_cell(point(u), c, s, t).1 + 1 <= usize::MAX,
        around_cell(point(u), c, s, t).2 + 1 <= usize::MAX,
    ensures
        face_uses((around_cell(point(u), c, s, t), a, positive), u, v) - face_uses((around_cell(point(u), c, s, t), a, positive), v, u)
            == side_sign(c, s, t, a, positive),
{
    reveal(face_uses);
}

/// Cells outside the solid emit nothing, so they use no edge.
proof fn lemma_void_cell(dims: [usize; 3], cutters: Seq<CellBox>, p: Cell, u: GridPoint, v: GridPoint)
    requires
        !solid(dims, cutters, p),
    ensures
        cell_uses(dims, cutters, p, u, v) == 0,
{
    lemma_cell_uses(dims, cutters, p, u, v);
}

/// The imbalance of a cell around segment `u -> v` (along axis `c`): it
/// comes from the two faces of the cell that contain the segment, each
/// emitted when the cell across it is void.
#[verifier::spinoff_prover]
proof fn lemma_around_imbalance(dims: [usize; 3], cutters: Seq<CellBox>, u: GridPoint, v: GridPoint, c: int, s: int, t: int)
    requires
        0 <= c < 3,
        0 <= s < 2,
        0 <= t < 2,
        point(v) == step(point(u), c),
    ensures
        imbalance(dims, cutters, around_cell(point(u), c, s, t), u, v) == if solid(dims, cutters, around_cell(point(u), c, s, t)) {
            let gain = (if solid(dims, cutters, around_cell(point(u), c, 1 - s, t)) { 0int } else { 1int })
                - (if solid(dims, cutters, around_cell(point(u), c, s, 1 - t)) { 0int } else { 1int });
            if s == t { gain } else { -gain }
        } else {
            0
        },
{
    let w = point(u);
    let q = around_cell(w, c, s, t);
    if !solid(dims, cutters, q) {
        lemma_void_cell(dims, cutters, q, u, v);
        lemma_void_cell(dims, cutters, q, v, u);
    } else {
        lemma_cell_uses(dims, cutters, q, u, v);
        lemma_cell_uses(dims, cutters, q, v, u);
        assert(neighbour(q, (c + 1) % 3, s == 1) == around_cell(w, c, 1 - s, t));
        assert(neighbour(q, (c + 2) % 3, t == 1) == around_cell(w, c, s, 1 - t));
        assert forall|a: int, positive: bool| 0 <= a < 3 implies #[trigger] side_uses(dims, cutters, q, a, positive, u, v)
            - side_uses(dims, cutters, q, a, positive, v, u) == if emits(dims, cutters, q, a, positive) {
            side_sign(c, s, t, a, positive)
        } else {
            0
        } by {
            lemma_side_sign(u, v, c, s, t, a, positive);
        }
        assert(emits(dims, cutters, q, (c + 1) % 3, s == 1) == !solid(dims, cutters, around_cell(w, c, 1 - s, t)));
        assert(emits(dims, cutters, q, (c + 2) % 3, t == 1) == !solid(dims, cutters, around_cell(w, c, s, 1 - t)));
        assert(imbalance(dims, cutters, q, u, v) == cell_sum(dims, cutters, q, u, v) - cell_sum(dims, cutters, q, v, u));
    }
}

/// The four cells around a segment balance each other out: each face
/// between two of them is either emitted by neither or used once each way.
proof fn lemma_around_balance(dims: [usize; 3], cutters: Seq<CellBox>, u: GridPoint, v: GridPoint, c: int)
    requires
        0 <= c < 3,
        point(v) == step(point(u), c),
    ensures
        imbalance(dims, cutters, around_cell(point(u), c, 0, 0), u, v) + imbalance(dims, cutters, around_cell(point(u), c, 0, 1), u, v)
            + imbalance(dims, cutters, around_cell(point(u), c, 1, 0), u, v) + imbalance(dims, cutters, around_cell(point(u), c, 1, 1), u, v)
            == 0,
{
    lemma_around_imbalance(dims, cutters, u, v, c, 0, 0);
    lemma_around_imbalance(dims, cutters, u, v, c, 0, 1);
    lemma_around_imbalance(dims, cutters, u, v, c, 1, 0);
    lemma_around_imbalance(dims, cutters, u, v, c, 1, 1);
}

/// Around a segment along axis `c`, the cells that share it are exactly the
/// four around it.
proof fn lemma_touch_around(p: Cell, u: GridPoint, v: GridPoint, c: int)
    requires
        0 <= c < 3,
        point(v) == step(point(u), c),
        touches(p, u, v),
    ensures
        p == around_cell(point(u), c, 0, 0) || p == around_cell(point(u), c, 0, 1) || p == around_cell(point(u), c, 1, 0)
            || p == around_cell(point(u), c, 1, 1),
{
}

/// A cell of the grid at position `k` of the emission order is found there.
pub(crate) proof fn lemma_cell_index(dims: [usize; 3], k: int)
    requires
        0 <= k < cell_count(dims),
    ensures
        in_grid(dims, cell_of(dims, k)),
        linear(dims, cell_of(dims, k)) == k,
{
    let nx = dims[0] as int;
    let ny = dims[1] as int;
    let nz = dims[2] as int;
    assert(nx > 0 && ny > 0 && nz > 0) by (nonlinear_arith)
        requires 0 <= k < nx * ny * nz, nx >= 0, ny >= 0, nz >= 0;
    let q = k / nz;
    let l = k % nz;
    vstd::arithmetic::div_mod::lemma_fundamental_div_mod(k, nz);
    vstd::arithmetic::div_mod::lemma_fundamental_div_mod(q, ny);
    vstd::arithmetic::div_mod::lemma_div_denominator(k, nz, ny);
    assert(nz * ny == ny * nz) by (nonlinear_arith);
    let i = q / ny;
    let j = q % ny;
    assert(0 <= q) by (nonlinear_arith)
        requires q == k / nz, 0 <= k, nz > 0;
    assert(0 <= i) by (nonlinear_arith)
        requires i == q / ny, 0 <= q, ny > 0;
    assert(i < nx) by (nonlinear_arith)
        requires k == nz * (ny * i + j) + l, 0 <= j, 0 <= l, k < nx * ny * nz, ny > 0, nz > 0, 0 <= i;
    assert(cell_of(dims, k) == (i, j, l));
    assert((i * ny + j) * nz + l == k) by (nonlinear_arith)
        requires k == nz * q + l, q == ny * i + j;
}

/// Cell `q` comes among the first `k` of the emission order.
pub open spec fn counted(dims: [usize; 3], k: int, q: Cell) -> bool {
    in_grid(dims, q) && linear(dims, q) < k
}

/// What the first `k` cells of the emission order that lie around the
/// segment from `u` along axis `c` contribute to its imbalance.
pub open spec fn around_upto(dims: [usize; 3], cutters: Seq<CellBox>, k: int, u: GridPoint, v: GridPoint, c: int) -> int {
    let w = point(u);
    (if counted(dims, k, around_cell(w, c, 0, 0)) { imbalance(dims, cutters, around_cell(w, c, 0, 0), u, v) } else { 0 })
        + (if counted(dims, k, around_cell(w, c, 0, 1)) { imbalance(dims, cutters, around_cell(w, c, 0, 1), u, v) } else { 0 })
        + (if counted(dims, k, around_cell(w, c, 1, 0)) { imbalance(dims, cutters, around_cell(w, c, 1, 0), u, v) } else { 0 })
        + (if counted(dims, k, around_cell(w, c, 1, 1)) { imbalance(dims, cutters, around_cell(w, c, 1, 1), u, v) } else { 0 })
}

/// Counting one more cell changes whether `q` is counted only when `q` is
/// that cell.
proof fn lemma_counted_step(dims: [usize; 3], k: int, q: Cell)
    requires
        0 <= k < cell_count(dims),
    ensures
        counted(dims, k + 1, q) == (counted(dims, k, q) || q == cell_of(dims, k)),
        q == cell_of(dims, k) ==> !counted(dims, k, q),
{
    lemma_cell_index(dims, k);
    if in_grid(dims, q) {
        lemma_linear(dims, q.0, q.1, q.2);
    }
}

/// Along the emission order, the imbalance of the segment `u -> v` built up
/// so far is what the cells around it counted so far contribute.
proof fn lemma_partial(dims: [usize; 3], cutters: Seq<CellBox>, u: GridPoint, v: GridPoint, c: int, k: int)
    requires
        0 <= c < 3,
        point(v) == step(point(u), c),
        0 <= k <= cell_count(dims),
    ensures
        uses_upto(dims, cutters, k, u, v) - uses_upto(dims, cutters, k, v, u) == around_upto(dims, cutters, k, u, v, c),
    decreases k,
{
    let w = point(u);
    if k == 0 {
        assert(!counted(dims, 0, around_cell(w, c, 0, 0)));
        assert(!counted(dims, 0, around_cell(w, c, 0, 1)));
        assert(!counted(dims, 0, around_cell(w, c, 1, 0)));
        assert(!counted(dims, 0, around_cell(w, c, 1, 1)));
    } else {
        lemma_partial(dims, cutters, u, v, c, k - 1);
        let p = cell_of(dims, k - 1);
        lemma_counted_step(dims, k - 1, around_cell(w, c, 0, 0));
        lemma_counted_step(dims, k - 1, around_cell(w, c, 0, 1));
        lemma_counted_step(dims, k - 1, around_cell(w, c, 1, 0));
        lemma_counted_step(dims, k - 1, around_cell(w, c, 1, 1));
        lemma_cell_touch(dims, cutters, p, u, v);
        if imbalance(dims, cutters, p, u, v) != 0 {
            lemma_touch_around(p, u, v, c);
        }
    }
}

/// Grid points `u` and `v` are one grid step apart, in either direction.
pub open spec fn adjacent(u: GridPoint, v: GridPoint) -> bool {
    exists|c: int| 0 <= c < 3 && (point(v) == step(point(u), c) || point(u) == step(point(v), c))
}

/// No cell uses a pair of points that are not one step apart unevenly.
proof fn lemma_far(dims: [usize; 3], cutters: Seq<CellBox>, u: GridPoint, v: GridPoint, k: int)
    requires
        !adjacent(u, v),
        0 <= k,
    ensures
        uses_upto(dims, cutters, k, u, v) == uses_upto(dims, cutters, k, v, u),
    decreases k,
{
    if k > 0 {
        lemma_far(dims, cutters, u, v, k - 1);
        let p = cell_of(dims, k - 1);
        lemma_cell_touch(dims, cutters, p, u, v);
        if touches(p, u, v) {
            assert(on_segment(u, v, 0, p) ==> point(v) == step(point(u), 0));
            assert(on_segment(u, v, 1, p) ==> point(v) == step(point(u), 1));
            assert(on_segment(u, v, 2, p) ==> point(v) == step(point(u), 2));
            assert(on_segment(v, u, 0, p) ==> point(u) == step(point(v), 0));
            assert(on_segment(v, u, 1, p) ==> point(u) == step(point(v), 1));
            assert(on_segment(v, u, 2, p) ==> point(u) == step(point(v), 2));
        }
    }
}

/// A cell counted at the end of the order is exactly a cell of the grid.
proof fn lemma_counted_all(dims: [usize; 3], cutters: Seq<CellBox>, q: Cell, u: GridPoint, v: GridPoint)
    ensures
        (if counted(dims, cell_count(dims), q) { imbalance(dims, cutters, q, u, v) } else { 0 }) == imbalance(dims, cutters, q, u, v),
{
    if in_grid(dims, q) {
        lemma_linear(dims, q.0, q.1, q.2);
    } else {
        lemma_void_cell(dims, cutters, q, u, v);
        lemma_void_cell(dims, cutters, q, v, u);
    }
}

/// The whole surface uses the segment `u -> v` as often as `v -> u`, for a
/// segment along axis `c`.
proof fn lemma_segment_balanced(dims: [usize; 3], cutters: Seq<CellBox>, u: GridPoint, v: GridPoint, c: int)
    requires
        0 <= c < 3,
        point(v) == step(point(u), c),
    ensures
        uses_upto(dims, cutters, cell_count(dims), u, v) == uses_upto(dims, cutters, cell_count(dims), v, u),
{
    let w = point(u);
    assert(0 <= cell_count(dims)) by (nonlinear_arith)
        requires cell_count(dims) == dims[0] as int * dims[1] as int * dims[2] as int;
    lemma_partial(dims, cutters, u, v, c, cell_count(dims));
    lemma_counted_all(dims, cutters, around_cell(w, c, 0, 0), u, v);
    lemma_counted_all(dims, cutters, around_cell(w, c, 0, 1), u, v);
    lemma_counted_all(dims, cutters, around_cell(w, c, 1, 0), u, v);
    lemma_counted_all(dims, cutters, around_cell(w, c, 1, 1), u, v);
    lemma_around_balance(dims, cutters, u, v, c);
}

/// The surface uses every pair of grid points as often in one direction as
/// in the other.
proof fn lemma_surface_balanced(dims: [usize; 3], cutters: Seq<CellBox>, u: GridPoint, v: GridPoint)
    ensures
        surface_uses(surface(dims, cutters), u, v) == surface_uses(surface(dims, cutters), v, u),
{
    let n = cell_count(dims);
    assert(0 <= n) by (nonlinear_arith)
        requires n == dims[0] as int * dims[1] as int * dims[2] as int;
    lemma_uses_upto(dims, cutters, n, u, v);
    lemma_uses_upto(dims, cutters, n, v, u);
    if adjacent(u, v) {
        let c = choose|c: int| 0 <= c < 3 && (point(v) == step(point(u), c) || point(u) == step(point(v), c));
        if point(v) == step(point(u), c) {
            lemma_segment_balanced(dims, cutters, u, v, c);
        } else {
            lemma_segment_balanced(dims, cutters, v, u, c);
        }
    } else {
        lemma_far(dims, cutters, u, v, n);
    }
}

/// The corners of the result's triangles, three per triangle.
pub open spec fn triangle_corners(m: Cells) -> Seq<GridPoint> {
    Seq::new(m.indices@.len(), |t: int| m.grid@[m.indices@[t] as int])
}

/// The surface is closed and consistently wound: for any two grid points,
/// the triangles of the result traverse the edge `u -> v` exactly as often
/// as the edge `v -> u`.
pub proof fn lemma_watertight(m: Cells, dims: [usize; 3], cutters: Seq<CellBox>, u: GridPoint, v: GridPoint)
    requires
        m.traces(dims, cutters),
    ensures
        tri_uses(triangle_corners(m), u, v) == tri_uses(triangle_corners(m), v, u),
{
    let fs = surface(dims, cutters);
    assert(triangle_corners(m) =~= corners_of(fs));
    lemma_tri_uses(fs, u, v);
    lemma_tri_uses(fs, v, u);
    lemma_surface_balanced(dims, cutters, u, v);
}

} // verus!
