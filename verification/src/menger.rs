//! Menger sponge void generator on an exact integer grid.
//!
//! The unit cube is the grid cube `[0, 3^depth]^3`: one grid step is
//! `3^-depth` of the unit edge, so every void corner is an integer and the
//! generator is exact. At each level a cell is split into 27 subcells and
//! the 7 with at least two centred indices are removed (the 6 face centres
//! and the body centre); the 20 survivors recurse.

use vstd::prelude::*;

verus! {

/// An axis-aligned void box in grid units, `[min, max]` per axis.
#[derive(Clone, Copy, Debug)]
pub struct Void {
    pub min: [u64; 3],
    pub max: [u64; 3],
}

/// A cube as the proofs see it: corner and edge length.
pub struct Cube {
    pub x: int,
    pub y: int,
    pub z: int,
    pub side: int,
}

pub open spec fn pow_nat(b: nat, e: nat) -> nat
    decreases e,
{
    if e == 0 {
        1
    } else {
        b * pow_nat(b, (e - 1) as nat)
    }
}

/// Whether subcell `(i, j, k)` of a split cell is removed: at least two
/// of its indices are the centre.
pub open spec fn is_removed(i: int, j: int, k: int) -> bool {
    (if i == 1 { 1int } else { 0 }) + (if j == 1 { 1int } else { 0 }) + (if k == 1 { 1int } else { 0 }) >= 2
}

/// Offset of subcell index `i` (0, 1 or 2) for a subcell edge `t`.
pub open spec fn step(t: int, i: int) -> int {
    if i == 0 {
        0
    } else if i == 1 {
        t
    } else {
        t + t
    }
}

pub open spec fn cell_i(q: int) -> int {
    q / 9
}

pub open spec fn cell_j(q: int) -> int {
    (q / 3) % 3
}

pub open spec fn cell_k(q: int) -> int {
    q % 3
}

/// The voids contributed by subcell `q` (in `0..27`) of the cell at
/// `(x, y, z)` with edge `s`, at remaining depth `d`.
pub open spec fn piece(x: int, y: int, z: int, s: int, d: nat, q: int) -> Seq<Cube>
    decreases d, 0nat,
{
    let t = s / 3;
    let (i, j, k) = (cell_i(q), cell_j(q), cell_k(q));
    let c = Cube { x: x + step(t, i), y: y + step(t, j), z: z + step(t, k), side: t };
    if d == 0 {
        seq![]
    } else if is_removed(i, j, k) {
        seq![c]
    } else {
        carve_spec(c.x, c.y, c.z, t, (d - 1) as nat)
    }
}

/// The voids of the first `q` subcells, in emission order.
pub open spec fn carve_cells(x: int, y: int, z: int, s: int, d: nat, q: nat) -> Seq<Cube>
    decreases d, 1nat, q,
{
    if q == 0 {
        seq![]
    } else {
        carve_cells(x, y, z, s, d, (q - 1) as nat) + piece(x, y, z, s, d, q - 1)
    }
}

/// Every void of one cell at remaining depth `d`, in emission order.
pub open spec fn carve_spec(x: int, y: int, z: int, s: int, d: nat) -> Seq<Cube>
    decreases d, 2nat,
{
    if d == 0 {
        seq![]
    } else {
        carve_cells(x, y, z, s, d, 27)
    }
}


/// Removed subcells among the first `q` of a split cell.
pub open spec fn removed_upto(q: nat) -> nat
    decreases q,
{
    if q == 0 {
        0
    } else {
        removed_upto((q - 1) as nat) + if is_removed(cell_i(q - 1), cell_j(q - 1), cell_k(q - 1)) {
            1nat
        } else {
            0nat
        }
    }
}

/// Number of void boxes at `depth`: `7 * sum_{i < depth} 20^i`.
pub open spec fn void_count_spec(depth: nat) -> nat
    decreases depth,
{
    if depth == 0 {
        0
    } else {
        void_count_spec((depth - 1) as nat) + 7 * pow_nat(20, (depth - 1) as nat)
    }
}

/// Each level removes 7 cells and recurses into 20.
pub proof fn lemma_void_count_recurrence(depth: nat)
    requires
        depth >= 1,
    ensures
        void_count_spec(depth) == 7 + 20 * void_count_spec((depth - 1) as nat),
    decreases depth,
{
    if depth > 1 {
        lemma_void_count_recurrence((depth - 1) as nat);
        assert(pow_nat(20, (depth - 1) as nat) == 20 * pow_nat(20, (depth - 2) as nat));
    }
}

/// Every further level removes more voids: the count strictly increases.
pub proof fn lemma_void_count_increases(depth: nat)
    ensures
        void_count_spec(depth + 1) > void_count_spec(depth),
{
    lemma_void_count_recurrence(depth + 1);
}

proof fn lemma_removed_counts()
    ensures
        removed_upto(27) == 7,
{
    reveal_with_fuel(removed_upto, 28);
}

proof fn lemma_cells_len(x: int, y: int, z: int, s: int, d: nat, q: nat)
    requires
        d >= 1,
        q <= 27,
    ensures
        carve_cells(x, y, z, s, d, q).len() == removed_upto(q) + (q - removed_upto(q)) * void_count_spec((d - 1) as nat),
    decreases d, q,
{
    if q > 0 {
        lemma_cells_len(x, y, z, s, d, (q - 1) as nat);
        lemma_removed_le(q);
        lemma_removed_le((q - 1) as nat);
        let t = s / 3;
        let r = q - 1;
        let v = void_count_spec((d - 1) as nat);
        let a = removed_upto((q - 1) as nat);
        let prev = carve_cells(x, y, z, s, d, (q - 1) as nat);
        let p = piece(x, y, z, s, d, r);
        assert(carve_cells(x, y, z, s, d, q) == prev + p);
        if !is_removed(cell_i(r), cell_j(r), cell_k(r)) {
            lemma_carve_len(x + step(t, cell_i(r)), y + step(t, cell_j(r)), z + step(t, cell_k(r)), t, (d - 1) as nat);
            assert(p.len() == v);
            assert(removed_upto(q) == a);
            assert((q - a) * v == (q - 1 - a) * v + v) by (nonlinear_arith);
            assert(carve_cells(x, y, z, s, d, q).len() == removed_upto(q) + (q - removed_upto(q)) * v);
        } else {
            assert(p.len() == 1);
            assert(removed_upto(q) == a + 1);
            assert((q - removed_upto(q)) * v == (q - 1 - a) * v);
            assert(carve_cells(x, y, z, s, d, q).len() == removed_upto(q) + (q - removed_upto(q)) * v);
        }
    } else {
        assert(removed_upto(0) == 0);
        assert(carve_cells(x, y, z, s, d, 0).len() == 0);
        assert(0 * void_count_spec((d - 1) as nat) == 0);
    }
}

proof fn lemma_removed_le(q: nat)
    ensures
        removed_upto(q) <= q,
    decreases q,
{
    if q > 0 {
        lemma_removed_le((q - 1) as nat);
    }
}

/// The carving of one cell emits exactly `void_count_spec(d)` voids.
pub proof fn lemma_carve_len(x: int, y: int, z: int, s: int, d: nat)
    ensures
        carve_spec(x, y, z, s, d).len() == void_count_spec(d),
    decreases d, 28nat,
{
    if d >= 1 {
        lemma_cells_len(x, y, z, s, d, 27);
        lemma_removed_counts();
        lemma_void_count_recurrence(d);
    }
}

/// A grid void matches a proof-level cube.
pub open spec fn void_is(v: Void, c: Cube) -> bool {
    &&& v.min[0] as int == c.x
    &&& v.min[1] as int == c.y
    &&& v.min[2] as int == c.z
    &&& v.max[0] as int == c.x + c.side
    &&& v.max[1] as int == c.y + c.side
    &&& v.max[2] as int == c.z + c.side
}

pub open spec fn voids_are(vs: Seq<Void>, cs: Seq<Cube>) -> bool {
    &&& vs.len() == cs.len()
    &&& forall|n: int| 0 <= n < vs.len() ==> void_is(#[trigger] vs[n], cs[n])
}

/// Emit the voids of one cell, then recurse into the 20 survivors.
fn carve(out: &mut Vec<Void>, origin: [u64; 3], size: u64, depth: u32)
    requires
        origin[0] + size <= u64::MAX,
        origin[1] + size <= u64::MAX,
        origin[2] + size <= u64::MAX,
    ensures
        final(out)@.len() >= old(out)@.len(),
        final(out)@.subrange(0, old(out)@.len() as int) == old(out)@,
        voids_are(
            final(out)@.skip(old(out)@.len() as int),
            carve_spec(origin[0] as int, origin[1] as int, origin[2] as int, size as int, depth as nat),
        ),
    decreases depth,
{
    let ghost base = out@.len();
    let ghost (x, y, z, s) = (origin[0] as int, origin[1] as int, origin[2] as int, size as int);
    if depth == 0 {
        assert(out@.skip(base as int) =~= Seq::<Void>::empty());
        assert(out@.subrange(0, base as int) =~= out@);
        return;
    }
    let third = size / 3;
    let mut q: usize = 0;
    while q < 27
        invariant
            0 <= q <= 27,
            depth >= 1,
            third == size / 3,
            x == origin[0],
            y == origin[1],
            z == origin[2],
            s == size,
            origin[0] + size <= u64::MAX,
            origin[1] + size <= u64::MAX,
            origin[2] + size <= u64::MAX,
            out@.len() >= base,
            out@.subrange(0, base as int) == old(out)@,
            base == old(out)@.len(),
            voids_are(out@.skip(base as int), carve_cells(x, y, z, s, depth as nat, q as nat)),
        decreases 27 - q,
    {
        let i = q / 9;
        let j = (q / 3) % 3;
        let k = q % 3;
        let oi = if i == 0 { 0 } else if i == 1 { third } else { third + third };
        let oj = if j == 0 { 0 } else if j == 1 { third } else { third + third };
        let ok = if k == 0 { 0 } else if k == 1 { third } else { third + third };
        let corner = [origin[0] + oi, origin[1] + oj, origin[2] + ok];
        let centred = (if i == 1 { 1usize } else { 0 }) + (if j == 1 { 1usize } else { 0 }) + (if k == 1 { 1usize } else { 0 });
        let ghost before = out@;
        let ghost c = Cube { x: x + step(s / 3, i as int), y: y + step(s / 3, j as int), z: z + step(s / 3, k as int), side: s / 3 };
        let ghost p = piece(x, y, z, s, depth as nat, q as int);
        assert(carve_cells(x, y, z, s, depth as nat, (q + 1) as nat) == carve_cells(x, y, z, s, depth as nat, q as nat) + p);
        if centred >= 2 {
            out.push(Void { min: corner, max: [corner[0] + third, corner[1] + third, corner[2] + third] });
            assert(p == seq![c]);
        } else {
            carve(out, corner, third, depth - 1);
            assert(p == carve_spec(c.x, c.y, c.z, c.side, (depth - 1) as nat));
        }
        proof {
            let cells = carve_cells(x, y, z, s, depth as nat, q as nat);
            assert(out@.subrange(0, before.len() as int) == before);
            assert(out@.subrange(0, base as int) =~= before.subrange(0, base as int));
            let added = out@.skip(before.len() as int);
            assert(voids_are(added, p));
            assert(out@.skip(base as int) =~= before.skip(base as int) + added);
            assert forall|n: int| 0 <= n < out@.skip(base as int).len() implies void_is(
                #[trigger] out@.skip(base as int)[n],
                (cells + p)[n],
            ) by {
                if n < cells.len() {
                    assert(out@.skip(base as int)[n] == before.skip(base as int)[n]);
                } else {
                    assert(out@.skip(base as int)[n] == added[n - cells.len()]);
                }
            }
        }
        q = q + 1;
    }
}


/// `c` lies within the axis-aligned cube at `(x, y, z)` with edge `s`.
pub open spec fn inside(c: Cube, x: int, y: int, z: int, s: int) -> bool {
    &&& x <= c.x
    &&& c.x + c.side <= x + s
    &&& y <= c.y
    &&& c.y + c.side <= y + s
    &&& z <= c.z
    &&& c.z + c.side <= z + s
}

/// Two cubes whose interiors do not meet: they are separated along at
/// least one axis (touching faces are allowed).
pub open spec fn separated(a: Cube, b: Cube) -> bool {
    ||| a.x + a.side <= b.x
    ||| b.x + b.side <= a.x
    ||| a.y + a.side <= b.y
    ||| b.y + b.side <= a.y
    ||| a.z + a.side <= b.z
    ||| b.z + b.side <= a.z
}

pub open spec fn pairwise_separated(cs: Seq<Cube>) -> bool {
    forall|m: int, n: int| 0 <= m < n < cs.len() ==> separated(#[trigger] cs[m], #[trigger] cs[n])
}

/// Subcell `r` of the cell at `(x, y, z)` with edge `s`.
pub open spec fn in_subcell(c: Cube, x: int, y: int, z: int, s: int, r: int) -> bool {
    inside(c, x + step(s / 3, cell_i(r)), y + step(s / 3, cell_j(r)), z + step(s / 3, cell_k(r)), s / 3)
}

proof fn lemma_third(p: nat, t: nat)
    ensures
        (3 * p * t) / 3 == p * t,
        3 * p * t == 3 * (p * t),
{
    assert(3 * p * t == 3 * (p * t)) by (nonlinear_arith);
}

proof fn lemma_pow3_pos(d: nat)
    ensures
        pow_nat(3, d) >= 1,
    decreases d,
{
    if d > 0 {
        lemma_pow3_pos((d - 1) as nat);
    }
}

/// Distinct subcells of one cell do not overlap.
proof fn lemma_subcells_separated(x: int, y: int, z: int, s: int, r1: int, r2: int, a: Cube, b: Cube)
    requires
        0 <= r1 < 27,
        0 <= r2 < 27,
        r1 != r2,
        s >= 0,
        in_subcell(a, x, y, z, s, r1),
        in_subcell(b, x, y, z, s, r2),
    ensures
        separated(a, b),
{
    assert(s / 3 >= 0);
    assert(r1 == 9 * cell_i(r1) + 3 * cell_j(r1) + cell_k(r1));
    assert(r2 == 9 * cell_i(r2) + 3 * cell_j(r2) + cell_k(r2));
    assert(0 <= cell_i(r1) < 3 && 0 <= cell_j(r1) < 3 && 0 <= cell_k(r1) < 3);
    assert(0 <= cell_i(r2) < 3 && 0 <= cell_j(r2) < 3 && 0 <= cell_k(r2) < 3);
}

/// The subcell each void of `carve_cells(.., q)` came from.
pub open spec fn cell_owners(x: int, y: int, z: int, s: int, d: nat, q: nat) -> Seq<int>
    decreases q,
{
    if q == 0 {
        seq![]
    } else {
        cell_owners(x, y, z, s, d, (q - 1) as nat) + Seq::new(piece(x, y, z, s, d, q - 1).len(), |n: int| q - 1)
    }
}

/// Every cube of `cs` lies in its owner subcell, one of the first `q`.
pub open spec fn located(cs: Seq<Cube>, owners: Seq<int>, x: int, y: int, z: int, s: int, q: int) -> bool {
    &&& owners.len() == cs.len()
    &&& forall|n: int| 0 <= n < cs.len() ==> 0 <= #[trigger] owners[n] < q && in_subcell(cs[n], x, y, z, s, owners[n])
}

/// Containment and separation for the voids of the first `q` subcells.
proof fn lemma_cells_props(x: int, y: int, z: int, t: nat, d: nat, q: nat)
    requires
        d >= 1,
        q <= 27,
        t >= 1,
    ensures
        ({
            let s = (pow_nat(3, d) * t) as int;
            let cs = carve_cells(x, y, z, s, d, q);
            &&& pairwise_separated(cs)
            &&& forall|n: int| 0 <= n < cs.len() ==> (#[trigger] cs[n]).side >= t
            &&& located(cs, cell_owners(x, y, z, s, d, q), x, y, z, s, q as int)
        }),
    decreases d, q,
{
    let s = (pow_nat(3, d) * t) as int;
    let p3 = pow_nat(3, (d - 1) as nat);
    lemma_third(p3, t);
    lemma_pow3_pos((d - 1) as nat);
    assert(p3 * t >= t) by (nonlinear_arith) requires p3 >= 1, t >= 1;
    let m = s / 3;
    assert(m == p3 * t);
    if q > 0 {
        lemma_cells_props(x, y, z, t, d, (q - 1) as nat);
        let r = q - 1;
        let prev = carve_cells(x, y, z, s, d, (q - 1) as nat);
        let p = piece(x, y, z, s, d, r);
        let cs = carve_cells(x, y, z, s, d, q);
        assert(cs == prev + p);
        let (cx, cy, cz) = (x + step(m, cell_i(r)), y + step(m, cell_j(r)), z + step(m, cell_k(r)));
        // Every void of the new piece lies in subcell r.
        if is_removed(cell_i(r), cell_j(r), cell_k(r)) {
            assert(p == seq![Cube { x: cx, y: cy, z: cz, side: m }]);
            assert(in_subcell(p[0], x, y, z, s, r));
        } else {
            assert(p == carve_spec(cx, cy, cz, m, (d - 1) as nat));
            lemma_carve_props(cx, cy, cz, t, (d - 1) as nat);
        }
        assert(forall|n: int| 0 <= n < p.len() ==> (#[trigger] p[n]).side >= t && in_subcell(p[n], x, y, z, s, r));
        let prev_own = cell_owners(x, y, z, s, d, (q - 1) as nat);
        let own = cell_owners(x, y, z, s, d, q);
        assert(own == prev_own + Seq::new(p.len(), |n: int| q - 1));
        assert forall|n: int| 0 <= n < cs.len() implies 0 <= #[trigger] own[n] < q && in_subcell(cs[n], x, y, z, s, own[n]) by {
            if n < prev.len() {
                assert(cs[n] == prev[n]);
                assert(own[n] == prev_own[n]);
            } else {
                assert(cs[n] == p[n - prev.len()]);
                assert(own[n] == r);
            }
        }

        assert forall|n: int| 0 <= n < cs.len() implies (#[trigger] cs[n]).side >= t by {
            if n < prev.len() {
                assert(cs[n] == prev[n]);
            } else {
                assert(cs[n] == p[n - prev.len()]);
            }
        }
        assert forall|a: int, b: int| 0 <= a < b < cs.len() implies separated(#[trigger] cs[a], #[trigger] cs[b]) by {
            if b < prev.len() {
                assert(cs[a] == prev[a] && cs[b] == prev[b]);
            } else if a >= prev.len() {
                assert(cs[a] == p[a - prev.len()] && cs[b] == p[b - prev.len()]);
                if is_removed(cell_i(r), cell_j(r), cell_k(r)) {
                    assert(p.len() == 1);
                }
            } else {
                assert(cs[a] == prev[a] && cs[b] == p[b - prev.len()]);
                let r1 = cell_owners(x, y, z, s, d, (q - 1) as nat)[a];
                lemma_subcells_separated(x, y, z, s, r1, r, cs[a], cs[b]);
            }
        }
    } else {
        assert(carve_cells(x, y, z, s, d, q).len() == 0);
    }
}

/// Every void of a cell lies inside it, is at least one grid step wide,
/// and no two voids overlap.
pub proof fn lemma_carve_props(x: int, y: int, z: int, t: nat, d: nat)
    requires
        t >= 1,
    ensures
        ({
            let s = (pow_nat(3, d) * t) as int;
            let cs = carve_spec(x, y, z, s, d);
            &&& pairwise_separated(cs)
            &&& forall|n: int| 0 <= n < cs.len() ==> (#[trigger] cs[n]).side >= t && inside(cs[n], x, y, z, s)
        }),
    decreases d, 28nat,
{
    if d >= 1 {
        let s = (pow_nat(3, d) * t) as int;
        let cs = carve_spec(x, y, z, s, d);
        lemma_cells_props(x, y, z, t, d, 27);
        let m = s / 3;
        lemma_third(pow_nat(3, (d - 1) as nat), t);
        assert(s == 3 * m);
        assert forall|n: int| 0 <= n < cs.len() implies (#[trigger] cs[n]).side >= t && inside(cs[n], x, y, z, s) by {
            let r = cell_owners(x, y, z, s, d, 27)[n];
            assert(0 <= cell_i(r) < 3 && 0 <= cell_j(r) < 3 && 0 <= cell_k(r) < 3);
        }
    }
}


pub open spec fn volume(c: Cube) -> int {
    c.side * c.side * c.side
}

pub open spec fn total_volume(cs: Seq<Cube>) -> int
    decreases cs.len(),
{
    if cs.len() == 0 {
        0
    } else {
        total_volume(cs.drop_last()) + volume(cs.last())
    }
}

proof fn lemma_total_volume_concat(a: Seq<Cube>, b: Seq<Cube>)
    ensures
        total_volume(a + b) == total_volume(a) + total_volume(b),
    decreases b.len(),
{
    if b.len() > 0 {
        lemma_total_volume_concat(a, b.drop_last());
        assert((a + b).drop_last() =~= a + b.drop_last());
    } else {
        assert(a + b =~= a);
    }
}

proof fn lemma_cells_volume(x: int, y: int, z: int, t: nat, d: nat, q: nat)
    requires
        d >= 1,
        q <= 27,
    ensures
        ({
            let s = (pow_nat(3, d) * t) as int;
            let m = pow_nat(3, (d - 1) as nat) * t;
            let u = m * m * m;
            let w = pow_nat(20, (d - 1) as nat) * (t * t * t);
            total_volume(carve_cells(x, y, z, s, d, q)) == removed_upto(q) * u + (q - removed_upto(q)) * (u - w)
        }),
    decreases d, q,
{
    let s = (pow_nat(3, d) * t) as int;
    let m = pow_nat(3, (d - 1) as nat) * t;
    let u = m * m * m;
    let w = pow_nat(20, (d - 1) as nat) * (t * t * t);
    lemma_third(pow_nat(3, (d - 1) as nat), t);
    assert(s / 3 == m);
    if q > 0 {
        lemma_cells_volume(x, y, z, t, d, (q - 1) as nat);
        lemma_removed_le((q - 1) as nat);
        let r = q - 1;
        let prev = carve_cells(x, y, z, s, d, (q - 1) as nat);
        let p = piece(x, y, z, s, d, r);
        assert(carve_cells(x, y, z, s, d, q) == prev + p);
        lemma_total_volume_concat(prev, p);
        let a = removed_upto((q - 1) as nat);
        let (cx, cy, cz) = (x + step(m as int, cell_i(r)), y + step(m as int, cell_j(r)), z + step(m as int, cell_k(r)));
        if is_removed(cell_i(r), cell_j(r), cell_k(r)) {
            let c = Cube { x: cx, y: cy, z: cz, side: m as int };
            assert(p == seq![c]);
            assert(seq![c].drop_last() =~= Seq::<Cube>::empty());
            assert(seq![c].last() == c);
            assert(total_volume(Seq::<Cube>::empty()) == 0);
            assert(total_volume(seq![c]) == total_volume(seq![c].drop_last()) + volume(c));
            assert(volume(c) == u);
            assert(total_volume(p) == u);
            assert(removed_upto(q) == a + 1);
            assert((a + 1) * u + (q - (a + 1)) * (u - w) == a * u + (q - 1 - a) * (u - w) + u) by (nonlinear_arith);
        } else {
            assert(p == carve_spec(cx, cy, cz, m as int, (d - 1) as nat));
            lemma_carve_volume(cx, cy, cz, t, (d - 1) as nat);
            assert(total_volume(p) == u - w);
            assert(removed_upto(q) == a);
            assert(a * u + (q - a) * (u - w) == a * u + (q - 1 - a) * (u - w) + (u - w)) by (nonlinear_arith);
        }
    } else {
        assert(carve_cells(x, y, z, s, d, 0).len() == 0);
        assert(0 * u + 0 * (u - w) == 0) by (nonlinear_arith);
    }
}

/// The voids of one cell carved to depth `d` remove all but `20^d` of its
/// `27^d` smallest cubes: their volumes sum to `s^3 - 20^d t^3`.
pub proof fn lemma_carve_volume(x: int, y: int, z: int, t: nat, d: nat)
    ensures
        ({
            let s = (pow_nat(3, d) * t) as int;
            total_volume(carve_spec(x, y, z, s, d)) == s * s * s - pow_nat(20, d) * (t * t * t)
        }),
    decreases d, 28nat,
{
    let s = (pow_nat(3, d) * t) as int;
    if d == 0 {
        assert(pow_nat(3, 0) == 1 && pow_nat(20, 0) == 1);
        assert(1 * t == t) by (nonlinear_arith);
        assert(s == t);
        assert(carve_spec(x, y, z, s, d).len() == 0);
        assert(s * s * s - 1 * (t * t * t) == 0) by (nonlinear_arith) requires s == t;
    } else {
        lemma_cells_volume(x, y, z, t, d, 27);
        lemma_removed_counts();
        let m = pow_nat(3, (d - 1) as nat) * t;
        let u = m * m * m;
        let w = pow_nat(20, (d - 1) as nat) * (t * t * t);
        lemma_third(pow_nat(3, (d - 1) as nat), t);
        assert(s == 3 * m);
        assert(s * s * s == 27 * u) by (nonlinear_arith) requires s == 3 * m, u == m * m * m;
        assert(pow_nat(20, d) * (t * t * t) == 20 * w) by (nonlinear_arith)
            requires pow_nat(20, d) == 20 * pow_nat(20, (d - 1) as nat), w == pow_nat(20, (d - 1) as nat) * (t * t * t);
        assert(7 * u + (27 - 7) * (u - w) == 27 * u - 20 * w) by (nonlinear_arith);
    }
}


/// The voids of the unit sponge at `depth`, as proof-level cubes on the
/// grid `[0, 3^depth]^3`.
pub open spec fn sponge(depth: nat) -> Seq<Cube> {
    carve_spec(0, 0, 0, pow_nat(3, depth) as int, depth)
}

/// The sponge's voids: `void_count_spec(depth)` of them, each inside the
/// unit cube, no two overlapping, and together removing all but `20^depth`
/// of the `27^depth` smallest cubes -- volume `1 - (20/27)^depth` of the
/// unit cube.
pub proof fn lemma_sponge(depth: nat)
    ensures
        sponge(depth).len() == void_count_spec(depth),
        pairwise_separated(sponge(depth)),
        forall|n: int| 0 <= n < sponge(depth).len() ==> (#[trigger] sponge(depth)[n]).side >= 1
            && inside(sponge(depth)[n], 0, 0, 0, pow_nat(3, depth) as int),
        total_volume(sponge(depth)) == pow_nat(27, depth) - pow_nat(20, depth),
{
    let g = pow_nat(3, depth);
    assert(g * 1 == g) by (nonlinear_arith);
    lemma_carve_len(0, 0, 0, g as int, depth);
    lemma_carve_props(0, 0, 0, 1, depth);
    lemma_carve_volume(0, 0, 0, 1, depth);
    lemma_pow27(depth);
    assert(pow_nat(20, depth) * (1 * 1 * 1) == pow_nat(20, depth)) by (nonlinear_arith);
}

proof fn lemma_pow27(d: nat)
    ensures
        pow_nat(3, d) * pow_nat(3, d) * pow_nat(3, d) == pow_nat(27, d),
    decreases d,
{
    if d > 0 {
        lemma_pow27((d - 1) as nat);
        let a = pow_nat(3, (d - 1) as nat);
        assert(pow_nat(3, d) == 3 * a);
        assert(pow_nat(27, d) == 27 * pow_nat(27, (d - 1) as nat));
        let b = pow_nat(3, d);
        let e = pow_nat(27, d);
        let c = pow_nat(27, (d - 1) as nat);
        assert(b * b * b == e) by (nonlinear_arith)
            requires b == 3 * a, e == 27 * c, c == a * a * a;
        assert(pow_nat(3, d) * pow_nat(3, d) * pow_nat(3, d) == pow_nat(27, d));
    } else {
        let b = pow_nat(3, d);
        assert(b == 1 && pow_nat(27, d) == 1);
        assert(b * b * b == 1) by (nonlinear_arith) requires b == 1;
    }
}

proof fn lemma_pow3_bound(d: nat)
    requires
        d <= 40,
    ensures
        pow_nat(3, d) <= 12157665459056928801,
    decreases 40 - d,
{
    if d < 40 {
        lemma_pow3_bound(d + 1);
        assert(pow_nat(3, d + 1) == 3 * pow_nat(3, d));
    } else {
        reveal_with_fuel(pow_nat, 41);
    }
}

proof fn lemma_void_count_monotone(a: nat, b: nat)
    requires
        a <= b,
    ensures
        void_count_spec(a) <= void_count_spec(b),
    decreases b - a,
{
    if a < b {
        lemma_void_count_monotone(a, (b - 1) as nat);
    }
}

/// Edge of the unit cube in grid steps: `3^depth`.
pub fn grid_size(depth: u32) -> (g: u64)
    requires
        depth <= 40,
    ensures
        g == pow_nat(3, depth as nat),
{
    let mut g: u64 = 1;
    let mut i: u32 = 0;
    while i < depth
        invariant
            i <= depth <= 40,
            g == pow_nat(3, i as nat),
        decreases depth - i,
    {
        proof {
            lemma_pow3_bound((i + 1) as nat);
        }
        g = g * 3;
        i = i + 1;
    }
    g
}

/// Every void box of a unit Menger sponge at `depth`, ordered
/// deterministically, in grid units of `3^-depth` of the unit edge.
///
/// The unit cube is `[0, 3^depth]^3`. At each level a cell is split into 27
/// subcells and the 7 with at least two centred coordinates are removed: the
/// 6 face centres and the body centre. Surviving cells recurse.
pub fn voids(depth: u32) -> (out: Vec<Void>)
    requires
        depth <= 40,
    ensures
        voids_are(out@, sponge(depth as nat)),
        out@.len() == void_count_spec(depth as nat),
        pairwise_separated(sponge(depth as nat)),
        total_volume(sponge(depth as nat)) == pow_nat(27, depth as nat) - pow_nat(20, depth as nat),
{
    let mut out: Vec<Void> = Vec::new();
    let g = grid_size(depth);
    proof {
        lemma_pow3_bound(depth as nat);
    }
    carve(&mut out, [0, 0, 0], g, depth);
    proof {
        assert(out@.skip(0) =~= out@);
        lemma_sponge(depth as nat);
    }
    out
}

/// Number of void boxes at `depth`: `7 * sum_{i < depth} 20^i`.
pub fn void_count(depth: u32) -> (n: usize)
    requires
        void_count_spec(depth as nat) <= usize::MAX,
    ensures
        n == void_count_spec(depth as nat),
{
    let mut sum: usize = 0;
    let mut term: usize = 7;
    let mut i: u32 = 0;
    while i < depth
        invariant
            i <= depth,
            sum == void_count_spec(i as nat),
            i < depth ==> term == 7 * pow_nat(20, i as nat),
            void_count_spec(depth as nat) <= usize::MAX,
        decreases depth - i,
    {
        proof {
            lemma_void_count_monotone((i + 1) as nat, depth as nat);
        }
        sum = sum + term;
        i = i + 1;
        if i < depth {
            proof {
                lemma_void_count_monotone((i + 1) as nat, depth as nat);
                assert(pow_nat(20, i as nat) == 20 * pow_nat(20, (i - 1) as nat));
            }
            term = term * 20;
        }
    }
    sum
}

} // verus!
