//! The contact lattice: every relationship two boxes can have, with its
//! exact oracle.
//!
//! Boxes are placed on a quarter-unit grid, so every corner is an integer
//! and every oracle volume is an exact integer count of 1/64 cubes. The
//! oracle is derived from the construction alone: the intersection is the
//! overlap box, the union and the difference follow from it.

use vstd::prelude::*;

verus! {

/// An axis-aligned box in quarter units, `[min, max]` per axis.
#[derive(Clone, Copy, Debug, PartialEq, Eq)]
pub struct Brick {
    pub min: [i32; 3],
    pub max: [i32; 3],
}

impl Brick {
    pub open spec fn wf(self) -> bool {
        self.min[0] <= self.max[0] && self.min[1] <= self.max[1] && self.min[2] <= self.max[2]
    }

    /// Volume in 1/64 cubes.
    pub open spec fn volume(self) -> int {
        (self.max[0] - self.min[0]) * (self.max[1] - self.min[1]) * (self.max[2] - self.min[2])
    }
}

/// Length of the overlap of two intervals, zero when they only touch or
/// are apart.
pub open spec fn overlap_len(lo1: int, hi1: int, lo2: int, hi2: int) -> int {
    let lo = if lo1 >= lo2 { lo1 } else { lo2 };
    let hi = if hi1 <= hi2 { hi1 } else { hi2 };
    if hi > lo {
        hi - lo
    } else {
        0
    }
}

/// Volume of the common part of two boxes.
pub open spec fn overlap(a: Brick, b: Brick) -> int {
    overlap_len(a.min[0] as int, a.max[0] as int, b.min[0] as int, b.max[0] as int)
        * overlap_len(a.min[1] as int, a.max[1] as int, b.min[1] as int, b.max[1] as int)
        * overlap_len(a.min[2] as int, a.max[2] as int, b.min[2] as int, b.max[2] as int)
}

/// What the three operators must return, in 1/64 cubes.
#[derive(Clone, Copy, Debug, PartialEq, Eq)]
pub struct Oracle {
    pub union: i128,
    pub intersection: i128,
    pub difference: i128,
}

impl Oracle {
    /// The oracle of `a` against `b`: `|A n B|` is the overlap, `|A u B| =
    /// |A| + |B| - |A n B|` and `|A - B| = |A| - |A n B|`.
    pub open spec fn of(self, a: Brick, b: Brick) -> bool {
        &&& self.intersection == overlap(a, b)
        &&& self.union == a.volume() + b.volume() - overlap(a, b)
        &&& self.difference == a.volume() - overlap(a, b)
    }
}

fn overlap_length(lo1: i32, hi1: i32, lo2: i32, hi2: i32) -> (l: i128)
    ensures
        l == overlap_len(lo1 as int, hi1 as int, lo2 as int, hi2 as int),
        0 <= l < 0x1_0000_0000,
{
    let lo = if lo1 >= lo2 { lo1 } else { lo2 };
    let hi = if hi1 <= hi2 { hi1 } else { hi2 };
    if hi > lo {
        hi as i128 - lo as i128
    } else {
        0
    }
}

/// The exact oracle of `a` against `b`.
pub fn oracle(a: Brick, b: Brick) -> (o: Oracle)
    requires
        a.wf(),
        b.wf(),
    ensures
        o.of(a, b),
{
    let ex = a.max[0] as i128 - a.min[0] as i128;
    let ey = a.max[1] as i128 - a.min[1] as i128;
    let ez = a.max[2] as i128 - a.min[2] as i128;
    let fx = b.max[0] as i128 - b.min[0] as i128;
    let fy = b.max[1] as i128 - b.min[1] as i128;
    let fz = b.max[2] as i128 - b.min[2] as i128;
    let ox = overlap_length(a.min[0], a.max[0], b.min[0], b.max[0]);
    let oy = overlap_length(a.min[1], a.max[1], b.min[1], b.max[1]);
    let oz = overlap_length(a.min[2], a.max[2], b.min[2], b.max[2]);
    assert(0 <= ex * ey <= 0xFFFF_FFFF_0000_0001) by (nonlinear_arith)
        requires 0 <= ex < 0x1_0000_0000, 0 <= ey < 0x1_0000_0000;
    assert(0 <= ex * ey * ez <= 0xFFFF_FFFF_0000_0001 * 0xFFFF_FFFF) by (nonlinear_arith)
        requires 0 <= ex * ey <= 0xFFFF_FFFF_0000_0001, 0 <= ez < 0x1_0000_0000;
    assert(0 <= fx * fy <= 0xFFFF_FFFF_0000_0001) by (nonlinear_arith)
        requires 0 <= fx < 0x1_0000_0000, 0 <= fy < 0x1_0000_0000;
    assert(0 <= fx * fy * fz <= 0xFFFF_FFFF_0000_0001 * 0xFFFF_FFFF) by (nonlinear_arith)
        requires 0 <= fx * fy <= 0xFFFF_FFFF_0000_0001, 0 <= fz < 0x1_0000_0000;
    assert(0 <= ox * oy <= 0xFFFF_FFFF_0000_0001) by (nonlinear_arith)
        requires 0 <= ox < 0x1_0000_0000, 0 <= oy < 0x1_0000_0000;
    assert(0 <= ox * oy * oz <= 0xFFFF_FFFF_0000_0001 * 0xFFFF_FFFF) by (nonlinear_arith)
        requires 0 <= ox * oy <= 0xFFFF_FFFF_0000_0001, 0 <= oz < 0x1_0000_0000;
    let va = ex * ey * ez;
    let vb = fx * fy * fz;
    let common = ox * oy * oz;
    Oracle { union: va + vb - common, intersection: common, difference: va - common }
}

/// One row of the lattice.
#[derive(Clone, Copy, Debug)]
pub struct BoxCase {
    pub name: &'static str,
    pub a: Brick,
    pub b: Brick,
    pub oracle: Oracle,
    /// Whether a refusal is a legitimate answer for this case.
    pub refusal_ok: bool,
}

/// A box from quarter-unit corners.
fn brick(min: [i32; 3], max: [i32; 3]) -> (b: Brick)
    requires
        min[0] <= max[0] && min[1] <= max[1] && min[2] <= max[2],
    ensures
        b == (Brick { min, max }),
        b.wf(),
{
    Brick { min, max }
}

fn case(name: &'static str, a: Brick, b: Brick) -> (c: BoxCase)
    requires
        a.wf(),
        b.wf(),
    ensures
        c.name == name,
        c.a == a,
        c.b == b,
        c.oracle.of(a, b),
        !c.refusal_ok,
{
    BoxCase { name, a, b, oracle: oracle(a, b), refusal_ok: false }
}

/// The unit cube at the origin, in quarter units.
pub open spec fn unit() -> Brick {
    Brick { min: [0, 0, 0], max: [4, 4, 4] }
}

/// The box cases of the lattice, every qualitative relationship built
/// exactly: disjoint, contained, partial overlap, identical, and the three
/// degenerate contacts (a shared face, edge or vertex), each against the
/// unit cube. No refusal is legitimate for any of them.
pub fn lattice_boxes() -> (cases: Vec<BoxCase>)
    ensures
        cases@.len() == 7,
        forall|i: int| 0 <= i < 7 ==> (#[trigger] cases@[i]).a == unit() && cases@[i].oracle.of(cases@[i].a, cases@[i].b)
            && !cases@[i].refusal_ok,
        cases@[0].b == (Brick { min: [8, 0, 0], max: [12, 4, 4] }),
        cases@[1].b == (Brick { min: [1, 1, 1], max: [3, 3, 3] }),
        cases@[2].b == (Brick { min: [2, 0, 0], max: [6, 4, 4] }),
        cases@[3].b == unit(),
        cases@[4].b == (Brick { min: [4, 0, 0], max: [8, 4, 4] }),
        cases@[5].b == (Brick { min: [4, 4, 0], max: [8, 8, 4] }),
        cases@[6].b == (Brick { min: [4, 4, 4], max: [8, 8, 8] }),
        cases@[0].name@ == "disjoint (gap 1)"@,
        cases@[1].name@ == "contained (no contact)"@,
        cases@[2].name@ == "partial overlap"@,
        cases@[3].name@ == "identical"@,
        cases@[4].name@ == "face contact"@,
        cases@[5].name@ == "edge contact"@,
        cases@[6].name@ == "vertex contact"@,
{
    let unit = brick([0, 0, 0], [4, 4, 4]);
    let mut cases: Vec<BoxCase> = Vec::new();
    cases.push(case("disjoint (gap 1)", unit, brick([8, 0, 0], [12, 4, 4])));
    cases.push(case("contained (no contact)", unit, brick([1, 1, 1], [3, 3, 3])));
    cases.push(case("partial overlap", unit, brick([2, 0, 0], [6, 4, 4])));
    cases.push(case("identical", unit, unit));
    cases.push(case("face contact", unit, brick([4, 0, 0], [8, 4, 4])));
    cases.push(case("edge contact", unit, brick([4, 4, 0], [8, 8, 4])));
    cases.push(case("vertex contact", unit, brick([4, 4, 4], [8, 8, 8])));
    cases
}

/// Boxes that touch or are apart along some axis share no volume: a
/// shared face, edge or vertex contributes nothing, so the union is the sum
/// of the volumes and the difference leaves A whole.
pub proof fn lemma_touching_boxes_share_no_volume(a: Brick, b: Brick, o: Oracle, k: int)
    requires
        a.wf(),
        b.wf(),
        o.of(a, b),
        0 <= k < 3,
        a.max[k] <= b.min[k] || b.max[k] <= a.min[k],
    ensures
        o.intersection == 0,
        o.union == a.volume() + b.volume(),
        o.difference == a.volume(),
{
    let x = overlap_len(a.min[0] as int, a.max[0] as int, b.min[0] as int, b.max[0] as int);
    let y = overlap_len(a.min[1] as int, a.max[1] as int, b.min[1] as int, b.max[1] as int);
    let z = overlap_len(a.min[2] as int, a.max[2] as int, b.min[2] as int, b.max[2] as int);
    assert(x == 0 || y == 0 || z == 0);
    assert(x * y * z == 0) by (nonlinear_arith)
        requires x == 0 || y == 0 || z == 0;
}

} // verus!
