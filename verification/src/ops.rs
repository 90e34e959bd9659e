//! Boolean operation codes and the set-algebra identities kernels are
//! scored on.

use vstd::prelude::*;

verus! {

/// Boolean operation codes, mirroring the `BENCH_OP_*` defines of the C
/// shims: one shared integer rather than one entry point per operation.
#[derive(Clone, Copy, PartialEq, Eq, Structural, Debug)]
pub enum Op {
    Difference,
    Union,
    Intersection,
}

impl Op {
    /// The integer the C shims use for this operation.
    pub fn code(self) -> (c: i32)
        ensures
            c == match self {
                Op::Difference => 0int,
                Op::Union => 1int,
                Op::Intersection => 2int,
            },
    {
        match self {
            Op::Difference => 0,
            Op::Union => 1,
            Op::Intersection => 2,
        }
    }
}

/// What a kernel is asked to prove, independent of speed.
///
/// Each identity is a law of set algebra that any correct boolean must
/// satisfy for ANY operands, so the identity is its own oracle.
#[derive(Clone, Copy, Debug)]
pub struct Identity {
    pub name: &'static str,
    pub law: &'static str,
}

/// Which operand pair an identity wants evaluated.
///
/// Explicit rather than a bare `swap: bool`: idempotence needs `A op A`,
/// which no combination of "swapped or not" over `(A, B)` can express.
#[derive(Clone, Copy, PartialEq, Eq, Structural, Debug)]
pub enum Pair {
    /// subject = A, tool = B
    Ab,
    /// subject = B, tool = A
    Ba,
    /// subject = A, tool = A
    Aa,
}

/// The four identities, in report order.
pub fn identities() -> (ids: [Identity; 4])
    ensures
        ids[0].name@ == "partition"@ && ids[0].law@ == "vol(A-B) + vol(A^B) = vol(A)"@,
        ids[1].name@ == "inclusion-exclusion"@ && ids[1].law@ == "vol(AuB) + vol(A^B) = vol(A) + vol(B)"@,
        ids[2].name@ == "idempotence"@ && ids[2].law@ == "vol(AuA) = vol(A)"@,
        ids[3].name@ == "commutativity"@ && ids[3].law@ == "vol(AuB) = vol(BuA)"@,
{
    [
        Identity { name: "partition", law: "vol(A-B) + vol(A^B) = vol(A)" },
        Identity { name: "inclusion-exclusion", law: "vol(AuB) + vol(A^B) = vol(A) + vol(B)" },
        Identity { name: "idempotence", law: "vol(AuA) = vol(A)" },
        Identity { name: "commutativity", law: "vol(AuB) = vol(BuA)" },
    ]
}

/// How an identity is scored.
#[derive(Clone, Copy, PartialEq, Eq, Structural, Debug)]
pub enum Scoring {
    /// An additive law, scored on volume alone: `first + second` against a
    /// sum of the operand volumes.
    Additive,
    /// An equivalence law: the two results denote the same solid and are
    /// compared on every metric both report.
    Equivalence,
}

/// The evaluations identity number `index` asks for, and how they are
/// scored. `None` for an index past the table.
///
/// For an equivalence with a single evaluation, the result is compared
/// against operand A itself.
pub fn evaluations(index: usize) -> (plan: Option<(Scoring, Vec<(Op, Pair)>)>)
    ensures
        index >= 4 <==> plan is None,
        index == 0 ==> (plan matches Some((s, v)) && s == Scoring::Additive
            && v@ == seq![(Op::Difference, Pair::Ab), (Op::Intersection, Pair::Ab)]),
        index == 1 ==> (plan matches Some((s, v)) && s == Scoring::Additive
            && v@ == seq![(Op::Union, Pair::Ab), (Op::Intersection, Pair::Ab)]),
        index == 2 ==> (plan matches Some((s, v)) && s == Scoring::Equivalence
            && v@ == seq![(Op::Union, Pair::Aa)]),
        index == 3 ==> (plan matches Some((s, v)) && s == Scoring::Equivalence
            && v@ == seq![(Op::Union, Pair::Ab), (Op::Union, Pair::Ba)]),
{
    if index == 0 {
        Some((Scoring::Additive, vec![(Op::Difference, Pair::Ab), (Op::Intersection, Pair::Ab)]))
    } else if index == 1 {
        Some((Scoring::Additive, vec![(Op::Union, Pair::Ab), (Op::Intersection, Pair::Ab)]))
    } else if index == 2 {
        Some((Scoring::Equivalence, vec![(Op::Union, Pair::Aa)]))
    } else if index == 3 {
        Some((Scoring::Equivalence, vec![(Op::Union, Pair::Ab), (Op::Union, Pair::Ba)]))
    } else {
        None
    }
}

} // verus!
