//! Sphere-grid union: many-component operands at scale.
//!
//! A `k` x `k` x `k` grid of unit spheres is unioned into one solid, in two
//! arrangements (disjoint and overlapping) and by two reduction strategies
//! (a left fold and a balanced pairwise tree).

use axiolid_mesh::TriMesh;
use vstd::prelude::*;

verus! {

#[verifier::external_type_specification]
#[verifier::external_body]
pub struct ExTriMesh(TriMesh);

/// `TriMesh`'s `Clone` is derived over plain fields (positions, indices,
/// optional normals, attribute channels), so a clone equals its source.
pub assume_specification[ <TriMesh as Clone>::clone ](m: &TriMesh) -> (r: TriMesh)
    ensures
        r == *m,
;

/// How the grid is spaced relative to sphere radius.
#[derive(Clone, Copy, PartialEq, Eq, Structural, Debug)]
pub enum Arrangement {
    /// Centres far enough apart that no two spheres touch.
    Disjoint,
    /// Centres closer than 2r, so neighbours fuse into one solid.
    Overlapping,
}

impl Arrangement {
    /// Centre-to-centre spacing, in half radii.
    ///
    /// Disjoint uses 3r (a full radius of clear air between surfaces) so
    /// that no tolerance can make neighbours touch. Overlapping uses 1.5r,
    /// so the per-pair intersection is the two-sphere case.
    pub fn spacing_half_radii(self) -> (h: u32)
        ensures
            h == match self {
                Arrangement::Disjoint => 6u32,
                Arrangement::Overlapping => 3u32,
            },
            self == Arrangement::Disjoint <==> h > 4,
    {
        match self {
            Arrangement::Disjoint => 6,
            Arrangement::Overlapping => 3,
        }
    }

    pub fn label(self) -> (s: &'static str)
        ensures
            s@ == match self {
                Arrangement::Disjoint => "disjoint"@,
                Arrangement::Overlapping => "overlap"@,
            },
    {
        match self {
            Arrangement::Disjoint => "disjoint",
            Arrangement::Overlapping => "overlap",
        }
    }
}

/// How a list of solids is reduced to a single union.
#[derive(Clone, Copy, PartialEq, Eq, Structural, Debug)]
pub enum Strategy {
    /// Fold left: `((a u b) u c) u d`. The accumulator grows every step.
    Sequential,
    /// Balanced pairwise reduction: union adjacent pairs, then pairs of
    /// those, until one remains. Same number of boolean calls, but the
    /// operands stay small until the final levels.
    Tree,
}

impl Strategy {
    pub fn label(self) -> (s: &'static str)
        ensures
            s@ == match self {
                Strategy::Sequential => "seq"@,
                Strategy::Tree => "tree"@,
            },
    {
        match self {
            Strategy::Sequential => "seq",
            Strategy::Tree => "tree",
        }
    }
}


/// `b` is an element-wise clone of `a`.
pub open spec fn copies<S: Clone>(a: Seq<S>, b: Seq<S>) -> bool {
    &&& a.len() == b.len()
    &&& forall|i: int| 0 <= i < a.len() ==> cloned::<S>(a[i], #[trigger] b[i])
}

/// `accs` is a left fold of `parts` under `f`: it starts at a clone of
/// the first part, and each later accumulator is a result `f` can give on
/// the one before it and the next part.
pub open spec fn fold_trace<S: Clone, F: Fn(&S, &S) -> Option<S>>(f: F, parts: Seq<S>, accs: Seq<S>) -> bool {
    &&& parts.len() >= 1
    &&& accs.len() == parts.len()
    &&& cloned::<S>(parts[0], accs[0])
    &&& forall|i: int| 1 <= i < parts.len() ==> call_ensures(f, (&accs[i - 1], &parts[i]), Some(#[trigger] accs[i]))
}

/// `next` is one level of the balanced pairwise reduction of `level`:
/// adjacent pairs combined by `f`, an odd last element carried over
/// uncombined.
pub open spec fn pair_level<S: Clone, F: Fn(&S, &S) -> Option<S>>(f: F, level: Seq<S>, next: Seq<S>) -> bool {
    &&& next.len() == (level.len() + 1) / 2
    &&& forall|i: int| 0 <= i < level.len() / 2 ==> call_ensures(f, (&level[2 * i], &level[2 * i + 1]), Some(#[trigger] next[i]))
    &&& level.len() % 2 == 1 ==> cloned::<S>(level[level.len() - 1], next[next.len() - 1])
}

/// `levels` is a whole balanced reduction of `parts` down to one solid.
pub open spec fn tree_trace<S: Clone, F: Fn(&S, &S) -> Option<S>>(f: F, parts: Seq<S>, levels: Seq<Seq<S>>) -> bool {
    &&& levels.len() >= 1
    &&& copies(parts, levels[0])
    &&& levels.last().len() == 1
    &&& forall|k: int| 0 <= k < levels.len() - 1 ==> levels[k].len() > 1 && pair_level(f, #[trigger] levels[k], levels[k + 1])
}

/// A left fold of `parts` under `f` stopped at its first failure: `accs`
/// are the accumulators made so far, and the union of the last of them
/// with the next part came back `None`.
pub open spec fn fold_fails<S: Clone, F: Fn(&S, &S) -> Option<S>>(f: F, parts: Seq<S>, accs: Seq<S>) -> bool {
    &&& 1 <= accs.len() < parts.len()
    &&& cloned::<S>(parts[0], accs[0])
    &&& forall|i: int| 1 <= i < accs.len() ==> call_ensures(f, (&accs[i - 1], &parts[i]), Some(#[trigger] accs[i]))
    &&& call_ensures(f, (&accs.last(), &parts[accs.len() as int]), None::<S>)
}

/// A balanced reduction of `parts` under `f` stopped at its first failure:
/// `levels` are the levels made so far, the last of them being combined;
/// its first `done.len()` pairs were combined into `done`, and the union of
/// the next pair came back `None`.
pub open spec fn tree_fails<S: Clone, F: Fn(&S, &S) -> Option<S>>(f: F, parts: Seq<S>, levels: Seq<Seq<S>>, done: Seq<S>) -> bool {
    let level = levels.last();
    let j = done.len() as int;
    &&& levels.len() >= 1
    &&& copies(parts, levels[0])
    &&& forall|k: int| 0 <= k < levels.len() - 1 ==> levels[k].len() > 1 && pair_level(f, #[trigger] levels[k], levels[k + 1])
    &&& 2 * j + 1 < level.len()
    &&& forall|m: int| 0 <= m < j ==> call_ensures(f, (&level[2 * m], &level[2 * m + 1]), Some(#[trigger] done[m]))
    &&& call_ensures(f, (&level[2 * j], &level[2 * j + 1]), None::<S>)
}

/// Boolean calls a balanced reduction makes: one per combined pair.
pub open spec fn tree_calls<S>(levels: Seq<Seq<S>>) -> int
    decreases levels.len(),
{
    if levels.len() <= 1 {
        0
    } else {
        tree_calls(levels.drop_last()) + levels[levels.len() - 2].len() / 2
    }
}

/// Both strategies make the same number of boolean calls: a balanced
/// reduction of `n` solids combines exactly `n - 1` pairs, as a left
/// fold does.
pub proof fn lemma_tree_calls<S: Clone, F: Fn(&S, &S) -> Option<S>>(f: F, parts: Seq<S>, levels: Seq<Seq<S>>)
    requires
        tree_trace(f, parts, levels),
    ensures
        tree_calls(levels) == parts.len() - 1,
{
    lemma_tree_calls_prefix(f, levels, levels.len() as int);
    assert(levels.subrange(0, levels.len() as int) =~= levels);
}

proof fn lemma_tree_calls_prefix<S: Clone, F: Fn(&S, &S) -> Option<S>>(f: F, levels: Seq<Seq<S>>, m: int)
    requires
        1 <= m <= levels.len(),
        forall|k: int| 0 <= k < levels.len() - 1 ==> levels[k].len() > 1 && pair_level(f, #[trigger] levels[k], levels[k + 1]),
    ensures
        tree_calls(levels.subrange(0, m)) == levels[0].len() - levels[m - 1].len(),
    decreases m,
{
    if m > 1 {
        lemma_tree_calls_prefix(f, levels, m - 1);
        assert(levels.subrange(0, m).drop_last() =~= levels.subrange(0, m - 1));
        assert(pair_level(f, levels[m - 2], levels[m - 1]));
    }
}

/// Reduce `parts` to one solid with `union`, by `strategy`.
///
/// Returns `None` if `parts` is empty or any single union fails, rather
/// than a partial union that would look like a fast success.
#[verifier::spinoff_prover]
#[verifier::rlimit(50)]
pub fn reduce<S: Clone, F: Fn(&S, &S) -> Option<S>>(parts: &[S], strategy: Strategy, union: F) -> (r: Option<S>)
    requires
        forall|a: &S, b: &S| call_requires(union, (a, b)),
    ensures
        parts@.len() == 0 ==> r is None,
        parts@.len() == 1 ==> r is Some,
        r matches Some(m) ==> match strategy {
            Strategy::Sequential => exists|accs: Seq<S>| fold_trace(union, parts@, accs) && accs.last() == m,
            Strategy::Tree => exists|levels: Seq<Seq<S>>| tree_trace(union, parts@, levels) && levels.last()[0] == m,
        },
        r is None && parts@.len() > 0 ==> match strategy {
            Strategy::Sequential => exists|accs: Seq<S>| fold_fails(union, parts@, accs),
            Strategy::Tree => exists|levels: Seq<Seq<S>>, done: Seq<S>| tree_fails(union, parts@, levels, done),
        },
{
    if parts.len() == 0 {
        return None;
    }
    match strategy {
        Strategy::Sequential => {
            let mut acc = parts[0].clone();
            let ghost mut accs: Seq<S> = seq![acc];
            let mut i: usize = 1;
            while i < parts.len()
                invariant
                    strategy == Strategy::Sequential,
                    1 <= i <= parts@.len(),
                    accs.len() == i,
                    accs.last() == acc,
                    cloned::<S>(parts@[0], accs[0]),
                    forall|j: int| 1 <= j < i ==> call_ensures(union, (&accs[j - 1], &parts@[j]), Some(#[trigger] accs[j])),
                    forall|a: &S, b: &S| call_requires(union, (a, b)),
                decreases parts.len() - i,
            {
                match union(&acc, &parts[i]) {
                    Some(next) => {
                        proof {
                            accs = accs.push(next);
                        }
                        acc = next;
                    },
                    None => {
                        assert(fold_fails(union, parts@, accs));
                        return None;
                    },
                }
                i = i + 1;
            }
            assert(fold_trace(union, parts@, accs));
            Some(acc)
        },
        Strategy::Tree => {
            let mut level: Vec<S> = Vec::new();
            let mut i: usize = 0;
            while i < parts.len()
                invariant
                    i <= parts@.len(),
                    level@.len() == i,
                    forall|j: int| 0 <= j < i ==> cloned::<S>(parts@[j], #[trigger] level@[j]),
                decreases parts.len() - i,
            {
                level.push(parts[i].clone());
                i = i + 1;
            }
            let ghost mut levels: Seq<Seq<S>> = seq![level@];
            while level.len() > 1
                invariant
                    strategy == Strategy::Tree,
                    level@.len() >= 1,
                    parts@.len() == 1 ==> level@.len() == 1,
                    levels.len() >= 1,
                    levels.last() == level@,
                    copies(parts@, levels[0]),
                    forall|k: int| 0 <= k < levels.len() - 1 ==> levels[k].len() > 1 && pair_level(union, #[trigger] levels[k], levels[k + 1]),
                    forall|a: &S, b: &S| call_requires(union, (a, b)),
                decreases level.len(),
            {
                let mut next: Vec<S> = Vec::new();
                let mut j: usize = 0;
                while j + 1 < level.len()
                    invariant
                        strategy == Strategy::Tree,
                        parts@.len() != 1,
                        levels.len() >= 1,
                        levels.last() == level@,
                        copies(parts@, levels[0]),
                        forall|k: int| 0 <= k < levels.len() - 1 ==> levels[k].len() > 1 && pair_level(union, #[trigger] levels[k], levels[k + 1]),
                        j % 2 == 0,
                        j <= level@.len(),
                        next@.len() == j / 2,
                        forall|m: int| 0 <= m < j / 2 ==> call_ensures(union, (&level@[2 * m], &level@[2 * m + 1]), Some(#[trigger] next@[m])),
                        forall|a: &S, b: &S| call_requires(union, (a, b)),
                    decreases level.len() - j,
                {
                    match union(&level[j], &level[j + 1]) {
                        Some(m) => {
                            next.push(m);
                        },
                        None => {
                            proof {
                                assert(j == 2 * (j / 2));
                                assert(tree_fails(union, parts@, levels, next@));
                            }
                            return None;
                        },
                    }
                    j = j + 2;
                }
                if j < level.len() {
                    next.push(level[j].clone());
                }
                proof {
                    assert(pair_level(union, level@, next@));
                    levels = levels.push(next@);
                }
                level = next;
            }
            let m = level.pop();
            assert(tree_trace(union, parts@, levels));
            m
        },
    }
}


/// Union every mesh in `parts` by `strategy`, each pairwise union made by
/// `union` (the boolean provider's union, `None` when it refuses).
///
/// Returns `None` if `parts` is empty or any single boolean fails, rather
/// than a partial union that would look like a fast success. A single part
/// is its own union. The sequential strategy folds left; the tree combines
/// adjacent pairs level by level, an odd last mesh carried over uncombined.
pub fn union_all<F: Fn(&TriMesh, &TriMesh) -> Option<TriMesh>>(parts: &[TriMesh], strategy: Strategy, union: F) -> (r: Option<TriMesh>)
    requires
        forall|a: &TriMesh, b: &TriMesh| call_requires(union, (a, b)),
    ensures
        parts@.len() == 0 ==> r is None,
        parts@.len() == 1 ==> r == Some(parts@[0]),
        r matches Some(m) ==> match strategy {
            Strategy::Sequential => exists|accs: Seq<TriMesh>| fold_trace(union, parts@, accs) && accs.last() == m,
            Strategy::Tree => exists|levels: Seq<Seq<TriMesh>>| tree_trace(union, parts@, levels) && levels.last()[0] == m,
        },
        r is None && parts@.len() > 0 ==> match strategy {
            Strategy::Sequential => exists|accs: Seq<TriMesh>| fold_fails(union, parts@, accs),
            Strategy::Tree => exists|levels: Seq<Seq<TriMesh>>, done: Seq<TriMesh>| tree_fails(union, parts@, levels, done),
        },
{
    let r = reduce(parts, strategy, union);
    proof {
        if parts@.len() == 1 && r is Some {
            match strategy {
                Strategy::Sequential => {
                    let accs = choose|accs: Seq<TriMesh>| fold_trace(union, parts@, accs) && accs.last() == r->0;
                    assert(accs.len() == 1);
                },
                Strategy::Tree => {
                    let levels = choose|levels: Seq<Seq<TriMesh>>| tree_trace(union, parts@, levels) && levels.last()[0] == r->0;
                    if levels.len() > 1 {
                        assert(levels[0].len() > 1);
                    }
                },
            }
        }
    }
    r
}

} // verus!
