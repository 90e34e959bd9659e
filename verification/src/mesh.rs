//! Triangle-mesh bookkeeping that does not depend on coordinates: index
//! triples, concatenation, fingerprints, and the order-only perturbations
//! used to check that a result depends on the surface and not on how it is
//! listed.
//!
//! Positions are opaque (`P`): every function here moves them around or
//! hashes their bits, and never computes with them.

use vstd::prelude::*;

verus! {

/// A triangle mesh: positions and three corner indices per triangle.
#[derive(Debug)]
pub struct Mesh<P> {
    pub positions: Vec<P>,
    pub indices: Vec<u32>,
}

impl<P> Mesh<P> {
    /// Corner `k` of the index buffer, as a position.
    pub open spec fn corner(&self, k: int) -> P {
        self.positions@[self.indices@[k] as int]
    }
}

/// Outward-wound triangle indices for a box whose corners are listed
/// bottom face first, counter-clockwise from the minimum corner.
pub const BOX_TRIS: [u32; 36] = [
    0, 2, 1, 0, 3, 2, 4, 5, 6, 4, 6, 7, 0, 1, 5, 0, 5, 4, 1, 2, 6, 1, 6, 5, 2, 3, 7, 2, 7, 6, 3, 0,
    4, 3, 4, 7,
];

/// The distinct items of `s`, each where it first occurs.
pub open spec fn first_seen<T>(s: Seq<T>) -> Seq<T>
    decreases s.len(),
{
    if s.len() == 0 {
        seq![]
    } else {
        let r = first_seen(s.drop_last());
        if r.contains(s.last()) {
            r
        } else {
            r.push(s.last())
        }
    }
}

pub proof fn lemma_first_seen<T>(s: Seq<T>)
    ensures
        first_seen(s).len() <= s.len(),
        forall|i: int| 0 <= i < first_seen(s).len() ==> s.contains(#[trigger] first_seen(s)[i]),
        first_seen(s).no_duplicates(),
        forall|i: int| 0 <= i < s.len() ==> first_seen(s).contains(#[trigger] s[i]),
    decreases s.len(),
{
    if s.len() > 0 {
        let t = s.drop_last();
        lemma_first_seen(t);
        let r = first_seen(t);
        assert forall|i: int| 0 <= i < s.len() implies first_seen(s).contains(#[trigger] s[i]) by {
            if i < t.len() {
                assert(s[i] == t[i]);
                assert(r.contains(t[i]));
                let w = choose|w: int| 0 <= w < r.len() && r[w] == t[i];
                assert(first_seen(s)[w] == r[w]);
            } else if !r.contains(s.last()) {
                assert(first_seen(s)[r.len() as int] == s.last());
            }
        }
        assert forall|i: int| 0 <= i < first_seen(s).len() implies s.contains(#[trigger] first_seen(s)[i]) by {
            if i < r.len() {
                let w = choose|w: int| 0 <= w < t.len() && t[w] == r[i];
                assert(s[w] == t[w]);
            } else {
                assert(s[s.len() - 1] == s.last());
            }
        }
    }
}

/// Triangles of an index buffer as triples.
pub open spec fn triangles_of(indices: Seq<u32>) -> Seq<[u32; 3]> {
    Seq::new(indices.len() / 3, |n: int| [indices[3 * n], indices[3 * n + 1], indices[3 * n + 2]])
}

/// Index triples from a flat `[i0, i1, i2, ...]` buffer; a trailing
/// partial triple is ignored.
pub fn triples(indices: &[u32]) -> (t: Vec<[u32; 3]>)
    ensures
        t@ == triangles_of(indices@),
{
    let mut t: Vec<[u32; 3]> = Vec::new();
    let mut i: usize = 0;
    while indices.len() - i >= 3
        invariant
            i % 3 == 0,
            i <= indices@.len(),
            t@ == triangles_of(indices@.subrange(0, i as int)),
        decreases indices.len() - i,
    {
        let ghost before = t@;
        t.push([indices[i], indices[i + 1], indices[i + 2]]);
        proof {
            let pre = indices@.subrange(0, i + 3);
            assert forall|n: int| 0 <= n < t@.len() implies #[trigger] t@[n] == triangles_of(pre)[n] by {
                if n < before.len() {
                    assert(before[n] == triangles_of(indices@.subrange(0, i as int))[n]);
                }
            }
            assert(t@ =~= triangles_of(pre));
        }
        i = i + 3;
    }
    proof {
        assert(triangles_of(indices@.subrange(0, i as int)) =~= triangles_of(indices@));
    }
    t
}

/// An index buffer as mathematical integers.
pub open spec fn index_ints(s: Seq<u32>) -> Seq<int> {
    s.map_values(|i: u32| i as int)
}

/// Total positions over a list of meshes.
pub open spec fn total_positions<P>(meshes: Seq<Mesh<P>>) -> int
    decreases meshes.len(),
{
    if meshes.len() == 0 {
        0
    } else {
        total_positions(meshes.drop_last()) + meshes.last().positions@.len()
    }
}

/// Total index entries over a list of meshes.
pub open spec fn total_indices<P>(meshes: Seq<Mesh<P>>) -> int
    decreases meshes.len(),
{
    if meshes.len() == 0 {
        0
    } else {
        total_indices(meshes.drop_last()) + meshes.last().indices@.len()
    }
}

/// Every position of every mesh, in order.
pub open spec fn joined_positions<P>(meshes: Seq<Mesh<P>>) -> Seq<P>
    decreases meshes.len(),
{
    if meshes.len() == 0 {
        seq![]
    } else {
        joined_positions(meshes.drop_last()) + meshes.last().positions@
    }
}

/// Every index of every mesh, each shifted past the positions of the
/// meshes before it.
pub open spec fn joined_indices<P>(meshes: Seq<Mesh<P>>) -> Seq<int>
    decreases meshes.len(),
{
    if meshes.len() == 0 {
        seq![]
    } else {
        joined_indices(meshes.drop_last()) + meshes.last().indices@.map_values(
            |i: u32| i + total_positions(meshes.drop_last()),
        )
    }
}

proof fn lemma_joined_lens<P>(meshes: Seq<Mesh<P>>)
    ensures
        joined_positions(meshes).len() == total_positions(meshes),
        joined_indices(meshes).len() == total_indices(meshes),
        total_positions(meshes) >= 0,
    decreases meshes.len(),
{
    if meshes.len() > 0 {
        lemma_joined_lens(meshes.drop_last());
    }
}

proof fn lemma_total_positions_prefix<P>(meshes: Seq<Mesh<P>>, m: int)
    requires
        0 <= m <= meshes.len(),
    ensures
        total_positions(meshes.subrange(0, m)) <= total_positions(meshes),
        total_positions(meshes.subrange(0, m)) >= 0,
    decreases meshes.len(),
{
    lemma_joined_lens(meshes);
    lemma_joined_lens(meshes.subrange(0, m));
    if m < meshes.len() {
        assert(meshes.drop_last().subrange(0, m) =~= meshes.subrange(0, m));
        lemma_total_positions_prefix(meshes.drop_last(), m);
        lemma_joined_lens(meshes.drop_last());
    } else {
        assert(meshes.subrange(0, m) =~= meshes);
    }
}

/// Every index of every mesh, shifted past the positions of the meshes
/// before it, still fits in a `u32`.
pub open spec fn shifts_fit<P>(meshes: Seq<Mesh<P>>) -> bool {
    forall|q: int, k: int|
        0 <= q < meshes.len() && 0 <= k < meshes[q].indices@.len() ==> #[trigger] meshes[q].indices@[k] + total_positions(
            meshes.subrange(0, q),
        ) <= u32::MAX
}

/// Concatenate meshes without any boolean, rebasing indices.
///
/// For disjoint solids this IS their exact union, so it serves as a
/// ground-truth oracle for a boolean union.
pub fn concat<P: Copy>(meshes: &[Mesh<P>]) -> (out: Mesh<P>)
    requires
        total_positions(meshes@) <= u32::MAX,
        shifts_fit(meshes@),
    ensures
        out.positions@ == joined_positions(meshes@),
        index_ints(out.indices@) == joined_indices(meshes@),
{
    let mut positions: Vec<P> = Vec::new();
    let mut indices: Vec<u32> = Vec::new();
    let mut m: usize = 0;
    while m < meshes.len()
        invariant
            m <= meshes@.len(),
            total_positions(meshes@) <= u32::MAX,
            shifts_fit(meshes@),
            positions@ == joined_positions(meshes@.subrange(0, m as int)),
            index_ints(indices@) == joined_indices(meshes@.subrange(0, m as int)),
        decreases meshes.len() - m,
    {
        let ghost done = meshes@.subrange(0, m as int);
        let ghost next = meshes@.subrange(0, m + 1);
        proof {
            assert(next.drop_last() =~= done);
            lemma_total_positions_prefix(meshes@, m + 1);
            lemma_joined_lens(done);
        }
        let mesh = &meshes[m];
        let base = positions.len() as u32;
        assert forall|j: int| 0 <= j < mesh.indices@.len() implies #[trigger] mesh.indices@[j] + base <= u32::MAX by {
            assert(meshes@[m as int].indices@[j] + total_positions(meshes@.subrange(0, m as int)) <= u32::MAX);
        }
        let ghost before = indices@;
        let mut k: usize = 0;
        while k < mesh.indices.len()
            invariant
                k <= mesh.indices@.len(),
                m < meshes@.len(),
                *mesh == meshes@[m as int],
                forall|j: int| 0 <= j < mesh.indices@.len() ==> #[trigger] mesh.indices@[j] + base <= u32::MAX,
                base as int == total_positions(done),
                total_positions(done) + mesh.positions@.len() <= u32::MAX,
                indices@.len() == before.len() + k,
                indices@.subrange(0, before.len() as int) == before,
                forall|j: int| 0 <= j < k ==> #[trigger] indices@[before.len() + j] == mesh.indices@[j] + base,
            decreases mesh.indices.len() - k,
        {
            let i = mesh.indices[k];
            indices.push(i + base);
            k = k + 1;
        }
        let mut v: usize = 0;
        let ghost pbefore = positions@;
        while v < mesh.positions.len()
            invariant
                v <= mesh.positions@.len(),
                m < meshes@.len(),
                *mesh == meshes@[m as int],
                positions@ == pbefore + mesh.positions@.subrange(0, v as int),
            decreases mesh.positions.len() - v,
        {
            positions.push(mesh.positions[v]);
            v = v + 1;
        }
        proof {
            assert(mesh.positions@.subrange(0, v as int) =~= mesh.positions@);
            assert(next.last() == meshes@[m as int]);
            assert(index_ints(indices@) =~= joined_indices(next)) by {
                                assert(indices@.subrange(0, before.len() as int) == before);
                assert forall|j: int| 0 <= j < indices@.len() implies #[trigger] index_ints(indices@)[j]
                    == joined_indices(next)[j] by {
                    if j < before.len() {
                        assert(indices@[j] == before[j]);
                    } else {
                        let jj = j - before.len();
                        assert(indices@[before.len() + jj] == mesh.indices@[jj] + base);
                    }
                }
            }
        }
        m = m + 1;
    }
    proof {
        assert(meshes@.subrange(0, meshes@.len() as int) =~= meshes@);
    }
    Mesh { positions, indices }
}


/// FNV-style fold over 64-bit words: `h = (h * 0x100000001b3) ^ w`,
/// multiplication wrapping at 64 bits, starting from 0.
pub open spec fn fnv_spec(words: Seq<u64>) -> u64
    decreases words.len(),
{
    if words.len() == 0 {
        0
    } else {
        (((fnv_spec(words.drop_last()) as nat * 0x100000001b3nat) % 0x10000000000000000nat) as u64) ^ words.last()
    }
}

/// The FNV-style fold of `words`.
pub fn fnv(words: &[u64]) -> (h: u64)
    ensures
        h == fnv_spec(words@),
{
    let mut h: u64 = 0;
    let mut i: usize = 0;
    while i < words.len()
        invariant
            i <= words@.len(),
            h == fnv_spec(words@.subrange(0, i as int)),
        decreases words.len() - i,
    {
        assert(words@.subrange(0, i + 1).drop_last() =~= words@.subrange(0, i as int));
        h = h.wrapping_mul(0x100000001b3) ^ words[i];
        i = i + 1;
    }
    assert(words@.subrange(0, words@.len() as int) =~= words@);
    h
}

/// Mesh identity: vertex count, triangle count, and a hash over the
/// position bits AND the indices.
///
/// Hashing positions alone hides a permuted triangle order and reports a
/// false STABLE, so the indices are always folded in after the positions.
pub type Fingerprint = (usize, usize, u64);

/// The words a fingerprint hashes: position bits, then every index.
pub open spec fn fingerprint_words(position_bits: Seq<u64>, indices: Seq<u32>) -> Seq<u64> {
    position_bits + indices.map_values(|i: u32| i as u64)
}

/// Fingerprint of a mesh whose positions are given as their bit patterns,
/// three words per vertex.
pub fn fingerprint(position_bits: &[u64], indices: &[u32]) -> (fp: Fingerprint)
    ensures
        fp.0 == position_bits@.len() / 3,
        fp.1 == indices@.len() / 3,
        fp.2 == fnv_spec(fingerprint_words(position_bits@, indices@)),
{
    let mut words: Vec<u64> = Vec::new();
    let mut i: usize = 0;
    while i < position_bits.len()
        invariant
            i <= position_bits@.len(),
            words@ == position_bits@.subrange(0, i as int),
        decreases position_bits.len() - i,
    {
        words.push(position_bits[i]);
        i = i + 1;
    }
    let mut k: usize = 0;
    while k < indices.len()
        invariant
            k <= indices@.len(),
            words@ == position_bits@ + indices@.subrange(0, k as int).map_values(|i: u32| i as u64),
        decreases indices.len() - k,
    {
        proof {
            assert(position_bits@.subrange(0, position_bits@.len() as int) =~= position_bits@);
        }
        words.push(indices[k] as u64);
        k = k + 1;
        assert(words@ =~= position_bits@ + indices@.subrange(0, k as int).map_values(|i: u32| i as u64));
    }
    proof {
        assert(position_bits@.subrange(0, position_bits@.len() as int) =~= position_bits@);
        assert(indices@.subrange(0, indices@.len() as int) =~= indices@);
        assert(words@ =~= fingerprint_words(position_bits@, indices@));
    }
    (position_bits.len() / 3, indices.len() / 3, fnv(&words))
}

/// How repeated runs of one computation compare.
#[derive(Clone, Copy, PartialEq, Eq, Structural, Debug)]
pub enum Stability {
    /// No run produced a result.
    NoResult,
    /// Every run gave the same fingerprint.
    Stable,
    /// Same vertex and triangle counts, different hashes: the order or the
    /// values drifted.
    OrderingOrValue,
    /// The counts themselves differ: the topology is unstable.
    Topology,
}

/// The distinct fingerprints among `runs`, counted at their first
/// occurrence.
pub open spec fn first_occurrence(runs: Seq<Fingerprint>, i: int) -> bool {
    forall|j: int| 0 <= j < i ==> #[trigger] runs[j] != runs[i]
}

pub open spec fn distinct_count(runs: Seq<Fingerprint>) -> nat
    decreases runs.len(),
{
    if runs.len() == 0 {
        0
    } else {
        distinct_count(runs.drop_last()) + if first_occurrence(runs, runs.len() - 1) { 1nat } else { 0nat }
    }
}

/// Number of distinct fingerprints among `runs`.
pub fn count_distinct(runs: &[Fingerprint]) -> (n: usize)
    ensures
        n == distinct_count(runs@),
{
    let mut n: usize = 0;
    let mut i: usize = 0;
    while i < runs.len()
        invariant
            i <= runs@.len(),
            n == distinct_count(runs@.subrange(0, i as int)),
            n <= i,
        decreases runs.len() - i,
    {
        let mut fresh = true;
        let mut j: usize = 0;
        while j < i
            invariant
                j <= i < runs@.len(),
                fresh <==> forall|q: int| 0 <= q < j ==> #[trigger] runs@[q] != runs@[i as int],
            decreases i - j,
        {
            let (a, b) = (runs[j], runs[i]);
            if a.0 == b.0 && a.1 == b.1 && a.2 == b.2 {
                fresh = false;
            }
            j = j + 1;
        }
        proof {
            let pre = runs@.subrange(0, i + 1);
            assert(pre.drop_last() =~= runs@.subrange(0, i as int));
            assert(first_occurrence(pre, i as int) <==> fresh) by {
                assert forall|q: int| 0 <= q < i implies #[trigger] pre[q] == runs@[q] by {}
                assert(pre[i as int] == runs@[i as int]);
                if !fresh {
                    let q = choose|q: int| 0 <= q < i && #[trigger] runs@[q] == runs@[i as int];
                    assert(pre[q] == runs@[q]);
                    assert(!first_occurrence(pre, i as int));
                }
            }
        }
        if fresh {
            n = n + 1;
        }
        i = i + 1;
    }
    assert(runs@.subrange(0, runs@.len() as int) =~= runs@);
    n
}

/// Classify repeated runs: one distinct fingerprint is stable; otherwise
/// equal counts mean ordering or value drift and differing counts mean the
/// topology itself is unstable.
pub fn classify(runs: &[Fingerprint]) -> (s: Stability)
    ensures
        runs@.len() == 0 <==> s == Stability::NoResult,
        s == Stability::Stable <==> runs@.len() > 0 && forall|i: int| 0 <= i < runs@.len() ==> #[trigger] runs@[i] == runs@[0],
        s == Stability::OrderingOrValue <==> runs@.len() > 0 && (exists|i: int| 0 <= i < runs@.len() && #[trigger] runs@[i] != runs@[0])
            && forall|i: int| 0 <= i < runs@.len() ==> (#[trigger] runs@[i]).0 == runs@[0].0 && runs@[i].1 == runs@[0].1,
        s == Stability::Topology <==> exists|i: int| 0 <= i < runs@.len() && ((#[trigger] runs@[i]).0 != runs@[0].0 || runs@[i].1 != runs@[0].1),
{
    if runs.len() == 0 {
        return Stability::NoResult;
    }
    let first = runs[0];
    let mut same = true;
    let mut same_counts = true;
    let mut i: usize = 1;
    while i < runs.len()
        invariant
            1 <= i <= runs@.len(),
            first == runs@[0],
            same <==> forall|q: int| 0 <= q < i ==> #[trigger] runs@[q] == first,
            same_counts <==> forall|q: int| 0 <= q < i ==> (#[trigger] runs@[q]).0 == first.0 && runs@[q].1 == first.1,
        decreases runs.len() - i,
    {
        let r = runs[i];
        if !(r.0 == first.0 && r.1 == first.1 && r.2 == first.2) {
            same = false;
        }
        if !(r.0 == first.0 && r.1 == first.1) {
            same_counts = false;
        }
        i = i + 1;
    }
    if same {
        Stability::Stable
    } else if same_counts {
        Stability::OrderingOrValue
    } else {
        Stability::Topology
    }
}


/// Deterministic 64-bit xorshift generator, so a perturbation that exposes
/// a failure is reproducible.
pub struct Rng(pub u64);

/// One xorshift step.
pub open spec fn xorshift(s: u64) -> u64 {
    let a = s ^ (s << 13u64);
    let b = a ^ (a >> 7u64);
    b ^ (b << 17u64)
}

impl Rng {
    /// Advance the state and return it.
    pub fn next(&mut self) -> (r: u64)
        ensures
            final(self).0 == xorshift(old(self).0),
            r == final(self).0,
    {
        self.0 = self.0 ^ (self.0 << 13u64);
        self.0 = self.0 ^ (self.0 >> 7u64);
        self.0 = self.0 ^ (self.0 << 17u64);
        self.0
    }

    /// A value in `0..n` from the next state.
    pub fn upto(&mut self, n: usize) -> (r: usize)
        requires
            n > 0,
        ensures
            final(self).0 == xorshift(old(self).0),
            r == xorshift(old(self).0) % (n as u64),
            r < n,
    {
        (self.next() % (n as u64)) as usize
    }
}

/// `s` with elements `i` and `j` exchanged.
pub open spec fn swapped<T>(s: Seq<T>, i: int, j: int) -> Seq<T> {
    s.update(i, s[j]).update(j, s[i])
}

/// The Fisher-Yates shuffle of `s` for positions `i` down to 1, drawing
/// each swap partner from the generator starting at `state`; returns the
/// shuffled sequence and the final state.
pub open spec fn fisher_yates<T>(s: Seq<T>, state: u64, i: int) -> (Seq<T>, u64)
    decreases i,
{
    if i <= 0 {
        (s, state)
    } else {
        let st = xorshift(state);
        let j = (st % ((i + 1) as u64)) as int;
        fisher_yates(swapped(s, i, j), st, i - 1)
    }
}

proof fn lemma_swapped_multiset<T>(s: Seq<T>, i: int, j: int)
    requires
        0 <= i < s.len(),
        0 <= j < s.len(),
    ensures
        swapped(s, i, j).to_multiset() == s.to_multiset(),
        swapped(s, i, j).len() == s.len(),
{
    broadcast use vstd::seq_lib::to_multiset_update, vstd::seq_lib::to_multiset_contains, vstd::multiset::group_multiset_properties, vstd::multiset::group_multiset_axioms;
    let t1 = s.update(i, s[j]);
    assert(t1.to_multiset() == s.to_multiset().insert(s[j]).remove(s[i]));
    assert(t1.update(j, s[i]).to_multiset() == t1.to_multiset().insert(s[i]).remove(t1[j]));
    if i == j {
        assert(swapped(s, i, j) =~= s);
    } else {
        assert(t1[j] == s[j]);
        let m = s.to_multiset();
        assert(s.contains(s[i]));
        assert(m.count(s[i]) > 0);
        assert(m.insert(s[j]).remove(s[i]).insert(s[i]).remove(s[j]) =~= m);
        assert(swapped(s, i, j).to_multiset() =~= s.to_multiset());
    }
}

/// A shuffle only reorders: the result holds the same elements, each as
/// often as before.
pub proof fn lemma_fisher_yates_permutes<T>(s: Seq<T>, state: u64, i: int)
    requires
        i < s.len(),
        i < u64::MAX,
    ensures
        fisher_yates(s, state, i).0.to_multiset() == s.to_multiset(),
        fisher_yates(s, state, i).0.len() == s.len(),
    decreases i,
{
    if i > 0 {
        let st = xorshift(state);
        let j = (st % ((i + 1) as u64)) as int;
        lemma_swapped_multiset(s, i, j);
        lemma_fisher_yates_permutes(swapped(s, i, j), st, i - 1);
    }
}

/// A copy of a position list.
fn copy_positions<P: Copy>(positions: &Vec<P>) -> (out: Vec<P>)
    ensures
        out@ == positions@,
{
    let mut out: Vec<P> = Vec::new();
    let mut v: usize = 0;
    while v < positions.len()
        invariant
            v <= positions@.len(),
            out@ == positions@.subrange(0, v as int),
        decreases positions.len() - v,
    {
        out.push(positions[v]);
        v = v + 1;
    }
    assert(out@ =~= positions@);
    out
}

/// An index buffer listing `tris` in order.
pub open spec fn lists(indices: Seq<u32>, tris: Seq<[u32; 3]>) -> bool {
    &&& indices.len() == 3 * tris.len()
    &&& forall|n: int, c: int| 0 <= n < tris.len() && 0 <= c < 3 ==> #[trigger] indices[3 * n + c] == tris[n][c]
}

/// Flatten triples back into an index buffer.
fn flatten(tris: &Vec<[u32; 3]>) -> (out: Vec<u32>)
    ensures
        lists(out@, tris@),
{
    let mut out: Vec<u32> = Vec::new();
    let mut n: usize = 0;
    while n < tris.len()
        invariant
            n <= tris@.len(),
            lists(out@, tris@.subrange(0, n as int)),
        decreases tris.len() - n,
    {
        let t = tris[n];
        let ghost before = out@;
        out.push(t[0]);
        out.push(t[1]);
        out.push(t[2]);
        proof {
            let pre = tris@.subrange(0, n + 1);
            assert forall|m: int, c: int| 0 <= m < pre.len() && 0 <= c < 3 implies #[trigger] out@[3 * m + c] == pre[m][c] by {
                if m < n {
                    assert(out@[3 * m + c] == before[3 * m + c]);
                    assert(pre[m] == tris@.subrange(0, n as int)[m]);
                } else {
                    assert(m == n);
                }
            }
        }
        n = n + 1;
    }
    assert(tris@.subrange(0, tris@.len() as int) =~= tris@);
    out
}

/// Shuffle the triangle order. A pure index permutation: positions and
/// every triangle's own corner order are untouched.
pub fn shuffle_triangles<P: Copy>(mesh: &Mesh<P>, rng: &mut Rng) -> (out: Mesh<P>)
    requires
        mesh.indices@.len() % 3 == 0,
    ensures
        out.positions@ == mesh.positions@,
        ({
            let tris = triangles_of(mesh.indices@);
            let shuffled = fisher_yates(tris, old(rng).0, tris.len() - 1);
            &&& final(rng).0 == shuffled.1
            &&& lists(out.indices@, shuffled.0)
        }),
{
    let n_idx = mesh.indices.len();
    let mut tris = triples(&mesh.indices);
    let ghost tris0 = tris@;
    let ghost target = fisher_yates(tris0, rng.0, tris0.len() - 1);
    if tris.len() > 1 {
        let mut i: usize = tris.len() - 1;
        while i > 0
            invariant
                i < tris@.len(),
                tris@.len() == tris0.len(),
                tris0.len() == n_idx / 3,
                fisher_yates(tris@, rng.0, i as int) == target,
            decreases i,
        {
            let ghost before = tris@;
            let j = rng.upto(i + 1);
            let a = tris[i];
            let b = tris[j];
            tris.set(i, b);
            tris.set(j, a);
            assert(tris@ =~= swapped(before, i as int, j as int));
            i = i - 1;
        }
    }
    let indices = flatten(&tris);
    Mesh { positions: copy_positions(&mesh.positions), indices }
}


/// `s` lists distinct values below `n`.
pub open spec fn distinct_below(s: Seq<usize>, n: int) -> bool {
    &&& forall|i: int| 0 <= i < s.len() ==> (#[trigger] s[i] as int) < n
    &&& forall|i: int, j: int| 0 <= i < j < s.len() ==> #[trigger] s[i] != #[trigger] s[j]
}

#[verifier::spinoff_prover]
proof fn lemma_fisher_yates_distinct(s: Seq<usize>, n: int, state: u64, i: int)
    requires
        i < s.len(),
        i < u64::MAX,
        distinct_below(s, n),
    ensures
        distinct_below(fisher_yates(s, state, i).0, n),
        fisher_yates(s, state, i).0.len() == s.len(),
    decreases i,
{
    if i > 0 {
        let st = xorshift(state);
        let j = (st % ((i + 1) as u64)) as int;
        let t = swapped(s, i, j);
        assert(0 <= j <= i);
        assert forall|a: int, b: int| 0 <= a < b < t.len() implies #[trigger] t[a] != #[trigger] t[b] by {
            let pa = if a == i { j } else if a == j { i } else { a };
            let pb = if b == i { j } else if b == j { i } else { b };
            assert(t[a] == s[pa] && t[b] == s[pb]);
            if pa < pb {
                assert(s[pa] != s[pb]);
            } else {
                assert(s[pb] != s[pa]);
            }
        }
        assert forall|a: int| 0 <= a < t.len() implies (#[trigger] t[a] as int) < n by {
            let pa = if a == i { j } else if a == j { i } else { a };
            assert(t[a] == s[pa]);
        }
        lemma_fisher_yates_distinct(t, n, st, i - 1);
    }
}

/// The vertex permutation `reindex_vertices` draws: a Fisher-Yates shuffle
/// of `0..n`.
pub open spec fn vertex_permutation(n: nat, state: u64) -> (Seq<usize>, u64) {
    fisher_yates(Seq::new(n, |i: int| i as usize), state, n - 1)
}

/// Renumber vertices through a random permutation, rewriting indices to
/// match. The surface is untouched: only the identity of each slot moves.
pub fn reindex_vertices<P: Copy>(mesh: &Mesh<P>, rng: &mut Rng) -> (out: Mesh<P>)
    requires
        mesh.positions@.len() <= u32::MAX,
        forall|k: int| 0 <= k < mesh.indices@.len() ==> (#[trigger] mesh.indices@[k] as int) < mesh.positions@.len(),
    ensures
        ({
            let (perm, state) = vertex_permutation(mesh.positions@.len(), old(rng).0);
            &&& final(rng).0 == state
            &&& out.positions@.len() == mesh.positions@.len()
            &&& forall|v: int| 0 <= v < mesh.positions@.len() ==> out.positions@[#[trigger] perm[v] as int] == mesh.positions@[v]
            &&& out.indices@.len() == mesh.indices@.len()
            &&& forall|k: int| 0 <= k < mesh.indices@.len() ==> #[trigger] out.indices@[k] as int == perm[mesh.indices@[k] as int] as int
        }),
        // the surface is untouched: every triangle corner is the same position
        forall|k: int| 0 <= k < mesh.indices@.len() ==> #[trigger] out.corner(k) == mesh.corner(k),
{
    let n = mesh.positions.len();
    let mut perm: Vec<usize> = Vec::new();
    let mut v: usize = 0;
    while v < n
        invariant
            v <= n,
            n == mesh.positions@.len(),
            perm@ == Seq::new(v as nat, |i: int| i as usize),
        decreases n - v,
    {
        perm.push(v);
        v = v + 1;
        assert(perm@ =~= Seq::new(v as nat, |i: int| i as usize));
    }
    let ghost ident = perm@;
    let ghost target = vertex_permutation(n as nat, rng.0);
    proof {
        assert(distinct_below(ident, n as int));
        if n > 0 {
            lemma_fisher_yates_distinct(ident, n as int, rng.0, n - 1);
        }
    }
    if n > 1 {
        let mut i: usize = n - 1;
        while i > 0
            invariant
                i < perm@.len(),
                perm@.len() == n,
                fisher_yates(perm@, rng.0, i as int) == target,
            decreases i,
        {
            let ghost before = perm@;
            let j = rng.upto(i + 1);
            let a = perm[i];
            let b = perm[j];
            perm.set(i, b);
            perm.set(j, a);
            assert(perm@ =~= swapped(before, i as int, j as int));
            i = i - 1;
        }
    }
    assert(perm@ == target.0);
    assert(distinct_below(perm@, n as int));
    // inverse: inv[perm[old]] = old
    let mut inv: Vec<usize> = Vec::new();
    let mut w: usize = 0;
    while w < n
        invariant
            w <= n,
            inv@.len() == w,
            forall|r: int| 0 <= r < w ==> #[trigger] inv@[r] == 0,
        decreases n - w,
    {
        inv.push(0);
        w = w + 1;
    }
    let mut old_v: usize = 0;
    while old_v < n
        invariant
            old_v <= n,
            perm@.len() == n,
            inv@.len() == n,
            distinct_below(perm@, n as int),
            forall|u: int| 0 <= u < old_v ==> #[trigger] inv@[perm@[u] as int] as int == u,
            forall|r: int| 0 <= r < n ==> (#[trigger] inv@[r] as int) < n,
        decreases n - old_v,
    {
        let ghost before = inv@;
        inv.set(perm[old_v], old_v);
        proof {
            assert forall|u: int| 0 <= u < old_v + 1 implies #[trigger] inv@[perm@[u] as int] as int == u by {
                if u < old_v {
                    assert(perm@[u] != perm@[old_v as int]);
                    assert(inv@[perm@[u] as int] == before[perm@[u] as int]);
                }
            }
        }
        old_v = old_v + 1;
    }
    let mut positions: Vec<P> = Vec::new();
    let mut q: usize = 0;
    while q < n
        invariant
            q <= n,
            n == mesh.positions@.len(),
            inv@.len() == n,
            perm@.len() == n,
            distinct_below(perm@, n as int),
            forall|u: int| 0 <= u < n ==> #[trigger] inv@[perm@[u] as int] as int == u,
            positions@.len() == q,
            forall|r: int| 0 <= r < q ==> #[trigger] positions@[r] == mesh.positions@[inv@[r] as int],
            forall|r: int| 0 <= r < n ==> (#[trigger] inv@[r] as int) < n,
        decreases n - q,
    {
        let src = inv[q];
        positions.push(mesh.positions[src]);
        q = q + 1;
    }
    let mut indices: Vec<u32> = Vec::new();
    let mut k: usize = 0;
    while k < mesh.indices.len()
        invariant
            k <= mesh.indices@.len(),
            perm@.len() == n,
            n == mesh.positions@.len(),
            n <= u32::MAX,
            distinct_below(perm@, n as int),
            forall|kk: int| 0 <= kk < mesh.indices@.len() ==> (#[trigger] mesh.indices@[kk] as int) < n,
            indices@.len() == k,
            forall|kk: int| 0 <= kk < k ==> #[trigger] indices@[kk] as int == perm@[mesh.indices@[kk] as int] as int,
        decreases mesh.indices.len() - k,
    {
        let i = mesh.indices[k] as usize;
        indices.push(perm[i] as u32);
        k = k + 1;
    }
    Mesh { positions, indices }
}


/// The four children of parent triangle `t`, over its six vertices
/// `6t .. 6t + 6` (`a, b, c, ab, bc, ca`).
pub open spec fn children_at(indices: Seq<u32>, t: int) -> bool {
    let base = 6 * t;
    &&& indices[12 * t] as int == base
    &&& indices[12 * t + 1] as int == base + 3
    &&& indices[12 * t + 2] as int == base + 5
    &&& indices[12 * t + 3] as int == base + 3
    &&& indices[12 * t + 4] as int == base + 1
    &&& indices[12 * t + 5] as int == base + 4
    &&& indices[12 * t + 6] as int == base + 5
    &&& indices[12 * t + 7] as int == base + 4
    &&& indices[12 * t + 8] as int == base + 2
    &&& indices[12 * t + 9] as int == base + 3
    &&& indices[12 * t + 10] as int == base + 4
    &&& indices[12 * t + 11] as int == base + 5
}

/// The six vertices of parent triangle `t`: its corners, then the
/// midpoints of its edges.
pub open spec fn parent_at<P, F: Fn(P, P) -> P>(midpoint: F, mesh: Mesh<P>, positions: Seq<P>, t: int) -> bool {
    let (a, b, c) = (mesh.corner(3 * t), mesh.corner(3 * t + 1), mesh.corner(3 * t + 2));
    &&& positions[6 * t] == a
    &&& positions[6 * t + 1] == b
    &&& positions[6 * t + 2] == c
    &&& call_ensures(midpoint, (a, b), positions[6 * t + 3])
    &&& call_ensures(midpoint, (b, c), positions[6 * t + 4])
    &&& call_ensures(midpoint, (c, a), positions[6 * t + 5])
}

/// Parent triangle `t` of `mesh` is split in `out` into its four children
/// `a-ab-ca, ab-b-bc, ca-bc-c, ab-bc-ca`, read through `out`'s own
/// corners: `a, b, c` are the parent's corners and `ab, bc, ca` one
/// midpoint of each of its edges, each used by the three children that
/// touch that edge; and every child corner is one of the six vertices
/// emitted for this parent alone.
pub open spec fn split_into_children<P, F: Fn(P, P) -> P>(midpoint: F, mesh: Mesh<P>, out: Mesh<P>, t: int) -> bool {
    let (a, b, c) = (mesh.corner(3 * t), mesh.corner(3 * t + 1), mesh.corner(3 * t + 2));
    let i = 12 * t;
    &&& forall|k: int| 0 <= k < 12 ==> 6 * t <= #[trigger] out.indices@[i + k] < 6 * t + 6
    &&& out.corner(i) == a && out.corner(i + 4) == b && out.corner(i + 8) == c
    &&& out.corner(i + 3) == out.corner(i + 1) && out.corner(i + 9) == out.corner(i + 1)
    &&& out.corner(i + 7) == out.corner(i + 5) && out.corner(i + 10) == out.corner(i + 5)
    &&& out.corner(i + 6) == out.corner(i + 2) && out.corner(i + 11) == out.corner(i + 2)
    &&& call_ensures(midpoint, (a, b), out.corner(i + 1))
    &&& call_ensures(midpoint, (b, c), out.corner(i + 5))
    &&& call_ensures(midpoint, (c, a), out.corner(i + 2))
}

/// What subdivision does to each triangle: the four children of every
/// parent are its corners and edge midpoints, wound as the parent, and use
/// only the vertices emitted for that parent.
pub proof fn lemma_subdivide_splits<P, F: Fn(P, P) -> P>(midpoint: F, mesh: Mesh<P>, out: Mesh<P>)
    requires
        mesh.indices@.len() % 3 == 0,
        out.positions@.len() == 2 * mesh.indices@.len(),
        out.indices@.len() == 4 * mesh.indices@.len(),
        forall|t: int| 0 <= t < mesh.indices@.len() / 3 ==> #[trigger] parent_at(midpoint, mesh, out.positions@, t),
        forall|t: int| 0 <= t < mesh.indices@.len() / 3 ==> #[trigger] children_at(out.indices@, t),
    ensures
        forall|t: int| 0 <= t < mesh.indices@.len() / 3 ==> #[trigger] split_into_children(midpoint, mesh, out, t),
{
    assert forall|t: int| 0 <= t < mesh.indices@.len() / 3 implies #[trigger] split_into_children(midpoint, mesh, out, t) by {
        assert(parent_at(midpoint, mesh, out.positions@, t));
        assert(children_at(out.indices@, t));
        assert(12 * t + 11 < out.indices@.len());
    }
}

/// Split every triangle into four by its edge midpoints.
///
/// Each parent triangle `(a, b, c)` contributes six fresh vertices
/// `a, b, c, ab, bc, ca` (duplicated per triangle rather than shared, which
/// also exercises seam duplication) and the four children
/// `a-ab-ca, ab-b-bc, ca-bc-c, ab-bc-ca`, all with the parent's winding.
/// `midpoint` computes the midpoint of two positions.
pub fn subdivide<P: Copy, F: Fn(P, P) -> P>(mesh: &Mesh<P>, midpoint: F) -> (out: Mesh<P>)
    requires
        mesh.indices@.len() % 3 == 0,
        forall|k: int| 0 <= k < mesh.indices@.len() ==> (#[trigger] mesh.indices@[k] as int) < mesh.positions@.len(),
        2 * mesh.indices@.len() <= u32::MAX,
        forall|x: P, y: P| call_requires(midpoint, (x, y)),
    ensures
        out.positions@.len() == 2 * mesh.indices@.len(),
        out.indices@.len() == 4 * mesh.indices@.len(),
        forall|t: int| 0 <= t < mesh.indices@.len() / 3 ==> #[trigger] parent_at(midpoint, *mesh, out.positions@, t),
        forall|t: int| 0 <= t < mesh.indices@.len() / 3 ==> #[trigger] children_at(out.indices@, t),
        forall|t: int| 0 <= t < mesh.indices@.len() / 3 ==> #[trigger] split_into_children(midpoint, *mesh, out, t),
{
    let mut positions: Vec<P> = Vec::new();
    let mut indices: Vec<u32> = Vec::new();
    let mut t: usize = 0;
    let ntri = mesh.indices.len() / 3;
    while t < ntri
        invariant
            t <= ntri,
            ntri == mesh.indices@.len() / 3,
            mesh.indices@.len() % 3 == 0,
            forall|k: int| 0 <= k < mesh.indices@.len() ==> (#[trigger] mesh.indices@[k] as int) < mesh.positions@.len(),
            2 * mesh.indices@.len() <= u32::MAX,
            forall|x: P, y: P| call_requires(midpoint, (x, y)),
            positions@.len() == 6 * t,
            indices@.len() == 12 * t,
            forall|s: int| 0 <= s < t ==> #[trigger] parent_at(midpoint, *mesh, positions@, s),
            forall|s: int| 0 <= s < t ==> #[trigger] children_at(indices@, s),
        decreases ntri - t,
    {
        let a = mesh.positions[mesh.indices[3 * t] as usize];
        let b = mesh.positions[mesh.indices[3 * t + 1] as usize];
        let c = mesh.positions[mesh.indices[3 * t + 2] as usize];
        let ab = midpoint(a, b);
        let bc = midpoint(b, c);
        let ca = midpoint(c, a);
        let ghost pbefore = positions@;
        let ghost ibefore = indices@;
        let base = positions.len() as u32;
        positions.push(a);
        positions.push(b);
        positions.push(c);
        positions.push(ab);
        positions.push(bc);
        positions.push(ca);
        indices.push(base);
        indices.push(base + 3);
        indices.push(base + 5);
        indices.push(base + 3);
        indices.push(base + 1);
        indices.push(base + 4);
        indices.push(base + 5);
        indices.push(base + 4);
        indices.push(base + 2);
        indices.push(base + 3);
        indices.push(base + 4);
        indices.push(base + 5);
        proof {
            assert forall|s: int| 0 <= s < t + 1 implies #[trigger] parent_at(midpoint, *mesh, positions@, s) by {
                if s < t {
                    assert(parent_at(midpoint, *mesh, pbefore, s));
                    assert(positions@[6 * s] == pbefore[6 * s]);
                    assert(positions@[6 * s + 1] == pbefore[6 * s + 1]);
                    assert(positions@[6 * s + 2] == pbefore[6 * s + 2]);
                    assert(positions@[6 * s + 3] == pbefore[6 * s + 3]);
                    assert(positions@[6 * s + 4] == pbefore[6 * s + 4]);
                    assert(positions@[6 * s + 5] == pbefore[6 * s + 5]);
                }
            }
            assert forall|s: int| 0 <= s < t + 1 implies #[trigger] children_at(indices@, s) by {
                if s < t {
                    assert(children_at(ibefore, s));
                    assert forall|q: int| 12 * s <= q < 12 * s + 12 implies indices@[q] == ibefore[q] by {}
                }
            }
        }
        t = t + 1;
    }
    let out = Mesh { positions, indices };
    proof {
        lemma_subdivide_splits(midpoint, *mesh, out);
    }
    out
}

} // verus!
