//! Icosphere topology: a subdivided icosahedron.
//!
//! Each subdivision splits every triangle into four through its edge
//! midpoints. Midpoints are shared through a cache keyed by the ordered edge,
//! so the two faces on an edge get the same new vertex and the shell stays
//! welded. Vertex `12 + i` is the midpoint of the `i`-th cached edge; placing
//! the vertices (and projecting them onto the sphere) is left to the caller,
//! which walks the edges in order.

use crate::mesh::{first_seen, lemma_first_seen};
use std::collections::BTreeMap;
use vstd::prelude::*;

verus! {

/// An edge by its two vertices, smaller first.
pub type EdgeKey = (u32, u32);

pub type Tri = [u32; 3];

pub open spec fn edge_key(a: u32, b: u32) -> EdgeKey {
    if a <= b {
        (a, b)
    } else {
        (b, a)
    }
}

/// The edges of a face in the order their midpoints are taken: `ab`, `bc`,
/// `ca`.
pub open spec fn face_keys(f: Tri) -> Seq<EdgeKey> {
    seq![edge_key(f[0], f[1]), edge_key(f[1], f[2]), edge_key(f[2], f[0])]
}

pub open spec fn keys_of(faces: Seq<Tri>) -> Seq<EdgeKey>
    decreases faces.len(),
{
    if faces.len() == 0 {
        seq![]
    } else {
        keys_of(faces.drop_last()) + face_keys(faces.last())
    }
}

/// The four children of `f` given the midpoints `m` of its edges `ab, bc,
/// ca`: one triangle at each corner and the middle one, all wound as `f`.
pub open spec fn children(f: Tri, m: Tri) -> Seq<Tri> {
    seq![[f[0], m[0], m[2]], [f[1], m[1], m[0]], [f[2], m[2], m[1]], [m[0], m[1], m[2]]]
}

/// The midpoint vertices of face `f` after one split over `nverts`
/// vertices whose new edges are `fresh`.
pub open spec fn midpoints(nverts: int, fresh: Seq<EdgeKey>, f: Tri) -> Tri {
    let k = face_keys(f);
    [
        (nverts + fresh.index_of(k[0])) as u32,
        (nverts + fresh.index_of(k[1])) as u32,
        (nverts + fresh.index_of(k[2])) as u32,
    ]
}

/// One subdivision of `faces` over `nverts` vertices: the new vertices are
/// the edges in the order they are first met, numbered from `nverts`, and
/// each face becomes its four children.
pub open spec fn split_spec(nverts: int, faces: Seq<Tri>) -> (Seq<EdgeKey>, Seq<Tri>) {
    let fresh = first_seen(keys_of(faces));
    (fresh, Seq::new(4 * faces.len(), |q: int| children(faces[q / 4], midpoints(nverts, fresh, faces[q / 4]))[q % 4]))
}

/// Face `t` of the icosahedron over its twelve vertices.
pub open spec fn ico_face(t: int) -> Tri {
    if t == 0 { [0, 11, 5] } else if t == 1 { [0, 5, 1] } else if t == 2 { [0, 1, 7] } else if t == 3 { [0, 7, 10] }
    else if t == 4 { [0, 10, 11] } else if t == 5 { [1, 5, 9] } else if t == 6 { [5, 11, 4] } else if t == 7 { [11, 10, 2] }
    else if t == 8 { [10, 7, 6] } else if t == 9 { [7, 1, 8] } else if t == 10 { [3, 9, 4] } else if t == 11 { [3, 4, 2] }
    else if t == 12 { [3, 2, 6] } else if t == 13 { [3, 6, 8] } else if t == 14 { [3, 8, 9] } else if t == 15 { [4, 9, 5] }
    else if t == 16 { [2, 4, 11] } else if t == 17 { [6, 2, 10] } else if t == 18 { [8, 6, 7] } else { [9, 8, 1] }
}

/// The twenty faces of the icosahedron.
pub open spec fn icosahedron() -> Seq<Tri> {
    Seq::new(20, |t: int| ico_face(t))
}

/// The icosphere after `n` subdivisions: the midpoint edges of vertices
/// `12, 13, ...` and the faces.
pub open spec fn icosphere_spec(n: nat) -> (Seq<EdgeKey>, Seq<Tri>)
    decreases n,
{
    if n == 0 {
        (seq![], icosahedron())
    } else {
        let (parents, faces) = icosphere_spec((n - 1) as nat);
        let (fresh, next) = split_spec(12 + parents.len() as int, faces);
        (parents + fresh, next)
    }
}

pub open spec fn pow4(n: nat) -> nat
    decreases n,
{
    if n == 0 {
        1
    } else {
        4 * pow4((n - 1) as nat)
    }
}

/// The edge-midpoint cache of one subdivision.
struct Midpoints {
    ids: BTreeMap<EdgeKey, u32>,
    fresh: Vec<EdgeKey>,
}

impl Midpoints {
    /// Each cached edge maps to its vertex, `nverts` plus its place in
    /// `fresh`, and `fresh` holds each edge once.
    spec fn registered(&self, nverts: int) -> bool {
        &&& self.fresh@.no_duplicates()
        &&& forall|k: EdgeKey| #[trigger] self.ids@.contains_key(k) <==> self.fresh@.contains(k)
        &&& forall|k: EdgeKey| #[trigger] self.ids@.contains_key(k) ==> nverts <= self.ids@[k] < nverts + self.fresh@.len()
            && self.fresh@[self.ids@[k] - nverts] == k
    }

    /// The midpoint vertex of edge `a`-`b`, made if the edge is new.
    fn mid(&mut self, a: u32, b: u32, nverts: u32, Ghost(seen): Ghost<Seq<EdgeKey>>) -> (m: u32)
        requires
            old(self).registered(nverts as int),
            old(self).fresh@ == first_seen(seen),
            nverts + seen.len() < u32::MAX,
        ensures
            final(self).registered(nverts as int),
            final(self).fresh@ == first_seen(seen.push(edge_key(a, b))),
            final(self).fresh@.len() >= old(self).fresh@.len(),
            forall|j: int| 0 <= j < old(self).fresh@.len() ==> final(self).fresh@[j] == old(self).fresh@[j],
            nverts <= m < nverts + final(self).fresh@.len(),
            final(self).fresh@[m - nverts] == edge_key(a, b),
    {
        let key: EdgeKey = if a <= b { (a, b) } else { (b, a) };
        assert(seen.push(key).drop_last() =~= seen);
        match self.ids.get(&key) {
            Some(m) => {
                let m = *m;
                assert(self.fresh@.contains(key));
                m
            },
            None => {
                assert(!self.fresh@.contains(key));
                proof {
                    lemma_first_seen(seen);
                }
                let m = nverts + self.fresh.len() as u32;
                self.fresh.push(key);
                self.ids.insert(key, m);
                assert(self.ids@ == old(self).ids@.insert(key, m));
                assert forall|k: EdgeKey| #[trigger] self.ids@.contains_key(k) <==> self.fresh@.contains(k) by {
                    assert(self.fresh@[self.fresh@.len() - 1] == key);
                    if self.fresh@.contains(k) && k != key {
                        let n = choose|n: int| 0 <= n < self.fresh@.len() && self.fresh@[n] == k;
                        assert(old(self).fresh@[n] == k);
                    }
                    if old(self).fresh@.contains(k) {
                        let n = choose|n: int| 0 <= n < old(self).fresh@.len() && old(self).fresh@[n] == k;
                        assert(self.fresh@[n] == k);
                    }
                }
                m
            },
        }
    }
}

proof fn lemma_keys_of_len(faces: Seq<Tri>)
    ensures
        keys_of(faces).len() == 3 * faces.len(),
        forall|i: int| 0 <= i < keys_of(faces).len() ==> exists|t: int, e: int|
            0 <= t < faces.len() && 0 <= e < 3 && #[trigger] keys_of(faces)[i] == face_keys(faces[t])[e],
    decreases faces.len(),
{
    if faces.len() > 0 {
        let d = faces.drop_last();
        lemma_keys_of_len(d);
        assert forall|i: int| 0 <= i < keys_of(faces).len() implies exists|t: int, e: int|
            0 <= t < faces.len() && 0 <= e < 3 && #[trigger] keys_of(faces)[i] == face_keys(faces[t])[e] by {
            if i < keys_of(d).len() {
                let (t, e) = choose|t: int, e: int| 0 <= t < d.len() && 0 <= e < 3 && keys_of(d)[i] == face_keys(d[t])[e];
                assert(faces[t] == d[t]);
                assert(keys_of(faces)[i] == face_keys(faces[t])[e]);
            } else {
                let e = i - keys_of(d).len();
                assert(keys_of(faces)[i] == face_keys(faces[faces.len() - 1])[e]);
            }
        }
    }
}

/// Every corner of every face is below `n`.
pub open spec fn corners_below(faces: Seq<Tri>, n: int) -> bool {
    forall|t: int, e: int| 0 <= t < faces.len() && 0 <= e < 3 ==> #[trigger] faces[t][e] < n
}

/// Each edge is ordered and names two earlier vertices.
pub open spec fn edges_below(edges: Seq<EdgeKey>, n: int) -> bool {
    forall|j: int| 0 <= j < edges.len() ==> (#[trigger] edges[j]).0 <= edges[j].1 < n
}

/// One subdivision of `faces` over `nverts` vertices: the new midpoint
/// edges, in order, and the split faces.
fn split(nverts: u32, faces: &Vec<Tri>) -> (r: (Vec<EdgeKey>, Vec<Tri>))
    requires
        nverts + 3 * faces@.len() <= u32::MAX,
        corners_below(faces@, nverts as int),
    ensures
        r.0@ == split_spec(nverts as int, faces@).0,
        r.1@ == split_spec(nverts as int, faces@).1,
        edges_below(r.0@, nverts as int),
        corners_below(r.1@, nverts + r.0@.len()),
{
    let ghost fs = faces@;
    let mut cache = Midpoints { ids: BTreeMap::new(), fresh: Vec::new() };
    let mut next: Vec<Tri> = Vec::new();
    let mut t: usize = 0;
    proof {
        assert(fs.take(0) =~= seq![]);
        assert(keys_of(fs.take(0)) =~= seq![]);
    }
    while t < faces.len()
        invariant
            fs == faces@,
            t <= fs.len(),
            nverts + 3 * fs.len() <= u32::MAX,
            corners_below(fs, nverts as int),
            cache.registered(nverts as int),
            cache.fresh@ == first_seen(keys_of(fs.take(t as int))),
            keys_of(fs.take(t as int)).len() == 3 * t,
            next@.len() == 4 * t,
            forall|s: int, e: int| 0 <= s < t && 0 <= e < 3 ==> {
                let m = #[trigger] next@[4 * s + 3][e];
                &&& nverts <= m < nverts + cache.fresh@.len()
                &&& cache.fresh@[m - nverts] == face_keys(fs[s])[e]
            },
            forall|s: int| 0 <= s < t ==> #[trigger] next@.subrange(4 * s, 4 * s + 4) == children(fs[s], next@[4 * s + 3]),
        decreases fs.len() - t,
    {
        let f = faces[t];
        let ghost seen = keys_of(fs.take(t as int));
        let ghost before = cache.fresh@;
        let ghost nbefore = next@;
        let ab = cache.mid(f[0], f[1], nverts, Ghost(seen));
        let bc = cache.mid(f[1], f[2], nverts, Ghost(seen.push(edge_key(f[0], f[1]))));
        let ca = cache.mid(f[2], f[0], nverts, Ghost(seen.push(edge_key(f[0], f[1])).push(edge_key(f[1], f[2]))));
        next.push([f[0], ab, ca]);
        next.push([f[1], bc, ab]);
        next.push([f[2], ca, bc]);
        next.push([ab, bc, ca]);
        proof {
            assert(fs.take(t + 1).drop_last() =~= fs.take(t as int));
            assert(fs.take(t + 1).last() == f);
            assert(keys_of(fs.take(t + 1)) == seen + face_keys(f));
            assert(seen + face_keys(f) =~= seen.push(edge_key(f[0], f[1])).push(edge_key(f[1], f[2])).push(edge_key(f[2], f[0])));
            assert(next@.subrange(4 * t, 4 * t + 4) =~= children(f, [ab, bc, ca]));
            assert forall|s: int, e: int| 0 <= s < t + 1 && 0 <= e < 3 implies {
                let m = #[trigger] next@[4 * s + 3][e];
                &&& nverts <= m < nverts + cache.fresh@.len()
                &&& cache.fresh@[m - nverts] == face_keys(fs[s])[e]
            } by {
                if s < t {
                    assert(next@[4 * s + 3] == nbefore[4 * s + 3]);
                }
            }
            assert forall|s: int| 0 <= s < t + 1 implies #[trigger] next@.subrange(4 * s, 4 * s + 4) == children(fs[s], next@[4 * s + 3]) by {
                if s < t {
                    assert(next@.subrange(4 * s, 4 * s + 4) =~= nbefore.subrange(4 * s, 4 * s + 4));
                }
            }
        }
        t += 1;
    }
    let ghost fresh = cache.fresh@;
    proof {
        assert(fs.take(fs.len() as int) =~= fs);
        let spec_next = split_spec(nverts as int, fs).1;
        assert forall|q: int| 0 <= q < next@.len() implies next@[q] == spec_next[q] by {
            let s = q / 4;
            let m = next@[4 * s + 3];
            assert forall|e: int| 0 <= e < 3 implies fresh.index_of(face_keys(fs[s])[e]) == m[e] - nverts by {
                let k = face_keys(fs[s])[e];
                assert(fresh[m[e] - nverts] == k);
                let i = fresh.index_of(k);
            }
            assert(midpoints(nverts as int, fresh, fs[s]) =~= m);
            assert(next@.subrange(4 * s, 4 * s + 4)[q % 4] == next@[q]);
        }
        assert(next@ =~= spec_next);
        lemma_first_seen(keys_of(fs));
        lemma_keys_of_len(fs);
        assert forall|j: int| 0 <= j < fresh.len() implies (#[trigger] fresh[j]).0 <= fresh[j].1 < nverts by {
            let w = choose|w: int| 0 <= w < keys_of(fs).len() && keys_of(fs)[w] == fresh[j];
            let (t, e) = choose|t: int, e: int| 0 <= t < fs.len() && 0 <= e < 3 && keys_of(fs)[w] == face_keys(fs[t])[e];
            assert(fs[t][0] < nverts && fs[t][1] < nverts && fs[t][2] < nverts);
        }
        assert forall|t: int, e: int| 0 <= t < next@.len() && 0 <= e < 3 implies #[trigger] next@[t][e] < nverts + fresh.len() by {
            let s = t / 4;
            assert(next@.subrange(4 * s, 4 * s + 4)[t % 4] == next@[t]);
            assert(fs[s][0] < nverts && fs[s][1] < nverts && fs[s][2] < nverts);
            assert(next@[4 * s + 3][0] < nverts + fresh.len());
            assert(next@[4 * s + 3][1] < nverts + fresh.len());
            assert(next@[4 * s + 3][2] < nverts + fresh.len());
        }
    }
    (cache.fresh, next)
}

/// An icosphere's topology: vertex `12 + i` is the midpoint of edge
/// `parents[i]`, and `faces` lists three vertices per triangle.
pub struct Icosphere {
    pub parents: Vec<EdgeKey>,
    pub faces: Vec<Tri>,
}

proof fn lemma_pow4_mono(a: nat, b: nat)
    requires
        a <= b,
    ensures
        1 <= pow4(a) <= pow4(b),
    decreases b,
{
    if a < b {
        lemma_pow4_mono(a, (b - 1) as nat);
    } else if b > 0 {
        lemma_pow4_mono((b - 1) as nat, (b - 1) as nat);
    }
}

/// The icosahedron subdivided `subdivisions` times: `20 * 4^n` faces over
/// `12` corners and one midpoint per cached edge.
pub fn icosphere_topology(subdivisions: u32) -> (ico: Icosphere)
    requires
        subdivisions <= 13,
    ensures
        (ico.parents@, ico.faces@) == icosphere_spec(subdivisions as nat),
        ico.faces@.len() == 20 * pow4(subdivisions as nat),
        forall|i: int| 0 <= i < ico.parents@.len() ==> (#[trigger] ico.parents@[i]).0 <= ico.parents@[i].1 < 12 + i,
        corners_below(ico.faces@, 12 + ico.parents@.len() as int),
        closed_manifold(ico.faces@),
{
    let mut parents: Vec<EdgeKey> = Vec::new();
    let mut faces: Vec<Tri> = vec![
        [0, 11, 5], [0, 5, 1], [0, 1, 7], [0, 7, 10], [0, 10, 11],
        [1, 5, 9], [5, 11, 4], [11, 10, 2], [10, 7, 6], [7, 1, 8],
        [3, 9, 4], [3, 4, 2], [3, 2, 6], [3, 6, 8], [3, 8, 9],
        [4, 9, 5], [2, 4, 11], [6, 2, 10], [8, 6, 7], [9, 8, 1],
    ];
    assert(faces@ =~= icosahedron());
    let mut nverts: u32 = 12;
    let mut level: u32 = 0;
    while level < subdivisions
        invariant
            level <= subdivisions <= 13,
            (parents@, faces@) == icosphere_spec(level as nat),
            nverts == 12 + parents@.len(),
            faces@.len() == 20 * pow4(level as nat),
            nverts <= 12 + 20 * (pow4(level as nat) - 1),
            forall|i: int| 0 <= i < parents@.len() ==> (#[trigger] parents@[i]).0 <= parents@[i].1 < 12 + i,
            corners_below(faces@, nverts as int),
        decreases subdivisions - level,
    {
        proof {
            lemma_pow4_mono(level as nat, 12);
            reveal_with_fuel(pow4, 13);
            assert(pow4(12) == 16777216);
        }
        let (fresh, next) = split(nverts, &faces);
        proof {
            lemma_first_seen(keys_of(faces@));
            lemma_keys_of_len(faces@);
        }
        let ghost old_parents = parents@;
        let mut j: usize = 0;
        while j < fresh.len()
            invariant
                j <= fresh@.len(),
                parents@ == old_parents + fresh@.subrange(0, j as int),
            decreases fresh@.len() - j,
        {
            parents.push(fresh[j]);
            j += 1;
            assert(parents@ =~= old_parents + fresh@.subrange(0, j as int));
        }
        proof {
            assert(fresh@.subrange(0, fresh@.len() as int) =~= fresh@);
            assert forall|i: int| 0 <= i < parents@.len() implies (#[trigger] parents@[i]).0 <= parents@[i].1 < 12 + i by {
                if i >= old_parents.len() {
                    assert(parents@[i] == fresh@[i - old_parents.len()]);
                } else {
                    assert(parents@[i] == old_parents[i]);
                }
            }
        }
        nverts = nverts + fresh.len() as u32;
        faces = next;
        level += 1;
    }
    proof {
        lemma_icosphere_closed(subdivisions as nat);
    }
    Icosphere { parents, faces }
}

/// How many times face `f` traverses the directed edge `u -> v`.
pub open spec fn face_uses(f: Tri, u: u32, v: u32) -> nat {
    (if f[0] == u && f[1] == v { 1nat } else { 0nat }) + (if f[1] == u && f[2] == v { 1nat } else { 0nat })
        + (if f[2] == u && f[0] == v { 1nat } else { 0nat })
}

/// How many times the faces traverse the directed edge `u -> v`.
pub open spec fn uses(fs: Seq<Tri>, u: u32, v: u32) -> nat
    decreases fs.len(),
{
    if fs.len() == 0 {
        0
    } else {
        uses(fs.drop_last(), u, v) + face_uses(fs.last(), u, v)
    }
}

pub open spec fn has_corner(f: Tri, x: u32) -> bool {
    f[0] == x || f[1] == x || f[2] == x
}

/// Two faces over the same three vertices.
pub open spec fn same_vertices(f: Tri, g: Tri) -> bool {
    has_corner(g, f[0]) && has_corner(g, f[1]) && has_corner(g, f[2]) && has_corner(f, g[0]) && has_corner(f, g[1])
        && has_corner(f, g[2])
}

pub open spec fn proper(f: Tri) -> bool {
    f[0] != f[1] && f[1] != f[2] && f[2] != f[0]
}

/// A closed, consistently wound two-manifold: every face has three
/// distinct corners, no two faces span the same three vertices, and every
/// directed edge is used at most once and exactly as often as its reverse
/// (so each edge has exactly two faces, which traverse it in opposite
/// directions).
pub open spec fn closed_manifold(fs: Seq<Tri>) -> bool {
    &&& forall|t: int| 0 <= t < fs.len() ==> proper(#[trigger] fs[t])
    &&& forall|t1: int, t2: int| 0 <= t1 < fs.len() && 0 <= t2 < fs.len() && t1 != t2 ==> !same_vertices(#[trigger] fs[t1], #[trigger] fs[t2])
    &&& forall|u: u32, v: u32| #[trigger] uses(fs, u, v) <= 1 && uses(fs, u, v) == uses(fs, v, u)
}

proof fn lemma_uses_add(a: Seq<Tri>, b: Seq<Tri>, u: u32, v: u32)
    ensures
        uses(a + b, u, v) == uses(a, u, v) + uses(b, u, v),
    decreases b.len(),
{
    if b.len() == 0 {
        assert(a + b =~= a);
    } else {
        assert((a + b).drop_last() =~= a + b.drop_last());
        lemma_uses_add(a, b.drop_last(), u, v);
    }
}

/// The uses of `u -> v` by the first `k` faces.
pub open spec fn uses_upto(fs: Seq<Tri>, k: int, u: u32, v: u32) -> nat
    decreases k,
{
    if k <= 0 {
        0
    } else {
        uses_upto(fs, k - 1, u, v) + face_uses(fs[k - 1], u, v)
    }
}

proof fn lemma_uses_upto(fs: Seq<Tri>, k: int, u: u32, v: u32)
    requires
        0 <= k <= fs.len(),
    ensures
        uses(fs.take(k), u, v) == uses_upto(fs, k, u, v),
    decreases k,
{
    if k > 0 {
        lemma_uses_upto(fs, k - 1, u, v);
        assert(fs.take(k).drop_last() =~= fs.take(k - 1));
    } else {
        assert(fs.take(0) =~= Seq::<Tri>::empty());
    }
}

proof fn lemma_icosahedron_faces_distinct(t1: int, t2: int)
    requires
        0 <= t1 < 20,
        0 <= t2 < 20,
        t1 != t2,
    ensures
        !same_vertices(ico_face(t1), ico_face(t2)),
{
}

#[verifier::spinoff_prover]
#[verifier::rlimit(100)]
proof fn lemma_icosahedron_uses(u: u32, v: u32)
    ensures
        uses_upto(icosahedron(), 20, u, v) <= 1,
        uses_upto(icosahedron(), 20, u, v) == uses_upto(icosahedron(), 20, v, u),
{
    reveal_with_fuel(uses_upto, 21);
    let fs = icosahedron();
    assert forall|t: int| 0 <= t < 20 implies #[trigger] fs[t] == ico_face(t) by {}
    if u == 0 {
    } else if u == 1 {
    } else if u == 2 {
    } else if u == 3 {
    } else if u == 4 {
    } else if u == 5 {
    } else if u == 6 {
    } else if u == 7 {
    } else if u == 8 {
    } else if u == 9 {
    } else if u == 10 {
    } else if u == 11 {
    } else {
    }
}

proof fn lemma_icosahedron_closed()
    ensures
        closed_manifold(icosahedron()),
{
    let fs = icosahedron();
    assert forall|t1: int, t2: int| 0 <= t1 < fs.len() && 0 <= t2 < fs.len() && t1 != t2 implies !same_vertices(#[trigger] fs[t1], #[trigger] fs[t2]) by {
        lemma_icosahedron_faces_distinct(t1, t2);
    }
    assert forall|u: u32, v: u32| #[trigger] uses(fs, u, v) <= 1 && uses(fs, u, v) == uses(fs, v, u) by {
        lemma_uses_upto(fs, 20, u, v);
        lemma_uses_upto(fs, 20, v, u);
        assert(fs.take(20) =~= fs);
        lemma_icosahedron_uses(u, v);
    }
}

/// How many times the four children of `f` (midpoints `m`) traverse
/// `u -> v`.
pub open spec fn child_uses(f: Tri, m: Tri, u: u32, v: u32) -> nat {
    let c = children(f, m);
    face_uses(c[0], u, v) + face_uses(c[1], u, v) + face_uses(c[2], u, v) + face_uses(c[3], u, v)
}

/// `child_uses` summed over the faces `g`, midpoints taken from `fresh`.
pub open spec fn split_uses(nv: int, fresh: Seq<EdgeKey>, g: Seq<Tri>, u: u32, v: u32) -> nat
    decreases g.len(),
{
    if g.len() == 0 {
        0
    } else {
        split_uses(nv, fresh, g.drop_last(), u, v) + child_uses(g.last(), midpoints(nv, fresh, g.last()), u, v)
    }
}

proof fn lemma_split_blocks(nv: int, faces: Seq<Tri>, t: int, u: u32, v: u32)
    requires
        0 <= t <= faces.len(),
    ensures
        uses(split_spec(nv, faces).1.take(4 * t), u, v) == split_uses(nv, split_spec(nv, faces).0, faces.take(t), u, v),
    decreases t,
{
    let (fresh, next) = split_spec(nv, faces);
    if t == 0 {
        assert(next.take(0) =~= Seq::<Tri>::empty());
        assert(faces.take(0) =~= Seq::<Tri>::empty());
    } else {
        lemma_split_blocks(nv, faces, t - 1, u, v);
        let f = faces[t - 1];
        let m = midpoints(nv, fresh, f);
        assert forall|q: int| 0 <= q < 4 implies #[trigger] next[4 * (t - 1) + q] == children(f, m)[q] by {
            assert((4 * (t - 1) + q) / 4 == t - 1);
            assert((4 * (t - 1) + q) % 4 == q);
        }
        assert(next.take(4 * t) =~= next.take(4 * (t - 1)) + children(f, m));
        lemma_uses_add(next.take(4 * (t - 1)), children(f, m), u, v);
        assert(faces.take(t).drop_last() =~= faces.take(t - 1));
        let c = children(f, m);
        assert(c.drop_last().drop_last().drop_last().drop_last() =~= Seq::<Tri>::empty());
        reveal_with_fuel(uses, 5);
    }
}

proof fn lemma_keys_of_index(faces: Seq<Tri>, t: int, e: int)
    requires
        0 <= t < faces.len(),
        0 <= e < 3,
    ensures
        3 * t + e < keys_of(faces).len(),
        keys_of(faces)[3 * t + e] == face_keys(faces[t])[e],
    decreases faces.len(),
{
    lemma_keys_of_len(faces);
    let d = faces.drop_last();
    lemma_keys_of_len(d);
    if t < faces.len() - 1 {
        lemma_keys_of_index(d, t, e);
    }
}

/// What the midpoints of one split rely on: `fresh` holds each edge once,
/// every edge is ordered and joins two vertices below `nv`, and the new
/// vertices `nv ..` fit in `u32`.
pub open spec fn fresh_ok(nv: int, fresh: Seq<EdgeKey>) -> bool {
    &&& fresh.no_duplicates()
    &&& forall|j: int| 0 <= j < fresh.len() ==> (#[trigger] fresh[j]).0 < fresh[j].1 < nv
    &&& 0 <= nv
    &&& nv + fresh.len() <= u32::MAX + 1
}

/// A proper face over vertices below `nv` whose edges are all in `fresh`.
pub open spec fn face_ok(nv: int, fresh: Seq<EdgeKey>, f: Tri) -> bool {
    &&& proper(f)
    &&& f[0] < nv && f[1] < nv && f[2] < nv
    &&& fresh.contains(face_keys(f)[0]) && fresh.contains(face_keys(f)[1]) && fresh.contains(face_keys(f)[2])
}

proof fn lemma_mid(nv: int, fresh: Seq<EdgeKey>, k: EdgeKey)
    requires
        fresh_ok(nv, fresh),
        fresh.contains(k),
    ensures
        0 <= fresh.index_of(k) < fresh.len(),
        fresh[fresh.index_of(k)] == k,
        ((nv + fresh.index_of(k)) as u32) as int == nv + fresh.index_of(k),
{
}

/// What the children of one face contribute to the uses of `u -> v`.
pub open spec fn child_formula(nv: int, fresh: Seq<EdgeKey>, f: Tri, u: u32, v: u32) -> nat {
    let m = midpoints(nv, fresh, f);
    if u < nv && v < nv {
        0
    } else if u < nv {
        if v - nv < fresh.len() {
            let k = fresh[v - nv];
            if u == k.0 {
                face_uses(f, k.0, k.1)
            } else if u == k.1 {
                face_uses(f, k.1, k.0)
            } else {
                0
            }
        } else {
            0
        }
    } else if v < nv {
        if u - nv < fresh.len() {
            let k = fresh[u - nv];
            if v == k.0 {
                face_uses(f, k.1, k.0)
            } else if v == k.1 {
                face_uses(f, k.0, k.1)
            } else {
                0
            }
        } else {
            0
        }
    } else if u != v && has_corner(m, u) && has_corner(m, v) {
        1
    } else {
        0
    }
}

#[verifier::spinoff_prover]
#[verifier::rlimit(40)]
proof fn lemma_child_uses(nv: int, fresh: Seq<EdgeKey>, f: Tri, u: u32, v: u32)
    requires
        fresh_ok(nv, fresh),
        face_ok(nv, fresh, f),
    ensures
        child_uses(f, midpoints(nv, fresh, f), u, v) == child_formula(nv, fresh, f, u, v),
        midpoints(nv, fresh, f)[0] >= nv && midpoints(nv, fresh, f)[1] >= nv && midpoints(nv, fresh, f)[2] >= nv,
        midpoints(nv, fresh, f)[0] < nv + fresh.len() && midpoints(nv, fresh, f)[1] < nv + fresh.len() && midpoints(nv, fresh, f)[2] < nv + fresh.len(),
        proper(midpoints(nv, fresh, f)),
{
    let k = face_keys(f);
    let m = midpoints(nv, fresh, f);
    lemma_mid(nv, fresh, k[0]);
    lemma_mid(nv, fresh, k[1]);
    lemma_mid(nv, fresh, k[2]);
    let (i0, i1, i2) = (fresh.index_of(k[0]), fresh.index_of(k[1]), fresh.index_of(k[2]));
    assert(m[0] == nv + i0 && m[1] == nv + i1 && m[2] == nv + i2);
    assert(k[0] != k[1] && k[1] != k[2] && k[2] != k[0]);
    assert(i0 != i1 && i1 != i2 && i2 != i0);
    if u >= nv && u - nv < fresh.len() {
        let j = u - nv;
        assert(m[0] == u <==> j == i0);
        assert(m[1] == u <==> j == i1);
        assert(m[2] == u <==> j == i2);
    }
    if v >= nv && v - nv < fresh.len() {
        let j = v - nv;
        assert(m[0] == v <==> j == i0);
        assert(m[1] == v <==> j == i1);
        assert(m[2] == v <==> j == i2);
    }
}

/// How many of the faces `g` have both `u` and `v` (distinct) among their
/// midpoints.
pub open spec fn pair_count(nv: int, fresh: Seq<EdgeKey>, g: Seq<Tri>, u: u32, v: u32) -> nat
    decreases g.len(),
{
    if g.len() == 0 {
        0
    } else {
        let m = midpoints(nv, fresh, g.last());
        pair_count(nv, fresh, g.drop_last(), u, v) + if u != v && has_corner(m, u) && has_corner(m, v) {
            1nat
        } else {
            0nat
        }
    }
}

/// What the children of the faces `g` contribute to the uses of `u -> v`.
pub open spec fn split_formula(nv: int, fresh: Seq<EdgeKey>, g: Seq<Tri>, u: u32, v: u32) -> nat {
    if u < nv && v < nv {
        0
    } else if u < nv {
        if v - nv < fresh.len() {
            let k = fresh[v - nv];
            if u == k.0 {
                uses(g, k.0, k.1)
            } else if u == k.1 {
                uses(g, k.1, k.0)
            } else {
                0
            }
        } else {
            0
        }
    } else if v < nv {
        if u - nv < fresh.len() {
            let k = fresh[u - nv];
            if v == k.0 {
                uses(g, k.1, k.0)
            } else if v == k.1 {
                uses(g, k.0, k.1)
            } else {
                0
            }
        } else {
            0
        }
    } else {
        pair_count(nv, fresh, g, u, v)
    }
}

proof fn lemma_split_formula(nv: int, fresh: Seq<EdgeKey>, g: Seq<Tri>, u: u32, v: u32)
    requires
        fresh_ok(nv, fresh),
        forall|t: int| 0 <= t < g.len() ==> face_ok(nv, fresh, #[trigger] g[t]),
    ensures
        split_uses(nv, fresh, g, u, v) == split_formula(nv, fresh, g, u, v),
        pair_count(nv, fresh, g, u, v) == pair_count(nv, fresh, g, v, u),
    decreases g.len(),
{
    if g.len() > 0 {
        let d = g.drop_last();
        assert forall|t: int| 0 <= t < d.len() implies face_ok(nv, fresh, #[trigger] d[t]) by {
            assert(d[t] == g[t]);
        }
        lemma_split_formula(nv, fresh, d, u, v);
        assert(face_ok(nv, fresh, g[g.len() - 1]));
        lemma_child_uses(nv, fresh, g.last(), u, v);
    }
}

/// Two faces with two distinct midpoints in common span the same
/// vertices: two edges of a triangle meet all three of its corners.
proof fn lemma_shared_pair(nv: int, fresh: Seq<EdgeKey>, f: Tri, g: Tri, u: u32, v: u32)
    requires
        fresh_ok(nv, fresh),
        face_ok(nv, fresh, f),
        face_ok(nv, fresh, g),
        u != v,
        has_corner(midpoints(nv, fresh, f), u) && has_corner(midpoints(nv, fresh, f), v),
        has_corner(midpoints(nv, fresh, g), u) && has_corner(midpoints(nv, fresh, g), v),
    ensures
        same_vertices(f, g),
{
    let (kf, kg) = (face_keys(f), face_keys(g));
    lemma_mid(nv, fresh, kf[0]);
    lemma_mid(nv, fresh, kf[1]);
    lemma_mid(nv, fresh, kf[2]);
    lemma_mid(nv, fresh, kg[0]);
    lemma_mid(nv, fresh, kg[1]);
    lemma_mid(nv, fresh, kg[2]);
    let mf = midpoints(nv, fresh, f);
    let mg = midpoints(nv, fresh, g);
    // A midpoint names its edge.
    assert forall|a: int, b: int| 0 <= a < 3 && 0 <= b < 3 && mf[a] == mg[b] implies kf[a] == kg[b] by {
        assert(fresh.index_of(kf[a]) == fresh.index_of(kg[b]));
    }
}

proof fn lemma_pair_count_le_one(nv: int, fresh: Seq<EdgeKey>, faces: Seq<Tri>, k: int, u: u32, v: u32)
    requires
        fresh_ok(nv, fresh),
        forall|t: int| 0 <= t < faces.len() ==> face_ok(nv, fresh, #[trigger] faces[t]),
        forall|t1: int, t2: int| 0 <= t1 < faces.len() && 0 <= t2 < faces.len() && t1 != t2 ==> !same_vertices(#[trigger] faces[t1], #[trigger] faces[t2]),
        0 <= k <= faces.len(),
    ensures
        pair_count(nv, fresh, faces.take(k), u, v) <= 1,
        pair_count(nv, fresh, faces.take(k), u, v) == 1 ==> exists|t: int| 0 <= t < k && u != v
            && has_corner(midpoints(nv, fresh, #[trigger] faces[t]), u) && has_corner(midpoints(nv, fresh, faces[t]), v),
    decreases k,
{
    if k == 0 {
        assert(faces.take(0) =~= Seq::<Tri>::empty());
    } else {
        lemma_pair_count_le_one(nv, fresh, faces, k - 1, u, v);
        assert(faces.take(k).drop_last() =~= faces.take(k - 1));
        assert(faces.take(k).last() == faces[k - 1]);
        let m = midpoints(nv, fresh, faces[k - 1]);
        if u != v && has_corner(m, u) && has_corner(m, v) && pair_count(nv, fresh, faces.take(k - 1), u, v) == 1 {
            let t = choose|t: int| 0 <= t < k - 1 && u != v && has_corner(midpoints(nv, fresh, #[trigger] faces[t]), u)
                && has_corner(midpoints(nv, fresh, faces[t]), v);
            lemma_shared_pair(nv, fresh, faces[t], faces[k - 1], u, v);
            assert(!same_vertices(faces[t], faces[k - 1]));
        }
    }
}

/// Children over the same three vertices come from parents over the same
/// three vertices, and from the same place in them.
#[verifier::spinoff_prover]
#[verifier::rlimit(40)]
proof fn lemma_children_distinct(nv: int, fresh: Seq<EdgeKey>, f: Tri, g: Tri, r1: int, r2: int)
    requires
        fresh_ok(nv, fresh),
        face_ok(nv, fresh, f),
        face_ok(nv, fresh, g),
        0 <= r1 < 4,
        0 <= r2 < 4,
        same_vertices(children(f, midpoints(nv, fresh, f))[r1], children(g, midpoints(nv, fresh, g))[r2]),
    ensures
        same_vertices(f, g),
        f == g ==> r1 == r2,
{
    let (kf, kg) = (face_keys(f), face_keys(g));
    lemma_mid(nv, fresh, kf[0]);
    lemma_mid(nv, fresh, kf[1]);
    lemma_mid(nv, fresh, kf[2]);
    lemma_mid(nv, fresh, kg[0]);
    lemma_mid(nv, fresh, kg[1]);
    lemma_mid(nv, fresh, kg[2]);
    let mf = midpoints(nv, fresh, f);
    let mg = midpoints(nv, fresh, g);
    lemma_child_uses(nv, fresh, f, 0, 0);
    lemma_child_uses(nv, fresh, g, 0, 0);
    assert forall|a: int, b: int| 0 <= a < 3 && 0 <= b < 3 && mf[a] == mg[b] implies kf[a] == kg[b] by {
        assert(fresh.index_of(kf[a]) == fresh.index_of(kg[b]));
    }
}

#[verifier::spinoff_prover]
proof fn lemma_fresh_edges(nv: int, faces: Seq<Tri>, j: int)
    requires
        forall|t: int| 0 <= t < faces.len() ==> proper(#[trigger] faces[t]),
        corners_below(faces, nv),
        0 <= j < first_seen(keys_of(faces)).len(),
    ensures
        first_seen(keys_of(faces))[j].0 < first_seen(keys_of(faces))[j].1 < nv,
{
    let keys = keys_of(faces);
    let fresh = first_seen(keys);
    lemma_first_seen(keys);
    lemma_keys_of_len(faces);
    assert(keys.contains(fresh[j]));
    let w = choose|w: int| 0 <= w < keys.len() && keys[w] == fresh[j];
    let (t, e) = choose|t: int, e: int| 0 <= t < faces.len() && 0 <= e < 3 && keys[w] == face_keys(faces[t])[e];
    assert(proper(faces[t]));
    assert(faces[t][0] < nv && faces[t][1] < nv && faces[t][2] < nv);
}

#[verifier::spinoff_prover]
proof fn lemma_split_setup(nv: int, faces: Seq<Tri>)
    requires
        forall|t: int| 0 <= t < faces.len() ==> proper(#[trigger] faces[t]),
        corners_below(faces, nv),
        0 <= nv,
        nv + 3 * faces.len() <= u32::MAX + 1,
    ensures
        fresh_ok(nv, split_spec(nv, faces).0),
        forall|t: int| 0 <= t < faces.len() ==> face_ok(nv, split_spec(nv, faces).0, #[trigger] faces[t]),
        split_spec(nv, faces).0.len() <= 3 * faces.len(),
{
    let fresh = split_spec(nv, faces).0;
    let keys = keys_of(faces);
    lemma_first_seen(keys);
    lemma_keys_of_len(faces);
    assert forall|j: int| 0 <= j < fresh.len() implies (#[trigger] fresh[j]).0 < fresh[j].1 < nv by {
        lemma_fresh_edges(nv, faces, j);
    }
    assert forall|t: int| 0 <= t < faces.len() implies face_ok(nv, fresh, #[trigger] faces[t]) by {
        lemma_keys_of_index(faces, t, 0);
        lemma_keys_of_index(faces, t, 1);
        lemma_keys_of_index(faces, t, 2);
        assert(faces[t][0] < nv && faces[t][1] < nv && faces[t][2] < nv);
    }
}

#[verifier::spinoff_prover]
proof fn lemma_split_uses_closed(nv: int, faces: Seq<Tri>, u: u32, v: u32)
    requires
        closed_manifold(faces),
        fresh_ok(nv, split_spec(nv, faces).0),
        forall|t: int| 0 <= t < faces.len() ==> face_ok(nv, split_spec(nv, faces).0, #[trigger] faces[t]),
    ensures
        uses(split_spec(nv, faces).1, u, v) <= 1,
        uses(split_spec(nv, faces).1, u, v) == uses(split_spec(nv, faces).1, v, u),
{
    let (fresh, next) = split_spec(nv, faces);
    lemma_split_blocks(nv, faces, faces.len() as int, u, v);
    lemma_split_blocks(nv, faces, faces.len() as int, v, u);
    assert(next.take(4 * faces.len() as int) =~= next);
    assert(faces.take(faces.len() as int) =~= faces);
    lemma_split_formula(nv, fresh, faces, u, v);
    lemma_split_formula(nv, fresh, faces, v, u);
    lemma_pair_count_le_one(nv, fresh, faces, faces.len() as int, u, v);
    if u >= nv && u - nv < fresh.len() {
        let k = fresh[u - nv];
        assert(uses(faces, k.0, k.1) <= 1 && uses(faces, k.0, k.1) == uses(faces, k.1, k.0));
    }
    if v >= nv && v - nv < fresh.len() {
        let k = fresh[v - nv];
        assert(uses(faces, k.0, k.1) <= 1 && uses(faces, k.0, k.1) == uses(faces, k.1, k.0));
    }
}

#[verifier::spinoff_prover]
proof fn lemma_split_faces(nv: int, faces: Seq<Tri>)
    requires
        forall|t1: int, t2: int| 0 <= t1 < faces.len() && 0 <= t2 < faces.len() && t1 != t2 ==> !same_vertices(#[trigger] faces[t1], #[trigger] faces[t2]),
        fresh_ok(nv, split_spec(nv, faces).0),
        forall|t: int| 0 <= t < faces.len() ==> face_ok(nv, split_spec(nv, faces).0, #[trigger] faces[t]),
    ensures
        forall|q: int| 0 <= q < split_spec(nv, faces).1.len() ==> proper(#[trigger] split_spec(nv, faces).1[q]),
        forall|q1: int, q2: int| 0 <= q1 < split_spec(nv, faces).1.len() && 0 <= q2 < split_spec(nv, faces).1.len() && q1 != q2
            ==> !same_vertices(#[trigger] split_spec(nv, faces).1[q1], #[trigger] split_spec(nv, faces).1[q2]),
        corners_below(split_spec(nv, faces).1, nv + split_spec(nv, faces).0.len()),
{
    let (fresh, next) = split_spec(nv, faces);
    assert forall|q: int| 0 <= q < next.len() implies proper(#[trigger] next[q]) && next[q][0] < nv + fresh.len()
        && next[q][1] < nv + fresh.len() && next[q][2] < nv + fresh.len() by {
        let t = q / 4;
        lemma_child_uses(nv, fresh, faces[t], 0, 0);
        assert(faces[t][0] < nv && faces[t][1] < nv && faces[t][2] < nv);
    }
    assert forall|q1: int, q2: int| 0 <= q1 < next.len() && 0 <= q2 < next.len() && q1 != q2 implies !same_vertices(
        #[trigger] next[q1], #[trigger] next[q2]) by {
        let (t1, t2) = (q1 / 4, q2 / 4);
        if same_vertices(next[q1], next[q2]) {
            lemma_children_distinct(nv, fresh, faces[t1], faces[t2], q1 % 4, q2 % 4);
            assert(t1 == t2);
        }
    }
    assert forall|t: int, e: int| 0 <= t < next.len() && 0 <= e < 3 implies #[trigger] next[t][e] < nv + fresh.len() by {
        assert(next[t][0] < nv + fresh.len() && next[t][1] < nv + fresh.len() && next[t][2] < nv + fresh.len());
    }
}

/// One subdivision keeps a closed two-manifold closed: each old edge is
/// split into two halves through the one midpoint its two faces share, and
/// the new inner edges pair up inside each face.
pub proof fn lemma_split_closed(nv: int, faces: Seq<Tri>)
    requires
        closed_manifold(faces),
        corners_below(faces, nv),
        0 <= nv,
        nv + 3 * faces.len() <= u32::MAX + 1,
    ensures
        closed_manifold(split_spec(nv, faces).1),
        corners_below(split_spec(nv, faces).1, nv + split_spec(nv, faces).0.len()),
        split_spec(nv, faces).0.len() <= 3 * faces.len(),
        split_spec(nv, faces).1.len() == 4 * faces.len(),
{
    lemma_split_setup(nv, faces);
    lemma_split_faces(nv, faces);
    let next = split_spec(nv, faces).1;
    assert forall|u: u32, v: u32| #[trigger] uses(next, u, v) <= 1 && uses(next, u, v) == uses(next, v, u) by {
        lemma_split_uses_closed(nv, faces, u, v);
    }
}

proof fn lemma_icosphere_shape(n: nat)
    requires
        n <= 13,
    ensures
        icosphere_spec(n).1.len() == 20 * pow4(n),
        icosphere_spec(n).0.len() <= 20 * (pow4(n) - 1),
        corners_below(icosphere_spec(n).1, 12 + icosphere_spec(n).0.len() as int),
        closed_manifold(icosphere_spec(n).1),
    decreases n,
{
    if n == 0 {
        lemma_icosahedron_closed();
        let fs = icosahedron();
        assert forall|t: int, e: int| 0 <= t < fs.len() && 0 <= e < 3 implies #[trigger] fs[t][e] < 12 by {
            assert(fs[t] == ico_face(t));
        }
    } else {
        let m = (n - 1) as nat;
        lemma_icosphere_shape(m);
        lemma_pow4_mono(m, 12);
        reveal_with_fuel(pow4, 13);
        assert(pow4(12) == 16777216);
        let (parents, faces) = icosphere_spec(m);
        let nv = 12 + parents.len() as int;
        lemma_split_closed(nv, faces);
        assert(pow4(n) == 4 * pow4(m));
    }
}

/// Every icosphere is a closed, consistently wound two-manifold: each face
/// has three distinct corners, no two faces span the same vertices, and
/// each edge belongs to exactly two faces, which traverse it in opposite
/// directions.
pub proof fn lemma_icosphere_closed(n: nat)
    requires
        n <= 13,
    ensures
        closed_manifold(icosphere_spec(n).1),
        icosphere_spec(n).1.len() == 20 * pow4(n),
{
    lemma_icosphere_shape(n);
}

} // verus!
