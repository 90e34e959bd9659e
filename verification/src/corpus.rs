//! Behavioural harness over a real-world corpus of packed meshes.
//!
//! The corpus has no ground truth, so what is judged is behaviour, not
//! answers: every model must produce a definite outcome -- a result or a
//! typed refusal -- and never a panic or a silent wrong-shaped success.
//!
//! This module holds the pack format and the judgement. Reading files and
//! isolating a crashing provider are left to the caller.

use vstd::prelude::*;

verus! {

/// The little-endian value of `s[o..o + width]`.
pub open spec fn le(s: Seq<u8>, o: int, width: nat) -> int
    decreases width,
{
    if width == 0 {
        0
    } else {
        s[o] + 256 * le(s, o + 1, (width - 1) as nat)
    }
}

/// A decoded pack: positions as the raw bits of their three `f64`
/// coordinates, and three corner indices per triangle.
pub struct Pack {
    pub positions: Vec<[u64; 3]>,
    pub indices: Vec<u32>,
}

/// Vertex count, triangle count, and the byte length they call for.
pub open spec fn header(bytes: Seq<u8>) -> (int, int, int) {
    let nv = le(bytes, 0, 4);
    let nf = le(bytes, 4, 4);
    (nv, nf, 8 + 24 * nv + 12 * nf)
}

/// A pack is a header of two `u32` (vertices, triangles), then three `f64`
/// per vertex, then three `u32` per triangle, all little-endian, and
/// nothing after.
pub open spec fn well_sized(bytes: Seq<u8>) -> bool {
    bytes.len() >= 8 && bytes.len() == header(bytes).2
}

impl Pack {
    pub open spec fn decodes(&self, bytes: Seq<u8>) -> bool {
        let (nv, nf, _) = header(bytes);
        let base = 8 + 24 * nv;
        &&& self.positions@.len() == nv
        &&& forall|i: int, c: int|
            0 <= i < nv && 0 <= c < 3 ==> #[trigger] self.positions@[i][c] == le(bytes, 8 + 24 * i + 8 * c, 8)
        &&& self.indices@.len() == 3 * nf
        &&& forall|i: int| 0 <= i < 3 * nf ==> #[trigger] self.indices@[i] == le(bytes, base + 4 * i, 4)
    }
}

fn read_u32(bytes: &[u8], o: usize) -> (v: u32)
    requires
        o + 4 <= bytes@.len(),
    ensures
        v == le(bytes@, o as int, 4),
{
    proof {
        reveal_with_fuel(le, 5);
    }
    bytes[o] as u32 + 256 * (bytes[o + 1] as u32 + 256 * (bytes[o + 2] as u32 + 256 * (bytes[o + 3] as u32)))
}

fn read_u64(bytes: &[u8], o: usize) -> (v: u64)
    requires
        o + 8 <= bytes@.len(),
    ensures
        v == le(bytes@, o as int, 8),
{
    let n = bytes.len();
    let hi = read_u32(bytes, o + 4) as u64;
    let lo = read_u32(bytes, o) as u64;
    proof {
        lemma_le_split(bytes@, o as int);
    }
    lo + 4294967296 * hi
}

proof fn lemma_le_split(s: Seq<u8>, o: int)
    ensures
        le(s, o, 8) == le(s, o, 4) + 4294967296 * le(s, o + 4, 4),
{
    reveal_with_fuel(le, 9);
}

/// Decode a pack, or `None` when the bytes are too short for a header or
/// their length is not what the header calls for.
pub fn read_pack(bytes: &[u8]) -> (r: Option<Pack>)
    ensures
        r is Some <==> well_sized(bytes@),
        r matches Some(p) ==> p.decodes(bytes@),
{
    if bytes.len() < 8 {
        return None;
    }
    let nv = read_u32(bytes, 0) as u64;
    let nf = read_u32(bytes, 4) as u64;
    let want: u64 = 8 + nv * 24 + nf * 12;
    if bytes.len() as u64 != want {
        return None;
    }
    let ghost s = bytes@;
    let len = bytes.len();
    let nv = nv as usize;
    let nf = nf as usize;
    let mut positions: Vec<[u64; 3]> = Vec::new();
    let mut i: usize = 0;
    while i < nv
        invariant
            nv == header(s).0,
            nf == header(s).1,
            s.len() == header(s).2,
            bytes@ == s,
            s.len() <= usize::MAX,
            i <= nv,
            positions@.len() == i,
            forall|m: int, c: int| 0 <= m < i && 0 <= c < 3 ==> #[trigger] positions@[m][c] == le(s, 8 + 24 * m + 8 * c, 8),
        decreases nv - i,
    {
        let o = 8 + i * 24;
        let x = read_u64(bytes, o);
        let y = read_u64(bytes, o + 8);
        let z = read_u64(bytes, o + 16);
        positions.push([x, y, z]);
        i += 1;
    }
    let base = 8 + nv * 24;
    let mut indices: Vec<u32> = Vec::new();
    let mut i: usize = 0;
    while i < nf * 3
        invariant
            nv == header(s).0,
            nf == header(s).1,
            s.len() == header(s).2,
            base == 8 + 24 * nv,
            bytes@ == s,
            s.len() <= usize::MAX,
            i <= 3 * nf,
            indices@.len() == i,
            forall|m: int| 0 <= m < i ==> #[trigger] indices@[m] == le(s, base + 4 * m, 4),
        decreases 3 * nf - i,
    {
        indices.push(read_u32(bytes, base + i * 4));
        i += 1;
    }
    Some(Pack { positions, indices })
}

/// The little-endian value of a span reads only the bytes of that span.
proof fn lemma_le_prefix(a: Seq<u8>, b: Seq<u8>, o: int, width: nat, n: int)
    requires
        0 <= o,
        o + width <= n <= a.len(),
        n <= b.len(),
        forall|k: int| 0 <= k < n ==> a[k] == b[k],
    ensures
        le(a, o, width) == le(b, o, width),
    decreases width,
{
    if width > 0 {
        lemma_le_prefix(a, b, o + 1, (width - 1) as nat, n);
    }
}

/// `b` extends `a`: its first `a.len()` bytes are those of `a`.
pub open spec fn extends(b: Seq<u8>, a: Seq<u8>) -> bool {
    a.len() <= b.len() && forall|k: int| 0 <= k < a.len() ==> #[trigger] b[k] == a[k]
}

/// Append the four little-endian bytes of `x`.
fn push_u32(out: &mut Vec<u8>, x: u32)
    ensures
        final(out)@.len() == old(out)@.len() + 4,
        extends(final(out)@, old(out)@),
        le(final(out)@, old(out)@.len() as int, 4) == x,
{
    let ghost n = out@.len() as int;
    out.push((x % 256) as u8);
    out.push(((x / 256) % 256) as u8);
    out.push(((x / 65536) % 256) as u8);
    out.push((x / 16777216) as u8);
    proof {
        reveal_with_fuel(le, 5);
    }
}

/// Append the eight little-endian bytes of `x`.
fn push_u64(out: &mut Vec<u8>, x: u64)
    ensures
        final(out)@.len() == old(out)@.len() + 8,
        extends(final(out)@, old(out)@),
        le(final(out)@, old(out)@.len() as int, 8) == x,
{
    let ghost n = out@.len() as int;
    push_u32(out, (x % 4294967296) as u32);
    let ghost mid = out@;
    push_u32(out, (x / 4294967296) as u32);
    proof {
        lemma_le_prefix(out@, mid, n, 4, n + 4);
        lemma_le_split(out@, n);
    }
}

impl Pack {
    /// `bytes` is this pack written out: the vertex count, the number of
    /// whole triangles, every coordinate, then every index, little-endian.
    pub open spec fn encodes(&self, bytes: Seq<u8>) -> bool {
        let nv = self.positions@.len() as int;
        let ni = self.indices@.len() as int;
        &&& bytes.len() == 8 + 24 * nv + 4 * ni
        &&& le(bytes, 0, 4) == nv
        &&& le(bytes, 4, 4) == ni / 3
        &&& forall|i: int, c: int|
            0 <= i < nv && 0 <= c < 3 ==> le(bytes, 8 + 24 * i + 8 * c, 8) == #[trigger] self.positions@[i][c]
        &&& forall|k: int| 0 <= k < ni ==> le(bytes, 8 + 24 * nv + 4 * k, 4) == #[trigger] self.indices@[k]
    }
}

/// Write a pack: the vertex count, the number of whole triangles, three
/// coordinates per vertex, then every index, all little-endian. The counts
/// must fit the `u32` header.
pub fn write_pack(pack: &Pack) -> (bytes: Vec<u8>)
    requires
        pack.positions@.len() <= u32::MAX,
        pack.indices@.len() / 3 <= u32::MAX,
        8 + 24 * pack.positions@.len() + 4 * pack.indices@.len() <= usize::MAX,
    ensures
        pack.encodes(bytes@),
{
    let nv = pack.positions.len();
    let ni = pack.indices.len();
    let mut out: Vec<u8> = Vec::new();
    push_u32(&mut out, nv as u32);
    let ghost h0 = out@;
    push_u32(&mut out, (ni / 3) as u32);
    proof {
        lemma_le_prefix(out@, h0, 0, 4, 4);
    }
    let mut i: usize = 0;
    while i < nv
        invariant
            nv == pack.positions@.len(),
            ni == pack.indices@.len(),
            8 + 24 * nv + 4 * ni <= usize::MAX,
            i <= nv,
            out@.len() == 8 + 24 * i,
            le(out@, 0, 4) == nv,
            le(out@, 4, 4) == ni / 3,
            forall|m: int, c: int| 0 <= m < i && 0 <= c < 3 ==> le(out@, 8 + 24 * m + 8 * c, 8) == #[trigger] pack.positions@[m][c],
        decreases nv - i,
    {
        let p = pack.positions[i];
        let ghost before = out@;
        push_u64(&mut out, p[0]);
        let ghost b1 = out@;
        push_u64(&mut out, p[1]);
        let ghost b2 = out@;
        push_u64(&mut out, p[2]);
        proof {
            let n = before.len() as int;
            assert forall|k: int| 0 <= k < n + 16 implies out@[k] == b2[k] by {}
            assert forall|k: int| 0 <= k < n + 8 implies out@[k] == b1[k] by {
                assert(b2[k] == b1[k]);
            }
            assert forall|k: int| 0 <= k < n implies out@[k] == before[k] by {
                assert(b2[k] == b1[k]);
                assert(b1[k] == before[k]);
            }
            lemma_le_prefix(out@, b1, n, 8, n + 8);
            lemma_le_prefix(out@, b2, n + 8, 8, n + 16);
            assert forall|m: int, c: int| 0 <= m <= i && 0 <= c < 3 implies le(out@, 8 + 24 * m + 8 * c, 8) == #[trigger] pack.positions@[m][c] by {
                if m < i {
                    lemma_le_prefix(out@, before, 8 + 24 * m + 8 * c, 8, n);
                }
            }
            lemma_le_prefix(out@, before, 0, 4, n);
            lemma_le_prefix(out@, before, 4, 4, n);
        }
        i = i + 1;
    }
    let mut k: usize = 0;
    while k < ni
        invariant
            nv == pack.positions@.len(),
            ni == pack.indices@.len(),
            8 + 24 * nv + 4 * ni <= usize::MAX,
            k <= ni,
            out@.len() == 8 + 24 * nv + 4 * k,
            le(out@, 0, 4) == nv,
            le(out@, 4, 4) == ni / 3,
            forall|m: int, c: int| 0 <= m < nv && 0 <= c < 3 ==> le(out@, 8 + 24 * m + 8 * c, 8) == #[trigger] pack.positions@[m][c],
            forall|j: int| 0 <= j < k ==> le(out@, 8 + 24 * nv + 4 * j, 4) == #[trigger] pack.indices@[j],
        decreases ni - k,
    {
        let ghost before = out@;
        push_u32(&mut out, pack.indices[k]);
        proof {
            let n = before.len() as int;
            assert forall|m: int, c: int| 0 <= m < nv && 0 <= c < 3 implies le(out@, 8 + 24 * m + 8 * c, 8) == #[trigger] pack.positions@[m][c] by {
                lemma_le_prefix(out@, before, 8 + 24 * m + 8 * c, 8, n);
            }
            assert forall|j: int| 0 <= j <= k implies le(out@, 8 + 24 * nv + 4 * j, 4) == #[trigger] pack.indices@[j] by {
                if j < k {
                    lemma_le_prefix(out@, before, 8 + 24 * nv + 4 * j, 4, n);
                }
            }
            lemma_le_prefix(out@, before, 0, 4, n);
            lemma_le_prefix(out@, before, 4, 4, n);
        }
        k = k + 1;
    }
    out
}

/// What a written pack reads back as: a pack whose indices are whole
/// triangles, once written, is well sized, and any pack decoded from those
/// bytes has the same positions and indices.
pub proof fn lemma_pack_round_trip(pack: Pack, bytes: Seq<u8>, read: Pack)
    requires
        pack.encodes(bytes),
        pack.indices@.len() % 3 == 0,
        read.decodes(bytes),
    ensures
        well_sized(bytes),
        read.positions@ == pack.positions@,
        read.indices@ == pack.indices@,
{
    let nv = pack.positions@.len() as int;
    assert forall|i: int| 0 <= i < nv implies read.positions@[i] == pack.positions@[i] by {
        assert(read.positions@[i][0] == pack.positions@[i][0]);
        assert(read.positions@[i][1] == pack.positions@[i][1]);
        assert(read.positions@[i][2] == pack.positions@[i][2]);
        assert(read.positions@[i]@ =~= pack.positions@[i]@);
    }
    assert(read.positions@ =~= pack.positions@);
    assert(read.indices@ =~= pack.indices@);
}

/// The structural facts of a mesh audit that the judgement reads.
#[derive(Clone, Copy, Debug, PartialEq, Eq, Structural)]
pub struct Health {
    pub invalid_indices: usize,
    pub non_finite_positions: usize,
    pub degenerate_triangles: usize,
    pub boundary_edges: usize,
    pub non_manifold_edges: usize,
    pub inconsistent_winding_edges: usize,
}

impl Health {
    /// Structural damage. Thin (degenerate) triangles are a tolerance
    /// judgement, not a structural defect, and do not count.
    pub open spec fn damaged(self) -> bool {
        self.non_manifold_edges > 0 || self.boundary_edges > 0 || self.inconsistent_winding_edges > 0
            || self.invalid_indices > 0 || self.non_finite_positions > 0
    }
}

/// The class a model was filed under.
#[derive(Clone, Copy, Debug, PartialEq, Eq, Structural)]
pub enum Class {
    Open,
    NonManifold,
    Clean,
    Other,
}

/// The class named by a manifest label.
pub fn class_of(label: &String) -> (c: Class)
    ensures
        c == (if label@ == "open"@ {
            Class::Open
        } else if label@ == "non_manifold"@ {
            Class::NonManifold
        } else if label@ == "clean"@ {
            Class::Clean
        } else {
            Class::Other
        }),
{
    if *label == "open".to_owned() {
        Class::Open
    } else if *label == "non_manifold".to_owned() {
        Class::NonManifold
    } else if *label == "clean".to_owned() {
        Class::Clean
    } else {
        Class::Other
    }
}

/// A wrong-shaped behaviour: the model disagrees with its class, or the
/// kernel succeeded with a result it must not produce.
#[derive(Clone, Copy, Debug, PartialEq, Eq, Structural)]
pub enum Fault {
    OpenWithoutBoundary,
    NonManifoldWithoutDefect,
    CleanButDamaged,
    EmptyResult,
    NonFiniteOutput,
    InvalidIndexOutput,
    CleanGainedBoundary,
}

impl Fault {
    pub fn why(self) -> (s: &'static str)
        ensures
            s@ == match self {
                Fault::OpenWithoutBoundary => "filed open but audit found no boundary edge"@,
                Fault::NonManifoldWithoutDefect => "filed non-manifold but audit found none"@,
                Fault::CleanButDamaged => "filed clean but audit found structural damage"@,
                Fault::EmptyResult => "empty mesh returned without an error"@,
                Fault::NonFiniteOutput => "non-finite positions in output"@,
                Fault::InvalidIndexOutput => "invalid indices in output"@,
                Fault::CleanGainedBoundary => "clean input gained boundary edges"@,
            },
    {
        match self {
            Fault::OpenWithoutBoundary => "filed open but audit found no boundary edge",
            Fault::NonManifoldWithoutDefect => "filed non-manifold but audit found none",
            Fault::CleanButDamaged => "filed clean but audit found structural damage",
            Fault::EmptyResult => "empty mesh returned without an error",
            Fault::NonFiniteOutput => "non-finite positions in output",
            Fault::InvalidIndexOutput => "invalid indices in output",
            Fault::CleanGainedBoundary => "clean input gained boundary edges",
        }
    }
}

/// What the kernel did with one model. A refusal is a success for damaged
/// input; only a wrong-shaped success or a crash is a fault.
#[derive(Clone, Copy, Debug, PartialEq, Eq, Structural)]
pub enum Outcome {
    Produced,
    Refused,
    WrongShape(Fault),
    Panicked,
}

impl Outcome {
    pub open spec fn is_fault(self) -> bool {
        self is WrongShape || self is Panicked
    }
}

/// The fault, if any, in a model's class before the kernel is run: an
/// `Open` model must have a boundary edge, a `NonManifold` one a
/// non-manifold or inconsistently wound edge, and a `Clean` one no
/// structural damage beyond the three boundary edges that each dropped
/// degenerate triangle leaves.
pub open spec fn screen_spec(class: Class, before: Health) -> Option<Fault> {
    match class {
        Class::Open => if before.boundary_edges == 0 {
            Some(Fault::OpenWithoutBoundary)
        } else {
            None
        },
        Class::NonManifold => if before.non_manifold_edges == 0 && before.inconsistent_winding_edges == 0 {
            Some(Fault::NonManifoldWithoutDefect)
        } else {
            None
        },
        Class::Clean => if before.damaged() && before.boundary_edges > 3 * before.degenerate_triangles {
            Some(Fault::CleanButDamaged)
        } else {
            None
        },
        Class::Other => None,
    }
}

pub fn screen(class: Class, before: &Health) -> (r: Option<Fault>)
    ensures
        r == screen_spec(class, *before),
        class == Class::NonManifold ==> (r is Some <==> before.non_manifold_edges == 0
            && before.inconsistent_winding_edges == 0),
        class == Class::Open ==> (r is Some <==> before.boundary_edges == 0),
{
    proof {
        lemma_screen_reads_the_filed_defect(*before, *before);
    }
    match class {
        Class::Open => if before.boundary_edges == 0 {
            Some(Fault::OpenWithoutBoundary)
        } else {
            None
        },
        Class::NonManifold => if before.non_manifold_edges == 0 && before.inconsistent_winding_edges == 0 {
            Some(Fault::NonManifoldWithoutDefect)
        } else {
            None
        },
        Class::Clean => {
            let damaged = before.non_manifold_edges > 0 || before.boundary_edges > 0
                || before.inconsistent_winding_edges > 0 || before.invalid_indices > 0
                || before.non_finite_positions > 0;
            if damaged && (before.boundary_edges as u128) > 3 * (before.degenerate_triangles as u128) {
                Some(Fault::CleanButDamaged)
            } else {
                None
            }
        },
        Class::Other => None,
    }
}

/// The fault, if any, in a non-empty result of the self-union: no
/// non-finite position, no invalid index, and a clean model gains no
/// boundary edge.
pub open spec fn check_output_spec(class: Class, before: Health, after: Health) -> Option<Fault> {
    if after.non_finite_positions > 0 {
        Some(Fault::NonFiniteOutput)
    } else if after.invalid_indices > 0 {
        Some(Fault::InvalidIndexOutput)
    } else if class == Class::Clean && after.boundary_edges > before.boundary_edges {
        Some(Fault::CleanGainedBoundary)
    } else {
        None
    }
}

pub fn check_output(class: Class, before: &Health, after: &Health) -> (r: Option<Fault>)
    ensures
        r == check_output_spec(class, *before, *after),
        class != Class::Clean && after.non_finite_positions == 0 && after.invalid_indices == 0 ==> r is None,
{
    proof {
        if after.non_finite_positions == 0 && after.invalid_indices == 0 {
            lemma_only_clean_must_stay_closed(class, *before, *after);
        }
    }
    if after.non_finite_positions > 0 {
        Some(Fault::NonFiniteOutput)
    } else if after.invalid_indices > 0 {
        Some(Fault::InvalidIndexOutput)
    } else if class == Class::Clean && after.boundary_edges > before.boundary_edges {
        Some(Fault::CleanGainedBoundary)
    } else {
        None
    }
}

/// A model that passes its screen gets no fault for gaining boundary
/// edges unless it was filed clean: for any other class, an output with no
/// non-finite position and no invalid index is good, whatever the boundary
/// edge counts before and after. A clean model is faulted exactly when its
/// output has more boundary edges than its input.
pub proof fn lemma_only_clean_must_stay_closed(class: Class, before: Health, after: Health)
    requires
        after.non_finite_positions == 0,
        after.invalid_indices == 0,
    ensures
        class != Class::Clean ==> check_output_spec(class, before, after) is None,
        class == Class::Clean ==> (check_output_spec(class, before, after) is Some
            <==> after.boundary_edges > before.boundary_edges),
        check_output_spec(class, before, after) is Some ==> check_output_spec(class, before, after)
            == Some(Fault::CleanGainedBoundary),
{
}

/// The screen of each class reads only what that class is filed for: an
/// open model is faulted exactly when the audit finds no boundary edge, a
/// non-manifold one exactly when it finds neither a non-manifold nor an
/// inconsistently wound edge (whatever its boundary edges), and a model of
/// no known class is never faulted.
pub proof fn lemma_screen_reads_the_filed_defect(h: Health, g: Health)
    ensures
        screen_spec(Class::Open, h) is Some <==> h.boundary_edges == 0,
        screen_spec(Class::NonManifold, h) is Some <==> h.non_manifold_edges == 0 && h.inconsistent_winding_edges == 0,
        screen_spec(Class::Other, h) is None,
        h.non_manifold_edges == g.non_manifold_edges && h.inconsistent_winding_edges == g.inconsistent_winding_edges
            ==> screen_spec(Class::NonManifold, h) == screen_spec(Class::NonManifold, g),
        h.boundary_edges == g.boundary_edges ==> screen_spec(Class::Open, h) == screen_spec(Class::Open, g),
        screen_spec(Class::Open, h) is Some ==> screen_spec(Class::Open, h) == Some(Fault::OpenWithoutBoundary),
        screen_spec(Class::NonManifold, h) is Some ==> screen_spec(Class::NonManifold, h) == Some(
            Fault::NonManifoldWithoutDefect,
        ),
{
}

/// A model of a class other than clean that passes its screen, and whose
/// self-union gives a non-empty mesh with no non-finite position and no
/// invalid index, is judged produced, whatever the boundary edges.
pub proof fn lemma_good_run_is_produced(class: Class, before: Health, triangles: usize, after: Health)
    requires
        class != Class::Clean,
        screen_spec(class, before) is None,
        triangles > 0,
        after.non_finite_positions == 0,
        after.invalid_indices == 0,
    ensures
        judge_spec(class, before, Run::Output { triangles, after }) == Outcome::Produced,
{
    lemma_only_clean_must_stay_closed(class, before, after);
}

/// What the self-union of a model came to, as far as the judgement reads
/// it: a crash, a refusal, or a result with its triangle count and audit.
#[derive(Clone, Copy, Debug, PartialEq, Eq, Structural)]
pub enum Run {
    Crashed,
    Refused,
    Output { triangles: usize, after: Health },
}

/// The judgement of one model: a model that contradicts its class is a
/// fault before the kernel runs; otherwise a crash, a refusal, an empty
/// result (a success with no geometry), a result with a fault in it, or a
/// good result.
pub open spec fn judge_spec(class: Class, before: Health, run: Run) -> Outcome {
    match screen_spec(class, before) {
        Some(f) => Outcome::WrongShape(f),
        None => match run {
            Run::Crashed => Outcome::Panicked,
            Run::Refused => Outcome::Refused,
            Run::Output { triangles, after } => if triangles == 0 {
                Outcome::WrongShape(Fault::EmptyResult)
            } else {
                match check_output_spec(class, before, after) {
                    Some(f) => Outcome::WrongShape(f),
                    None => Outcome::Produced,
                }
            },
        },
    }
}

/// Judge one model from its audit before the run and what the run came to.
pub fn judge(class: Class, before: &Health, run: Run) -> (r: Outcome)
    ensures
        r == judge_spec(class, *before, run),
        class != Class::Clean && screen_spec(class, *before) is None ==> (run matches Run::Output { triangles, after }
            && triangles > 0 && after.non_finite_positions == 0 && after.invalid_indices == 0 ==> r == Outcome::Produced),
{
    proof {
        if let Run::Output { triangles, after } = run {
            if class != Class::Clean && screen_spec(class, *before) is None && triangles > 0
                && after.non_finite_positions == 0 && after.invalid_indices == 0 {
                lemma_good_run_is_produced(class, *before, triangles, after);
            }
        }
    }
    if let Some(fault) = screen(class, before) {
        return Outcome::WrongShape(fault);
    }
    match run {
        Run::Crashed => Outcome::Panicked,
        Run::Refused => Outcome::Refused,
        Run::Output { triangles, after } => {
            if triangles == 0 {
                return Outcome::WrongShape(Fault::EmptyResult);
            }
            match check_output(class, before, &after) {
                Some(fault) => Outcome::WrongShape(fault),
                None => Outcome::Produced,
            }
        },
    }
}

/// Exercise one model, given its audit `before`: screen it against its
/// class, and only if it passes let `attempt` run the self-union and
/// report what it came to, then judge that.
pub fn exercise<F: FnOnce() -> Run>(class: Class, before: &Health, attempt: F) -> (r: Outcome)
    requires
        call_requires(attempt, ()),
    ensures
        screen_spec(class, *before) matches Some(f) ==> r == Outcome::WrongShape(f),
        screen_spec(class, *before) is None ==> exists|run: Run| call_ensures(attempt, (), run) && r == judge_spec(class, *before, run),
{
    if let Some(fault) = screen(class, before) {
        return Outcome::WrongShape(fault);
    }
    let run = attempt();
    judge(class, before, run)
}

/// How one class of models fared.
#[derive(Clone, Copy, Debug, PartialEq, Eq)]
pub struct Tally {
    pub produced: usize,
    pub refused: usize,
    pub panics: usize,
    pub faults: usize,
}

/// The number of outcomes in `os` that satisfy `p`.
pub open spec fn count(os: Seq<Outcome>, p: spec_fn(Outcome) -> bool) -> nat
    decreases os.len(),
{
    if os.len() == 0 {
        0
    } else {
        count(os.drop_last(), p) + if p(os.last()) { 1nat } else { 0nat }
    }
}

pub open spec fn counts_of(os: Seq<Outcome>) -> Tally {
    Tally {
        produced: count(os, |o: Outcome| o is Produced) as usize,
        refused: count(os, |o: Outcome| o is Refused) as usize,
        panics: count(os, |o: Outcome| o is Panicked) as usize,
        faults: count(os, |o: Outcome| o.is_fault()) as usize,
    }
}

/// Count the outcomes of one class. Every model is produced, refused or a
/// fault, so the three add up to the number of models; a panic is a fault.
pub fn tally(outcomes: &[Outcome]) -> (t: Tally)
    ensures
        t == counts_of(outcomes@),
        t.produced + t.refused + t.faults == outcomes@.len(),
        t.panics <= t.faults,
{
    let ghost os = outcomes@;
    let mut t = Tally { produced: 0, refused: 0, panics: 0, faults: 0 };
    let mut i: usize = 0;
    while i < outcomes.len()
        invariant
            os == outcomes@,
            i <= os.len(),
            t.produced == count(os.take(i as int), |o: Outcome| o is Produced),
            t.refused == count(os.take(i as int), |o: Outcome| o is Refused),
            t.panics == count(os.take(i as int), |o: Outcome| o is Panicked),
            t.faults == count(os.take(i as int), |o: Outcome| o.is_fault()),
            t.produced + t.refused + t.faults == i,
            t.panics <= t.faults,
        decreases os.len() - i,
    {
        assert(os.take(i + 1).drop_last() =~= os.take(i as int));
        match outcomes[i] {
            Outcome::Produced => t.produced += 1,
            Outcome::Refused => t.refused += 1,
            Outcome::Panicked => {
                t.panics += 1;
                t.faults += 1;
            },
            Outcome::WrongShape(_) => t.faults += 1,
        }
        i += 1;
    }
    assert(os.take(os.len() as int) =~= os);
    t
}

/// The pieces of `s` between the bytes equal to `sep`, as `str::split`
/// gives them: `n` separators make `n + 1` pieces.
pub open spec fn pieces(s: Seq<u8>, sep: u8) -> Seq<Seq<u8>>
    decreases s.len(),
{
    if s.len() == 0 {
        seq![Seq::<u8>::empty()]
    } else {
        let p = pieces(s.drop_last(), sep);
        if s.last() == sep {
            p.push(Seq::<u8>::empty())
        } else {
            p.update(p.len() - 1, p.last().push(s.last()))
        }
    }
}

proof fn lemma_pieces_nonempty(s: Seq<u8>, sep: u8)
    ensures
        pieces(s, sep).len() >= 1,
    decreases s.len(),
{
    if s.len() > 0 {
        lemma_pieces_nonempty(s.drop_last(), sep);
    }
}

/// A line that ended in a line feed, without the carriage return of a
/// `\r\n` ending.
pub open spec fn without_cr(l: Seq<u8>) -> Seq<u8> {
    if l.len() > 0 && l.last() == 13 {
        l.drop_last()
    } else {
        l
    }
}

/// The lines of `s`, as `str::lines` reads them: split at `\n`, a `\r`
/// before the `\n` removed, and no empty line after a final `\n`.
pub open spec fn lines(s: Seq<u8>) -> Seq<Seq<u8>> {
    let p = pieces(s, 10);
    let ended = Seq::new((p.len() - 1) as nat, |i: int| without_cr(p[i]));
    if p.last().len() == 0 {
        ended
    } else {
        ended.push(p.last())
    }
}

/// One manifest row: class, model id and pack file name.
pub struct IndexEntry {
    pub class: Vec<u8>,
    pub file_id: Vec<u8>,
    pub pack: Vec<u8>,
}

impl IndexEntry {
    pub open spec fn fields(&self) -> (Seq<u8>, Seq<u8>, Seq<u8>) {
        (self.class@, self.file_id@, self.pack@)
    }
}

/// The rows among `ls` with exactly four tab-separated columns, as
/// (class, model id, pack file); other lines are skipped.
pub open spec fn rows(ls: Seq<Seq<u8>>) -> Seq<(Seq<u8>, Seq<u8>, Seq<u8>)>
    decreases ls.len(),
{
    if ls.len() == 0 {
        seq![]
    } else {
        let r = rows(ls.drop_last());
        let c = pieces(ls.last(), 9);
        if c.len() == 4 {
            r.push((c[0], c[1], c[3]))
        } else {
            r
        }
    }
}

/// The columns of one line.
fn columns(line: &Vec<u8>) -> (cols: Vec<Vec<u8>>)
    ensures
        cols@.len() == pieces(line@, 9).len(),
        forall|k: int| 0 <= k < cols@.len() ==> #[trigger] cols@[k]@ == pieces(line@, 9)[k],
{
    let ghost l = line@;
    let mut done: Vec<Vec<u8>> = Vec::new();
    let mut cur: Vec<u8> = Vec::new();
    let mut j: usize = 0;
    assert(l.take(0) =~= Seq::<u8>::empty());
    while j < line.len()
        invariant
            l == line@,
            j <= l.len(),
            pieces(l.take(j as int), 9).len() == done@.len() + 1,
            forall|k: int| 0 <= k < done@.len() ==> #[trigger] done@[k]@ == pieces(l.take(j as int), 9)[k],
            cur@ == pieces(l.take(j as int), 9).last(),
        decreases l.len() - j,
    {
        let b = line[j];
        proof {
            assert(l.take(j + 1).drop_last() =~= l.take(j as int));
            lemma_pieces_nonempty(l.take(j as int), 9);
        }
        if b == 9 {
            done.push(cur);
            cur = Vec::new();
        } else {
            cur.push(b);
        }
        j += 1;
    }
    assert(l.take(l.len() as int) =~= l);
    let ghost last = cur@;
    done.push(cur);
    proof {
        assert forall|k: int| 0 <= k < done@.len() implies #[trigger] done@[k]@ == pieces(l, 9)[k] by {
            if k == done@.len() - 1 {
                assert(done@[k]@ == last);
            }
        }
    }
    done
}

/// The entries of a manifest: one per line with exactly four
/// tab-separated columns (class, model id, unused, pack file).
pub fn index_entries(text: &[u8]) -> (es: Vec<IndexEntry>)
    ensures
        es@.len() == rows(lines(text@)).len(),
        forall|k: int| 0 <= k < es@.len() ==> (#[trigger] es@[k]).fields() == rows(lines(text@))[k],
{
    let ghost s = text@;
    let ghost mut ended: Seq<Seq<u8>> = seq![];
    let mut es: Vec<IndexEntry> = Vec::new();
    let mut cur: Vec<u8> = Vec::new();
    let mut i: usize = 0;
    assert(s.take(0) =~= Seq::<u8>::empty());
    while i < text.len()
        invariant
            s == text@,
            i <= s.len(),
            pieces(s.take(i as int), 10).len() == ended.len() + 1,
            forall|k: int| 0 <= k < ended.len() ==> #[trigger] ended[k] == pieces(s.take(i as int), 10)[k],
            cur@ == pieces(s.take(i as int), 10).last(),
            es@.len() == rows(ended.map_values(|l: Seq<u8>| without_cr(l))).len(),
            forall|k: int| 0 <= k < es@.len() ==> (#[trigger] es@[k]).fields() == rows(ended.map_values(|l: Seq<u8>| without_cr(l)))[k],
        decreases s.len() - i,
    {
        let b = text[i];
        proof {
            assert(s.take(i + 1).drop_last() =~= s.take(i as int));
            lemma_pieces_nonempty(s.take(i as int), 10);
        }
        if b == 10 {
            let ghost before = ended.map_values(|l: Seq<u8>| without_cr(l));
            if cur.len() > 0 && cur[cur.len() - 1] == 13 {
                cur.pop();
            }
            let line = cur;
            let cols = columns(&line);
            proof {
                ended = ended.push(pieces(s.take(i as int), 10).last());
                assert(ended.map_values(|l: Seq<u8>| without_cr(l)) =~= before.push(line@));
                assert(ended.map_values(|l: Seq<u8>| without_cr(l)).drop_last() =~= before);
            }
            if cols.len() == 4 {
                let entry = IndexEntry { class: clone_bytes(&cols[0]), file_id: clone_bytes(&cols[1]), pack: clone_bytes(&cols[3]) };
                es.push(entry);
            }
            cur = Vec::new();
        } else {
            cur.push(b);
        }
        i += 1;
    }
    assert(s.take(s.len() as int) =~= s);
    proof {
        lemma_pieces_nonempty(s, 10);
        let p = pieces(s, 10);
        assert(Seq::new((p.len() - 1) as nat, |k: int| without_cr(p[k])) =~= ended.map_values(|l: Seq<u8>| without_cr(l)));
    }
    if cur.len() > 0 {
        let ghost before = ended.map_values(|l: Seq<u8>| without_cr(l));
        let cols = columns(&cur);
        proof {
            assert(lines(s) =~= before.push(cur@));
            assert(lines(s).drop_last() =~= before);
        }
        if cols.len() == 4 {
            let entry = IndexEntry { class: clone_bytes(&cols[0]), file_id: clone_bytes(&cols[1]), pack: clone_bytes(&cols[3]) };
            es.push(entry);
        }
    }
    es
}

fn clone_bytes(v: &Vec<u8>) -> (c: Vec<u8>)
    ensures
        c@ == v@,
{
    let mut c: Vec<u8> = Vec::new();
    let mut i: usize = 0;
    while i < v.len()
        invariant
            i <= v@.len(),
            c@ == v@.subrange(0, i as int),
        decreases v@.len() - i,
    {
        c.push(v[i]);
        i += 1;
    }
    assert(v@.subrange(0, v@.len() as int) =~= v@);
    c
}

} // verus!
