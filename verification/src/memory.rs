//! Allocation accounting.
//!
//! Instruction count alone cannot arbitrate an allocation change: a change
//! can cut instructions while making wall time worse through cache
//! behaviour. So every allocation and free is counted, and a measured
//! region reports how many allocation calls it made, how many bytes it
//! requested, and the high-water mark of bytes it held at once.
//!
//! `Counting` is the bookkeeping of a counting allocator: the hooks
//! `record_alloc` and `record_dealloc` are what an allocator calls on
//! every allocation and free.

use vstd::prelude::*;

verus! {

/// What one measured region allocated.
#[derive(Clone, Copy, Debug)]
pub struct Usage {
    /// Number of allocation calls.
    pub allocs: usize,
    /// Total bytes requested, including freed ones.
    pub bytes: usize,
    /// High-water mark of simultaneously live bytes.
    pub peak: usize,
}

/// Counters of a counting allocator.
#[derive(Clone, Copy, Debug)]
pub struct Counting {
    /// Allocation calls since the counters were created.
    pub allocs: usize,
    /// Bytes requested since the counters were created.
    pub bytes: usize,
    /// Bytes allocated and not yet freed.
    pub live: usize,
    /// High-water mark of `live` since the last region started.
    pub peak: usize,
}

/// The counters at the start of a measured region.
#[derive(Clone, Copy, Debug)]
pub struct Region {
    pub allocs: usize,
    pub bytes: usize,
    pub live: usize,
}

/// One allocator event.
pub enum Event {
    Alloc(nat),
    Dealloc(nat),
}

/// The counters in unbounded arithmetic.
pub struct Counters {
    pub allocs: int,
    pub bytes: int,
    pub live: int,
    pub peak: int,
}

/// The counters after one event.
pub open spec fn step(s: Counters, e: Event) -> Counters {
    match e {
        Event::Alloc(n) => Counters {
            allocs: s.allocs + 1,
            bytes: s.bytes + n,
            live: s.live + n,
            peak: max_int(s.peak, s.live + n),
        },
        Event::Dealloc(n) => Counters { live: s.live - n, ..s },
    }
}

/// The counters after a run of events.
pub open spec fn replay(s: Counters, es: Seq<Event>) -> Counters
    decreases es.len(),
{
    if es.len() == 0 {
        s
    } else {
        step(replay(s, es.drop_last()), es.last())
    }
}

/// Highest live total seen during a run of events, the start included.
pub open spec fn high_water(s: Counters, es: Seq<Event>) -> int
    decreases es.len(),
{
    if es.len() == 0 {
        s.live
    } else {
        max_int(high_water(s, es.drop_last()), replay(s, es).live)
    }
}

/// Allocation calls in a run of events.
pub open spec fn alloc_calls(es: Seq<Event>) -> int
    decreases es.len(),
{
    if es.len() == 0 {
        0
    } else {
        alloc_calls(es.drop_last()) + if es.last() is Alloc { 1int } else { 0 }
    }
}

/// Bytes requested in a run of events.
pub open spec fn alloc_bytes(es: Seq<Event>) -> int
    decreases es.len(),
{
    if es.len() == 0 {
        0
    } else {
        alloc_bytes(es.drop_last()) + match es.last() {
            Event::Alloc(n) => n as int,
            Event::Dealloc(_) => 0,
        }
    }
}

/// After a run of events the counters hold the start plus every call and
/// byte requested, and the peak is the larger of the starting peak and the
/// highest live total the run reached.
///
/// In particular, for a region (whose start sets the peak to the live
/// total), the region's peak is the high-water mark of the region alone:
/// memory freed before the region started cannot inflate it.
pub proof fn lemma_replay(s: Counters, es: Seq<Event>)
    requires
        s.live <= s.peak,
    ensures
        replay(s, es).live <= high_water(s, es),
        replay(s, es).allocs == s.allocs + alloc_calls(es),
        replay(s, es).bytes == s.bytes + alloc_bytes(es),
        replay(s, es).peak == max_int(s.peak, high_water(s, es)),
    decreases es.len(),
{
    if es.len() > 0 {
        lemma_replay(s, es.drop_last());
    }
}

pub open spec fn max_int(a: int, b: int) -> int {
    if a >= b {
        a
    } else {
        b
    }
}

impl Counting {
    /// Every byte still live was requested, and the peak covers it.
    pub open spec fn wf(self) -> bool {
        &&& self.live <= self.peak
        &&& self.live <= self.bytes
    }

    /// The counters in unbounded arithmetic.
    pub open spec fn counters(self) -> Counters {
        Counters { allocs: self.allocs as int, bytes: self.bytes as int, live: self.live as int, peak: self.peak as int }
    }

    /// Fresh counters: nothing allocated.
    pub fn new() -> (c: Counting)
        ensures
            c.allocs == 0,
            c.bytes == 0,
            c.live == 0,
            c.peak == 0,
            c.wf(),
    {
        Counting { allocs: 0, bytes: 0, live: 0, peak: 0 }
    }

    /// Hook for one allocation of `size` bytes.
    pub fn record_alloc(&mut self, size: usize)
        requires
            old(self).allocs < usize::MAX,
            old(self).bytes + size <= usize::MAX,
            old(self).live + size <= usize::MAX,
        ensures
            final(self).counters() == step(old(self).counters(), Event::Alloc(size as nat)),
            old(self).wf() ==> final(self).wf(),
    {
        self.allocs = self.allocs + 1;
        self.bytes = self.bytes + size;
        let live = self.live + size;
        self.live = live;
        if live > self.peak {
            self.peak = live;
        }
    }

    /// Hook for one free of `size` bytes that were allocated earlier.
    pub fn record_dealloc(&mut self, size: usize)
        requires
            size <= old(self).live,
        ensures
            final(self).counters() == step(old(self).counters(), Event::Dealloc(size as nat)),
            old(self).wf() ==> final(self).wf(),
    {
        self.live = self.live - size;
    }

    /// Start a measured region.
    ///
    /// Peak is reset to the CURRENT live total rather than to zero, so
    /// memory already held on entry is not counted as if this region had
    /// allocated it.
    pub fn start_region(&mut self) -> (r: Region)
        ensures
            final(self).allocs == old(self).allocs,
            final(self).bytes == old(self).bytes,
            final(self).live == old(self).live,
            final(self).peak == old(self).live,
            r.allocs == old(self).allocs,
            r.bytes == old(self).bytes,
            r.live == old(self).live,
            old(self).live <= old(self).bytes ==> final(self).wf(),
    {
        self.peak = self.live;
        Region { allocs: self.allocs, bytes: self.bytes, live: self.live }
    }

    /// What was allocated since `region` started.
    pub fn usage_since(&self, region: &Region) -> (u: Usage)
        requires
            region.allocs <= self.allocs,
            region.bytes <= self.bytes,
        ensures
            u.allocs == self.allocs - region.allocs,
            u.bytes == self.bytes - region.bytes,
            u.peak == if self.peak >= region.live { self.peak - region.live } else { 0 },
    {
        Usage {
            allocs: self.allocs - region.allocs,
            bytes: self.bytes - region.bytes,
            peak: self.peak.saturating_sub(region.live),
        }
    }
}

/// The counters as a region started from `c` sees them.
pub open spec fn started(c: Counting) -> Counting {
    Counting { peak: c.live, ..c }
}

/// `later` is `earlier` advanced by some run of allocations and frees,
/// each recorded through the allocator hooks.
pub open spec fn recorded(earlier: Counting, later: Counting) -> bool {
    exists|es: Seq<Event>| later.counters() == replay(earlier.counters(), es)
}

/// Bytes requested bound everything a run does: the live total never rises
/// above the start by more than the bytes requested, and a run with no
/// allocation call requests nothing and never rises above the start.
pub proof fn lemma_bounded_by_requests(s: Counters, es: Seq<Event>)
    ensures
        0 <= alloc_calls(es),
        0 <= alloc_bytes(es),
        replay(s, es).live <= s.live + alloc_bytes(es),
        s.live <= high_water(s, es) <= s.live + alloc_bytes(es),
        alloc_calls(es) == 0 ==> alloc_bytes(es) == 0 && high_water(s, es) == s.live,
    decreases es.len(),
{
    if es.len() > 0 {
        lemma_bounded_by_requests(s, es.drop_last());
    }
}

/// Measure what `f` allocates.
///
/// The counters are handed to `f`, which runs with them as the counting
/// allocator's state: every allocation and free it makes goes through the
/// hooks, and it hands the counters back. The region starts just before
/// `f` runs; peak is reset to the live total, not to zero.
pub fn measure<T, F: FnOnce(Counting) -> (T, Counting)>(counting: &mut Counting, f: F) -> (out: (T, Usage))
    requires
        call_requires(f, (started(*old(counting)),)),
        forall|r: (T, Counting)| #[trigger] call_ensures(f, (started(*old(counting)),), r) ==> recorded(started(*old(counting)), r.1),
    ensures
        call_ensures(f, (started(*old(counting)),), (out.0, *final(counting))),
        exists|es: Seq<Event>| {
            &&& final(counting).counters() == #[trigger] replay(started(*old(counting)).counters(), es)
            &&& out.1.allocs == alloc_calls(es)
            &&& out.1.bytes == alloc_bytes(es)
            &&& out.1.peak == high_water(started(*old(counting)).counters(), es) - old(counting).live
        },
        out.1.allocs == final(counting).allocs - old(counting).allocs,
        out.1.bytes == final(counting).bytes - old(counting).bytes,
        out.1.peak == final(counting).peak - old(counting).live,
        out.1.peak <= out.1.bytes,
        out.1.allocs == 0 ==> out.1.bytes == 0 && out.1.peak == 0,
{
    let region = counting.start_region();
    let start = *counting;
    assert(start == started(*old(counting)));
    let (out, after) = f(start);
    let ghost es = choose|es: Seq<Event>| after.counters() == replay(start.counters(), es);
    proof {
        lemma_replay(start.counters(), es);
        lemma_bounded_by_requests(start.counters(), es);
    }
    *counting = after;
    let usage = counting.usage_since(&region);
    (out, usage)
}

/// The length of the UTF-8 encoded white-space character (Unicode's
/// `White_Space`, what `str::split_whitespace` splits on) that starts at
/// `i` in `s`, or 0 when none does.
pub open spec fn space_len(s: Seq<u8>, i: int) -> int {
    let b = |k: int| if 0 <= i + k < s.len() { s[i + k] as int } else { -1 };
    if b(0) == 0x20 || (0x09 <= b(0) && b(0) <= 0x0d) {
        1
    } else if b(0) == 0xc2 && (b(1) == 0x85 || b(1) == 0xa0) {
        2
    } else if b(0) == 0xe1 && b(1) == 0x9a && b(2) == 0x80 {
        3
    } else if b(0) == 0xe2 && b(1) == 0x80 && ((0x80 <= b(2) && b(2) <= 0x8a) || b(2) == 0xa8 || b(2) == 0xa9
        || b(2) == 0xaf) {
        3
    } else if b(0) == 0xe2 && b(1) == 0x81 && b(2) == 0x9f {
        3
    } else if b(0) == 0xe3 && b(1) == 0x80 && b(2) == 0x80 {
        3
    } else {
        0
    }
}

/// Where the line starting at `i` ends: at the next newline, or the end.
pub open spec fn line_end(s: Seq<u8>, i: int) -> int
    decreases s.len() - i,
{
    if i >= s.len() || i < 0 {
        s.len() as int
    } else if s[i] == 0x0a {
        i
    } else {
        line_end(s, i + 1)
    }
}

/// The first position at or after `i` that is not white space.
pub open spec fn skip_space(s: Seq<u8>, i: int) -> int
    decreases s.len() - i,
{
    if i >= s.len() || i < 0 {
        s.len() as int
    } else if space_len(s, i) > 0 {
        skip_space(s, i + space_len(s, i))
    } else {
        i
    }
}

/// The first position at or after `i` that is white space.
pub open spec fn word_end(s: Seq<u8>, i: int) -> int
    decreases s.len() - i,
{
    if i >= s.len() || i < 0 {
        s.len() as int
    } else if space_len(s, i) > 0 {
        i
    } else {
        word_end(s, i + 1)
    }
}

/// The first white-space separated word of `s`, if any.
pub open spec fn first_word(s: Seq<u8>) -> Option<Seq<u8>> {
    let a = skip_space(s, 0);
    if a >= s.len() {
        None
    } else {
        Some(s.subrange(a, word_end(s, a)))
    }
}

/// The decimal value of a run of digits.
pub open spec fn decimal(d: Seq<u8>) -> int
    decreases d.len(),
{
    if d.len() == 0 {
        0
    } else {
        decimal(d.drop_last()) * 10 + (d.last() - 0x30)
    }
}

pub open spec fn all_digits(d: Seq<u8>) -> bool {
    forall|k: int| 0 <= k < d.len() ==> 0x30 <= #[trigger] d[k] <= 0x39
}

/// A word read as a `u64` the way `str::parse` reads one: an optional `+`,
/// then one or more decimal digits whose value fits.
pub open spec fn parse_u64(w: Seq<u8>) -> Option<u64> {
    digits_value(unsigned(w))
}

/// A word without its leading `+`, if it has one.
pub open spec fn unsigned(w: Seq<u8>) -> Seq<u8> {
    if w.len() > 0 && w[0] == 0x2b {
        w.skip(1)
    } else {
        w
    }
}

/// One or more decimal digits whose value fits in a `u64`, read as one.
pub open spec fn digits_value(d: Seq<u8>) -> Option<u64> {
    if d.len() > 0 && all_digits(d) && decimal(d) <= u64::MAX {
        Some(decimal(d) as u64)
    } else {
        None
    }
}

/// The key of the high-water resident set size in the status text.
pub open spec fn hwm_key() -> Seq<u8> {
    seq![0x56u8, 0x6d, 0x48, 0x57, 0x4d, 0x3a]
}

/// The peak resident set size in kB that the status text reports on its
/// first line starting with `VmHWM:`, scanning lines from position `i`:
/// the first word after the key, read as a number. `None` when no line has
/// the key, or that line has no word or a word that is not a number.
pub open spec fn hwm_from(s: Seq<u8>, i: int) -> Option<u64>
    decreases s.len() + 1 - i,
{
    if i >= s.len() || i < 0 {
        None
    } else {
        let e = line_end(s, i);
        let line = s.subrange(i, e);
        if line.len() >= 6 && line.subrange(0, 6) == hwm_key() {
            match first_word(line.skip(6)) {
                Some(w) => parse_u64(w),
                None => None,
            }
        } else {
            proof {
                lemma_line_end(s, i);
                assert(e >= i);
            }
            hwm_from(s, e + 1)
        }
    }
}

/// A line runs from its start to the next newline, which it does not hold.
pub proof fn lemma_line_end(s: Seq<u8>, i: int)
    requires
        0 <= i <= s.len(),
    ensures
        i <= line_end(s, i) <= s.len(),
        line_end(s, i) < s.len() ==> s[line_end(s, i)] == 0x0a,
        forall|k: int| i <= k < line_end(s, i) ==> s[k] != 0x0a,
    decreases s.len() - i,
{
    if i < s.len() && s[i] != 0x0a {
        lemma_line_end(s, i + 1);
    }
}

fn line_end_at(s: &[u8], i: usize) -> (e: usize)
    requires
        i <= s@.len(),
    ensures
        e == line_end(s@, i as int),
{
    let mut j = i;
    while j < s.len() && s[j] != 0x0a
        invariant
            i <= j <= s@.len(),
            line_end(s@, j as int) == line_end(s@, i as int),
        decreases s.len() - j,
    {
        j = j + 1;
    }
    j
}

/// The bytes `s[a..b]`, copied.
fn copy_range(s: &[u8], a: usize, b: usize) -> (v: Vec<u8>)
    requires
        a <= b <= s@.len(),
    ensures
        v@ == s@.subrange(a as int, b as int),
{
    let mut v: Vec<u8> = Vec::new();
    let mut k = a;
    while k < b
        invariant
            a <= k <= b <= s@.len(),
            v@ == s@.subrange(a as int, k as int),
        decreases b - k,
    {
        v.push(s[k]);
        k = k + 1;
        assert(v@ =~= s@.subrange(a as int, k as int));
    }
    v
}

fn space_at(s: &[u8], i: usize) -> (n: usize)
    requires
        i < s@.len(),
    ensures
        n == space_len(s@, i as int),
{
    let len = s.len();
    let b0 = s[i];
    let b1: i32 = if len - i > 1 { s[i + 1] as i32 } else { -1 };
    let b2: i32 = if len - i > 2 { s[i + 2] as i32 } else { -1 };
    if b0 == 0x20 || (0x09 <= b0 && b0 <= 0x0d) {
        1
    } else if b0 == 0xc2 && (b1 == 0x85 || b1 == 0xa0) {
        2
    } else if b0 == 0xe1 && b1 == 0x9a && b2 == 0x80 {
        3
    } else if b0 == 0xe2 && b1 == 0x80 && ((0x80 <= b2 && b2 <= 0x8a) || b2 == 0xa8 || b2 == 0xa9 || b2 == 0xaf) {
        3
    } else if b0 == 0xe2 && b1 == 0x81 && b2 == 0x9f {
        3
    } else if b0 == 0xe3 && b1 == 0x80 && b2 == 0x80 {
        3
    } else {
        0
    }
}

/// The first white-space separated word of `s`.
fn first_word_of(s: &[u8]) -> (r: Option<Vec<u8>>)
    ensures
        match first_word(s@) {
            Some(w) => r matches Some(v) && v@ == w,
            None => r is None,
        },
{
    let mut a: usize = 0;
    loop
        invariant
            a <= s@.len(),
            skip_space(s@, a as int) == skip_space(s@, 0),
        ensures
            a <= s@.len(),
            skip_space(s@, 0) == a,
        decreases s.len() - a,
    {
        if a >= s.len() {
            break;
        }
        let n = space_at(s, a);
        if n == 0 {
            break;
        }
        a = a + n;
    }
    if a >= s.len() {
        return None;
    }
    let mut b = a;
    while b < s.len() && space_at(s, b) == 0
        invariant
            a <= b <= s@.len(),
            word_end(s@, b as int) == word_end(s@, a as int),
        decreases s.len() - b,
    {
        b = b + 1;
    }
    Some(copy_range(s, a, b))
}

proof fn lemma_decimal_grows(d: Seq<u8>, c: u8)
    requires
        0x30 <= c <= 0x39,
        decimal(d) >= 0,
    ensures
        decimal(d.push(c)) == decimal(d) * 10 + (c - 0x30),
        decimal(d.push(c)) >= decimal(d),
{
    assert(d.push(c).drop_last() =~= d);
}

/// Read one or more decimal digits as a `u64`.
fn parse_digits(d: &[u8]) -> (r: Option<u64>)
    ensures
        r == digits_value(d@),
{
    if d.len() == 0 {
        return None;
    }
    let mut acc: u64 = 0;
    let mut overflow = false;
    let mut k: usize = 0;
    while k < d.len()
        invariant
            k <= d@.len(),
            all_digits(d@.subrange(0, k as int)),
            decimal(d@.subrange(0, k as int)) >= 0,
            !overflow ==> acc == decimal(d@.subrange(0, k as int)),
            overflow ==> decimal(d@.subrange(0, k as int)) > u64::MAX,
        decreases d.len() - k,
    {
        let c = d[k];
        let ghost pre = d@.subrange(0, k as int);
        assert(d@.subrange(0, k + 1) =~= pre.push(c));
        if c < 0x30 || c > 0x39 {
            assert(!(0x30 <= d@[k as int] <= 0x39));
            return None;
        }
        proof {
            lemma_decimal_grows(pre, c);
        }
        if !overflow {
            match acc.checked_mul(10) {
                Some(t) => match t.checked_add((c - 0x30) as u64) {
                    Some(n) => {
                        acc = n;
                    },
                    None => {
                        overflow = true;
                    },
                },
                None => {
                    overflow = true;
                },
            }
        }
        k = k + 1;
    }
    assert(d@.subrange(0, d@.len() as int) =~= d@);
    if overflow {
        None
    } else {
        Some(acc)
    }
}

/// Read a word as a `u64`, as `str::parse` does.
fn parse_word(w: &[u8]) -> (r: Option<u64>)
    ensures
        r == parse_u64(w@),
{
    let start: usize = if w.len() > 0 && w[0] == 0x2b { 1 } else { 0 };
    let digits = copy_range(w, start, w.len());
    assert(digits@ =~= unsigned(w@));
    parse_digits(&digits)
}

/// The peak resident set size in kB that a process status text reports
/// (its `VmHWM:` line). `None` when the text has no such line, or the
/// line's first word is missing or not a number. Words are separated by
/// Unicode white space, as `str::split_whitespace` separates them.
pub fn peak_kb_of_status(status: &[u8]) -> (r: Option<u64>)
    ensures
        r == hwm_from(status@, 0),
{
    let mut i: usize = 0;
    while i < status.len()
        invariant
            i <= status@.len(),
            hwm_from(status@, i as int) == hwm_from(status@, 0),
        decreases status.len() - i,
    {
        let e = line_end_at(status, i);
        proof {
            lemma_line_end(status@, i as int);
        }
        let ghost line = status@.subrange(i as int, e as int);
        if e - i >= 6 && status[i] == 0x56 && status[i + 1] == 0x6d && status[i + 2] == 0x48 && status[i + 3] == 0x57
            && status[i + 4] == 0x4d && status[i + 5] == 0x3a {
            assert(line.subrange(0, 6) =~= hwm_key());
            let rest = copy_range(status, i + 6, e);
            assert(rest@ =~= line.skip(6));
            return match first_word_of(&rest) {
                Some(w) => parse_word(&w),
                None => None,
            };
        }
        assert(!(line.len() >= 6 && line.subrange(0, 6) == hwm_key())) by {
            if line.len() >= 6 && line.subrange(0, 6) == hwm_key() {
                assert(line.subrange(0, 6)[0] == 0x56u8);
                assert(line.subrange(0, 6)[1] == 0x6du8);
                assert(line.subrange(0, 6)[2] == 0x48u8);
                assert(line.subrange(0, 6)[3] == 0x57u8);
                assert(line.subrange(0, 6)[4] == 0x4du8);
                assert(line.subrange(0, 6)[5] == 0x3au8);
            }
        }
        if e >= status.len() {
            assert(hwm_from(status@, e + 1) == None::<u64>);
            return None;
        }
        i = e + 1;
    }
    None
}

} // verus!
