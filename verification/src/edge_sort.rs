//! Radix sort of edge records by their vertex-index key.
//!
//! An edge record is `(low, high, tag)`. The key is a pair of vertex indices
//! bounded by the vertex count, which a comparison sort cannot exploit but a
//! least-significant-digit radix sort can: two stable counting passes, by
//! `high` and then by `low`, order the records by `(low, high)` and keep
//! records with equal keys in their original order.

use vstd::prelude::*;

verus! {

pub type Edge = (u64, u64, i8);

/// The field a counting pass sorts on: `low` when `by_low`, else `high`.
pub open spec fn key_of(e: Edge, by_low: bool) -> int {
    if by_low {
        e.0 as int
    } else {
        e.1 as int
    }
}

/// The records of `s` whose pass key is `k`, in their order in `s`.
pub open spec fn bucket(s: Seq<Edge>, by_low: bool, k: int) -> Seq<Edge>
    decreases s.len(),
{
    if s.len() == 0 {
        seq![]
    } else {
        let r = bucket(s.drop_last(), by_low, k);
        if key_of(s.last(), by_low) == k {
            r.push(s.last())
        } else {
            r
        }
    }
}

/// The buckets `0 .. m` of `s`, one after another: what a stable counting
/// pass over keys below `m` produces.
pub open spec fn bucketed(s: Seq<Edge>, by_low: bool, m: int) -> Seq<Edge>
    decreases m,
{
    if m <= 0 {
        seq![]
    } else {
        bucketed(s, by_low, m - 1) + bucket(s, by_low, m - 1)
    }
}

/// The number of records of `s` whose pass key is below `m`.
pub open spec fn below(s: Seq<Edge>, by_low: bool, m: int) -> int
    decreases s.len(),
{
    if s.len() == 0 {
        0
    } else {
        below(s.drop_last(), by_low, m) + if key_of(s.last(), by_low) < m {
            1int
        } else {
            0int
        }
    }
}

/// The records of `s` with key `(l, h)`, in their order in `s`.
pub open spec fn keyed(s: Seq<Edge>, l: int, h: int) -> Seq<Edge>
    decreases s.len(),
{
    if s.len() == 0 {
        seq![]
    } else {
        let r = keyed(s.drop_last(), l, h);
        if s.last().0 == l && s.last().1 == h {
            r.push(s.last())
        } else {
            r
        }
    }
}

/// Ordered by `(low, high)`.
pub open spec fn sorted_by_key(s: Seq<Edge>) -> bool {
    forall|i: int, j: int|
        0 <= i < j < s.len() ==> s[i].0 < s[j].0 || (s[i].0 == s[j].0 && s[i].1 <= s[j].1)
}

/// Ordered by `high`.
pub open spec fn sorted_by_high(s: Seq<Edge>) -> bool {
    forall|i: int, j: int| 0 <= i < j < s.len() ==> s[i].1 <= s[j].1
}

pub open spec fn keys_within(s: Seq<Edge>, n: int) -> bool {
    forall|i: int| #![trigger s[i]] 0 <= i < s.len() ==> s[i].0 < n && s[i].1 < n
}

proof fn lemma_bucket_step(s: Seq<Edge>, p: int, by_low: bool, k: int)
    requires
        0 <= p < s.len(),
    ensures
        bucket(s.take(p + 1), by_low, k) == if key_of(s[p], by_low) == k {
            bucket(s.take(p), by_low, k).push(s[p])
        } else {
            bucket(s.take(p), by_low, k)
        },
{
    assert(s.take(p + 1).drop_last() =~= s.take(p));
}

/// The bucket of a prefix is a prefix of the bucket.
proof fn lemma_bucket_prefix(s: Seq<Edge>, q: int, by_low: bool, k: int)
    requires
        0 <= q <= s.len(),
    ensures
        bucket(s.take(q), by_low, k).len() <= bucket(s, by_low, k).len(),
        forall|j: int| 0 <= j < bucket(s.take(q), by_low, k).len() ==> #[trigger] bucket(s.take(q), by_low, k)[j] == bucket(s, by_low, k)[j],
    decreases s.len() - q,
{
    if q == s.len() {
        assert(s.take(q) =~= s);
    } else {
        let t = s.drop_last();
        lemma_bucket_prefix(t, q, by_low, k);
        assert(t.take(q) =~= s.take(q));
    }
}

proof fn lemma_bucket_keys(s: Seq<Edge>, by_low: bool, k: int)
    ensures
        bucket(s, by_low, k).len() <= s.len(),
        forall|j: int| 0 <= j < bucket(s, by_low, k).len() ==> key_of(#[trigger] bucket(s, by_low, k)[j], by_low) == k,
        forall|j: int| 0 <= j < bucket(s, by_low, k).len() ==> s.contains(#[trigger] bucket(s, by_low, k)[j]),
        sorted_by_high(s) ==> sorted_by_high(bucket(s, by_low, k)),
    decreases s.len(),
{
    if s.len() > 0 {
        let t = s.drop_last();
        lemma_bucket_keys(t, by_low, k);
        let r = bucket(t, by_low, k);
        assert forall|j: int| 0 <= j < bucket(s, by_low, k).len() implies s.contains(#[trigger] bucket(s, by_low, k)[j]) by {
            if j < r.len() {
                let w = choose|w: int| 0 <= w < t.len() && t[w] == r[j];
                assert(s[w] == r[j]);
            } else {
                assert(s[s.len() - 1] == s.last());
            }
        }
        if sorted_by_high(s) {
            assert(sorted_by_high(t));
            assert forall|i: int, j: int| 0 <= i < j < bucket(s, by_low, k).len() implies
                bucket(s, by_low, k)[i].1 <= bucket(s, by_low, k)[j].1 by {
                if j == r.len() && key_of(s.last(), by_low) == k {
                    let w = choose|w: int| 0 <= w < t.len() && t[w] == r[i];
                    assert(s[w] == r[i]);
                }
            }
        }
    }
}

proof fn lemma_below(s: Seq<Edge>, by_low: bool, m: int, n: int)
    requires
        0 <= m,
    ensures
        below(s, by_low, m + 1) == below(s, by_low, m) + bucket(s, by_low, m).len(),
        0 <= below(s, by_low, m) <= s.len(),
        below(s, by_low, 0) == 0,
        keys_within(s, n) && m >= n ==> below(s, by_low, m) == s.len(),
    decreases s.len(),
{
    if s.len() > 0 {
        let t = s.drop_last();
        lemma_below(t, by_low, m, n);
        if keys_within(s, n) && m >= n {
            assert forall|i: int| #![trigger t[i]] 0 <= i < t.len() implies t[i].0 < n && t[i].1 < n by {
                assert(s[i] == t[i]);
            }
            assert(keys_within(t, n));
            assert(s[s.len() - 1] == s.last());
            assert(s[s.len() - 1].0 < n && s[s.len() - 1].1 < n);
            assert(key_of(s.last(), by_low) < m);
        }
    }
}

/// Where each bucket starts in the concatenation.
proof fn lemma_bucketed_len(s: Seq<Edge>, by_low: bool, m: int, n: int)
    requires
        0 <= m,
    ensures
        bucketed(s, by_low, m).len() == below(s, by_low, m),
        keys_within(s, n) && m >= n ==> bucketed(s, by_low, m).len() == s.len(),
    decreases m,
{
    if m > 0 {
        lemma_bucketed_len(s, by_low, m - 1, n);
        lemma_below(s, by_low, m - 1, n);
    }
    lemma_below(s, by_low, m, n);
}

proof fn lemma_start_monotone(s: Seq<Edge>, by_low: bool, k1: int, k2: int)
    requires
        0 <= k1 <= k2,
    ensures
        bucketed(s, by_low, k1).len() <= bucketed(s, by_low, k2).len(),
    decreases k2 - k1,
{
    if k1 < k2 {
        lemma_start_monotone(s, by_low, k1, k2 - 1);
    }
}

/// Bucket `k` sits in the concatenation right after buckets `0 .. k`.
proof fn lemma_bucketed_index(s: Seq<Edge>, by_low: bool, m: int, k: int, j: int)
    requires
        0 <= k < m,
        0 <= j < bucket(s, by_low, k).len(),
    ensures
        bucketed(s, by_low, k).len() + j < bucketed(s, by_low, m).len(),
        bucketed(s, by_low, m)[bucketed(s, by_low, k).len() + j] == bucket(s, by_low, k)[j],
    decreases m,
{
    if k < m - 1 {
        lemma_bucketed_index(s, by_low, m - 1, k, j);
    }
}

/// Every position of the concatenation lies in some bucket.
proof fn lemma_locate(s: Seq<Edge>, by_low: bool, m: int, i: int) -> (k: int)
    requires
        0 <= i < bucketed(s, by_low, m).len(),
    ensures
        0 <= k < m,
        bucketed(s, by_low, k).len() <= i < bucketed(s, by_low, k + 1).len(),
    decreases m,
{
    if i < bucketed(s, by_low, m - 1).len() {
        lemma_locate(s, by_low, m - 1, i)
    } else {
        m - 1
    }
}

proof fn lemma_keyed_add(a: Seq<Edge>, b: Seq<Edge>, l: int, h: int)
    ensures
        keyed(a + b, l, h) == keyed(a, l, h) + keyed(b, l, h),
    decreases b.len(),
{
    if b.len() == 0 {
        assert(a + b =~= a);
        assert(keyed(a, l, h) + keyed(b, l, h) =~= keyed(a, l, h));
    } else {
        assert((a + b).drop_last() =~= a + b.drop_last());
        lemma_keyed_add(a, b.drop_last(), l, h);
        assert(keyed(a, l, h) + keyed(b.drop_last(), l, h).push(b.last()) =~= (keyed(a, l, h) + keyed(b.drop_last(), l, h)).push(b.last()));
    }
}

/// The field of key `(l, h)` that a pass sorts on.
pub open spec fn pass_field(l: int, h: int, by_low: bool) -> int {
    if by_low {
        l
    } else {
        h
    }
}

proof fn lemma_keyed_bucket(s: Seq<Edge>, by_low: bool, k: int, l: int, h: int)
    ensures
        keyed(bucket(s, by_low, k), l, h) == if pass_field(l, h, by_low) == k {
            keyed(s, l, h)
        } else {
            seq![]
        },
    decreases s.len(),
{
    if s.len() > 0 {
        lemma_keyed_bucket(s.drop_last(), by_low, k, l, h);
        let r = bucket(s.drop_last(), by_low, k);
        if key_of(s.last(), by_low) == k {
            assert(r.push(s.last()).drop_last() =~= r);
        }
    }
}

proof fn lemma_keyed_bucketed(s: Seq<Edge>, by_low: bool, m: int, l: int, h: int)
    ensures
        keyed(bucketed(s, by_low, m), l, h) == if 0 <= pass_field(l, h, by_low) < m {
            keyed(s, l, h)
        } else {
            seq![]
        },
    decreases m,
{
    if m > 0 {
        lemma_keyed_bucketed(s, by_low, m - 1, l, h);
        lemma_keyed_add(bucketed(s, by_low, m - 1), bucket(s, by_low, m - 1), l, h);
        lemma_keyed_bucket(s, by_low, m - 1, l, h);
        let e: Seq<Edge> = seq![];
        assert(e + keyed(s, l, h) =~= keyed(s, l, h));
        assert(keyed(s, l, h) + e =~= keyed(s, l, h));
        assert(e + e =~= e);
    }
}

proof fn lemma_keyed_absent(s: Seq<Edge>, n: int, l: int, h: int)
    requires
        keys_within(s, n),
        l >= n || h >= n,
    ensures
        keyed(s, l, h) == Seq::<Edge>::empty(),
    decreases s.len(),
{
    if s.len() > 0 {
        let t = s.drop_last();
        assert forall|i: int| #![trigger t[i]] 0 <= i < t.len() implies t[i].0 < n && t[i].1 < n by {
            assert(s[i] == t[i]);
        }
        lemma_keyed_absent(t, n, l, h);
        assert(s[s.len() - 1] == s.last());
    }
}

/// The concatenated buckets are ordered by the pass key, hold records of
/// `s`, and -- on the `low` pass over records already ordered by `high` --
/// are ordered by `(low, high)`.
proof fn lemma_bucketed_order(s: Seq<Edge>, by_low: bool, m: int)
    ensures
        forall|i: int| 0 <= i < bucketed(s, by_low, m).len() ==> key_of(#[trigger] bucketed(s, by_low, m)[i], by_low) < m,
        forall|i: int| 0 <= i < bucketed(s, by_low, m).len() ==> s.contains(#[trigger] bucketed(s, by_low, m)[i]),
        forall|i: int, j: int| 0 <= i < j < bucketed(s, by_low, m).len() ==> key_of(#[trigger] bucketed(s, by_low, m)[i], by_low) <= key_of(#[trigger] bucketed(s, by_low, m)[j], by_low),
        !by_low ==> sorted_by_high(bucketed(s, by_low, m)),
        by_low && sorted_by_high(s) ==> sorted_by_key(bucketed(s, by_low, m)),
    decreases m,
{
    if m > 0 {
        lemma_bucketed_order(s, by_low, m - 1);
        lemma_bucket_keys(s, by_low, m - 1);
        let a = bucketed(s, by_low, m - 1);
        let b = bucket(s, by_low, m - 1);
        let c = bucketed(s, by_low, m);
        assert(c == a + b);
        assert forall|i: int| 0 <= i < c.len() implies key_of(#[trigger] c[i], by_low) < m && s.contains(c[i]) by {
            if i < a.len() {
                assert(c[i] == a[i]);
            } else {
                assert(c[i] == b[i - a.len()]);
            }
        }
        assert forall|i: int, j: int| 0 <= i < j < c.len() implies key_of(c[i], by_low) <= key_of(c[j], by_low) && (
            !by_low ==> c[i].1 <= c[j].1) && (by_low && sorted_by_high(s) ==> (c[i].0 < c[j].0 || (c[i].0 == c[j].0 && c[i].1 <= c[j].1))) by {
            if j < a.len() {
                assert(c[i] == a[i] && c[j] == a[j]);
            } else if i < a.len() {
                assert(c[i] == a[i] && c[j] == b[j - a.len()]);
            } else {
                assert(c[i] == b[i - a.len()] && c[j] == b[j - a.len()]);
            }
        }
    }
}

fn pass_key(e: Edge, by_low: bool) -> (k: usize)
    requires
        e.0 < usize::MAX,
        e.1 < usize::MAX,
    ensures
        k == key_of(e, by_low),
{
    if by_low {
        e.0 as usize
    } else {
        e.1 as usize
    }
}

/// One stable counting pass over keys below `n`: `out` receives the records
/// of `src` bucket by bucket.
fn counting_pass(src: &Vec<Edge>, out: &mut Vec<Edge>, n: usize, by_low: bool)
    requires
        old(out)@.len() == src@.len(),
        keys_within(src@, n as int),
        n < usize::MAX,
    ensures
        final(out)@ == bucketed(src@, by_low, n as int),
{
    let ghost s = src@;
    let len = src.len();
    // counts[k + 1]: how many records have key k.
    let mut counts: Vec<usize> = Vec::new();
    while counts.len() < n + 1
        invariant
            n < usize::MAX,
            counts@.len() <= n + 1,
            forall|k: int| 0 <= k < counts@.len() ==> counts@[k] == 0,
        decreases n + 1 - counts@.len(),
    {
        counts.push(0);
    }
    let mut p: usize = 0;
    while p < len
        invariant
            s == src@,
            len == s.len(),
            keys_within(s, n as int),
            n < usize::MAX,
            p <= len,
            counts@.len() == n + 1,
            counts@[0] == 0,
            forall|k: int| 0 <= k < n ==> #[trigger] counts@[k + 1] == bucket(s.take(p as int), by_low, k).len(),
        decreases len - p,
    {
        let e = src[p];
        assert(s[p as int].0 < n && s[p as int].1 < n);
        let k = pass_key(e, by_low);
        proof {
            assert forall|k2: int| 0 <= k2 < n implies bucket(s.take(p + 1), by_low, k2).len() == bucket(s.take(p as int), by_low, k2).len() + if k2 == k {
                1int
            } else {
                0int
            } by {
                lemma_bucket_step(s, p as int, by_low, k2);
            }
            lemma_bucket_keys(s.take(p as int), by_low, k as int);
        }
        counts.set(k + 1, counts[k + 1] + 1);
        p += 1;
    }
    assert(s.take(len as int) =~= s);
    assert forall|k: int| 0 < k <= n implies #[trigger] counts@[k] == bucket(s, by_low, k - 1).len() by {
        assert(counts@[(k - 1) + 1] == bucket(s.take(len as int), by_low, k - 1).len());
    }
    // counts[k]: where bucket k starts.
    let mut i: usize = 0;
    proof {
        lemma_bucketed_len(s, by_low, 0, n as int);
        lemma_bucketed_len(s, by_low, n as int, n as int);
    }
    while i < n
        invariant
            s == src@,
            len == s.len(),
            keys_within(s, n as int),
            i <= n,
            counts@.len() == n + 1,
            bucketed(s, by_low, n as int).len() == len,
            forall|k: int| 0 <= k <= i ==> #[trigger] counts@[k] == bucketed(s, by_low, k).len(),
            forall|k: int| i < k <= n ==> #[trigger] counts@[k] == bucket(s, by_low, k - 1).len(),
        decreases n - i,
    {
        proof {
            lemma_start_monotone(s, by_low, i + 1, n as int);
        }
        counts.set(i + 1, counts[i + 1] + counts[i]);
        i += 1;
    }
    // Place each record at the next free slot of its bucket.
    let mut p: usize = 0;
    while p < len
        invariant
            s == src@,
            len == s.len(),
            keys_within(s, n as int),
            n < usize::MAX,
            p <= len,
            counts@.len() == n + 1,
            out@.len() == len,
            bucketed(s, by_low, n as int).len() == len,
            forall|k: int| 0 <= k < n ==> #[trigger] counts@[k] == bucketed(s, by_low, k).len() + bucket(s.take(p as int), by_low, k).len(),
            forall|k: int, j: int| 0 <= k < n && 0 <= j < bucket(s.take(p as int), by_low, k).len() ==>
                out@[bucketed(s, by_low, k).len() + j] == #[trigger] bucket(s.take(p as int), by_low, k)[j],
        decreases len - p,
    {
        let e = src[p];
        assert(s[p as int].0 < n && s[p as int].1 < n);
        let k = pass_key(e, by_low);
        let slot = counts[k];
        let ghost before = bucket(s.take(p as int), by_low, k as int);
        proof {
            lemma_bucket_step(s, p as int, by_low, k as int);
            lemma_bucket_prefix(s, p + 1, by_low, k as int);
            lemma_start_monotone(s, by_low, k + 1, n as int);
            assert forall|k2: int| 0 <= k2 < n implies bucket(s.take(p + 1), by_low, k2) == if k2 == k {
                bucket(s.take(p as int), by_low, k2).push(s[p as int])
            } else {
                bucket(s.take(p as int), by_low, k2)
            } by {
                lemma_bucket_step(s, p as int, by_low, k2);
            }
        }
        let ghost out_before = out@;
        out.set(slot, e);
        proof {
            assert forall|k2: int, j: int| 0 <= k2 < n && 0 <= j < bucket(s.take(p + 1), by_low, k2).len() implies
                out@[bucketed(s, by_low, k2).len() + j] == #[trigger] bucket(s.take(p + 1), by_low, k2)[j] by {
                let start = bucketed(s, by_low, k2).len();
                assert(bucketed(s, by_low, k2 + 1).len() == start + bucket(s, by_low, k2).len());
                assert(bucketed(s, by_low, k + 1).len() == bucketed(s, by_low, k as int).len() + bucket(s, by_low, k as int).len());
                if k2 != k {
                    lemma_bucket_prefix(s, p + 1, by_low, k2);
                    if k2 < k {
                        lemma_start_monotone(s, by_low, k2 + 1, k as int);
                    } else {
                        lemma_start_monotone(s, by_low, k + 1, k2);
                    }
                    assert(start + j != slot);
                    lemma_start_monotone(s, by_low, k2 + 1, n as int);
                    assert(start + j < len);
                    assert(bucket(s.take(p + 1), by_low, k2) == bucket(s.take(p as int), by_low, k2));
                    assert(out_before[start + j] == bucket(s.take(p as int), by_low, k2)[j]);
                    assert(out@[start + j] == out_before[start + j]);
                } else if j < before.len() {
                    assert(start + j != slot);
                    assert(bucket(s.take(p + 1), by_low, k2) == before.push(s[p as int]));
                    assert(out_before[start + j] == before[j]);
                    assert(out@[start + j] == out_before[start + j]);
                } else {
                    assert(bucket(s.take(p + 1), by_low, k2) == before.push(s[p as int]));
                    assert(start + j == slot);
                    assert(out@[slot as int] == e);
                }
            }
        }
        counts.set(k, slot + 1);
        p += 1;
    }
    proof {
        assert(s.take(len as int) =~= s);
        assert forall|i: int| 0 <= i < len implies out@[i] == bucketed(s, by_low, n as int)[i] by {
            let k = lemma_locate(s, by_low, n as int, i);
            let j = i - bucketed(s, by_low, k).len();
            lemma_bucketed_index(s, by_low, n as int, k, j);
        }
        assert(out@ =~= bucketed(s, by_low, n as int));
    }
}

/// Sort edge records by `(low, high)`, keeping records with equal keys in
/// their original order. Every key field must be at most `buckets`.
pub fn radix_sort_edges(v: &mut Vec<Edge>, buckets: u64)
    requires
        keys_within(old(v)@, buckets + 1),
        buckets + 2 <= usize::MAX,
    ensures
        final(v)@.len() == old(v)@.len(),
        sorted_by_key(final(v)@),
        forall|l: u64, h: u64| #[trigger] keyed(final(v)@, l as int, h as int) == keyed(old(v)@, l as int, h as int),
{
    let ghost v0 = v@;
    let n = buckets as usize + 1;
    let mut out: Vec<Edge> = Vec::new();
    while out.len() < v.len()
        invariant
            out@.len() <= v@.len(),
        decreases v@.len() - out@.len(),
    {
        out.push((0, 0, 0));
    }
    // Least significant field first: `high`, then `low`.
    counting_pass(v, &mut out, n, false);
    std::mem::swap(v, &mut out);
    let ghost v1 = v@;
    proof {
        lemma_bucketed_len(v0, false, n as int, n as int);
        lemma_bucketed_order(v0, false, n as int);
        assert forall|i: int| #![trigger v1[i]] 0 <= i < v1.len() implies v1[i].0 < n && v1[i].1 < n by {
            let w = choose|w: int| 0 <= w < v0.len() && v0[w] == v1[i];
            assert(v0[w].0 < n);
        }
    }
    counting_pass(v, &mut out, n, true);
    std::mem::swap(v, &mut out);
    proof {
        lemma_bucketed_len(v1, true, n as int, n as int);
        lemma_bucketed_order(v1, true, n as int);
        assert forall|l: u64, h: u64| #[trigger] keyed(v@, l as int, h as int) == keyed(v0, l as int, h as int) by {
            lemma_keyed_bucketed(v1, true, n as int, l as int, h as int);
            lemma_keyed_bucketed(v0, false, n as int, l as int, h as int);
            if l >= n || h >= n {
                lemma_keyed_absent(v0, n as int, l as int, h as int);
                lemma_keyed_absent(v1, n as int, l as int, h as int);
            }
        }
    }
}

/// `(l1, h1)` orders before or with `(l2, h2)`.
pub open spec fn key_le(l1: int, h1: int, l2: int, h2: int) -> bool {
    l1 < l2 || (l1 == l2 && h1 <= h2)
}

proof fn lemma_keyed_last(s: Seq<Edge>, l: int, h: int)
    requires
        s.len() > 0,
    ensures
        keyed(s, l, h).len() == keyed(s.drop_last(), l, h).len() + if s.last().0 == l && s.last().1 == h {
            1int
        } else {
            0int
        },
{
}

/// A record with key `(l, h)` is present when the key's subsequence is not
/// empty.
proof fn lemma_keyed_present(s: Seq<Edge>, l: int, h: int) -> (i: int)
    requires
        keyed(s, l, h).len() > 0,
    ensures
        0 <= i < s.len(),
        s[i].0 == l && s[i].1 == h,
    decreases s.len(),
{
    if s.last().0 == l && s.last().1 == h {
        s.len() - 1
    } else {
        let i = lemma_keyed_present(s.drop_last(), l, h);
        assert(s[i] == s.drop_last()[i]);
        i
    }
}

/// The order by key is determined by how many records each key has: two
/// sequences ordered by `(low, high)` with the same number of records of
/// every key carry the same key at every position. So any sort by key
/// agrees with the radix sort on the key order, whatever it does with
/// records of equal keys.
pub proof fn lemma_key_order_is_determined(r: Seq<Edge>, w: Seq<Edge>)
    requires
        sorted_by_key(r),
        sorted_by_key(w),
        r.len() == w.len(),
        forall|l: int, h: int| #[trigger] keyed(r, l, h).len() == keyed(w, l, h).len(),
    ensures
        forall|i: int| 0 <= i < r.len() ==> (#[trigger] r[i]).0 == w[i].0 && r[i].1 == w[i].1,
    decreases r.len(),
{
    if r.len() > 0 {
        let (a, b) = (r.last(), w.last());
        // The last key of each is present in the other, and the last key
        // of a sorted sequence is its largest.
        assert(keyed(r, a.0 as int, a.1 as int).len() > 0);
        let j = lemma_keyed_present(w, a.0 as int, a.1 as int);
        assert(keyed(w, b.0 as int, b.1 as int).len() > 0);
        let k = lemma_keyed_present(r, b.0 as int, b.1 as int);
        if j < w.len() - 1 {
            assert(key_le(w[j].0 as int, w[j].1 as int, b.0 as int, b.1 as int));
        }
        if k < r.len() - 1 {
            assert(key_le(r[k].0 as int, r[k].1 as int, a.0 as int, a.1 as int));
        }
        assert(a.0 == b.0 && a.1 == b.1);
        let (r1, w1) = (r.drop_last(), w.drop_last());
        assert forall|l: int, h: int| #[trigger] keyed(r1, l, h).len() == keyed(w1, l, h).len() by {
            lemma_keyed_last(r, l, h);
            lemma_keyed_last(w, l, h);
        }
        lemma_key_order_is_determined(r1, w1);
        assert forall|i: int| 0 <= i < r.len() implies (#[trigger] r[i]).0 == w[i].0 && r[i].1 == w[i].1 by {
            if i < r.len() - 1 {
                assert(r[i] == r1[i] && w[i] == w1[i]);
            }
        }
    }
}

} // verus!
