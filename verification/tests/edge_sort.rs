use kernel_bench::edge_sort::radix_sort_edges;

fn edges_of(indices: &[u32]) -> Vec<(u64, u64, i8)> {
    let mut records = Vec::new();
    for (n, t) in indices.chunks_exact(3).enumerate() {
        for (x, y) in [(t[0], t[1]), (t[1], t[2]), (t[2], t[0])] {
            records.push((u64::from(x.min(y)), u64::from(x.max(y)), (n % 100) as i8));
        }
    }
    records
}

#[test]
fn radix_order_matches_a_stable_comparison_sort() {
    let indices = [0, 11, 5, 0, 5, 1, 0, 1, 7, 0, 7, 10, 0, 10, 11, 1, 5, 9, 5, 11, 4, 11, 10, 2, 10, 7, 6, 7, 1, 8, 3, 9, 4, 3, 4, 2];
    let base = edges_of(&indices);
    let mut want = base.clone();
    want.sort_by_key(|e| (e.0, e.1));
    let mut got = base.clone();
    radix_sort_edges(&mut got, 12);
    assert_eq!(got, want);
}

#[test]
fn radix_sort_handles_empty_and_single() {
    let mut v: Vec<(u64, u64, i8)> = Vec::new();
    radix_sort_edges(&mut v, 0);
    assert!(v.is_empty());
    let mut v = vec![(0, 0, 7)];
    radix_sort_edges(&mut v, 0);
    assert_eq!(v, vec![(0, 0, 7)]);
}

#[test]
fn equal_keys_keep_their_order() {
    let mut v = vec![(2, 3, 1), (1, 3, 2), (2, 3, 3), (1, 2, 4), (2, 3, 5), (0, 9, 6)];
    radix_sort_edges(&mut v, 9);
    assert_eq!(v, vec![(0, 9, 6), (1, 2, 4), (1, 3, 2), (2, 3, 1), (2, 3, 3), (2, 3, 5)]);
}

#[test]
fn keys_at_the_bucket_bound_are_sorted() {
    let mut v = vec![(5, 5, 0), (0, 5, 1), (5, 0, 2), (0, 0, 3)];
    radix_sort_edges(&mut v, 5);
    assert_eq!(v, vec![(0, 0, 3), (0, 5, 1), (5, 0, 2), (5, 5, 0)]);
}
