use kernel_bench::mesh::{
    classify, count_distinct, fingerprint, fnv, reindex_vertices, shuffle_triangles, subdivide, triples, Mesh,
    Rng, Stability, BOX_TRIS,
};

fn xorshift(mut s: u64) -> u64 {
    s ^= s << 13;
    s ^= s >> 7;
    s ^= s << 17;
    s
}

fn tri_mesh() -> Mesh<u32> {
    // Positions are labels, so where each one lands is visible.
    Mesh { positions: vec![10, 11, 12, 13], indices: vec![0, 1, 2, 0, 2, 3, 1, 3, 2] }
}

#[test]
fn triples_group_indices_and_drop_a_partial_tail() {
    assert_eq!(triples(&[0, 1, 2, 3, 4, 5, 6]), vec![[0, 1, 2], [3, 4, 5]]);
    assert!(triples(&[]).is_empty());
}

#[test]
fn box_triangles_are_outward_and_closed() {
    let t = triples(&BOX_TRIS);
    assert_eq!(t.len(), 12);
    for a in 0..12 {
        for k in 0..3 {
            let (u, v) = (t[a][k], t[a][(k + 1) % 3]);
            let reversed = t.iter().filter(|s| (0..3).any(|m| s[m] == v && s[(m + 1) % 3] == u)).count();
            assert_eq!(reversed, 1, "edge {u}-{v}");
        }
    }
}

#[test]
fn concat_rebases_indices() {
    let a = Mesh { positions: vec!['a', 'b', 'c'], indices: vec![0, 1, 2] };
    let b = Mesh { positions: vec!['x', 'y', 'z', 'w'], indices: vec![3, 2, 1, 0, 1, 2] };
    let out = kernel_bench::mesh::concat(&[a, b]);
    assert_eq!(out.positions, vec!['a', 'b', 'c', 'x', 'y', 'z', 'w']);
    assert_eq!(out.indices, vec![0, 1, 2, 6, 5, 4, 3, 4, 5]);
    let none: [Mesh<char>; 0] = [];
    let empty = kernel_bench::mesh::concat(&none);
    assert!(empty.positions.is_empty() && empty.indices.is_empty());
}

#[test]
fn fnv_folds_with_the_64_bit_prime() {
    assert_eq!(fnv(&[]), 0);
    assert_eq!(fnv(&[5]), 5);
    assert_eq!(fnv(&[1, 2]), 0x100000001b3u64 ^ 2);
    let expected = [7u64, 9, 11].iter().fold(0u64, |h, &w| h.wrapping_mul(0x100000001b3) ^ w);
    assert_eq!(fnv(&[7, 9, 11]), expected);
}

#[test]
fn fingerprints_cover_positions_and_indices() {
    let bits = [1.0f64.to_bits(), 2.0f64.to_bits(), 3.0f64.to_bits()];
    let fp = fingerprint(&bits, &[0, 0, 0]);
    assert_eq!(fp.0, 1);
    assert_eq!(fp.1, 1);
    assert_eq!(fp.2, fnv(&[bits[0], bits[1], bits[2], 0, 0, 0]));
    // A permuted index buffer changes the hash though the counts agree.
    let a = fingerprint(&bits, &[0, 1, 2, 2, 1, 0]);
    let b = fingerprint(&bits, &[2, 1, 0, 0, 1, 2]);
    assert_eq!((a.0, a.1), (b.0, b.1));
    assert_ne!(a.2, b.2);
}

#[test]
fn runs_are_classified() {
    assert_eq!(classify(&[]), Stability::NoResult);
    assert_eq!(classify(&[(3, 1, 7), (3, 1, 7)]), Stability::Stable);
    assert_eq!(classify(&[(3, 1, 7), (3, 1, 8)]), Stability::OrderingOrValue);
    assert_eq!(classify(&[(3, 1, 7), (3, 1, 8), (4, 1, 7)]), Stability::Topology);
    assert_eq!(count_distinct(&[(3, 1, 7), (3, 1, 8), (3, 1, 7), (4, 1, 7)]), 3);
    assert_eq!(count_distinct(&[]), 0);
}

#[test]
fn the_generator_is_xorshift() {
    let mut r = Rng(1);
    let a = r.next();
    assert_eq!(a, xorshift(1));
    let b = r.next();
    assert_eq!(b, xorshift(xorshift(1)));
    let mut r = Rng(42);
    let k = r.upto(10);
    assert_eq!(k as u64, xorshift(42) % 10);
    assert_eq!(r.0, xorshift(42));
}

#[test]
fn shuffling_keeps_every_triangle() {
    let m = tri_mesh();
    let mut rng = Rng(0x9e3779b97f4a7c15);
    let out = shuffle_triangles(&m, &mut rng);
    assert_eq!(out.positions, m.positions);
    let mut before = triples(&m.indices);
    let mut after = triples(&out.indices);
    before.sort();
    after.sort();
    assert_eq!(before, after);
    // Two swaps were drawn for three triangles.
    assert_eq!(rng.0, xorshift(xorshift(0x9e3779b97f4a7c15)));
}

#[test]
fn shuffling_follows_fisher_yates() {
    let m = tri_mesh();
    let seed = 12345u64;
    let mut tris = triples(&m.indices);
    let mut s = seed;
    for i in (1..tris.len()).rev() {
        s = xorshift(s);
        let j = (s % (i as u64 + 1)) as usize;
        tris.swap(i, j);
    }
    let mut rng = Rng(seed);
    let out = shuffle_triangles(&m, &mut rng);
    assert_eq!(triples(&out.indices), tris);
}

#[test]
fn reindexing_keeps_every_corner() {
    let m = tri_mesh();
    let mut rng = Rng(7);
    let out = reindex_vertices(&m, &mut rng);
    assert_eq!(out.positions.len(), m.positions.len());
    assert_eq!(out.indices.len(), m.indices.len());
    for k in 0..m.indices.len() {
        assert_eq!(out.positions[out.indices[k] as usize], m.positions[m.indices[k] as usize]);
    }
    let mut sorted = out.positions.clone();
    sorted.sort();
    assert_eq!(sorted, m.positions);
}

#[test]
fn subdivision_quadruples_triangles() {
    let m = Mesh { positions: vec![0i64, 10, 20], indices: vec![0, 1, 2] };
    let out = subdivide(&m, |a: i64, b: i64| (a + b) / 2);
    assert_eq!(out.positions, vec![0, 10, 20, 5, 15, 10]);
    assert_eq!(out.indices, vec![0, 3, 5, 3, 1, 4, 5, 4, 2, 3, 4, 5]);
    let twice = subdivide(&out, |a: i64, b: i64| (a + b) / 2);
    assert_eq!(twice.indices.len(), 4 * 12);
    assert_eq!(twice.positions.len(), 2 * 12);
}

#[test]
fn concat_shifts_indices_as_given() {
    // Indices past a mesh's own positions are shifted all the same.
    let a = Mesh { positions: vec!['a', 'b'], indices: vec![7] };
    let b = Mesh { positions: vec!['x'], indices: vec![9, 0] };
    let out = kernel_bench::mesh::concat(&[a, b]);
    assert_eq!(out.positions, vec!['a', 'b', 'x']);
    assert_eq!(out.indices, vec![7, 11, 2]);
}
