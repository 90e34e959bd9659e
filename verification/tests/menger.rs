use kernel_bench::menger::{grid_size, void_count, voids, Void};

fn volume(v: &Void) -> u64 {
    (v.max[0] - v.min[0]) * (v.max[1] - v.min[1]) * (v.max[2] - v.min[2])
}

#[test]
fn void_counts_match_the_closed_form() {
    for depth in 0..4 {
        assert_eq!(voids(depth).len(), void_count(depth), "depth {depth}");
    }
    // Depth 1 removes 7 of 27 subcubes; depth 2 adds 20 more rounds of 7.
    assert_eq!(void_count(1), 7);
    assert_eq!(void_count(2), 147);
}

#[test]
fn voids_are_disjoint_and_sum_to_the_removed_volume() {
    for depth in 1..4u32 {
        let g = grid_size(depth) as f64;
        let total: f64 = voids(depth).iter().map(|v| volume(v) as f64 / (g * g * g)).sum();
        let removed = 1.0 - (20.0f64 / 27.0).powi(depth as i32);
        assert!(
            (total - removed).abs() < 1e-12,
            "depth {depth}: voids sum to {total}, expected {removed}"
        );
    }
}

#[test]
fn voids_share_faces_from_depth_two() {
    let d2 = voids(2);
    let overlap = |a: &Void, b: &Void, k: usize| a.min[k] < b.max[k] && b.min[k] < a.max[k];
    let abut = |a: &Void, b: &Void, k: usize| a.max[k] == b.min[k] || b.max[k] == a.min[k];
    let mut touching = 0usize;
    for i in 0..d2.len() {
        for j in i + 1..d2.len() {
            let (a, b) = (&d2[i], &d2[j]);
            if (0..3).any(|k| abut(a, b, k) && (0..3).filter(|&m| m != k).all(|m| overlap(a, b, m))) {
                touching += 1;
            }
        }
    }
    assert!(touching > 0, "depth 2 voids should include face-adjacent pairs; found none");
}

#[test]
fn grid_size_is_a_power_of_three() {
    assert_eq!(grid_size(0), 1);
    assert_eq!(grid_size(1), 3);
    assert_eq!(grid_size(4), 81);
}

#[test]
fn depth_zero_has_no_voids() {
    assert!(voids(0).is_empty());
    assert_eq!(void_count(0), 0);
}

#[test]
fn depth_one_voids_are_the_cross() {
    let v = voids(1);
    assert_eq!(v.len(), 7);
    // Every void is one unit cell with at least two centred coordinates.
    for b in &v {
        assert_eq!(volume(b), 1);
        let centred = (0..3).filter(|&k| b.min[k] == 1).count();
        assert!(centred >= 2, "{b:?}");
    }
}

#[test]
fn voids_are_pairwise_separated_and_inside_the_cube() {
    for depth in 1..4u32 {
        let g = grid_size(depth);
        let v = voids(depth);
        for b in &v {
            for k in 0..3 {
                assert!(b.min[k] < b.max[k] && b.max[k] <= g);
            }
        }
        for i in 0..v.len() {
            for j in i + 1..v.len() {
                let (a, b) = (&v[i], &v[j]);
                let apart = (0..3).any(|k| a.max[k] <= b.min[k] || b.max[k] <= a.min[k]);
                assert!(apart, "depth {depth}: {a:?} overlaps {b:?}");
            }
        }
        let total: u64 = v.iter().map(volume).sum();
        assert_eq!(total, 27u64.pow(depth) - 20u64.pow(depth));
    }
}
