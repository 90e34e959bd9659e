use kernel_bench::cellular::{subtract_boxes, CellBox, Cells};
use std::collections::BTreeMap;

fn cutter(lo: [usize; 3], hi: [usize; 3]) -> CellBox {
    CellBox { lo, hi }
}

/// Every directed edge is matched by its reverse: a closed, consistently
/// wound surface.
fn balanced(m: &Cells) -> bool {
    let mut count: BTreeMap<(u32, u32), i64> = BTreeMap::new();
    for t in m.indices.chunks_exact(3) {
        for (a, b) in [(t[0], t[1]), (t[1], t[2]), (t[2], t[0])] {
            *count.entry((a, b)).or_insert(0) += 1;
            *count.entry((b, a)).or_insert(0) -= 1;
        }
    }
    count.values().all(|&c| c == 0)
}

/// Six times the signed volume, in grid cells.
fn six_volume(m: &Cells) -> i64 {
    let p = |i: u32| {
        let g = m.grid[i as usize];
        [g.0 as i64, g.1 as i64, g.2 as i64]
    };
    let mut sum = 0i64;
    for t in m.indices.chunks_exact(3) {
        let (a, b, c) = (p(t[0]), p(t[1]), p(t[2]));
        sum += a[0] * (b[1] * c[2] - b[2] * c[1]) - a[1] * (b[0] * c[2] - b[2] * c[0])
            + a[2] * (b[0] * c[1] - b[1] * c[0]);
    }
    sum
}

#[test]
fn no_cutters_is_declined() {
    assert!(subtract_boxes([2, 2, 2], &[], 1000).is_none());
}

#[test]
fn too_many_cells_is_declined() {
    let c = [cutter([0, 0, 0], [1, 1, 1])];
    assert!(subtract_boxes([10, 10, 10], &c, 999).is_none());
    assert!(subtract_boxes([10, 10, 10], &c, 1000).is_some());
}

#[test]
fn a_cutter_covering_nothing_leaves_the_box() {
    let c = [cutter([0, 0, 0], [0, 0, 0])];
    let m = subtract_boxes([1, 1, 1], &c, 10).unwrap();
    assert_eq!(m.grid.len(), 8);
    assert_eq!(m.indices.len(), 36);
    assert!(balanced(&m));
    assert_eq!(six_volume(&m), 6);
    // The first face met is the +x face of the only cell.
    assert_eq!(&m.grid[..4], &[(1, 0, 0), (1, 1, 0), (1, 1, 1), (1, 0, 1)]);
    assert_eq!(&m.indices[..6], &[0, 1, 2, 0, 2, 3]);
}

#[test]
fn a_cutter_covering_everything_leaves_nothing() {
    let c = [cutter([0, 0, 0], [3, 3, 3])];
    let m = subtract_boxes([3, 3, 3], &c, 100).unwrap();
    assert!(m.grid.is_empty());
    assert!(m.indices.is_empty());
}

#[test]
fn a_hollow_cube_has_an_inner_shell() {
    let c = [cutter([1, 1, 1], [2, 2, 2])];
    let m = subtract_boxes([3, 3, 3], &c, 100).unwrap();
    // 54 outer quads and 6 facing the cavity.
    assert_eq!(m.indices.len(), 60 * 6);
    assert_eq!(m.grid.len(), 64);
    assert!(balanced(&m));
    assert_eq!(six_volume(&m), 6 * 26);
}

#[test]
fn a_full_cut_splits_the_wall() {
    // A wall three cells long with the middle column cut right through:
    // two closed pieces remain.
    let c = [cutter([1, 0, 0], [2, 1, 3])];
    let m = subtract_boxes([3, 1, 3], &c, 100).unwrap();
    assert!(balanced(&m));
    assert_eq!(six_volume(&m), 6 * 6);
}

#[test]
fn corners_are_shared_not_duplicated() {
    let c = [cutter([0, 0, 0], [1, 1, 1]), cutter([2, 2, 2], [3, 3, 3])];
    let m = subtract_boxes([3, 3, 3], &c, 100).unwrap();
    let mut seen = std::collections::BTreeSet::new();
    for g in &m.grid {
        assert!(seen.insert(*g), "corner {g:?} appears twice");
    }
    assert!(balanced(&m));
    assert_eq!(six_volume(&m), 6 * 25);
}

#[test]
fn overlapping_cutters_cover_their_union() {
    let c = [cutter([0, 0, 0], [2, 1, 1]), cutter([1, 0, 0], [3, 1, 1])];
    let m = subtract_boxes([3, 1, 1], &c, 100).unwrap();
    assert!(m.indices.is_empty());
}

#[test]
fn the_same_input_gives_the_same_mesh() {
    let c = [cutter([1, 0, 1], [2, 2, 2]), cutter([0, 1, 0], [1, 2, 1])];
    let a = subtract_boxes([3, 2, 3], &c, 100).unwrap();
    let b = subtract_boxes([3, 2, 3], &c, 100).unwrap();
    assert_eq!(a.grid, b.grid);
    assert_eq!(a.indices, b.indices);
}

#[test]
fn cells_meeting_along_an_edge_stay_balanced() {
    // Two solid cells that share only an edge: every directed edge of the
    // surface, the shared one included, is still matched by its reverse.
    let c = [cutter([0, 1, 0], [1, 2, 1]), cutter([1, 0, 0], [2, 1, 1])];
    let m = subtract_boxes([2, 2, 1], &c, 100).unwrap();
    assert_eq!(m.indices.len(), 2 * 6 * 6);
    assert!(balanced(&m));
    assert_eq!(six_volume(&m), 6 * 2);
}
