use kernel_bench::contact::{lattice_boxes, oracle, Brick};

/// The expected oracles of the lattice cases, in unit volumes.
const TABLE: [(&str, f64, f64, f64); 7] = [
    ("disjoint (gap 1)", 2.0, 0.0, 1.0),
    ("contained (no contact)", 1.0, 0.125, 0.875),
    ("partial overlap", 1.5, 0.5, 0.5),
    ("identical", 1.0, 1.0, 0.0),
    ("face contact", 2.0, 0.0, 1.0),
    ("edge contact", 2.0, 0.0, 1.0),
    ("vertex contact", 2.0, 0.0, 1.0),
];

#[test]
fn lattice_oracles_match_the_table() {
    let cases = lattice_boxes();
    assert_eq!(cases.len(), TABLE.len());
    for (c, (name, u, i, d)) in cases.iter().zip(TABLE.iter()) {
        assert_eq!(c.name, *name);
        assert!(!c.refusal_ok);
        assert_eq!(c.oracle.union as f64 / 64.0, *u, "{name}");
        assert_eq!(c.oracle.intersection as f64 / 64.0, *i, "{name}");
        assert_eq!(c.oracle.difference as f64 / 64.0, *d, "{name}");
    }
}

#[test]
fn oracles_obey_inclusion_exclusion() {
    let a = Brick { min: [-3, 0, 2], max: [5, 7, 9] };
    let b = Brick { min: [1, -2, 4], max: [9, 3, 6] };
    let o = oracle(a, b);
    assert_eq!(o.intersection, 4 * 3 * 2);
    assert_eq!(o.union + o.intersection, 8 * 7 * 7 + 8 * 5 * 2);
    assert_eq!(o.difference + o.intersection, 8 * 7 * 7);
    let r = oracle(b, a);
    assert_eq!(r.union, o.union);
    assert_eq!(r.intersection, o.intersection);
}

#[test]
fn extreme_boxes_do_not_overflow() {
    let a = Brick { min: [i32::MIN; 3], max: [i32::MAX; 3] };
    let o = oracle(a, a);
    let side = (i32::MAX as i128) - (i32::MIN as i128);
    assert_eq!(o.intersection, side * side * side);
    assert_eq!(o.difference, 0);
    assert_eq!(o.union, o.intersection);
}
