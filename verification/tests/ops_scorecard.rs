use kernel_bench::ops::{evaluations, identities, Op, Pair, Scoring};
use kernel_bench::scorecard::{fault_count, Kind, Row, Shown};

#[test]
fn op_codes_match_the_shims() {
    assert_eq!(Op::Difference.code(), 0);
    assert_eq!(Op::Union.code(), 1);
    assert_eq!(Op::Intersection.code(), 2);
}

#[test]
fn identities_are_listed_in_report_order() {
    let ids = identities();
    let names: Vec<&str> = ids.iter().map(|i| i.name).collect();
    assert_eq!(names, vec!["partition", "inclusion-exclusion", "idempotence", "commutativity"]);
    assert_eq!(ids[1].law, "vol(AuB) + vol(A^B) = vol(A) + vol(B)");
}

#[test]
fn each_identity_asks_for_its_evaluations() {
    let (s, v) = evaluations(0).unwrap();
    assert_eq!(s, Scoring::Additive);
    assert_eq!(v, vec![(Op::Difference, Pair::Ab), (Op::Intersection, Pair::Ab)]);
    let (s, v) = evaluations(2).unwrap();
    assert_eq!(s, Scoring::Equivalence);
    assert_eq!(v, vec![(Op::Union, Pair::Aa)]);
    let (s, v) = evaluations(3).unwrap();
    assert_eq!(s, Scoring::Equivalence);
    assert_eq!(v, vec![(Op::Union, Pair::Ab), (Op::Union, Pair::Ba)]);
    assert!(evaluations(4).is_none());
}

#[test]
fn only_failed_gates_are_faults() {
    let rows = vec![
        Row::gate("volume", true, "1.0".to_owned()),
        Row::gate("closed", false, "no".to_owned()).with_note("3 boundary edges".to_owned()),
        Row::record("time", "12 ms".to_owned()),
        Row::absent("hausdorff", "no reference".to_owned()),
        Row::gate("euler", false, "-2".to_owned()),
    ];
    assert_eq!(fault_count(&rows), 2);
    assert_eq!(rows[0].shown(), Shown::Pass);
    assert_eq!(rows[1].shown(), Shown::Fail);
    assert_eq!(rows[1].note, "3 boundary edges");
    assert_eq!(rows[2].shown(), Shown::Note);
    assert_eq!(rows[3].value, "n/a");
    assert_eq!(rows[3].kind, Kind::Record);
    assert_eq!(rows[3].ok, None);
}

#[test]
fn records_never_fail_a_run() {
    let rows = vec![Row::record("a", "1".to_owned()), Row::absent("b", "why".to_owned())];
    assert_eq!(fault_count(&rows), 0);
    assert_eq!(fault_count(&[]), 0);
}
