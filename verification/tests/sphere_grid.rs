use axiolid_contracts::ExecutionOptions;
use axiolid_core::{BooleanOperator, Point3, Tolerance};
use axiolid_mesh::TriMesh;
use axiolid_mesh_boolean_boolmesh::BoolmeshBoolean;
use axiolid_mesh_boolean_contract::MeshBoolean;
use kernel_bench::sphere_grid::{reduce, union_all, Arrangement, Strategy};

fn join(a: &String, b: &String) -> Option<String> {
    Some(format!("({a}{b})"))
}

fn parts(n: usize) -> Vec<String> {
    (0..n).map(|i| ((b'a' + i as u8) as char).to_string()).collect()
}

#[test]
fn a_fold_grows_from_the_left() {
    let r = reduce(&parts(4), Strategy::Sequential, join);
    assert_eq!(r.as_deref(), Some("(((ab)c)d)"));
}

#[test]
fn a_tree_pairs_neighbours_and_carries_the_odd_one() {
    assert_eq!(reduce(&parts(4), Strategy::Tree, join).as_deref(), Some("((ab)(cd))"));
    assert_eq!(reduce(&parts(5), Strategy::Tree, join).as_deref(), Some("(((ab)(cd))e)"));
    assert_eq!(reduce(&parts(3), Strategy::Tree, join).as_deref(), Some("((ab)c)"));
}

#[test]
fn empty_and_single_inputs() {
    assert_eq!(reduce(&parts(0), Strategy::Tree, join), None);
    assert_eq!(reduce(&parts(0), Strategy::Sequential, join), None);
    assert_eq!(reduce(&parts(1), Strategy::Tree, join).as_deref(), Some("a"));
    assert_eq!(reduce(&parts(1), Strategy::Sequential, join).as_deref(), Some("a"));
}

#[test]
fn one_failed_union_fails_the_whole_reduction() {
    let refuse_d = |a: &String, b: &String| if b == "d" { None } else { Some(format!("{a}{b}")) };
    assert_eq!(reduce(&parts(5), Strategy::Sequential, refuse_d), None);
    assert_eq!(reduce(&parts(5), Strategy::Tree, refuse_d), None);
}

#[test]
fn both_strategies_make_n_minus_one_calls() {
    for n in 1..10 {
        for strategy in [Strategy::Sequential, Strategy::Tree] {
            let calls = std::cell::Cell::new(0usize);
            let count = |a: &u32, b: &u32| {
                calls.set(calls.get() + 1);
                Some(a + b)
            };
            let total = reduce(&(1..=n as u32).collect::<Vec<_>>(), strategy, count);
            assert_eq!(total, Some((n * (n + 1) / 2) as u32));
            assert_eq!(calls.get(), n - 1, "{} with {n} parts", strategy.label());
        }
    }
}

#[test]
fn arrangements_and_strategies_are_labelled() {
    assert_eq!(Arrangement::Disjoint.spacing_half_radii(), 6);
    assert_eq!(Arrangement::Overlapping.spacing_half_radii(), 3);
    assert_eq!(Arrangement::Disjoint.label(), "disjoint");
    assert_eq!(Arrangement::Overlapping.label(), "overlap");
    assert_eq!(Strategy::Sequential.label(), "seq");
    assert_eq!(Strategy::Tree.label(), "tree");
}

fn cube(x: f64) -> TriMesh {
    let p = |a: f64, b: f64, c: f64| Point3::new(x + a, b, c);
    let positions = vec![
        p(0.0, 0.0, 0.0),
        p(1.0, 0.0, 0.0),
        p(1.0, 1.0, 0.0),
        p(0.0, 1.0, 0.0),
        p(0.0, 0.0, 1.0),
        p(1.0, 0.0, 1.0),
        p(1.0, 1.0, 1.0),
        p(0.0, 1.0, 1.0),
    ];
    TriMesh::new(positions, kernel_bench::mesh::BOX_TRIS.to_vec())
}

#[test]
fn union_all_of_nothing_or_one() {
    let provider = BoolmeshBoolean::new();
    let options = ExecutionOptions::new(Tolerance::MILLIMETRE);
    let union = |a: &TriMesh, b: &TriMesh| provider.boolean(a, b, BooleanOperator::Union, &options).ok().map(|o| o.mesh);
    assert!(union_all(&[], Strategy::Tree, union).is_none());
    let one = union_all(&[cube(0.0)], Strategy::Sequential, union).expect("a single part is its own union");
    assert_eq!(one.positions.len(), 8);
    assert_eq!(one.indices, kernel_bench::mesh::BOX_TRIS.to_vec());
}

#[test]
fn union_all_of_disjoint_cubes_keeps_both() {
    let provider = BoolmeshBoolean::new();
    let options = ExecutionOptions::new(Tolerance::MILLIMETRE);
    let union = |a: &TriMesh, b: &TriMesh| provider.boolean(a, b, BooleanOperator::Union, &options).ok().map(|o| o.mesh);
    for strategy in [Strategy::Sequential, Strategy::Tree] {
        if let Some(u) = union_all(&[cube(0.0), cube(3.0)], strategy, union) {
            assert!(u.indices.len() >= 2 * 36, "{} lost triangles", strategy.label());
        }
    }
}
