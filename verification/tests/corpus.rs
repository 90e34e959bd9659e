use kernel_bench::corpus::{check_output, class_of, exercise, index_entries, judge, read_pack, write_pack, screen, tally, Class, Fault, Health, Outcome, Pack, Run};

fn pack(positions: &[[f64; 3]], indices: &[u32], nf: u32) -> Vec<u8> {
    let mut b = Vec::new();
    b.extend_from_slice(&(positions.len() as u32).to_le_bytes());
    b.extend_from_slice(&nf.to_le_bytes());
    for p in positions {
        for c in p {
            b.extend_from_slice(&c.to_le_bytes());
        }
    }
    for i in indices {
        b.extend_from_slice(&i.to_le_bytes());
    }
    b
}

fn clean() -> Health {
    Health {
        invalid_indices: 0,
        non_finite_positions: 0,
        degenerate_triangles: 0,
        boundary_edges: 0,
        non_manifold_edges: 0,
        inconsistent_winding_edges: 0,
    }
}

#[test]
fn a_pack_decodes_positions_and_indices() {
    let ps = [[1.0, 2.0, -3.5], [0.25, 1e300, -0.0], [7.0, 8.0, 9.0]];
    let bytes = pack(&ps, &[0, 1, 2, 2, 1, 70000], 2);
    assert_eq!(bytes.len(), 8 + 3 * 24 + 2 * 12);
    let p = read_pack(&bytes).expect("well-sized pack");
    assert_eq!(p.positions.len(), 3);
    for (got, want) in p.positions.iter().zip(ps.iter()) {
        for c in 0..3 {
            assert_eq!(got[c], want[c].to_bits());
        }
    }
    assert_eq!(p.indices, vec![0, 1, 2, 2, 1, 70000]);
}

#[test]
fn an_empty_pack_is_valid() {
    let p = read_pack(&[0, 0, 0, 0, 0, 0, 0, 0]).expect("header only");
    assert!(p.positions.is_empty());
    assert!(p.indices.is_empty());
}

#[test]
fn a_short_or_misfit_pack_is_refused() {
    assert!(read_pack(&[]).is_none());
    assert!(read_pack(&[1, 0, 0, 0, 0, 0, 0]).is_none());
    let mut bytes = pack(&[[1.0, 2.0, 3.0]], &[0, 0, 0], 1);
    bytes.push(0);
    assert!(read_pack(&bytes).is_none());
    bytes.truncate(bytes.len() - 2);
    assert!(read_pack(&bytes).is_none());
    // The header promises a triangle that is not there.
    assert!(read_pack(&pack(&[[1.0, 2.0, 3.0]], &[], 1)).is_none());
}

#[test]
fn labels_name_classes() {
    assert_eq!(class_of(&"open".to_owned()), Class::Open);
    assert_eq!(class_of(&"non_manifold".to_owned()), Class::NonManifold);
    assert_eq!(class_of(&"clean".to_owned()), Class::Clean);
    assert_eq!(class_of(&"Clean".to_owned()), Class::Other);
    assert_eq!(class_of(&"".to_owned()), Class::Other);
}

#[test]
fn an_open_model_must_have_a_boundary() {
    assert_eq!(screen(Class::Open, &clean()), Some(Fault::OpenWithoutBoundary));
    let open = Health { boundary_edges: 4, ..clean() };
    assert_eq!(screen(Class::Open, &open), None);
}

#[test]
fn a_non_manifold_model_must_have_a_defect() {
    assert_eq!(screen(Class::NonManifold, &clean()), Some(Fault::NonManifoldWithoutDefect));
    let wound = Health { inconsistent_winding_edges: 1, ..clean() };
    assert_eq!(screen(Class::NonManifold, &wound), None);
    let nm = Health { non_manifold_edges: 2, ..clean() };
    assert_eq!(screen(Class::NonManifold, &nm), None);
}

#[test]
fn dropped_slivers_do_not_make_a_clean_model_damaged() {
    // One degenerate triangle orphans exactly three boundary edges.
    let sliver = Health { degenerate_triangles: 1, boundary_edges: 3, ..clean() };
    assert_eq!(screen(Class::Clean, &sliver), None);
    let damaged = Health { degenerate_triangles: 1, boundary_edges: 4, ..clean() };
    assert_eq!(screen(Class::Clean, &damaged), Some(Fault::CleanButDamaged));
    // Damage other than boundary edges is not excused by slivers.
    let bad_index = Health { invalid_indices: 1, ..clean() };
    assert_eq!(screen(Class::Clean, &bad_index), None);
    let huge = Health { degenerate_triangles: usize::MAX, boundary_edges: usize::MAX, ..clean() };
    assert_eq!(screen(Class::Clean, &huge), None);
    assert_eq!(screen(Class::Other, &damaged), None);
}

#[test]
fn outputs_are_judged_in_order() {
    let before = Health { boundary_edges: 2, ..clean() };
    assert_eq!(check_output(Class::Clean, &before, &clean()), None);
    let both = Health { non_finite_positions: 1, invalid_indices: 1, ..clean() };
    assert_eq!(check_output(Class::Other, &before, &both), Some(Fault::NonFiniteOutput));
    let bad = Health { invalid_indices: 1, ..clean() };
    assert_eq!(check_output(Class::Other, &before, &bad), Some(Fault::InvalidIndexOutput));
    let opened = Health { boundary_edges: 3, ..clean() };
    assert_eq!(check_output(Class::Clean, &before, &opened), Some(Fault::CleanGainedBoundary));
    assert_eq!(check_output(Class::Open, &before, &opened), None);
}

#[test]
fn faults_explain_themselves() {
    assert_eq!(Fault::EmptyResult.why(), "empty mesh returned without an error");
    assert_eq!(Fault::CleanGainedBoundary.why(), "clean input gained boundary edges");
}

#[test]
fn outcomes_are_tallied() {
    let os = [
        Outcome::Produced,
        Outcome::Refused,
        Outcome::Panicked,
        Outcome::WrongShape(Fault::EmptyResult),
        Outcome::Produced,
    ];
    let t = tally(&os);
    assert_eq!((t.produced, t.refused, t.panics, t.faults), (2, 1, 1, 2));
    let none = tally(&[]);
    assert_eq!((none.produced, none.refused, none.panics, none.faults), (0, 0, 0, 0));
}

/// What the manifest reader does with `str::lines` and `str::split`.
fn reference_rows(text: &str) -> Vec<(String, String, String)> {
    let mut out = Vec::new();
    for line in text.lines() {
        let cols: Vec<&str> = line.split('\t').collect();
        if cols.len() == 4 {
            out.push((cols[0].to_owned(), cols[1].to_owned(), cols[3].to_owned()));
        }
    }
    out
}

fn parsed_rows(text: &str) -> Vec<(String, String, String)> {
    index_entries(text.as_bytes())
        .into_iter()
        .map(|e| {
            (
                String::from_utf8(e.class).unwrap(),
                String::from_utf8(e.file_id).unwrap(),
                String::from_utf8(e.pack).unwrap(),
            )
        })
        .collect()
}

#[test]
fn manifest_rows_need_four_columns() {
    let text = "clean\t37743\tx\tm37743.bin\nbad line\r\nopen\t9\t\tm9.bin\r\n\t\t\t\nnon_manifold\t5\ty\tm5.bin";
    let rows = parsed_rows(text);
    assert_eq!(rows, reference_rows(text));
    assert_eq!(rows.len(), 4);
    assert_eq!(rows[1], ("open".to_owned(), "9".to_owned(), "m9.bin".to_owned()));
    assert_eq!(rows[2], (String::new(), String::new(), String::new()));
}

#[test]
fn manifest_lines_split_like_str_lines() {
    for text in [
        "",
        "\n",
        "\r\n",
        "a\tb\tc\td",
        "a\tb\tc\td\r",
        "a\tb\tc\td\n\n",
        "a\tb\tc\td\r\r\n",
        "a\tb\tc\td\te\n1\t2\t3\t4\n",
        "\r\na\tb\tc\td\n\r",
    ] {
        assert_eq!(parsed_rows(text), reference_rows(text), "{text:?}");
    }
}

#[test]
fn a_model_is_judged_before_and_after_the_run() {
    let damaged = Health { boundary_edges: 5, ..clean() };
    // A model that contradicts its class is a fault whatever the run did.
    assert_eq!(judge(Class::Clean, &damaged, Run::Refused), Outcome::WrongShape(Fault::CleanButDamaged));
    assert_eq!(judge(Class::Open, &clean(), Run::Output { triangles: 12, after: clean() }), Outcome::WrongShape(Fault::OpenWithoutBoundary));
    // Otherwise the run decides.
    assert_eq!(judge(Class::Open, &damaged, Run::Crashed), Outcome::Panicked);
    assert_eq!(judge(Class::Open, &damaged, Run::Refused), Outcome::Refused);
    assert_eq!(judge(Class::Other, &clean(), Run::Output { triangles: 0, after: clean() }), Outcome::WrongShape(Fault::EmptyResult));
    let opened = Health { boundary_edges: 1, ..clean() };
    assert_eq!(judge(Class::Clean, &clean(), Run::Output { triangles: 12, after: opened }), Outcome::WrongShape(Fault::CleanGainedBoundary));
    assert_eq!(judge(Class::Open, &damaged, Run::Output { triangles: 12, after: opened }), Outcome::Produced);
    assert_eq!(judge(Class::Clean, &clean(), Run::Output { triangles: 12, after: clean() }), Outcome::Produced);
}

#[test]
fn a_model_contradicting_its_class_is_not_run() {
    let mut ran = false;
    let outcome = exercise(Class::Open, &clean(), || {
        ran = true;
        Run::Refused
    });
    assert_eq!(outcome, Outcome::WrongShape(Fault::OpenWithoutBoundary));
    assert!(!ran);
    let open = Health { boundary_edges: 2, ..clean() };
    assert_eq!(exercise(Class::Open, &open, || Run::Crashed), Outcome::Panicked);
    assert_eq!(exercise(Class::Open, &open, || Run::Output { triangles: 4, after: open }), Outcome::Produced);
    assert_eq!(
        exercise(Class::Open, &open, || Run::Output { triangles: 0, after: clean() }),
        Outcome::WrongShape(Fault::EmptyResult)
    );
}

#[test]
fn a_written_pack_reads_back() {
    let ps = [[1.0f64, 2.0, -3.5], [0.25, 1e300, -0.0], [f64::NAN, 8.0, 9.0]];
    let positions: Vec<[u64; 3]> = ps.iter().map(|p| [p[0].to_bits(), p[1].to_bits(), p[2].to_bits()]).collect();
    let written = Pack { positions: positions.clone(), indices: vec![0, 1, 2, 2, 1, 70000] };
    let bytes = write_pack(&written);
    // The same bytes a writer of the format produces.
    assert_eq!(bytes, pack(&ps, &[0, 1, 2, 2, 1, 70000], 2));
    let read = read_pack(&bytes).expect("a written pack is well sized");
    assert_eq!(read.positions, positions);
    assert_eq!(read.indices, vec![0, 1, 2, 2, 1, 70000]);
    // A dangling index is written but counted out of the header.
    let odd = write_pack(&Pack { positions: vec![], indices: vec![5] });
    assert_eq!(odd, vec![0, 0, 0, 0, 0, 0, 0, 0, 5, 0, 0, 0]);
    assert!(read_pack(&odd).is_none());
}
