use abaqus_inp::{parse_str, Mesh};

fn coords(mesh: &Mesh, i: usize) -> [f64; 3] {
    let c = &mesh.node_coords[i];
    [
        c[0].parse::<f64>().unwrap(),
        c[1].parse::<f64>().unwrap(),
        c[2].parse::<f64>().unwrap(),
    ]
}

#[test]
fn continuation_and_generate() {
    let mesh = parse_str(
        "*NODE\n1, 0., 0.\n2, 1.,\n1.\n*ELEMENT, TYPE=B21\n1, 1,\n2\n\
         *NSET, NSET=n, GENERATE\n1, 2\n*ELSET, elset=e\n1,\n",
    )
    .unwrap();
    assert_eq!(mesh.node_ids, [1, 2]);
    assert_eq!(coords(&mesh, 1), [1.0, 1.0, 0.0]);
    let b = &mesh.element_blocks[0];
    assert_eq!(b.elements(), [(1, &[1, 2][..])]);
    assert_eq!(mesh.node_set("N").unwrap().ids, [1, 2]);
    assert_eq!(mesh.element_set("e").unwrap().ids, [1]);
}

#[test]
fn skips_unknown_keywords() {
    let mesh = parse_str("*HEADING\nstuff, more\n*ELASTIC\n1., 2.\n*NODE\n1, 0.\n").unwrap();
    assert_eq!(mesh.node_ids, [1]);
}

#[test]
fn error_carries_line_number() {
    assert_eq!(parse_str("*NODE\n1, 0.\nx, 0.\n").unwrap_err().line, 3);
}

#[test]
fn include_needs_a_directory() {
    assert!(parse_str("*INCLUDE, INPUT=other.inp\n").is_err());
}

fn err_of(text: &str) -> (usize, String) {
    let e = parse_str(text).unwrap_err();
    (e.line, e.msg)
}

#[test]
fn sets_with_the_same_name_merge_ignoring_case() {
    let mesh = parse_str("*NSET, NSET=a\n1\n*NSET, NSET=A\n2\n*NODE, NSET=a\n3\n").unwrap();
    assert_eq!(mesh.node_sets.len(), 1);
    assert_eq!(mesh.node_sets[0].name, "a");
    assert_eq!(mesh.node_sets[0].ids, [1, 2, 3]);
}

#[test]
fn coordinates_are_float_literals() {
    let mesh = parse_str("*NODE\n1, 1e3, -.5, inf\n2\n3, , 2.5\n").unwrap();
    assert_eq!(mesh.node_coords[0], ["1e3".to_string(), "-.5".to_string(), "inf".to_string()]);
    assert_eq!(coords(&mesh, 0), [1000.0, -0.5, f64::INFINITY]);
    assert_eq!(coords(&mesh, 1), [0.0, 0.0, 0.0]);
    assert_eq!(coords(&mesh, 2), [0.0, 2.5, 0.0]);
    assert_eq!(mesh.node_coords.len(), mesh.node_ids.len());
    for c in &mesh.node_coords {
        for x in c {
            assert!(x.parse::<f64>().is_ok());
        }
    }
}

#[test]
fn bad_coordinate_is_reported() {
    assert_eq!(err_of("*NODE\n1, 1.0.0\n"), (2, "bad coordinate `1.0.0`".to_string()));
    assert_eq!(err_of("*NODE\n1, 0., 1e\n"), (2, "bad coordinate `1e`".to_string()));
}

#[test]
fn coordinates_beyond_the_third_are_not_read() {
    let mesh = parse_str("*NODE\n1, 1, 2, 3, junk\n").unwrap();
    assert_eq!(coords(&mesh, 0), [1.0, 2.0, 3.0]);
}

#[test]
fn node_line_with_empty_label_is_skipped() {
    let mesh = parse_str("*NODE\n, 1., 2.\n4, 1.\n").unwrap();
    assert_eq!(mesh.node_ids, [4]);
}

#[test]
fn bad_label_is_reported() {
    assert_eq!(err_of("*NODE\nx, 0.\n"), (2, "bad label `x`".to_string()));
    assert_eq!(
        err_of("*ELEMENT, TYPE=T3\n1, 2, y\n"),
        (2, "bad label `y`".to_string())
    );
    assert_eq!(
        err_of("*NODE\n4294967296\n"),
        (2, "bad label `4294967296`".to_string())
    );
}

#[test]
fn labels_follow_u32_parsing() {
    let mesh = parse_str("*NODE\n+7\n4294967295\n007\n").unwrap();
    assert_eq!(mesh.node_ids, [7, 4294967295, 7]);
    assert!(parse_str("*NODE\n-1\n").is_err());
    assert!(parse_str("*NODE\n+\n").is_err());
}

#[test]
fn node_count_mismatch_is_reported() {
    assert_eq!(
        err_of("*ELEMENT, TYPE=T3\n1, 1, 2, 3\n2, 4, 5\n"),
        (3, "element 2 has 2 nodes, block expects 3".to_string())
    );
}

#[test]
fn keyword_errors_are_reported() {
    assert_eq!(err_of("*ELEMENT\n1, 2\n"), (1, "*ELEMENT without TYPE".to_string()));
    assert_eq!(err_of("\n*NSET, GENERATE\n"), (2, "*NSET without NSET name".to_string()));
    assert_eq!(err_of("*ELSET\n"), (1, "*ELSET without ELSET name".to_string()));
    assert_eq!(err_of("*INCLUDE\n"), (1, "*INCLUDE without INPUT".to_string()));
    assert_eq!(
        err_of("*INCLUDE, INPUT=a.inp\n"),
        (1, "*INCLUDE needs parse_file (no base directory)".to_string())
    );
}

#[test]
fn generate_ranges() {
    let mesh = parse_str(
        "*ELSET, ELSET=g, GENERATE\n5, 50, 5\n*ELSET, ELSET=h, generate\n3, 1\n\
         *NSET, NSET=k, GENERATE\n1, 4\n7, 8, 1\n",
    )
    .unwrap();
    assert_eq!(mesh.element_set("G").unwrap().ids, (5..=50).step_by(5).collect::<Vec<_>>());
    assert_eq!(mesh.element_set("h").unwrap().ids, Vec::<u32>::new());
    assert_eq!(mesh.node_set("k").unwrap().ids, [1, 2, 3, 4, 7, 8]);
}

#[test]
fn generate_errors() {
    assert_eq!(
        err_of("*NSET, NSET=n, GENERATE\n1, 5, 0\n"),
        (2, "GENERATE step must be nonzero".to_string())
    );
    assert_eq!(
        err_of("*NSET, NSET=n, GENERATE\n1\n"),
        (2, "GENERATE needs `first, last[, step]`".to_string())
    );
    assert_eq!(
        err_of("*NSET, NSET=n, GENERATE\n1, z\n"),
        (2, "bad label `z`".to_string())
    );
}

#[test]
fn set_references_copy_members() {
    let mesh = parse_str("*NSET, NSET=a\n1, 2\n*NSET, NSET=b\n3, A\n*NSET, NSET=a\n9, a\n").unwrap();
    assert_eq!(mesh.node_set("b").unwrap().ids, [3, 1, 2]);
    assert_eq!(mesh.node_set("a").unwrap().ids, [1, 2, 9, 1, 2, 9]);
    assert_eq!(
        err_of("*ELSET, ELSET=a\n1, nope\n"),
        (2, "unknown set or bad label `nope`".to_string())
    );
}

#[test]
fn keyword_line_ends_a_continuation() {
    let mesh = parse_str("*NODE\n1, 0., 0.,\n*ELSET, ELSET=e\n1\n").unwrap();
    assert_eq!(mesh.node_ids, [1]);
    assert_eq!(mesh.element_set("e").unwrap().ids, [1]);
}

#[test]
fn continuation_passes_over_comments_and_blank_lines() {
    let mesh = parse_str("*ELEMENT, TYPE=B21\n1, 1,\n** note\n\n 2\n").unwrap();
    let b = &mesh.element_blocks[0];
    assert_eq!(b.elements(), [(1, &[1, 2][..])]);
    assert_eq!(b.nodes_per_element, 2);
}

#[test]
fn continued_record_reports_its_first_line() {
    assert_eq!(err_of("*NODE\n1, 0.,\n\n0., x\n"), (2, "bad coordinate `x`".to_string()));
}

#[test]
fn keywords_and_parameters_ignore_case() {
    let mesh = parse_str("*node, nset=\"My Set\"\n1\n*Element, type=C3D4, Elset=E\n1, 1, 2, 3, 4\n")
        .unwrap();
    assert_eq!(mesh.node_set("my set").unwrap().ids, [1]);
    assert_eq!(mesh.element_blocks[0].element_type, "C3D4");
    assert_eq!(mesh.element_set("e").unwrap().ids, [1]);
    assert!(mesh.node_set("other").is_none());
}

#[test]
fn windows_line_endings() {
    let mesh = parse_str("*NODE\r\n1, 2.\r\n*NSET, NSET=s\r\n1\r\n").unwrap();
    assert_eq!(mesh.node_ids, [1]);
    assert_eq!(coords(&mesh, 0), [2.0, 0.0, 0.0]);
    assert_eq!(mesh.node_set("s").unwrap().ids, [1]);
}

#[test]
fn element_count_sums_blocks() {
    let mesh =
        parse_str("*ELEMENT, TYPE=B21\n1, 1, 2\n2, 2, 3\n*ELEMENT, TYPE=T3\n3, 1, 2, 3\n").unwrap();
    assert_eq!(mesh.element_count(), 3);
    assert_eq!(mesh.element_blocks.len(), 2);
    assert_eq!(mesh.element_blocks[1].connectivity, [1, 2, 3]);
}

#[test]
fn block_whose_first_element_has_no_nodes() {
    assert_eq!(
        err_of("*ELEMENT, TYPE=T\n1\n2, 5, 6\n"),
        (3, "element 2 has 2 nodes, block expects 0".to_string())
    );
}

#[test]
fn every_parsed_block_is_full() {
    let mesh = parse_str(
        "*ELEMENT, TYPE=X\n1\n2\n*ELEMENT, TYPE=T3\n3, 1, 2, 3\n4, 4, 5, 6\n",
    )
    .unwrap();
    for b in &mesh.element_blocks {
        assert_eq!(b.connectivity.len(), b.ids.len() * b.nodes_per_element);
    }
}

#[test]
fn empty_input_gives_empty_mesh() {
    assert_eq!(parse_str("").unwrap(), Mesh::default());
    assert_eq!(parse_str("** only a comment\n\n").unwrap(), Mesh::new());
}

#[test]
fn message_digits_parse_back_to_the_label() {
    let (line, msg) = err_of("*ELEMENT, TYPE=T\n1, 1\n4294967295, 1, 2\n");
    assert_eq!(line, 3);
    assert_eq!(msg, "element 4294967295 has 2 nodes, block expects 1");
    let digits = msg.split(' ').nth(1).unwrap();
    assert_eq!(digits.parse::<u32>().unwrap(), 4294967295);
}

#[test]
fn listed_labels_keep_order_and_duplicates() {
    let mesh = parse_str("*ELSET, ELSET=s\n5, 3, 5,\n1\n").unwrap();
    assert_eq!(mesh.element_set("s").unwrap().ids, [5, 3, 5, 1]);
}

#[test]
fn elements_without_nodes_each_yield_a_pair() {
    let mesh = parse_str("*ELEMENT, TYPE=X\n1\n2\n").unwrap();
    let b = &mesh.element_blocks[0];
    assert_eq!(b.nodes_per_element, 0);
    let empty: &[u32] = &[];
    assert_eq!(b.elements(), [(1, empty), (2, empty)]);
}

#[test]
fn full_block_splits_into_its_elements() {
    let mesh = parse_str("*ELEMENT, TYPE=T3\n1, 1, 2, 3\n2, 4, 5, 6\n3, 7, 8, 9\n").unwrap();
    let b = &mesh.element_blocks[0];
    let pairs = b.elements();
    assert_eq!(pairs.iter().map(|p| p.0).collect::<Vec<_>>(), b.ids);
    assert_eq!(pairs.iter().flat_map(|p| p.1.iter().copied()).collect::<Vec<_>>(), b.connectivity);
    assert_eq!(b.connectivity.len(), b.ids.len() * b.nodes_per_element);
}

#[test]
fn blank_and_comment_lines_change_nothing() {
    let plain = "*NODE\n1, 0.,\n2.\n*ELSET, ELSET=e\n1, 2\n";
    let padded = "*NODE\n1, 0.,\n** note\n2.\n\n*ELSET, ELSET=e\n   \n1, 2\n";
    assert_eq!(parse_str(plain).unwrap(), parse_str(padded).unwrap());
    let bad = "*NODE\nx\n";
    let bad_padded = "** c\n*NODE\n\nx\n";
    assert_eq!(parse_str(bad).unwrap_err().msg, parse_str(bad_padded).unwrap_err().msg);
}
