use abaqus_inp::{parse_str, Error, Mesh, Source};

#[test]
fn error_text_names_the_line() {
    let e = parse_str("*NODE\n1\n\nx\n").unwrap_err();
    assert_eq!(e.to_string(), "line 4: bad label `x`");
    let e = Error { line: 12, msg: "boom".to_string() };
    assert_eq!(e.to_string(), "line 12: boom");
}

#[test]
fn error_in_file_keeps_line_and_prefixes_path() {
    let e = Error { line: 5, msg: "bad label `q`".to_string() };
    let e = e.in_file("dir/part.inp");
    assert_eq!(e.line, 5);
    assert_eq!(e.msg, "dir/part.inp: bad label `q`");
}

#[test]
fn include_stops_reading_and_resumes_after_it() {
    let main = "*NODE\n1\n*INCLUDE, INPUT=\"part.inp\"\n2\n*NSET, NSET=all\n1, 5\n";
    let part = "*NODE\n5, 1.5\n";
    let mut mesh = Mesh::new();
    let mut source = Source::new(main);
    let inc = source.advance(&mut mesh, true).unwrap().unwrap();
    assert_eq!(inc.input, "part.inp");
    assert_eq!(inc.line, 3);
    assert_eq!(mesh.node_ids, [1]);
    let mut inner = Source::new(part);
    assert!(inner.advance(&mut mesh, true).unwrap().is_none());
    assert_eq!(mesh.node_ids, [1, 5]);
    // After the include the data line `2` is skipped, as the target resets.
    assert!(source.advance(&mut mesh, true).unwrap().is_none());
    assert_eq!(mesh.node_ids, [1, 5]);
    assert_eq!(mesh.node_set("ALL").unwrap().ids, [1, 5]);
}

#[test]
fn source_at_its_end_reads_nothing() {
    let mut mesh = Mesh::new();
    let mut source = Source::new("*NODE\n1\n");
    assert!(source.advance(&mut mesh, false).unwrap().is_none());
    assert!(source.advance(&mut mesh, false).unwrap().is_none());
    assert_eq!(mesh.node_ids, [1]);
}

#[test]
fn reading_with_includes_agrees_without_include() {
    let text = "*NODE, NSET=all\n1, 1.\n2\n*ELEMENT, TYPE=B21\n1, 1, 2\n";
    let mut mesh = Mesh::new();
    let mut source = Source::new(text);
    assert!(source.advance(&mut mesh, true).unwrap().is_none());
    assert_eq!(mesh, parse_str(text).unwrap());
}

#[test]
fn failed_record_leaves_the_mesh_as_it_was() {
    let mut mesh = Mesh::new();
    let mut source = Source::new("*NODE\n1\n*NSET, NSET=a\n1, nope\n");
    let e = source.advance(&mut mesh, false).unwrap_err();
    assert_eq!(e.line, 4);
    assert_eq!(e.msg, "unknown set or bad label `nope`");
    assert_eq!(mesh.node_ids, [1]);
    assert_eq!(mesh.node_set("a").unwrap().ids, Vec::<u32>::new());

    let mut mesh = Mesh::new();
    let mut source = Source::new("*ELEMENT, ELSET=e\n");
    let e = source.advance(&mut mesh, false).unwrap_err();
    assert_eq!(e.msg, "*ELEMENT without TYPE");
    assert_eq!(mesh, Mesh::default());
}

#[test]
fn reading_leaves_earlier_blocks_unchanged() {
    let mut mesh = parse_str("*ELEMENT, TYPE=B21\n1, 1, 2\n").unwrap();
    let before = mesh.element_blocks[0].connectivity.clone();
    let mut source = Source::new("3, 4, 5\n*ELEMENT, TYPE=T3\n2, 1, 2, 3\n");
    assert!(source.advance(&mut mesh, false).unwrap().is_none());
    assert_eq!(mesh.element_blocks.len(), 2);
    assert_eq!(mesh.element_blocks[0].ids, [1]);
    assert_eq!(mesh.element_blocks[0].connectivity, before);
    assert_eq!(mesh.element_blocks[1].ids, [2]);
}

#[test]
fn blank_lines_change_nothing_when_reading_into_a_mesh() {
    let start = parse_str("*NSET, NSET=a\n1\n").unwrap();
    let mut m1 = parse_str("*NSET, NSET=a\n1\n").unwrap();
    let mut m2 = parse_str("*NSET, NSET=a\n1\n").unwrap();
    let mut s1 = Source::new("*NSET, NSET=A\n2,\n3\n*INCLUDE, INPUT=x.inp\n");
    let mut s2 = Source::new("*NSET, NSET=A\n2,\n** c\n\n3\n*INCLUDE, INPUT=x.inp\n");
    let i1 = s1.advance(&mut m1, true).unwrap().unwrap();
    let i2 = s2.advance(&mut m2, true).unwrap().unwrap();
    assert_eq!(i1.input, i2.input);
    assert_eq!((i1.line, i2.line), (4, 6));
    assert_eq!(m1, m2);
    assert_ne!(m1, start);
    assert_eq!(m1.node_set("a").unwrap().ids, [1, 2, 3]);
}
