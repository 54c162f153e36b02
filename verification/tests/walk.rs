use java_annotator::annotator::{add_annotation, annotate_once, AnnotatorError, JavaAnnotation};
use java_annotator::declaration::build_java_declaration;
use java_annotator::syntax::SyntaxNode;
use java_annotator::walk::{find_unannotated, first_missing_annotation, is_type};

fn node(kind: &str, start_byte: usize, end_byte: usize, children: Vec<SyntaxNode>) -> SyntaxNode {
    SyntaxNode { kind: kind.to_string(), start_byte, end_byte, children }
}

fn leaf(kind: &str, start_byte: usize, end_byte: usize) -> SyntaxNode {
    node(kind, start_byte, end_byte, Vec::new())
}

fn marker(start: usize, end: usize) -> SyntaxNode {
    node("marker_annotation", start, end, vec![
        leaf("@", start, start + 1),
        leaf("identifier", start + 1, end),
    ])
}

fn annotations(specs: &[&str]) -> Vec<JavaAnnotation> {
    specs.iter().map(|s| JavaAnnotation::new(s).unwrap()).collect()
}

/// A declaration of the given kind laid out as `kw Nam {}`: a keyword of
/// `kw_len` bytes, a name of three and a body, starting at `start`.
fn plain(kind: &str, start: usize, kw_len: usize) -> SyntaxNode {
    let name = start + kw_len + 1;
    node(
        kind,
        start,
        name + 6,
        vec![
            leaf("keyword", start, start + kw_len),
            leaf("identifier", name, name + 3),
            leaf("body", name + 4, name + 6),
        ],
    )
}

const TWO: &str = "class Foo {}\n  enum Bar {}\n";

fn two_tree() -> SyntaxNode {
    node("program", 0, 27, vec![plain("class_declaration", 0, 5), plain("enum_declaration", 15, 4)])
}

#[test]
fn type_declarations_are_classes_interfaces_and_enums() {
    assert!(is_type(&leaf("class_declaration", 0, 0)));
    assert!(is_type(&leaf("interface_declaration", 0, 0)));
    assert!(is_type(&leaf("enum_declaration", 0, 0)));
    assert!(!is_type(&leaf("record_declaration", 0, 0)));
    assert!(!is_type(&leaf("annotation_type_declaration", 0, 0)));
    assert!(!is_type(&leaf("class_body", 0, 0)));
    assert!(!is_type(&leaf("", 0, 0)));
}

#[test]
fn first_missing_annotation_goes_by_the_callers_order() {
    // @B class Foo {}
    let class = node(
        "class_declaration",
        0,
        15,
        vec![
            node("modifiers", 0, 2, vec![marker(0, 2)]),
            leaf("class", 3, 8),
            leaf("identifier", 9, 12),
            leaf("class_body", 13, 15),
        ],
    );
    let d = build_java_declaration(&class, "@B class Foo {}").unwrap();
    assert_eq!(first_missing_annotation(&d, &annotations(&["@A", "@B", "@C"])), Some(0));
    assert_eq!(first_missing_annotation(&d, &annotations(&["@B", "@C", "@A"])), Some(1));
    assert_eq!(first_missing_annotation(&d, &annotations(&["@x.B", "@B"])), None);
    assert_eq!(first_missing_annotation(&d, &Vec::new()), None);
}

#[test]
fn walk_meets_the_last_child_first() {
    let found = find_unannotated(&two_tree(), TWO, &annotations(&["@A"])).unwrap().unwrap();
    assert_eq!(found.0.name(), "Bar");
    assert_eq!(found.0.start_byte(), 15);
    assert_eq!(found.0.tot_whitespaces(), 2);
    assert_eq!(found.1, 0);
}

#[test]
fn walk_meets_a_node_before_its_children() {
    // class Out { class In {} }
    let text = "class Out { class In {} }";
    let inner = node("class_declaration", 12, 23, vec![
        leaf("class", 12, 17),
        leaf("identifier", 18, 20),
        leaf("class_body", 21, 23),
    ]);
    let outer = node(
        "class_declaration",
        0,
        25,
        vec![
            leaf("class", 0, 5),
            leaf("identifier", 6, 9),
            node("class_body", 10, 25, vec![leaf("{", 10, 11), inner, leaf("}", 24, 25)]),
        ],
    );
    let tree = node("program", 0, 25, vec![outer]);
    let found = find_unannotated(&tree, text, &annotations(&["@A"])).unwrap().unwrap();
    assert_eq!(found.0.name(), "Out");
}

#[test]
fn walk_passes_over_annotated_declarations() {
    // class Foo {}\n@A enum Bar {}
    let text = "class Foo {}\n@A enum Bar {}";
    let bar = node(
        "enum_declaration",
        13,
        27,
        vec![
            node("modifiers", 13, 15, vec![marker(13, 15)]),
            leaf("enum", 16, 20),
            leaf("identifier", 21, 24),
            leaf("enum_body", 25, 27),
        ],
    );
    let tree = node("program", 0, 27, vec![plain("class_declaration", 0, 5), bar]);
    let found = find_unannotated(&tree, text, &annotations(&["@A"])).unwrap().unwrap();
    assert_eq!(found.0.name(), "Foo");
    let found = find_unannotated(&tree, text, &annotations(&["@A", "@B"])).unwrap().unwrap();
    assert_eq!(found.0.name(), "Bar");
    assert_eq!(found.1, 1);
}

#[test]
fn walk_without_gap_finds_nothing() {
    assert_eq!(find_unannotated(&two_tree(), TWO, &Vec::new()), Ok(None));
    let tree = node("program", 0, 27, vec![leaf("line_comment", 0, 27)]);
    assert_eq!(find_unannotated(&tree, TWO, &annotations(&["@A"])), Ok(None));
}

#[test]
fn walk_fails_at_an_unreadable_declaration() {
    let tree = node("program", 0, 27, vec![
        plain("class_declaration", 0, 5),
        leaf("interface_declaration", 15, 26),
    ]);
    assert_eq!(find_unannotated(&tree, TWO, &annotations(&["@A"])), Err(AnnotatorError::ParseFailure));
    let tree = node("program", 0, 27, vec![plain("class_declaration", 100, 5)]);
    assert_eq!(find_unannotated(&tree, TWO, &annotations(&["@A"])), Err(AnnotatorError::ParseFailure));
}

#[test]
fn walk_stops_before_an_unreadable_declaration_behind_a_gap() {
    let tree = node("program", 0, 27, vec![
        leaf("interface_declaration", 15, 26),
        plain("class_declaration", 0, 5),
    ]);
    let found = find_unannotated(&tree, TWO, &annotations(&["@A"])).unwrap().unwrap();
    assert_eq!(found.0.name(), "Foo");
}

#[test]
fn annotation_is_written_with_the_declarations_indentation() {
    let d = find_unannotated(&two_tree(), TWO, &annotations(&["@A"])).unwrap().unwrap().0;
    assert_eq!(add_annotation(TWO, "@Marker", &d), "class Foo {}\n  @Marker\n  enum Bar {}\n");
}

#[test]
fn annotation_behind_a_tab_is_followed_by_a_space() {
    let text = "\tclass Foo {}";
    let tree = node("program", 0, 13, vec![plain("class_declaration", 1, 5)]);
    let d = find_unannotated(&tree, text, &annotations(&["@A"])).unwrap().unwrap().0;
    assert_eq!(d.tot_whitespaces(), 1);
    assert_eq!(add_annotation(text, "@A", &d), "\t@A\n class Foo {}");
}

#[test]
fn one_step_writes_one_annotation_and_its_import() {
    let required = annotations(&["@x.A", "@B"]);
    assert_eq!(
        annotate_once(TWO, &two_tree(), &required),
        Ok(Some(("\n\nimport x.A;\nclass Foo {}\n  @A\n  enum Bar {}\n".to_string(), "Bar".to_string())))
    );
}

#[test]
fn one_step_on_a_complete_tree_does_nothing() {
    assert_eq!(annotate_once(TWO, &two_tree(), &Vec::new()), Ok(None));
}

#[test]
fn one_step_fails_where_the_tree_does_not_fit() {
    let tree = node("program", 0, 27, vec![
        leaf("import_declaration", 30, 40),
        plain("class_declaration", 0, 5),
    ]);
    assert_eq!(annotate_once(TWO, &tree, &annotations(&["@A"])), Err(AnnotatorError::ParseFailure));
    let tree = node("program", 0, 27, vec![leaf("enum_declaration", 0, 5)]);
    assert_eq!(annotate_once(TWO, &tree, &annotations(&["@A"])), Err(AnnotatorError::ParseFailure));
}

#[test]
fn import_offset_is_taken_from_the_tree_as_parsed() {
    // The import that stands behind the declaration is read at its old
    // offsets in the text that already holds the annotation.
    let text = "class Foo {}\nimport a.B;\n";
    let tree = node("program", 0, 25, vec![
        plain("class_declaration", 0, 5),
        leaf("import_declaration", 13, 24),
    ]);
    assert_eq!(
        annotate_once(text, &tree, &annotations(&["@A"])),
        Ok(Some(("@A\nclass Foo import A;\n{}\nimport a.B;\n".to_string(), "Foo".to_string())))
    );
}
