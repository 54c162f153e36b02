use java_annotator::annotator::{AnnotatorError, JavaAnnotation};
use java_annotator::imports::{
    add_import_if_not_exists, contains_line, find_all_imports, find_last_byte_package_declaration,
    find_start_byte_imports,
};
use java_annotator::syntax::SyntaxNode;

fn node(kind: &str, start_byte: usize, end_byte: usize, children: Vec<SyntaxNode>) -> SyntaxNode {
    SyntaxNode { kind: kind.to_string(), start_byte, end_byte, children }
}

fn leaf(kind: &str, start_byte: usize, end_byte: usize) -> SyntaxNode {
    node(kind, start_byte, end_byte, Vec::new())
}

fn annotation(spec: &str) -> JavaAnnotation {
    JavaAnnotation::new(spec).unwrap()
}

const FULL: &str = "package p;\n\nimport a.B;\nimport c.D;\n\nclass Foo {}\n";

fn full_tree() -> SyntaxNode {
    node(
        "program",
        0,
        50,
        vec![
            leaf("package_declaration", 0, 10),
            leaf("import_declaration", 12, 23),
            leaf("import_declaration", 24, 35),
            leaf("class_declaration", 37, 49),
        ],
    )
}

const PACKAGE_ONLY: &str = "package p;\n\nclass Foo {}\n";

fn package_only_tree() -> SyntaxNode {
    node("program", 0, 25, vec![
        leaf("package_declaration", 0, 10),
        leaf("class_declaration", 12, 24),
    ])
}

fn bare_tree() -> SyntaxNode {
    node("program", 0, 12, vec![leaf("class_declaration", 0, 12)])
}

#[test]
fn imports_are_read_in_their_order() {
    assert_eq!(
        find_all_imports(&full_tree(), FULL),
        Some(vec!["import a.B;".to_string(), "import c.D;".to_string()])
    );
    assert_eq!(find_all_imports(&bare_tree(), "class Foo {}"), Some(Vec::new()));
}

#[test]
fn only_imports_at_the_top_are_read() {
    let tree = node(
        "program",
        0,
        50,
        vec![node("class_declaration", 37, 49, vec![leaf("import_declaration", 12, 23)])],
    );
    assert_eq!(find_all_imports(&tree, FULL), Some(Vec::new()));
    assert_eq!(find_start_byte_imports(&tree), None);
}

#[test]
fn import_off_the_text_cannot_be_read() {
    let tree = node("program", 0, 50, vec![
        leaf("import_declaration", 12, 23),
        leaf("import_declaration", 24, 51),
    ]);
    assert_eq!(find_all_imports(&tree, FULL), None);
    let tree = node("program", 0, 50, vec![
        leaf("import_declaration", 23, 12),
        leaf("import_declaration", 24, 35),
    ]);
    assert_eq!(find_all_imports(&tree, FULL), None);
    let tree = node("program", 0, 3, vec![leaf("import_declaration", 0, 1)]);
    assert_eq!(find_all_imports(&tree, "é;"), None);
}

#[test]
fn first_import_and_package_are_found() {
    assert_eq!(find_start_byte_imports(&full_tree()), Some(12));
    assert_eq!(find_last_byte_package_declaration(&full_tree()), 10);
    assert_eq!(find_start_byte_imports(&package_only_tree()), None);
    assert_eq!(find_last_byte_package_declaration(&package_only_tree()), 10);
    assert_eq!(find_start_byte_imports(&bare_tree()), None);
    assert_eq!(find_last_byte_package_declaration(&bare_tree()), 0);
}

#[test]
fn line_is_found_by_exact_text() {
    let lines = vec!["import a.B;".to_string(), "import c.D;".to_string()];
    assert!(contains_line(&lines, "import c.D;"));
    assert!(!contains_line(&lines, "import c.D; "));
    assert!(!contains_line(&lines, "import  c.D;"));
    assert!(!contains_line(&Vec::new(), "import c.D;"));
}

#[test]
fn new_import_goes_before_the_first_import() {
    assert_eq!(
        add_import_if_not_exists(FULL, &annotation("@x.Y"), &full_tree()),
        Ok("package p;\n\nimport x.Y;\nimport a.B;\nimport c.D;\n\nclass Foo {}\n".to_string())
    );
}

#[test]
fn present_import_is_not_added_again() {
    assert_eq!(add_import_if_not_exists(FULL, &annotation("@a.B"), &full_tree()), Ok(FULL.to_string()));
    assert_eq!(add_import_if_not_exists(FULL, &annotation("@c.D"), &full_tree()), Ok(FULL.to_string()));
}

#[test]
fn import_in_another_form_counts_as_absent() {
    let text = "package p;\n\nimport a.B ;\nimport c.D;\n\nclass Foo {}\n";
    let tree = node(
        "program",
        0,
        51,
        vec![
            leaf("package_declaration", 0, 10),
            leaf("import_declaration", 12, 24),
            leaf("import_declaration", 25, 36),
            leaf("class_declaration", 38, 50),
        ],
    );
    assert_eq!(
        add_import_if_not_exists(text, &annotation("@a.B"), &tree),
        Ok("package p;\n\nimport a.B;\nimport a.B ;\nimport c.D;\n\nclass Foo {}\n".to_string())
    );
}

#[test]
fn without_imports_the_import_follows_the_package() {
    assert_eq!(
        add_import_if_not_exists(PACKAGE_ONLY, &annotation("@x.Y"), &package_only_tree()),
        Ok("package p;\n\nimport x.Y;\n\n\nclass Foo {}\n".to_string())
    );
}

#[test]
fn without_package_and_imports_the_import_starts_the_file() {
    assert_eq!(
        add_import_if_not_exists("class Foo {}", &annotation("@Y"), &bare_tree()),
        Ok("\n\nimport Y;\nclass Foo {}".to_string())
    );
}

#[test]
fn tree_that_does_not_fit_the_text_fails() {
    let tree = node("program", 0, 80, vec![leaf("import_declaration", 60, 70)]);
    assert_eq!(add_import_if_not_exists(FULL, &annotation("@x.Y"), &tree), Err(AnnotatorError::ParseFailure));
    let tree = node("program", 0, 80, vec![leaf("package_declaration", 0, 60)]);
    assert_eq!(add_import_if_not_exists(FULL, &annotation("@x.Y"), &tree), Err(AnnotatorError::ParseFailure));
    let tree = node("program", 0, 4, vec![leaf("package_declaration", 0, 1)]);
    assert_eq!(add_import_if_not_exists("é ;", &annotation("@x.Y"), &tree), Err(AnnotatorError::ParseFailure));
}
