use java_annotator::parser::{build_tree, parse_java, NodeRecord};
use java_annotator::syntax::SyntaxNode;

fn node(kind: &str, start_byte: usize, end_byte: usize, children: Vec<SyntaxNode>) -> SyntaxNode {
    SyntaxNode { kind: kind.to_string(), start_byte, end_byte, children }
}

fn leaf(kind: &str, start_byte: usize, end_byte: usize) -> SyntaxNode {
    node(kind, start_byte, end_byte, Vec::new())
}

fn record(kind: &str, start_byte: usize, end_byte: usize, child_count: u32) -> NodeRecord {
    NodeRecord { kind: kind.to_string(), start_byte, end_byte, child_count }
}

/// The tree as the parser's own nodes give it, child by child.
fn copy(from: tree_sitter::Node) -> SyntaxNode {
    let mut children = Vec::new();
    let mut index = 0;
    while let Some(child) = from.child(index) {
        children.push(copy(child));
        index += 1;
    }
    node(from.kind(), from.start_byte(), from.end_byte(), children)
}

fn reference_tree(text: &str) -> SyntaxNode {
    let mut parser = tree_sitter::Parser::new();
    parser.set_language(&tree_sitter_java::LANGUAGE.into()).unwrap();
    copy(parser.parse(text, None).unwrap().root_node())
}

#[test]
fn small_class_has_the_expected_tree() {
    let expected = node(
        "program",
        0,
        12,
        vec![node(
            "class_declaration",
            0,
            12,
            vec![
                leaf("class", 0, 5),
                leaf("identifier", 6, 9),
                node("class_body", 10, 12, vec![leaf("{", 10, 11), leaf("}", 11, 12)]),
            ],
        )],
    );
    assert_eq!(parse_java("class Foo {}"), Some(expected));
}

#[test]
fn marker_annotation_sits_in_the_modifiers() {
    let tree = parse_java("@A public class Foo {}").unwrap();
    let class = &tree.children[0];
    assert_eq!(class.kind, "class_declaration");
    assert_eq!(
        class.children[0],
        node(
            "modifiers",
            0,
            9,
            vec![
                node("marker_annotation", 0, 2, vec![leaf("@", 0, 1), leaf("identifier", 1, 2)]),
                leaf("public", 3, 9),
            ],
        )
    );
}

#[test]
fn empty_text_has_an_empty_program() {
    assert_eq!(parse_java(""), Some(leaf("program", 0, 0)));
}

#[test]
fn tree_is_the_parsers_tree() {
    let samples = [
        "",
        "class Foo {}",
        "package p;\n\nimport a.B;\nimport static c.D.*;\n\n@A @B(1) public final class Foo<T> \
         extends Bar implements Baz {\n    // note\n    private int x = 1 + 2 * 3;\n    /** doc */\n    \
         @Override public String toString() { return \"x\" + x; }\n    interface I { void f(); }\n    \
         enum E { X, Y; }\n}\n",
        "// Prüfung ✓\n\u{a0}class Größe { String s = \"日本語\"; }\n",
        "class Foo {",
        "class { int }",
        "}}}} not java at all {{{{ @@@ class",
        "record R(int a) {}\n@interface Marker {}\n",
        "class A { void f() { Runnable r = () -> { new Object() { int y; }; }; } }",
        "\n\n\n",
        "import A",
    ];
    for text in samples {
        assert_eq!(parse_java(text), Some(reference_tree(text)), "{:?}", text);
    }
}

#[test]
fn records_build_their_tree() {
    let records = vec![
        record("a", 0, 9, 2),
        record("b", 0, 4, 1),
        record("c", 1, 2, 0),
        record("d", 5, 9, 0),
    ];
    assert_eq!(
        build_tree(&records, 0),
        Some((node("a", 0, 9, vec![node("b", 0, 4, vec![leaf("c", 1, 2)]), leaf("d", 5, 9)]), 4))
    );
    assert_eq!(build_tree(&records, 1), Some((node("b", 0, 4, vec![leaf("c", 1, 2)]), 3)));
    assert_eq!(build_tree(&records, 3), Some((leaf("d", 5, 9), 4)));
}

#[test]
fn records_that_run_out_build_no_tree() {
    let records = vec![record("a", 0, 9, 2), record("b", 0, 4, 1), record("c", 1, 2, 0)];
    assert_eq!(build_tree(&records, 0), None);
    assert_eq!(build_tree(&records, 3), None);
    assert_eq!(build_tree(&Vec::new(), 0), None);
    assert_eq!(build_tree(&vec![record("a", 0, 0, u32::MAX)], 0), None);
}
