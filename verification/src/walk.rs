//! The walk over a syntax tree that finds the first type declaration lacking
//! a required annotation.

use crate::annotator::{AnnotatorError, JavaAnnotation};
use crate::declaration::{
    build_java_declaration, declaration_of, without_sigils, DeclarationView, JavaTypeDeclaration,
};
use crate::syntax::{
    lemma_view_children, lemma_visit_order_meets_all, lemma_visit_order_within,
    lemma_visit_stack_step, nodes_of, occurs_in, visit_order, visit_stack, SyntaxNode, TreeView,
};
use crate::text::is_position;
use vstd::prelude::*;

verus! {

/// Whether a node kind is that of a type declaration: a class, an interface
/// or an enum.
pub open spec fn is_type_kind(kind: Seq<char>) -> bool {
    kind == "class_declaration"@ || kind == "interface_declaration"@ || kind
        == "enum_declaration"@
}

/// Decides whether a node is a type declaration.
pub fn is_type(node: &SyntaxNode) -> (r: bool)
    ensures
        r == is_type_kind(node@.kind),
{
    node.is_kind("class_declaration") || node.is_kind("interface_declaration") || node.is_kind(
        "enum_declaration",
    )
}

/// What a walk over declarations finds.
pub enum Scan {
    /// Every declaration met carries every required annotation.
    Complete,
    /// A declaration lacks the required annotation with this index.
    Gap { declaration: DeclarationView, annotation: int },
    /// A declaration met cannot be read from the text.
    Unreadable,
}

/// The index of the first among the first `n` required annotations whose
/// short name, without `@`, is not among `markers`.
pub open spec fn first_missing(
    markers: Seq<Seq<char>>,
    annotations: Seq<JavaAnnotation>,
    n: nat,
) -> Option<int>
    decreases n,
{
    if n == 0 || n > annotations.len() {
        None
    } else {
        match first_missing(markers, annotations, (n - 1) as nat) {
            Some(i) => Some(i),
            None => if markers.contains(without_sigils(annotations[n - 1].short_name())) {
                None
            } else {
                Some(n - 1)
            },
        }
    }
}

/// What one node holds for the walk: nothing unless it is a type
/// declaration; then the first required annotation that it lacks, if any.
pub open spec fn scan_node(node: TreeView, text: Seq<char>, annotations: Seq<JavaAnnotation>)
    -> Scan {
    if !is_type_kind(node.kind) {
        Scan::Complete
    } else {
        match declaration_of(node, text) {
            Some(declaration) => match first_missing(
                declaration.marker_annotations,
                annotations,
                annotations.len(),
            ) {
                Some(annotation) => Scan::Gap { declaration, annotation },
                None => Scan::Complete,
            },
            None => Scan::Unreadable,
        }
    }
}

/// What a walk over `nodes`, in their order, finds: it stops at the first
/// node that is not complete.
pub open spec fn scan(nodes: Seq<TreeView>, text: Seq<char>, annotations: Seq<JavaAnnotation>)
    -> Scan
    decreases nodes.len(),
{
    if nodes.len() == 0 {
        Scan::Complete
    } else {
        match scan_node(nodes[0], text, annotations) {
            Scan::Complete => scan(nodes.drop_first(), text, annotations),
            found => found,
        }
    }
}

/// What the annotator's walk over a whole tree finds.
pub open spec fn scan_tree(tree: TreeView, text: Seq<char>, annotations: Seq<JavaAnnotation>)
    -> Scan {
    scan(visit_order(tree), text, annotations)
}

/// A missing annotation among the first `m` stays the first missing one among
/// more.
pub proof fn lemma_first_missing_stays(
    markers: Seq<Seq<char>>,
    annotations: Seq<JavaAnnotation>,
    m: nat,
    n: nat,
)
    requires
        m <= n <= annotations.len(),
        first_missing(markers, annotations, m).is_some(),
    ensures
        first_missing(markers, annotations, n) == first_missing(markers, annotations, m),
    decreases n,
{
    if m < n {
        lemma_first_missing_stays(markers, annotations, m, (n - 1) as nat);
    }
}

/// Finds the first required annotation that a declaration does not carry.
pub fn first_missing_annotation(
    declaration: &JavaTypeDeclaration,
    annotations: &Vec<JavaAnnotation>,
) -> (missing: Option<usize>)
    ensures
        missing.is_some() == first_missing(
            declaration@.marker_annotations,
            annotations@,
            annotations@.len(),
        ).is_some(),
        missing matches Some(i) ==> Some(i as int) == first_missing(
            declaration@.marker_annotations,
            annotations@,
            annotations@.len(),
        ),
{
    let mut i: usize = 0;
    while i < annotations.len()
        invariant
            i <= annotations.len(),
            first_missing(declaration@.marker_annotations, annotations@, i as nat).is_none(),
        decreases annotations.len() - i,
    {
        if !declaration.contains_marker_annotation(&annotations[i]) {
            proof {
                lemma_first_missing_stays(
                    declaration@.marker_annotations,
                    annotations@,
                    (i + 1) as nat,
                    annotations@.len(),
                );
            }
            return Some(i);
        }
        i = i + 1;
    }
    None
}

/// Walks the tree from its root, visiting a node and then its children from
/// the last to the first, and stops at the first type declaration that lacks
/// a required annotation: the result holds that declaration and the index of
/// the first annotation that it lacks. `Ok(None)` where the walk ends without
/// such a find; `ParseFailure` where it meets a type declaration that cannot
/// be read from the text.
pub fn find_unannotated(tree: &SyntaxNode, text: &str, annotations: &Vec<JavaAnnotation>) -> (r:
    Result<Option<(JavaTypeDeclaration, usize)>, AnnotatorError>)
    ensures
        match scan_tree(tree@, text@, annotations@) {
            Scan::Complete => r matches Ok(None),
            Scan::Gap { declaration, annotation } => r matches Ok(Some(found)) && found.0@
                == declaration && found.1 == annotation,
            Scan::Unreadable => r matches Err(AnnotatorError::ParseFailure),
        },
{
    let mut stack: Vec<&SyntaxNode> = Vec::new();
    stack.push(tree);
    proof {
        assert(nodes_of(stack@) == seq![tree@]);
        assert(visit_stack(seq![tree@], 0) == Seq::<TreeView>::empty());
    }
    while stack.len() > 0
        invariant
            scan_tree(tree@, text@, annotations@) == scan(
                visit_stack(nodes_of(stack@), stack@.len()),
                text@,
                annotations@,
            ),
        decreases visit_stack(nodes_of(stack@), stack@.len()).len(),
    {
        let ghost before = nodes_of(stack@);
        let node = stack.pop().unwrap();
        proof {
            assert(nodes_of(stack@) == before.drop_last());
            lemma_visit_stack_step(before);
            lemma_view_children(*node);
            let rest = visit_stack(
                before.drop_last() + node@.children,
                (before.len() - 1 + node@.children.len()) as nat,
            );
            assert((seq![node@] + rest).drop_first() == rest);
        }
        if is_type(node) {
            match build_java_declaration(node, text) {
                Some(declaration) => {
                    match first_missing_annotation(&declaration, annotations) {
                        Some(annotation) => {
                            return Ok(Some((declaration, annotation)));
                        },
                        None => {},
                    }
                },
                None => {
                    return Err(AnnotatorError::ParseFailure);
                },
            }
        }
        let ghost below = nodes_of(stack@);
        let mut child: usize = 0;
        while child < node.children.len()
            invariant
                child <= node.children.len(),
                node@.children.len() == node.children@.len(),
                forall|k: int|
                    0 <= k < node.children@.len() ==> #[trigger] node@.children[k]
                        == node.children@[k]@,
                nodes_of(stack@) == below + node@.children.take(child as int),
            decreases node.children.len() - child,
        {
            let ghost pushed = nodes_of(stack@);
            stack.push(&node.children[child]);
            proof {
                assert(nodes_of(stack@) == pushed.push(node@.children[child as int]));
            }
            child = child + 1;
        }
        assert(node@.children.take(node@.children.len() as int) == node@.children);
    }
    Ok(None)
}

/// A gap that a walk finds is a declaration that starts between two
/// characters of the text, with a required annotation that it lacks.
pub proof fn lemma_scan_gap(
    nodes: Seq<TreeView>,
    text: Seq<char>,
    annotations: Seq<JavaAnnotation>,
)
    ensures
        scan(nodes, text, annotations) matches Scan::Gap { declaration, annotation } ==> {
            &&& is_position(text, declaration.start_byte)
            &&& 0 <= annotation < annotations.len()
            &&& !declaration.marker_annotations.contains(
                without_sigils(annotations[annotation].short_name()),
            )
        },
    decreases nodes.len(),
{
    if nodes.len() > 0 {
        match scan_node(nodes[0], text, annotations) {
            Scan::Complete => {
                lemma_scan_gap(nodes.drop_first(), text, annotations);
            },
            Scan::Gap { declaration, annotation } => {
                lemma_first_missing_found(
                    declaration.marker_annotations,
                    annotations,
                    annotations.len(),
                );
            },
            Scan::Unreadable => {},
        }
    }
}

/// The first missing annotation is one of those asked about, and is missing.
pub proof fn lemma_first_missing_found(
    markers: Seq<Seq<char>>,
    annotations: Seq<JavaAnnotation>,
    n: nat,
)
    requires
        n <= annotations.len(),
    ensures
        first_missing(markers, annotations, n) matches Some(i) ==> 0 <= i < n && !markers.contains(
            without_sigils(annotations[i].short_name()),
        ),
        first_missing(markers, annotations, n).is_none() ==> forall|i: int|
            0 <= i < n ==> markers.contains(without_sigils(#[trigger] annotations[i].short_name())),
    decreases n,
{
    if n > 0 {
        lemma_first_missing_found(markers, annotations, (n - 1) as nat);
    }
}

/// Whether a node has all it needs: a type declaration can be read from the
/// text and carries every required annotation; any other node has.
pub open spec fn carries_all(node: TreeView, text: Seq<char>, annotations: Seq<JavaAnnotation>)
    -> bool {
    is_type_kind(node.kind) ==> (declaration_of(node, text) matches Some(declaration)
        && forall|i: int|
        0 <= i < annotations.len() ==> declaration.marker_annotations.contains(
            without_sigils(#[trigger] annotations[i].short_name()),
        ))
}

/// Whether every type declaration that occurs in a tree carries every
/// required annotation.
pub open spec fn fully_annotated(
    tree: TreeView,
    text: Seq<char>,
    annotations: Seq<JavaAnnotation>,
) -> bool {
    forall|node: TreeView| #[trigger] occurs_in(node, tree) ==> carries_all(node, text, annotations)
}

/// A walk finds nothing exactly where every node has all it needs.
pub proof fn lemma_scan_complete(
    nodes: Seq<TreeView>,
    text: Seq<char>,
    annotations: Seq<JavaAnnotation>,
)
    ensures
        scan(nodes, text, annotations) is Complete <==> forall|k: int|
            0 <= k < nodes.len() ==> carries_all(#[trigger] nodes[k], text, annotations),
    decreases nodes.len(),
{
    if nodes.len() > 0 {
        let rest = nodes.drop_first();
        lemma_scan_complete(rest, text, annotations);
        match declaration_of(nodes[0], text) {
            Some(declaration) => {
                lemma_first_missing_found(
                    declaration.marker_annotations,
                    annotations,
                    annotations.len(),
                );
            },
            None => {},
        }
        if scan(nodes, text, annotations) is Complete {
            assert forall|k: int| 0 <= k < nodes.len() implies carries_all(
                #[trigger] nodes[k],
                text,
                annotations,
            ) by {
                if k > 0 {
                    assert(nodes[k] == rest[k - 1]);
                }
            }
        }
        if forall|k: int|
            0 <= k < nodes.len() ==> carries_all(#[trigger] nodes[k], text, annotations) {
            assert forall|k: int| 0 <= k < rest.len() implies carries_all(
                #[trigger] rest[k],
                text,
                annotations,
            ) by {
                assert(rest[k] == nodes[k + 1]);
            }
        }
    }
}

/// The walk over a tree finds nothing exactly where every type declaration
/// that occurs in the tree carries every required annotation.
pub proof fn lemma_scan_tree_complete(
    tree: TreeView,
    text: Seq<char>,
    annotations: Seq<JavaAnnotation>,
)
    ensures
        scan_tree(tree, text, annotations) is Complete <==> fully_annotated(
            tree,
            text,
            annotations,
        ),
{
    let met = visit_order(tree);
    lemma_scan_complete(met, text, annotations);
    if scan_tree(tree, text, annotations) is Complete {
        assert forall|node: TreeView| #[trigger] occurs_in(node, tree) implies carries_all(
            node,
            text,
            annotations,
        ) by {
            lemma_visit_order_meets_all(node, tree);
        }
    }
    if fully_annotated(tree, text, annotations) {
        assert forall|k: int| 0 <= k < met.len() implies carries_all(
            #[trigger] met[k],
            text,
            annotations,
        ) by {
            lemma_visit_order_within(tree, k);
        }
    }
}

} // verus!
