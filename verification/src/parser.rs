//! The parser behind the annotator: `tree_sitter` with the Java grammar of
//! `tree_sitter_java`. The parser hands over the nodes of its tree as a list;
//! the tree is built from the list here.

use crate::syntax::{lemma_tree_views, tree_views, SyntaxNode, TreeView};
use vstd::prelude::*;

verus! {

/// What the parser tells of one node of its tree.
#[derive(Debug)]
pub struct NodeRecord {
    pub kind: String,
    pub start_byte: usize,
    pub end_byte: usize,
    pub child_count: u32,
}

/// The mathematical content of a `NodeRecord`.
pub struct RecordView {
    pub kind: Seq<char>,
    pub start_byte: int,
    pub end_byte: int,
    pub child_count: nat,
}

impl View for NodeRecord {
    type V = RecordView;

    open spec fn view(&self) -> RecordView {
        RecordView {
            kind: self.kind@,
            start_byte: self.start_byte as int,
            end_byte: self.end_byte as int,
            child_count: self.child_count as nat,
        }
    }
}

/// The contents of a list of records.
pub open spec fn records_of(records: Seq<NodeRecord>) -> Seq<RecordView> {
    records.map_values(|record: NodeRecord| record@)
}

/// The nodes that `tree_sitter::Parser::parse`, with the grammar of
/// `tree_sitter_java`, gives for a source text, as `parse_records` lists
/// them; `None` where it builds no tree.
pub uninterp spec fn java_syntax_records(text: Seq<char>) -> Option<Seq<RecordView>>;

/// Parses `text` with `tree_sitter::Parser::parse`, on a new parser that
/// `Parser::set_language` has given `tree_sitter_java::LANGUAGE`, and lists
/// the nodes of the tree: for each index below `Node::descendant_count` of the
/// root the node that `TreeCursor::goto_descendant` leads to, with what
/// `Node::kind`, `Node::start_byte`, `Node::end_byte` and `Node::child_count`
/// return of it; `None` where the language is refused or no tree is built.
/// The contract, which is believed and not proved, claims one thing of the
/// parser: that the list depends on the text alone, so that equal texts have
/// equal lists.
#[verifier::external_body]
fn parse_records(text: &str) -> (records: Option<Vec<NodeRecord>>)
    ensures
        match records {
            Some(found) => java_syntax_records(text@) == Some(records_of(found@)),
            None => java_syntax_records(text@).is_none(),
        },
{
    let mut parser = tree_sitter::Parser::new();
    parser.set_language(&tree_sitter_java::LANGUAGE.into()).ok()?;
    let tree = parser.parse(text, None)?;
    let mut cursor = tree.walk();
    let mut records = Vec::new();
    for index in 0..tree.root_node().descendant_count() {
        cursor.goto_descendant(index);
        let node = cursor.node();
        let (kind, child_count) = (node.kind().to_string(), node.child_count());
        let (start_byte, end_byte) = (node.start_byte(), node.end_byte());
        records.push(NodeRecord { kind, start_byte, end_byte, child_count });
    }
    Some(records)
}

/// The tree whose root is record `pos`, with the position behind its last
/// node: its children are the trees that follow the record, as many as it
/// counts. `None` where the records run out.
pub open spec fn tree_from(records: Seq<RecordView>, pos: int) -> Option<(TreeView, int)>
    decreases records.len() - pos, 0nat,
{
    if 0 <= pos < records.len() {
        match forest_from(records, pos + 1, records[pos].child_count, Seq::empty()) {
            Some((children, next)) => Some(
                (
                    TreeView {
                        kind: records[pos].kind,
                        start_byte: records[pos].start_byte,
                        end_byte: records[pos].end_byte,
                        children,
                    },
                    next,
                ),
            ),
            None => None,
        }
    } else {
        None
    }
}

/// `before` with the `count` trees that start at record `pos`, one behind
/// the other, and the position behind the last of them. `None` where the
/// records run out.
pub open spec fn forest_from(
    records: Seq<RecordView>,
    pos: int,
    count: nat,
    before: Seq<TreeView>,
) -> Option<(Seq<TreeView>, int)>
    decreases records.len() - pos, count,
{
    if count == 0 {
        Some((before, pos))
    } else {
        match tree_from(records, pos) {
            Some((tree, next)) => if pos < next <= records.len() {
                forest_from(records, next, (count - 1) as nat, before.push(tree))
            } else {
                None
            },
            None => None,
        }
    }
}

/// The tree that a list of records stands for: the tree from its first
/// record, where that takes up the whole list.
pub open spec fn tree_of(records: Seq<RecordView>) -> Option<TreeView> {
    match tree_from(records, 0) {
        Some((tree, next)) => if next == records.len() {
            Some(tree)
        } else {
            None
        },
        None => None,
    }
}

/// The syntax tree of a Java source text; `None` where the parser builds
/// none or its records do not make up one tree.
pub open spec fn java_syntax_tree(text: Seq<char>) -> Option<TreeView> {
    match java_syntax_records(text) {
        Some(records) => tree_of(records),
        None => None,
    }
}

/// A tree from the records ends behind its root, within the records.
pub proof fn lemma_tree_from_advances(records: Seq<RecordView>, pos: int)
    ensures
        tree_from(records, pos) matches Some(found) ==> pos < found.1 <= records.len(),
    decreases records.len() - pos, 0nat,
{
    if 0 <= pos < records.len() {
        lemma_forest_from_advances(records, pos + 1, records[pos].child_count, Seq::empty());
    }
}

/// A forest from the records ends at or behind its start, within the records.
pub proof fn lemma_forest_from_advances(
    records: Seq<RecordView>,
    pos: int,
    count: nat,
    before: Seq<TreeView>,
)
    requires
        pos <= records.len(),
    ensures
        forest_from(records, pos, count, before) matches Some(found) ==> pos <= found.1
            <= records.len(),
    decreases records.len() - pos, count,
{
    if count > 0 {
        lemma_tree_from_advances(records, pos);
        match tree_from(records, pos) {
            Some((tree, next)) => {
                if pos < next <= records.len() {
                    lemma_forest_from_advances(
                        records,
                        next,
                        (count - 1) as nat,
                        before.push(tree),
                    );
                }
            },
            None => {},
        }
    }
}

/// Builds the tree whose root is record `pos` and gives it with the position
/// behind its last node; `None` where the records run out.
pub fn build_tree(records: &Vec<NodeRecord>, pos: usize) -> (built: Option<(SyntaxNode, usize)>)
    ensures
        match tree_from(records_of(records@), pos as int) {
            Some((tree, next)) => built matches Some(found) && found.0@ == tree && found.1 == next,
            None => built.is_none(),
        },
    decreases records.len() - pos,
{
    if pos >= records.len() {
        return None;
    }
    let record = &records[pos];
    let ghost all = records_of(records@);
    let ghost count = record.child_count as nat;
    assert(all[pos as int] == record@);
    let mut children: Vec<SyntaxNode> = Vec::new();
    let mut next: usize = pos + 1;
    let mut made: u32 = 0;
    while made < record.child_count
        invariant
            all == records_of(records@),
            all[pos as int] == record@,
            count == record.child_count,
            pos < next <= records.len(),
            made <= record.child_count,
            forest_from(all, pos + 1, count, Seq::empty()) == forest_from(
                all,
                next as int,
                (count - made) as nat,
                tree_views(children@, children@.len()),
            ),
        decreases record.child_count - made,
    {
        proof {
            lemma_tree_from_advances(all, next as int);
        }
        match build_tree(records, next) {
            Some((child, after)) => {
                proof {
                    lemma_tree_views(children@, children@.len());
                    lemma_tree_views(children@.push(child), children@.len() + 1);
                    assert(tree_views(children@.push(child), children@.len() + 1)
                        =~= tree_views(children@, children@.len()).push(child@));
                }
                children.push(child);
                next = after;
                made = made + 1;
            },
            None => {
                assert(forest_from(
                    all,
                    next as int,
                    (count - made) as nat,
                    tree_views(children@, children@.len()),
                ).is_none());
                return None;
            },
        }
    }
    Some(
        (
            SyntaxNode {
                kind: record.kind.clone(),
                start_byte: record.start_byte,
                end_byte: record.end_byte,
                children,
            },
            next,
        ),
    )
}

/// Parses a Java source text into its syntax tree; `None` where the parser
/// builds none or its records do not make up one tree.
pub fn parse_java(text: &str) -> (tree: Option<SyntaxNode>)
    ensures
        match tree {
            Some(root) => java_syntax_tree(text@) == Some(root@),
            None => java_syntax_tree(text@).is_none(),
        },
{
    let records = match parse_records(text) {
        Some(records) => records,
        None => {
            return None;
        },
    };
    match build_tree(&records, 0) {
        Some((root, next)) => if next == records.len() {
            Some(root)
        } else {
            None
        },
        None => None,
    }
}

} // verus!
