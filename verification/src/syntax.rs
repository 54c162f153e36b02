//! The syntax tree of a Java source text, as the annotator reads it.

use crate::text::str_eq;
use vstd::prelude::*;

verus! {

/// One node of a syntax tree: its grammar kind, the byte range of the source
/// text that it covers, and its children in the order in which the parser
/// gives them.
#[derive(Debug, PartialEq, Eq)]
pub struct SyntaxNode {
    pub kind: String,
    pub start_byte: usize,
    pub end_byte: usize,
    pub children: Vec<SyntaxNode>,
}

/// The mathematical content of a syntax node: a tree of kinds and byte
/// ranges.
pub struct TreeView {
    pub kind: Seq<char>,
    pub start_byte: int,
    pub end_byte: int,
    pub children: Seq<TreeView>,
}

/// The content of a node: its kind and byte range, with the contents of its
/// children.
pub open spec fn tree_view(node: SyntaxNode) -> TreeView
    decreases node, 0nat,
{
    TreeView {
        kind: node.kind@,
        start_byte: node.start_byte as int,
        end_byte: node.end_byte as int,
        children: tree_views(node.children@, node.children@.len()),
    }
}

/// The contents of the first `n` of `nodes`, in their order.
pub open spec fn tree_views(nodes: Seq<SyntaxNode>, n: nat) -> Seq<TreeView>
    decreases nodes, n,
{
    if n == 0 || n > nodes.len() {
        Seq::empty()
    } else {
        tree_views(nodes, (n - 1) as nat).push(tree_view(nodes[n - 1]))
    }
}

impl View for SyntaxNode {
    type V = TreeView;

    open spec fn view(&self) -> TreeView {
        tree_view(*self)
    }
}

/// The contents of the first `n` nodes are `n` trees: the content of each
/// node, in their order.
pub proof fn lemma_tree_views(nodes: Seq<SyntaxNode>, n: nat)
    requires
        n <= nodes.len(),
    ensures
        tree_views(nodes, n).len() == n,
        forall|i: int| 0 <= i < n ==> #[trigger] tree_views(nodes, n)[i] == nodes[i]@,
    decreases n,
{
    if n > 0 {
        lemma_tree_views(nodes, (n - 1) as nat);
    }
}

/// The view of a node holds the views of its children, in their order.
pub proof fn lemma_view_children(node: SyntaxNode)
    ensures
        node@.kind == node.kind@,
        node@.start_byte == node.start_byte,
        node@.end_byte == node.end_byte,
        node@.children.len() == node.children@.len(),
        forall|i: int|
            0 <= i < node.children@.len() ==> #[trigger] node@.children[i] == node.children@[i]@,
{
    lemma_tree_views(node.children@, node.children@.len());
}

/// The nodes of the tree below and including `node`, in the order in which a
/// stack-driven walk meets them: a node first, then its children from the last
/// to the first, each with all that lies below it.
pub open spec fn visit_order(node: TreeView) -> Seq<TreeView>
    decreases node, 0nat,
{
    seq![node] + visit_stack(node.children, node.children.len())
}

/// The nodes met while the first `n` entries of a stack are worked off from
/// the top, entry `n - 1` coming first.
pub open spec fn visit_stack(stack: Seq<TreeView>, n: nat) -> Seq<TreeView>
    decreases stack, n,
{
    if n == 0 || n > stack.len() {
        Seq::empty()
    } else {
        visit_order(stack[n - 1]) + visit_stack(stack, (n - 1) as nat)
    }
}

/// The nodes that a sequence of references points to.
pub open spec fn nodes_of(refs: Seq<&SyntaxNode>) -> Seq<TreeView> {
    refs.map_values(|node: &SyntaxNode| node@)
}

/// The first node of the given kind among the first `n` of `nodes`.
pub open spec fn first_of_kind(nodes: Seq<TreeView>, kind: Seq<char>, n: nat) -> Option<TreeView>
    decreases n,
{
    if n == 0 || n > nodes.len() {
        None
    } else {
        match first_of_kind(nodes, kind, (n - 1) as nat) {
            Some(found) => Some(found),
            None => if nodes[n - 1].kind == kind {
                Some(nodes[n - 1])
            } else {
                None
            },
        }
    }
}

/// The nodes of the given kind among the first `n` of `nodes`, in their order.
pub open spec fn all_of_kind(nodes: Seq<TreeView>, kind: Seq<char>, n: nat) -> Seq<TreeView>
    decreases n,
{
    if n == 0 || n > nodes.len() {
        Seq::empty()
    } else if nodes[n - 1].kind == kind {
        all_of_kind(nodes, kind, (n - 1) as nat).push(nodes[n - 1])
    } else {
        all_of_kind(nodes, kind, (n - 1) as nat)
    }
}

/// What is first of its kind among the first `m` nodes is so among more.
pub proof fn lemma_first_of_kind_stays(nodes: Seq<TreeView>, kind: Seq<char>, m: nat, n: nat)
    requires
        m <= n <= nodes.len(),
        first_of_kind(nodes, kind, m).is_some(),
    ensures
        first_of_kind(nodes, kind, n) == first_of_kind(nodes, kind, m),
    decreases n,
{
    if m < n {
        lemma_first_of_kind_stays(nodes, kind, m, (n - 1) as nat);
    }
}

impl TreeView {
    /// The first child of the given kind.
    pub open spec fn child_of_kind(&self, kind: Seq<char>) -> Option<TreeView> {
        first_of_kind(self.children, kind, self.children.len())
    }

    /// The children of the given kind, in their order.
    pub open spec fn children_of_kind(&self, kind: Seq<char>) -> Seq<TreeView> {
        all_of_kind(self.children, kind, self.children.len())
    }
}

impl SyntaxNode {
    /// Whether this node is of the given kind.
    pub fn is_kind(&self, kind: &str) -> (r: bool)
        ensures
            r == (self@.kind == kind@),
    {
        proof {
            lemma_view_children(*self);
        }
        str_eq(self.kind.as_str(), kind)
    }

    /// Finds the first child of the given kind.
    pub fn find_child(&self, kind: &str) -> (found: Option<&SyntaxNode>)
        ensures
            found.is_some() == self@.child_of_kind(kind@).is_some(),
            found matches Some(child) ==> Some(child@) == self@.child_of_kind(kind@),
    {
        proof {
            lemma_view_children(*self);
        }
        let mut i: usize = 0;
        while i < self.children.len()
            invariant
                i <= self.children.len(),
                self@.children.len() == self.children@.len(),
                forall|k: int|
                    0 <= k < self.children@.len() ==> #[trigger] self@.children[k]
                        == self.children@[k]@,
                first_of_kind(self@.children, kind@, i as nat).is_none(),
            decreases self.children.len() - i,
        {
            if self.children[i].is_kind(kind) {
                proof {
                    lemma_first_of_kind_stays(
                        self@.children,
                        kind@,
                        (i + 1) as nat,
                        self@.children.len(),
                    );
                }
                return Some(&self.children[i]);
            }
            i = i + 1;
        }
        None
    }

    /// Collects the children of the given kind, in their order.
    pub fn find_children(&self, kind: &str) -> (found: Vec<&SyntaxNode>)
        ensures
            nodes_of(found@) == self@.children_of_kind(kind@),
    {
        proof {
            lemma_view_children(*self);
        }
        let mut found: Vec<&SyntaxNode> = Vec::new();
        let mut i: usize = 0;
        while i < self.children.len()
            invariant
                i <= self.children.len(),
                self@.children.len() == self.children@.len(),
                forall|k: int|
                    0 <= k < self.children@.len() ==> #[trigger] self@.children[k]
                        == self.children@[k]@,
                nodes_of(found@) == all_of_kind(self@.children, kind@, i as nat),
            decreases self.children.len() - i,
        {
            if self.children[i].is_kind(kind) {
                found.push(&self.children[i]);
            }
            i = i + 1;
        }
        found
    }
}

/// Working off the first `n` entries of a stack does not depend on what lies
/// above them.
pub proof fn lemma_visit_stack_below(below: Seq<TreeView>, above: Seq<TreeView>, n: nat)
    requires
        n <= below.len(),
    ensures
        visit_stack(below + above, n) == visit_stack(below, n),
    decreases n,
{
    if n > 0 {
        lemma_visit_stack_below(below, above, (n - 1) as nat);
    }
}

/// Entries pushed on a stack are worked off before the entries below them.
pub proof fn lemma_visit_stack_pushed(below: Seq<TreeView>, above: Seq<TreeView>, k: nat)
    requires
        k <= above.len(),
    ensures
        visit_stack(below + above, below.len() + k) == visit_stack(above, k) + visit_stack(
            below,
            below.len(),
        ),
    decreases k,
{
    if k == 0 {
        lemma_visit_stack_below(below, above, below.len());
    } else {
        lemma_visit_stack_pushed(below, above, (k - 1) as nat);
    }
}

/// Taking the top entry off a stack and pushing its children leaves to be
/// visited what was to be visited before, but for that entry itself.
pub proof fn lemma_visit_stack_step(stack: Seq<TreeView>)
    requires
        stack.len() > 0,
    ensures
        visit_stack(stack, stack.len()) == seq![stack.last()] + visit_stack(
            stack.drop_last() + stack.last().children,
            (stack.len() - 1 + stack.last().children.len()) as nat,
        ),
{
    let below = stack.drop_last();
    let node = stack.last();
    let children = node.children;
    assert(stack == below + seq![node]);
    lemma_visit_stack_below(below, seq![node], below.len());
    lemma_visit_stack_pushed(below, children, children.len());
    assert(visit_stack(stack, stack.len()) == visit_order(node) + visit_stack(
        stack,
        (stack.len() - 1) as nat,
    ));
}

/// Whether `node` occurs in `tree`: whether it is the tree or occurs in one of
/// its children.
pub open spec fn occurs_in(node: TreeView, tree: TreeView) -> bool
    decreases tree, 0nat,
{
    node == tree || occurs_among(node, tree.children, tree.children.len())
}

/// Whether `node` occurs in one of the first `n` of `trees`.
pub open spec fn occurs_among(node: TreeView, trees: Seq<TreeView>, n: nat) -> bool
    decreases trees, n,
{
    0 < n <= trees.len() && (occurs_in(node, trees[n - 1]) || occurs_among(
        node,
        trees,
        (n - 1) as nat,
    ))
}

/// The walk meets every node that occurs in the tree.
pub proof fn lemma_visit_order_meets_all(node: TreeView, tree: TreeView)
    requires
        occurs_in(node, tree),
    ensures
        visit_order(tree).contains(node),
    decreases tree, 0nat,
{
    let below = visit_stack(tree.children, tree.children.len());
    if node == tree {
        assert((seq![tree] + below)[0] == node);
    } else {
        lemma_visit_stack_meets_all(node, tree.children, tree.children.len());
        let i = choose|i: int| 0 <= i < below.len() && below[i] == node;
        assert((seq![tree] + below)[i + 1] == node);
    }
}

/// Working off a stack meets every node that occurs in one of its entries.
pub proof fn lemma_visit_stack_meets_all(node: TreeView, trees: Seq<TreeView>, n: nat)
    requires
        occurs_among(node, trees, n),
    ensures
        visit_stack(trees, n).contains(node),
    decreases trees, n,
{
    let first = visit_order(trees[n - 1]);
    let rest = visit_stack(trees, (n - 1) as nat);
    if occurs_in(node, trees[n - 1]) {
        lemma_visit_order_meets_all(node, trees[n - 1]);
        let i = choose|i: int| 0 <= i < first.len() && first[i] == node;
        assert((first + rest)[i] == node);
    } else {
        lemma_visit_stack_meets_all(node, trees, (n - 1) as nat);
        let i = choose|i: int| 0 <= i < rest.len() && rest[i] == node;
        assert((first + rest)[first.len() + i] == node);
    }
}

/// The walk meets only nodes that occur in the tree.
pub proof fn lemma_visit_order_within(tree: TreeView, k: int)
    requires
        0 <= k < visit_order(tree).len(),
    ensures
        occurs_in(visit_order(tree)[k], tree),
    decreases tree, 0nat,
{
    if k > 0 {
        lemma_visit_stack_within(tree.children, tree.children.len(), k - 1);
    }
}

/// Working off a stack meets only nodes that occur in one of its entries.
pub proof fn lemma_visit_stack_within(trees: Seq<TreeView>, n: nat, k: int)
    requires
        0 <= k < visit_stack(trees, n).len(),
    ensures
        occurs_among(visit_stack(trees, n)[k], trees, n),
    decreases trees, n,
{
    let first = visit_order(trees[n - 1]);
    if k < first.len() {
        lemma_visit_order_within(trees[n - 1], k);
    } else {
        lemma_visit_stack_within(trees, (n - 1) as nat, k - first.len());
    }
}

/// Whether each of `nodes` starts no earlier than those before it.
pub open spec fn in_source_order(nodes: Seq<TreeView>) -> bool {
    forall|i: int, j: int|
        0 <= i <= j < nodes.len() ==> (#[trigger] nodes[i]).start_byte <= (
        #[trigger] nodes[j]).start_byte
}

/// The first node of a kind stands before every other node of that kind;
/// there is none only where no node is of that kind.
pub proof fn lemma_first_of_kind_is_first(nodes: Seq<TreeView>, kind: Seq<char>, n: nat)
    requires
        n <= nodes.len(),
    ensures
        first_of_kind(nodes, kind, n) matches Some(found) ==> exists|i: int|
            0 <= i < n && #[trigger] nodes[i] == found && found.kind == kind && forall|j: int|
                0 <= j < i ==> (#[trigger] nodes[j]).kind != kind,
        first_of_kind(nodes, kind, n).is_none() ==> forall|j: int|
            0 <= j < n ==> (#[trigger] nodes[j]).kind != kind,
    decreases n,
{
    if n > 0 {
        lemma_first_of_kind_is_first(nodes, kind, (n - 1) as nat);
    }
}

} // verus!
