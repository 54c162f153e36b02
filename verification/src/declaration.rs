//! What the annotator reads off one type declaration of a syntax tree.

use crate::annotator::JavaAnnotation;
use crate::syntax::{lemma_view_children, nodes_of, SyntaxNode, TreeView};
use crate::text::{
    byte_len, count_whitespaces_reverse, is_position, slice_text, split_text, str_eq,
    text_before, text_between, texts_of, trailing_indent,
};
use vstd::prelude::*;
use vstd::string::*;

verus! {

/// A type declaration as found in one parse of a source text: its name, the
/// names of the marker annotations that it carries, the byte offset at which
/// it starts and the width of the indentation in front of it.
#[derive(Debug, Clone, PartialEq, Eq, Hash)]
pub struct JavaTypeDeclaration {
    name: String,
    marker_annotations: Vec<String>,
    start_byte: usize,
    tot_whitespaces: usize,
}

/// The mathematical content of a `JavaTypeDeclaration`.
pub struct DeclarationView {
    pub name: Seq<char>,
    pub marker_annotations: Seq<Seq<char>>,
    pub start_byte: int,
    pub tot_whitespaces: nat,
}

/// `s` without the `@` signs that it starts with.
pub open spec fn without_sigils(s: Seq<char>) -> Seq<char>
    decreases s.len(),
{
    if s.len() > 0 && s[0] == '@' {
        without_sigils(s.drop_first())
    } else {
        s
    }
}

/// The name that a node carries: the text of its first `identifier` child,
/// where there is one and its byte range marks off whole characters of `text`.
pub open spec fn node_name(node: TreeView, text: Seq<char>) -> Option<Seq<char>> {
    match node.child_of_kind("identifier"@) {
        Some(id) => text_between(text, id.start_byte, id.end_byte),
        None => None,
    }
}

/// The names carried by the first `n` of `nodes`, in their order; a node
/// without a name adds nothing.
pub open spec fn names_of(nodes: Seq<TreeView>, text: Seq<char>, n: nat) -> Seq<Seq<char>>
    decreases n,
{
    if n == 0 || n > nodes.len() {
        Seq::empty()
    } else {
        match node_name(nodes[n - 1], text) {
            Some(name) => names_of(nodes, text, (n - 1) as nat).push(name),
            None => names_of(nodes, text, (n - 1) as nat),
        }
    }
}

/// The marker annotations of a declaration: the `marker_annotation` children
/// of its first `modifiers` child.
pub open spec fn marker_annotation_nodes(node: TreeView) -> Seq<TreeView> {
    match node.child_of_kind("modifiers"@) {
        Some(modifiers) => modifiers.children_of_kind("marker_annotation"@),
        None => Seq::empty(),
    }
}

/// What a declaration node means for a source text; `None` where the node has
/// no readable name or does not start between two characters of the text.
pub open spec fn declaration_of(node: TreeView, text: Seq<char>) -> Option<DeclarationView> {
    match node_name(node, text) {
        Some(name) => if is_position(text, node.start_byte) {
            let markers = marker_annotation_nodes(node);
            Some(
                DeclarationView {
                    name,
                    marker_annotations: names_of(markers, text, markers.len()),
                    start_byte: node.start_byte,
                    tot_whitespaces: trailing_indent(text_before(text, node.start_byte)),
                },
            )
        } else {
            None
        },
        None => None,
    }
}

impl View for JavaTypeDeclaration {
    type V = DeclarationView;

    closed spec fn view(&self) -> DeclarationView {
        DeclarationView {
            name: self.name@,
            marker_annotations: texts_of(self.marker_annotations@),
            start_byte: self.start_byte as int,
            tot_whitespaces: self.tot_whitespaces as nat,
        }
    }
}

/// Reads the name that a node carries.
pub fn extract_name(node: &SyntaxNode, src: &str) -> (name: Option<String>)
    ensures
        name.is_some() == node_name(node@, src@).is_some(),
        name matches Some(s) ==> Some(s@) == node_name(node@, src@),
{
    match node.find_child("identifier") {
        Some(id) => {
            proof {
                lemma_view_children(*id);
            }
            slice_text(src, id.start_byte, id.end_byte)
        },
        None => None,
    }
}

/// Reads the names that the given nodes carry, in their order, passing over
/// the nodes that carry none.
pub fn extract_all_names(nodes: &Vec<&SyntaxNode>, src: &str) -> (names: Vec<String>)
    ensures
        texts_of(names@) == names_of(nodes_of(nodes@), src@, nodes@.len()),
{
    let mut names: Vec<String> = Vec::new();
    let mut i: usize = 0;
    while i < nodes.len()
        invariant
            i <= nodes.len(),
            texts_of(names@) == names_of(nodes_of(nodes@), src@, i as nat),
        decreases nodes.len() - i,
    {
        if let Some(name) = extract_name(nodes[i], src) {
            names.push(name);
        }
        i = i + 1;
    }
    names
}

/// Collects the marker annotations of a declaration node.
pub fn find_all_marker_annotation_nodes(node: &SyntaxNode) -> (found: Vec<&SyntaxNode>)
    ensures
        nodes_of(found@) == marker_annotation_nodes(node@),
{
    match node.find_child("modifiers") {
        Some(modifiers) => modifiers.find_children("marker_annotation"),
        None => Vec::new(),
    }
}

/// Takes a snapshot of the declaration at `node` in the source text `src`:
/// its name, its marker annotations, where it starts and how far it is
/// indented. There is none where `declaration_of` has none.
pub fn build_java_declaration(node: &SyntaxNode, src: &str) -> (declaration: Option<
    JavaTypeDeclaration,
>)
    ensures
        declaration.is_some() == declaration_of(node@, src@).is_some(),
        declaration matches Some(d) ==> Some(d@) == declaration_of(node@, src@),
{
    let name = match extract_name(node, src) {
        Some(name) => name,
        None => { return None; },
    };
    let start_byte = node.start_byte;
    proof {
        lemma_view_children(*node);
    }
    if start_byte > byte_len(src) || !src.is_char_boundary(start_byte) {
        return None;
    }
    let marker_annotations = find_all_marker_annotation_nodes(node);
    let marker_annotation_names = extract_all_names(&marker_annotations, src);
    let tot_whitespaces = count_whitespaces_reverse(split_text(src, start_byte).0);
    Some(
        JavaTypeDeclaration {
            name,
            marker_annotations: marker_annotation_names,
            start_byte,
            tot_whitespaces,
        },
    )
}

/// A text that starts with exactly `k` `@` signs is, without them, what
/// follows the first `k` characters.
proof fn lemma_without_sigils(s: Seq<char>, k: int)
    requires
        0 <= k <= s.len(),
        forall|j: int| 0 <= j < k ==> s[j] == '@',
        k < s.len() ==> s[k] != '@',
    ensures
        without_sigils(s) == s.skip(k),
    decreases k,
{
    if k > 0 {
        lemma_without_sigils(s.drop_first(), k - 1);
    }
}

impl JavaTypeDeclaration {
    /// Whether the declaration carries the marker annotation that
    /// `annotation_name` asks for: whether its short name, without `@`, is
    /// among the names of the marker annotations found.
    pub fn contains_marker_annotation(&self, annotation_name: &JavaAnnotation) -> (r: bool)
        ensures
            r == self@.marker_annotations.contains(without_sigils(annotation_name.short_name())),
    {
        let full = annotation_name.annotation_name();
        let len = full.unicode_len();
        let mut k: usize = 0;
        while k < len && full.get_char(k) == '@'
            invariant
                k <= len,
                len == full@.len(),
                forall|j: int| 0 <= j < k ==> full@[j] == '@',
            decreases len - k,
        {
            k = k + 1;
        }
        let wanted = full.substring_char(k, len);
        proof {
            lemma_without_sigils(full@, k as int);
        }
        let mut i: usize = 0;
        while i < self.marker_annotations.len()
            invariant
                i <= self.marker_annotations.len(),
                wanted@ == without_sigils(annotation_name.short_name()),
                forall|j: int| 0 <= j < i ==> texts_of(self.marker_annotations@)[j] != wanted@,
            decreases self.marker_annotations.len() - i,
        {
            if str_eq(self.marker_annotations[i].as_str(), wanted) {
                assert(texts_of(self.marker_annotations@)[i as int] == wanted@);
                return true;
            }
            i = i + 1;
        }
        false
    }

    /// The width of the indentation in front of the declaration.
    pub fn tot_whitespaces(&self) -> (n: usize)
        ensures
            n == self@.tot_whitespaces,
    {
        self.tot_whitespaces
    }

    /// The byte offset at which the declaration starts.
    pub fn start_byte(&self) -> (n: usize)
        ensures
            n == self@.start_byte,
    {
        self.start_byte
    }

    /// The declared type's name.
    pub fn name(&self) -> (name: &str)
        ensures
            name@ == self@.name,
    {
        self.name.as_str()
    }
}

} // verus!
