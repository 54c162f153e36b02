//! Where the import line of an annotation goes in a source text.

use crate::annotator::{AnnotatorError, JavaAnnotation};
use crate::syntax::{
    in_source_order, lemma_first_of_kind_is_first, lemma_view_children, SyntaxNode, TreeView,
};
use crate::text::{
    byte_len, bytes_of, insert_text, inserted, is_position, lemma_encoded_concat,
    lemma_inserted_bytes, lemma_inserted_moves, lemma_inserted_parts, lemma_line_feed_byte,
    lemma_same_prefix_between, slice_text, str_eq, text_between, texts_of,
};
use vstd::prelude::*;
use vstd::string::*;

verus! {

/// The import line for a dotted name.
pub open spec fn import_line(fully_qualified_name: Seq<char>) -> Seq<char> {
    "import "@ + fully_qualified_name + ";"@
}

/// The texts of the import declarations among the first `n` of `nodes`, in
/// their order; `None` where the byte range of one of them does not mark off
/// whole characters of `text`.
pub open spec fn import_texts(nodes: Seq<TreeView>, text: Seq<char>, n: nat) -> Option<
    Seq<Seq<char>>,
>
    decreases n,
{
    if n == 0 || n > nodes.len() {
        Some(Seq::empty())
    } else {
        match import_texts(nodes, text, (n - 1) as nat) {
            Some(before) => if nodes[n - 1].kind == "import_declaration"@ {
                match text_between(text, nodes[n - 1].start_byte, nodes[n - 1].end_byte) {
                    Some(line) => Some(before.push(line)),
                    None => None,
                }
            } else {
                Some(before)
            },
            None => None,
        }
    }
}

/// The texts of the import declarations at the top of a tree.
pub open spec fn imports_of(tree: TreeView, text: Seq<char>) -> Option<Seq<Seq<char>>> {
    import_texts(tree.children, text, tree.children.len())
}

/// Where the first import declaration at the top of a tree starts.
pub open spec fn first_import_start(tree: TreeView) -> Option<int> {
    match tree.child_of_kind("import_declaration"@) {
        Some(first) => Some(first.start_byte),
        None => None,
    }
}

/// Where the package declaration at the top of a tree ends; 0 without one.
pub open spec fn package_end(tree: TreeView) -> int {
    match tree.child_of_kind("package_declaration"@) {
        Some(package) => package.end_byte,
        None => 0,
    }
}

/// The byte offset at which a new import line goes: where the first import
/// starts, else where the package declaration ends, else the start.
pub open spec fn import_offset(tree: TreeView) -> int {
    match first_import_start(tree) {
        Some(start) => start,
        None => package_end(tree),
    }
}

/// What is written for a new import line: in front of existing imports the
/// line and a line feed; otherwise two line feeds, the line and a line feed.
pub open spec fn import_piece(tree: TreeView, line: Seq<char>) -> Seq<char> {
    match first_import_start(tree) {
        Some(_) => line + seq!['\n'],
        None => seq!['\n', '\n'] + line + seq!['\n'],
    }
}

/// `text` with the import line `line` ensured, by the imports and offsets of
/// `tree`: unchanged where the line is the text of an import of the tree, else
/// with the line put in at `import_offset`. `None` where an import of the tree
/// cannot be read from the text or the offset does not lie between two of its
/// characters.
pub open spec fn with_import(text: Seq<char>, line: Seq<char>, tree: TreeView) -> Option<
    Seq<char>,
> {
    match imports_of(tree, text) {
        Some(imports) => if imports.contains(line) {
            Some(text)
        } else if is_position(text, import_offset(tree)) {
            Some(inserted(text, import_offset(tree), import_piece(tree, line)))
        } else {
            None
        },
        None => None,
    }
}

/// Reads the text of every import declaration at the top of `tree`.
pub fn find_all_imports(tree: &SyntaxNode, src: &str) -> (imports: Option<Vec<String>>)
    ensures
        imports.is_some() == imports_of(tree@, src@).is_some(),
        imports matches Some(found) ==> Some(texts_of(found@)) == imports_of(tree@, src@),
{
    proof {
        lemma_view_children(*tree);
    }
    let mut found: Vec<String> = Vec::new();
    let mut i: usize = 0;
    while i < tree.children.len()
        invariant
            i <= tree.children.len(),
            tree@.children.len() == tree.children@.len(),
            forall|k: int|
                0 <= k < tree.children@.len() ==> #[trigger] tree@.children[k]
                    == tree.children@[k]@,
            Some(texts_of(found@)) == import_texts(tree@.children, src@, i as nat),
        decreases tree.children.len() - i,
    {
        let child = &tree.children[i];
        proof {
            lemma_view_children(*child);
        }
        if child.is_kind("import_declaration") {
            match slice_text(src, child.start_byte, child.end_byte) {
                Some(line) => {
                    found.push(line);
                },
                None => {
                    proof {
                        lemma_import_texts_stays_none(
                            tree@.children,
                            src@,
                            (i + 1) as nat,
                            tree@.children.len(),
                        );
                    }
                    return None;
                },
            }
        }
        i = i + 1;
    }
    Some(found)
}

/// Imports that cannot be read among the first `m` nodes cannot be read among
/// more.
pub proof fn lemma_import_texts_stays_none(
    nodes: Seq<TreeView>,
    text: Seq<char>,
    m: nat,
    n: nat,
)
    requires
        m <= n <= nodes.len(),
        import_texts(nodes, text, m).is_none(),
    ensures
        import_texts(nodes, text, n).is_none(),
    decreases n,
{
    if m < n {
        lemma_import_texts_stays_none(nodes, text, m, (n - 1) as nat);
    }
}

/// Finds where the first import declaration at the top of `tree` starts.
pub fn find_start_byte_imports(tree: &SyntaxNode) -> (start: Option<usize>)
    ensures
        match start {
            Some(offset) => first_import_start(tree@) == Some(offset as int),
            None => first_import_start(tree@).is_none(),
        },
{
    match tree.find_child("import_declaration") {
        Some(first) => {
            proof {
                lemma_view_children(*first);
            }
            Some(first.start_byte)
        },
        None => None,
    }
}

/// Finds where the package declaration at the top of `tree` ends; 0 without
/// one.
pub fn find_last_byte_package_declaration(tree: &SyntaxNode) -> (end: usize)
    ensures
        end == package_end(tree@),
{
    match tree.find_child("package_declaration") {
        Some(package) => {
            proof {
                lemma_view_children(*package);
            }
            package.end_byte
        },
        None => 0,
    }
}

/// Decides whether `line` is among `lines`.
pub fn contains_line(lines: &Vec<String>, line: &str) -> (r: bool)
    ensures
        r == texts_of(lines@).contains(line@),
{
    let mut i: usize = 0;
    while i < lines.len()
        invariant
            i <= lines.len(),
            forall|j: int| 0 <= j < i ==> texts_of(lines@)[j] != line@,
        decreases lines.len() - i,
    {
        if str_eq(lines[i].as_str(), line) {
            assert(texts_of(lines@)[i as int] == line@);
            return true;
        }
        i = i + 1;
    }
    false
}

/// Ensures that `text` holds the import line of `annotation`, going by the
/// imports and byte offsets of `tree`. Where the line is the exact text of an
/// import declaration of the tree, the text comes back unchanged. Otherwise
/// the line is put in: in front of the first import declaration, followed by
/// a line feed; without imports, after the package declaration, or at the
/// start without one, between two line feeds and one. Fails with
/// `ParseFailure` where the tree does not fit the text.
pub fn add_import_if_not_exists(text: &str, annotation: &JavaAnnotation, tree: &SyntaxNode) -> (r:
    Result<String, AnnotatorError>)
    ensures
        r.is_ok() == with_import(text@, import_line(annotation.qualified_name()), tree@).is_some(),
        r matches Ok(out) ==> Some(out@) == with_import(
            text@,
            import_line(annotation.qualified_name()),
            tree@,
        ),
        r matches Err(e) ==> e is ParseFailure,
{
    let imports = match find_all_imports(tree, text) {
        Some(imports) => imports,
        None => { return Err(AnnotatorError::ParseFailure); },
    };
    let annotation_import = annotation.import();
    if contains_line(&imports, annotation_import.as_str()) {
        return Ok(text.to_owned());
    }
    let (offset, piece) = match find_start_byte_imports(tree) {
        Some(start_byte) => {
            let mut piece = annotation_import;
            piece.append("\n");
            (start_byte, piece)
        },
        None => {
            let mut piece = "\n\n".to_owned();
            piece.append(annotation_import.as_str());
            piece.append("\n");
            (find_last_byte_package_declaration(tree), piece)
        },
    };
    proof {
        reveal_strlit("\n");
        reveal_strlit("\n\n");
    }
    if offset > byte_len(text) || !text.is_char_boundary(offset) {
        return Err(AnnotatorError::ParseFailure);
    }
    Ok(insert_text(text, offset, piece.as_str()))
}

/// How many line feeds stand in front of a new import line: none in front of
/// existing imports, two otherwise.
pub open spec fn import_lead(tree: TreeView) -> int {
    match first_import_start(tree) {
        Some(_) => 0,
        None => 2,
    }
}

/// Where an import line had to be written, the new text holds it: at the
/// offset chosen, behind the line feeds that lead it in.
pub proof fn lemma_import_is_written(text: Seq<char>, line: Seq<char>, tree: TreeView)
    requires
        imports_of(tree, text) matches Some(imports) && !imports.contains(line),
        with_import(text, line, tree).is_some(),
    ensures
        ({
            let out = with_import(text, line, tree).unwrap();
            let start = import_offset(tree) + import_lead(tree);
            text_between(out, start, start + bytes_of(line).len()) == Some(line)
        }),
{
    let at = import_offset(tree);
    let out = with_import(text, line, tree).unwrap();
    let feed = seq!['\n'];
    lemma_line_feed_byte();
    vstd::utf8::encode_utf8_valid_utf8(feed);
    let head = bytes_of(text).subrange(0, at);
    let rest = bytes_of(text).subrange(at, bytes_of(text).len() as int);
    let name = bytes_of(line);
    if first_import_start(tree).is_some() {
        let short = inserted(text, at, line);
        lemma_inserted_parts(text, at, line);
        lemma_inserted_bytes(text, at, line);
        lemma_inserted_bytes(text, at, line + feed);
        lemma_encoded_concat(line, feed);
        assert(bytes_of(short).subrange(0, at + name.len()) == head + name);
        assert(bytes_of(short).subrange(at + name.len(), bytes_of(short).len() as int) == rest);
        assert(head + (name + bytes_of(feed)) + rest == (head + name) + bytes_of(feed) + rest);
        lemma_same_prefix_between(short, out, at, at + name.len(), bytes_of(feed));
    } else {
        let lead = seq!['\n', '\n'];
        assert(lead == feed + feed);
        lemma_encoded_concat(feed, feed);
        let short = inserted(text, at, lead + line);
        lemma_inserted_bytes(text, at, lead);
        lemma_inserted_bytes(text, at, lead + line);
        lemma_inserted_bytes(text, at, lead + line + feed);
        lemma_encoded_concat(lead, line);
        lemma_encoded_concat(lead + line, feed);
        // The line stands at the end of what is put in without the last feed.
        let with_lead = inserted(text, at, lead);
        lemma_inserted_parts(text, at, lead);
        assert(short == inserted(with_lead, at + 2, line)) by {
            lemma_inserted_parts(with_lead, at + 2, line);
        }
        lemma_inserted_parts(with_lead, at + 2, line);
        assert(bytes_of(short).subrange(0, at + 2 + name.len()) == head + (bytes_of(lead) + name));
        assert(bytes_of(short).subrange(at + 2 + name.len(), bytes_of(short).len() as int)
            == rest);
        assert(head + ((bytes_of(lead) + name) + bytes_of(feed)) + rest == (head + (bytes_of(lead)
            + name)) + bytes_of(feed) + rest);
        lemma_same_prefix_between(short, out, at + 2, at + 2 + name.len(), bytes_of(feed));
    }
}

/// A line among the imports read is the text of an import declaration.
pub proof fn lemma_import_texts_member(
    nodes: Seq<TreeView>,
    text: Seq<char>,
    n: nat,
    line: Seq<char>,
)
    requires
        import_texts(nodes, text, n) matches Some(lines) && lines.contains(line),
    ensures
        exists|k: int|
            0 <= k < n && k < nodes.len() && (#[trigger] nodes[k]).kind == "import_declaration"@
                && text_between(text, nodes[k].start_byte, nodes[k].end_byte) == Some(line),
    decreases n,
{
    if 0 < n <= nodes.len() {
        let before = import_texts(nodes, text, (n - 1) as nat).unwrap();
        if before.contains(line) {
            lemma_import_texts_member(nodes, text, (n - 1) as nat, line);
        } else {
            let lines = import_texts(nodes, text, n).unwrap();
            let i = choose|i: int| 0 <= i < lines.len() && lines[i] == line;
            assert(i == before.len());
        }
    }
}

/// After the import of an annotation was ensured, the text holds its line.
pub proof fn lemma_import_stands(text: Seq<char>, line: Seq<char>, tree: TreeView)
    requires
        with_import(text, line, tree).is_some(),
    ensures
        exists|start: int, end: int| #[trigger]
            text_between(with_import(text, line, tree).unwrap(), start, end) == Some(line),
{
    let out = with_import(text, line, tree).unwrap();
    if imports_of(tree, text).unwrap().contains(line) {
        lemma_import_texts_member(tree.children, text, tree.children.len(), line);
        let k = choose|k: int|
            0 <= k < tree.children.len() && (#[trigger] tree.children[k]).kind
                == "import_declaration"@ && text_between(
                text,
                tree.children[k].start_byte,
                tree.children[k].end_byte,
            ) == Some(line);
        assert(text_between(out, tree.children[k].start_byte, tree.children[k].end_byte) == Some(
            line,
        ));
    } else {
        lemma_import_is_written(text, line, tree);
        let start = import_offset(tree) + import_lead(tree);
        assert(text_between(out, start, start + bytes_of(line).len()) == Some(line));
    }
}

/// A new import line goes in front of every import that the tree has, where
/// the top of the tree is in source order: each of them stands behind the
/// new line, moved by the length of what was written and otherwise as it was.
pub proof fn lemma_import_goes_first(
    text: Seq<char>,
    line: Seq<char>,
    tree: TreeView,
    k: int,
)
    requires
        in_source_order(tree.children),
        0 <= k < tree.children.len(),
        tree.children[k].kind == "import_declaration"@,
        imports_of(tree, text) matches Some(imports) && !imports.contains(line),
        with_import(text, line, tree).is_some(),
    ensures
        ({
            let out = with_import(text, line, tree).unwrap();
            let width = bytes_of(line).len() + 1;
            let import = tree.children[k];
            &&& import_lead(tree) == 0
            &&& import_offset(tree) + width <= import.start_byte + width
            &&& text_between(out, import.start_byte + width, import.end_byte + width)
                == text_between(text, import.start_byte, import.end_byte)
        }),
{
    let import = tree.children[k];
    let feed = seq!['\n'];
    lemma_first_of_kind_is_first(tree.children, "import_declaration"@, tree.children.len());
    lemma_line_feed_byte();
    lemma_encoded_concat(line, feed);
    if import.start_byte <= import.end_byte {
        lemma_inserted_moves(
            text,
            import_offset(tree),
            line + feed,
            import.start_byte,
            import.end_byte,
        );
    }
}

} // verus!
