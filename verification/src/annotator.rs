//! Annotation descriptors and the transformer that inserts missing marker
//! annotations, with their imports, into a Java source text.

use crate::declaration::{declaration_of, DeclarationView, JavaTypeDeclaration};
use crate::imports::{
    add_import_if_not_exists, contains_line, import_line, import_offset, import_piece,
    imports_of, with_import,
};
use crate::io::JavaFile;
use crate::parser::{java_syntax_tree, parse_java};
use crate::syntax::{visit_order, SyntaxNode, TreeView};
use crate::text::{
    byte_len, bytes_of, inserted, is_position, lemma_encoded_concat, lemma_encoded_len,
    lemma_inserted_bytes, lemma_inserted_parts, lemma_line_feed_byte,
    lemma_same_prefix_between, lemma_spaces_bytes, lemma_trailing_indent_of_spaces,
    make_spaces, spaces, split_text, text_before, text_between, text_from, texts_of,
    trailing_indent,
};
use crate::walk::{
    find_unannotated, fully_annotated, lemma_scan_gap, lemma_scan_tree_complete, scan_tree, Scan,
};
use vstd::prelude::*;
use vstd::string::*;

verus! {

/// Why the annotator gave up.
#[derive(Debug, Clone, PartialEq, Eq)]
pub enum AnnotatorError {
    /// An annotation was given without the leading `@`, or with nothing
    /// after it.
    MalformedAnnotation { input: String },
    /// The source text could not be turned into a syntax tree that fits it.
    ParseFailure,
}

/// The message of a malformed annotation: what is wrong with `input`.
pub open spec fn malformed_message(input: Seq<char>) -> Seq<char> {
    if input.len() > 0 && input[0] == '@' {
        "Annotation '"@ + input + "' is invalid"@
    } else {
        "Annotation '"@ + input + "' must start with '@'"@
    }
}

impl AnnotatorError {
    /// What went wrong, in words: for a malformed annotation the input and
    /// what is wrong with it.
    pub open spec fn message_text(&self) -> Seq<char> {
        match self {
            AnnotatorError::MalformedAnnotation { input } => malformed_message(input@),
            AnnotatorError::ParseFailure => "Source text cannot be parsed"@,
        }
    }

    /// Puts the error in words.
    pub fn message(&self) -> (text: String)
        ensures
            text@ == self.message_text(),
    {
        match self {
            AnnotatorError::MalformedAnnotation { input } => {
                let mut text = "Annotation '".to_owned();
                text.append(input.as_str());
                if input.as_str().unicode_len() > 0 && input.as_str().get_char(0) == '@' {
                    text.append("' is invalid");
                } else {
                    text.append("' must start with '@'");
                }
                text
            },
            AnnotatorError::ParseFailure => "Source text cannot be parsed".to_owned(),
        }
    }
}

/// A marker annotation to require: its short name, `@` included, and the
/// dotted name under which it is imported.
#[derive(Debug, Clone, PartialEq, Eq)]
pub struct JavaAnnotation {
    annotation_name: String,
    fully_qualified_name: String,
}

/// The part of `s` after its last dot; all of `s` where it holds none.
pub open spec fn last_segment(s: Seq<char>) -> Seq<char>
    decreases s.len(),
{
    if s.len() == 0 || s.last() == '.' {
        Seq::empty()
    } else {
        last_segment(s.drop_last()).push(s.last())
    }
}

/// Whether `spec` names an annotation: an `@` with something after it.
pub open spec fn is_annotation_spec(spec: Seq<char>) -> bool {
    spec.len() >= 2 && spec[0] == '@'
}

/// Where the last segment of the first `n` characters of `s` starts.
spec fn last_segment_start(s: Seq<char>, n: int) -> int {
    n - last_segment(s.take(n)).len()
}

/// The last segment of a text is what it ends with.
proof fn lemma_last_segment_is_suffix(s: Seq<char>)
    ensures
        last_segment(s).len() <= s.len(),
        last_segment(s) == s.skip(s.len() - last_segment(s).len()),
    decreases s.len(),
{
    if s.len() > 0 && s.last() != '.' {
        lemma_last_segment_is_suffix(s.drop_last());
    }
}

impl JavaAnnotation {
    /// The short name, `@` included.
    pub closed spec fn short_name(&self) -> Seq<char> {
        self.annotation_name@
    }

    /// The dotted name that the import line carries.
    pub closed spec fn qualified_name(&self) -> Seq<char> {
        self.fully_qualified_name@
    }

    /// What holds of every annotation that was read from its written form:
    /// the dotted name is not empty, and the short name is `@` with its last
    /// segment.
    pub open spec fn wf(&self) -> bool {
        &&& self.qualified_name().len() >= 1
        &&& self.short_name() == seq!['@'] + last_segment(self.qualified_name())
    }

    /// Reads an annotation from its written form: `@`, then a simple or a
    /// dotted name. The short name is `@` with the last segment of that name.
    pub fn new(annotation: &str) -> (r: Result<JavaAnnotation, AnnotatorError>)
        ensures
            r.is_ok() == is_annotation_spec(annotation@),
            r matches Ok(a) ==> {
                &&& a.wf()
                &&& a.qualified_name() == annotation@.skip(1)
                &&& a.short_name() == seq!['@'] + last_segment(annotation@.skip(1))
            },
            r matches Err(e) ==> e matches AnnotatorError::MalformedAnnotation { input }
                && input@ == annotation@,
    {
        let len = annotation.unicode_len();
        if len < 2 || annotation.get_char(0) != '@' {
            return Err(AnnotatorError::MalformedAnnotation { input: annotation.to_owned() });
        }
        let mut start: usize = 1;
        let mut i: usize = 1;
        while i < len
            invariant
                1 <= start <= i <= len,
                len == annotation@.len(),
                start - 1 == last_segment_start(annotation@.skip(1), i - 1),
            decreases len - i,
        {
            proof {
                let rest = annotation@.skip(1);
                assert(rest.take(i as int).drop_last() == rest.take(i - 1));
            }
            if annotation.get_char(i) == '.' {
                start = i + 1;
            }
            i = i + 1;
        }
        let qualified = annotation.substring_char(1, len);
        let segment = annotation.substring_char(start, len);
        let mut name = "@".to_owned();
        name.append(segment);
        proof {
            reveal_strlit("@");
            let rest = annotation@.skip(1);
            assert(rest.take(len - 1) == rest);
            lemma_last_segment_is_suffix(rest);
            assert(segment@ == rest.skip(start - 1));
            assert("@"@ == seq!['@']);
        }
        Ok(JavaAnnotation { annotation_name: name, fully_qualified_name: qualified.to_owned() })
    }

    /// The short name, `@` included: the text that is written above a
    /// declaration.
    pub fn annotation_name(&self) -> (name: &str)
        ensures
            name@ == self.short_name(),
    {
        self.annotation_name.as_str()
    }

    /// The dotted name that the import line carries.
    pub fn fully_qualified_name(&self) -> (name: &str)
        ensures
            name@ == self.qualified_name(),
    {
        self.fully_qualified_name.as_str()
    }

    /// The import line of this annotation: `import`, a space, the dotted name
    /// and a semicolon.
    pub fn import(&self) -> (line: String)
        ensures
            line@ == import_line(self.qualified_name()),
    {
        let mut line = "import ".to_owned();
        line.append(self.fully_qualified_name.as_str());
        line.append(";");
        line
    }
}

/// What is written in front of a declaration to annotate it: the annotation,
/// a line feed, and as many spaces as the declaration is indented.
pub open spec fn annotation_piece(annotation: Seq<char>, indent: nat) -> Seq<char> {
    annotation + seq!['\n'] + spaces(indent)
}

/// `src` with the annotation written in front of the declaration.
pub open spec fn with_annotation(
    src: Seq<char>,
    annotation: Seq<char>,
    declaration: DeclarationView,
) -> Seq<char> {
    inserted(
        src,
        declaration.start_byte,
        annotation_piece(annotation, declaration.tot_whitespaces),
    )
}

/// Writes `annotation` in front of a declaration of `src`: at the byte offset
/// where the declaration starts come the annotation, a line feed and the
/// declaration's indentation in spaces, so that the annotation takes the
/// declaration's place on its line and the declaration follows on the next.
pub fn add_annotation(src: &str, annotation: &str, declaration: &JavaTypeDeclaration) -> (out:
    String)
    requires
        is_position(src@, declaration@.start_byte),
    ensures
        out@ == with_annotation(src@, annotation@, declaration@),
{
    let parts = split_text(src, declaration.start_byte());
    let indent = make_spaces(declaration.tot_whitespaces());
    let mut out = parts.0.to_owned();
    out.append(annotation);
    out.append("\n");
    out.append(indent.as_str());
    out.append(parts.1);
    proof {
        reveal_strlit("\n");
    }
    out
}

/// An annotation written in front of a declaration stands where the
/// declaration stood, behind the same indentation, and the declaration
/// follows it unchanged, behind an indentation of the same width.
pub proof fn lemma_annotation_keeps_indentation(
    src: Seq<char>,
    annotation: Seq<char>,
    node: TreeView,
    declaration: DeclarationView,
)
    requires
        declaration_of(node, src) == Some(declaration),
    ensures
        ({
            let out = with_annotation(src, annotation, declaration);
            let start = declaration.start_byte;
            let end = start + bytes_of(annotation).len();
            let moved = end + 1 + declaration.tot_whitespaces;
            &&& text_between(out, start, end) == Some(annotation)
            &&& trailing_indent(text_before(out, start)) == declaration.tot_whitespaces
            &&& is_position(out, moved)
            &&& text_from(out, moved) == text_from(src, start)
            &&& trailing_indent(text_before(out, moved)) == declaration.tot_whitespaces
        }),
{
    let start = declaration.start_byte;
    let width = declaration.tot_whitespaces;
    let tail = seq!['\n'] + spaces(width);
    let piece = annotation_piece(annotation, width);
    let out = with_annotation(src, annotation, declaration);
    assert(piece == annotation + tail);
    lemma_inserted_parts(src, start, piece);
    lemma_encoded_concat(annotation, tail);
    lemma_spaces_bytes(width);
    lemma_encoded_concat(seq!['\n'], spaces(width));
    assert(bytes_of(seq!['\n']).len() == 1) by {
        lemma_line_feed_byte();
    }
    lemma_trailing_indent_of_spaces(text_before(src, start) + annotation, width);
    assert(text_before(src, start) + piece == text_before(src, start) + annotation + seq!['\n']
        + spaces(width));
    // The annotation itself: the part of the new text that starts where the
    // declaration stood.
    let with_name_only = inserted(src, start, annotation);
    lemma_inserted_parts(src, start, annotation);
    lemma_inserted_bytes(src, start, annotation);
    lemma_inserted_bytes(src, start, piece);
    vstd::utf8::encode_utf8_valid_utf8(tail);
    assert(bytes_of(out) == bytes_of(with_name_only).subrange(
        0,
        start + bytes_of(annotation).len(),
    ) + bytes_of(tail) + bytes_of(with_name_only).subrange(
        start + bytes_of(annotation).len(),
        bytes_of(with_name_only).len() as int,
    ));
    lemma_same_prefix_between(
        with_name_only,
        out,
        start,
        start + bytes_of(annotation).len(),
        bytes_of(tail),
    );
}

/// What one step of the transformer does to a text.
pub enum Step {
    /// Nothing: no declaration lacks a required annotation.
    Done,
    /// One annotation was written, with its import; `name` is the type that
    /// received it.
    Edited { text: Seq<char>, name: Seq<char> },
    /// The text has no syntax tree that fits it.
    Failed,
}

/// `text` after one edit: the annotation written in front of the declaration,
/// then its import ensured in the text so changed, by the same tree.
pub open spec fn edited(
    text: Seq<char>,
    tree: TreeView,
    declaration: DeclarationView,
    annotation: JavaAnnotation,
) -> Option<Seq<char>> {
    with_import(
        with_annotation(text, annotation.short_name(), declaration),
        import_line(annotation.qualified_name()),
        tree,
    )
}

/// One step on a text with its syntax tree: the first gap that the walk
/// finds is closed, and nothing else is touched.
pub open spec fn step_on(tree: TreeView, text: Seq<char>, annotations: Seq<JavaAnnotation>)
    -> Step {
    match scan_tree(tree, text, annotations) {
        Scan::Complete => Step::Done,
        Scan::Gap { declaration, annotation } => match edited(
            text,
            tree,
            declaration,
            annotations[annotation],
        ) {
            Some(changed) => Step::Edited { text: changed, name: declaration.name },
            None => Step::Failed,
        },
        Scan::Unreadable => Step::Failed,
    }
}

/// Takes one step on `text`, whose syntax tree is `tree`: finds the first
/// type declaration, in the order of the walk, that lacks a required
/// annotation, writes the first annotation that it lacks in front of it and
/// ensures its import. The result holds the new text and the name of the
/// type; `Ok(None)` where nothing is missing; `ParseFailure` where the tree
/// does not fit the text.
pub fn annotate_once(text: &str, tree: &SyntaxNode, annotations: &Vec<JavaAnnotation>) -> (r:
    Result<Option<(String, String)>, AnnotatorError>)
    ensures
        match step_on(tree@, text@, annotations@) {
            Step::Done => r matches Ok(None),
            Step::Edited { text: changed, name } => r matches Ok(Some(edit)) && edit.0@ == changed
                && edit.1@ == name,
            Step::Failed => r matches Err(AnnotatorError::ParseFailure),
        },
{
    proof {
        lemma_scan_gap(visit_order(tree@), text@, annotations@);
    }
    match find_unannotated(tree, text, annotations) {
        Ok(Some((declaration, index))) => {
            let annotation = &annotations[index];
            let annotated = add_annotation(text, annotation.annotation_name(), &declaration);
            match add_import_if_not_exists(annotated.as_str(), annotation, tree) {
                Ok(changed) => Ok(Some((changed, declaration.name().to_owned()))),
                Err(_) => Err(AnnotatorError::ParseFailure),
            }
        },
        Ok(None) => Ok(None),
        Err(_) => Err(AnnotatorError::ParseFailure),
    }
}

/// One step on a text: a step with the syntax tree that the parser builds for
/// it; failed where it builds none.
pub open spec fn step(text: Seq<char>, annotations: Seq<JavaAnnotation>) -> Step {
    match java_syntax_tree(text) {
        Some(tree) => step_on(tree, text, annotations),
        None => Step::Failed,
    }
}

/// `names` with `name` recorded: added at the end unless it is there.
pub open spec fn with_name(names: Seq<Seq<char>>, name: Seq<char>) -> Seq<Seq<char>> {
    if names.contains(name) {
        names
    } else {
        names.push(name)
    }
}

/// The text and the names of the modified types after `n` edits of `src`;
/// `None` where fewer than `n` edits can be made.
pub open spec fn state_after(src: Seq<char>, annotations: Seq<JavaAnnotation>, n: nat) -> Option<
    (Seq<char>, Seq<Seq<char>>),
>
    decreases n,
{
    if n == 0 {
        Some((src, Seq::empty()))
    } else {
        match state_after(src, annotations, (n - 1) as nat) {
            Some((text, names)) => match step(text, annotations) {
                Step::Edited { text: changed, name } => Some((changed, with_name(names, name))),
                _ => None,
            },
            None => None,
        }
    }
}

/// The transformer turns `src` into `out`, having modified the types `names`:
/// some number of edits leads from `src` to `out`, and on `out` there is
/// nothing left to do.
pub open spec fn annotates_to(
    src: Seq<char>,
    annotations: Seq<JavaAnnotation>,
    out: Seq<char>,
    names: Seq<Seq<char>>,
) -> bool {
    exists|n: nat|
        #[trigger] state_after(src, annotations, n) == Some((out, names)) && step(out, annotations)
            is Done
}

/// The transformer fails on `src`: some number of edits leads to a text that
/// has no syntax tree fitting it.
pub open spec fn fails_on(src: Seq<char>, annotations: Seq<JavaAnnotation>) -> bool {
    exists|n: nat|
        (#[trigger] state_after(src, annotations, n)) matches Some(state) && step(
            state.0,
            annotations,
        ) is Failed
}

/// An edit makes the text longer.
pub proof fn lemma_edit_grows(
    text: Seq<char>,
    tree: TreeView,
    declaration: DeclarationView,
    annotation: JavaAnnotation,
)
    requires
        is_position(text, declaration.start_byte),
        edited(text, tree, declaration, annotation).is_some(),
    ensures
        bytes_of(edited(text, tree, declaration, annotation).unwrap()).len() > bytes_of(text).len(),
{
    let piece = annotation_piece(annotation.short_name(), declaration.tot_whitespaces);
    let annotated = with_annotation(text, annotation.short_name(), declaration);
    lemma_inserted_bytes(text, declaration.start_byte, piece);
    lemma_encoded_len(piece);
    let line = import_line(annotation.qualified_name());
    if !imports_of(tree, annotated).unwrap().contains(line) {
        lemma_inserted_bytes(annotated, import_offset(tree), import_piece(tree, line));
    }
}

/// A step that edits makes the text longer.
pub proof fn lemma_step_grows(tree: TreeView, text: Seq<char>, annotations: Seq<JavaAnnotation>)
    ensures
        step_on(tree, text, annotations) matches Step::Edited { text: changed, name } ==> bytes_of(
            changed,
        ).len() > bytes_of(text).len(),
{
    lemma_scan_gap(visit_order(tree), text, annotations);
    match scan_tree(tree, text, annotations) {
        Scan::Gap { declaration, annotation } => {
            if edited(text, tree, declaration, annotations[annotation]).is_some() {
                lemma_edit_grows(text, tree, declaration, annotations[annotation]);
            }
        },
        _ => {},
    }
}

/// The names among the first `n` of `names`, each once, in the order in which
/// they first occur.
pub open spec fn distinct(names: Seq<Seq<char>>, n: nat) -> Seq<Seq<char>>
    decreases n,
{
    if n == 0 || n > names.len() {
        Seq::empty()
    } else {
        with_name(distinct(names, (n - 1) as nat), names[n - 1])
    }
}

/// Recording a name among names that are each there once leaves each there
/// once.
pub proof fn lemma_with_name_distinct(names: Seq<Seq<char>>, name: Seq<char>)
    requires
        names.no_duplicates(),
    ensures
        with_name(names, name).no_duplicates(),
        with_name(names, name).contains(name),
{
    if !names.contains(name) {
        assert(names.push(name)[names.len() as int] == name);
    }
}

/// The names among the first `n` are each there once.
pub proof fn lemma_distinct(names: Seq<Seq<char>>, n: nat)
    ensures
        distinct(names, n).no_duplicates(),
    decreases n,
{
    if n > 0 && n <= names.len() {
        lemma_distinct(names, (n - 1) as nat);
        lemma_with_name_distinct(distinct(names, (n - 1) as nat), names[n - 1]);
    }
}

/// The names of the modified types hold no name twice.
pub proof fn lemma_modified_names_distinct(
    src: Seq<char>,
    annotations: Seq<JavaAnnotation>,
    n: nat,
)
    ensures
        state_after(src, annotations, n) matches Some(state) ==> state.1.no_duplicates(),
    decreases n,
{
    if n > 0 {
        lemma_modified_names_distinct(src, annotations, (n - 1) as nat);
        match state_after(src, annotations, (n - 1) as nat) {
            Some((text, names)) => match step(text, annotations) {
                Step::Edited { text: changed, name } => {
                    lemma_with_name_distinct(names, name);
                },
                _ => {},
            },
            None => {},
        }
    }
}

/// Records `name` among `names` unless it is there.
pub fn record_name(names: &mut Vec<String>, name: String)
    ensures
        texts_of(final(names)@) == with_name(texts_of(old(names)@), name@),
{
    if !contains_line(names, name.as_str()) {
        names.push(name);
    }
}

/// Inserts every required marker annotation that a type declaration of `src`
/// lacks, with its import. The text is parsed, walked for the first type
/// declaration that lacks a required annotation, and edited there; this is
/// repeated on the edited text until a walk finds nothing to add. The result
/// holds the final text and the names of the types that were modified, each
/// once, in the order in which they were first modified. Fails with
/// `ParseFailure` where a text on the way has no syntax tree that fits it.
pub fn annotate(src: &str, annotations: &Vec<JavaAnnotation>) -> (r: Result<
    (String, Vec<String>),
    AnnotatorError,
>)
    ensures
        r.is_err() == fails_on(src@, annotations@),
        r matches Ok(done) ==> annotates_to(src@, annotations@, done.0@, texts_of(done.1@))
            && texts_of(done.1@).no_duplicates(),
        r matches Err(e) ==> e is ParseFailure,
{
    let mut text = src.to_owned();
    let mut modified_types: Vec<String> = Vec::new();
    let ghost mut edits: nat = 0;
    let mut len = byte_len(text.as_str());
    loop
        invariant
            state_after(src@, annotations@, edits) == Some((text@, texts_of(modified_types@))),
            len == bytes_of(text@).len(),
        decreases usize::MAX - len,
    {
        let tree = match parse_java(text.as_str()) {
            Some(tree) => tree,
            None => {
                return Err(AnnotatorError::ParseFailure);
            },
        };
        proof {
            lemma_step_grows(tree@, text@, annotations@);
        }
        match annotate_once(text.as_str(), &tree, annotations) {
            Ok(Some((changed, name))) => {
                record_name(&mut modified_types, name);
                text = changed;
                len = byte_len(text.as_str());
                proof {
                    edits = edits + 1;
                }
            },
            Ok(None) => {
                proof {
                    lemma_annotate_unique(src@, annotations@, text@, texts_of(modified_types@));
                    lemma_modified_names_distinct(src@, annotations@, edits);
                }
                return Ok((text, modified_types));
            },
            Err(_) => {
                return Err(AnnotatorError::ParseFailure);
            },
        }
    }
}

/// Once no further edit can be made, none can be made later.
pub proof fn lemma_state_after_stays_none(
    src: Seq<char>,
    annotations: Seq<JavaAnnotation>,
    m: nat,
    n: nat,
)
    requires
        m <= n,
        state_after(src, annotations, m).is_none(),
    ensures
        state_after(src, annotations, n).is_none(),
    decreases n,
{
    if m < n {
        lemma_state_after_stays_none(src, annotations, m, (n - 1) as nat);
    }
}

/// Where no edit follows the first `m`, fewer than `n` edits can be made for
/// every greater `n`.
proof fn lemma_done_once(src: Seq<char>, annotations: Seq<JavaAnnotation>, m: nat, n: nat)
    requires
        m < n,
        state_after(src, annotations, m) matches Some(state) && !(step(state.0, annotations)
            is Edited),
    ensures
        state_after(src, annotations, n).is_none(),
{
    lemma_state_after_stays_none(src, annotations, m + 1, n);
}

/// The transformer is a function of its input: a source has at most one
/// final text and one list of modified types, and where it has them the
/// transformer does not fail on it.
pub proof fn lemma_annotate_unique(
    src: Seq<char>,
    annotations: Seq<JavaAnnotation>,
    out: Seq<char>,
    names: Seq<Seq<char>>,
)
    requires
        annotates_to(src, annotations, out, names),
    ensures
        forall|other: Seq<char>, others: Seq<Seq<char>>|
            annotates_to(src, annotations, other, others) ==> other == out && others == names,
        !fails_on(src, annotations),
{
    let n = choose|n: nat|
        #[trigger] state_after(src, annotations, n) == Some((out, names)) && step(out, annotations)
            is Done;
    assert forall|other: Seq<char>, others: Seq<Seq<char>>|
        annotates_to(src, annotations, other, others) implies other == out && others == names by {
        let m = choose|m: nat|
            #[trigger] state_after(src, annotations, m) == Some((other, others)) && step(
                other,
                annotations,
            ) is Done;
        if m < n {
            lemma_done_once(src, annotations, m, n);
        } else if n < m {
            lemma_done_once(src, annotations, n, m);
        }
    }
    if fails_on(src, annotations) {
        let m = choose|m: nat|
            (#[trigger] state_after(src, annotations, m)) matches Some(state) && step(
                state.0,
                annotations,
            ) is Failed;
        if m < n {
            lemma_done_once(src, annotations, m, n);
        } else if n < m {
            lemma_done_once(src, annotations, n, m);
        }
    }
}

/// Running the transformer on its own result changes nothing: the result is
/// its own final text, with no type modified, and has no other.
pub proof fn lemma_annotate_idempotent(
    src: Seq<char>,
    annotations: Seq<JavaAnnotation>,
    out: Seq<char>,
    names: Seq<Seq<char>>,
)
    requires
        annotates_to(src, annotations, out, names),
    ensures
        annotates_to(out, annotations, out, Seq::empty()),
        forall|again: Seq<char>, others: Seq<Seq<char>>|
            annotates_to(out, annotations, again, others) ==> again == out && others
                == Seq::<Seq<char>>::empty(),
{
    assert(state_after(out, annotations, 0) == Some((out, Seq::<Seq<char>>::empty())));
    lemma_annotate_unique(out, annotations, out, Seq::empty());
}

/// After the transformer has run, the final text has a syntax tree in which
/// every type declaration carries every required annotation.
pub proof fn lemma_annotate_complete(
    src: Seq<char>,
    annotations: Seq<JavaAnnotation>,
    out: Seq<char>,
    names: Seq<Seq<char>>,
)
    requires
        annotates_to(src, annotations, out, names),
    ensures
        java_syntax_tree(out) matches Some(tree) && fully_annotated(tree, out, annotations),
{
    let tree = java_syntax_tree(out).unwrap();
    lemma_scan_gap(visit_order(tree), out, annotations);
    lemma_scan_tree_complete(tree, out, annotations);
}

/// A source in whose syntax tree every type declaration carries every
/// required annotation is its own final text, with no type modified.
pub proof fn lemma_annotated_source_untouched(src: Seq<char>, annotations: Seq<JavaAnnotation>)
    requires
        java_syntax_tree(src) matches Some(tree) && fully_annotated(tree, src, annotations),
    ensures
        annotates_to(src, annotations, src, Seq::empty()),
        forall|out: Seq<char>, names: Seq<Seq<char>>|
            annotates_to(src, annotations, out, names) ==> out == src && names == Seq::<
                Seq<char>,
            >::empty(),
{
    let tree = java_syntax_tree(src).unwrap();
    lemma_scan_tree_complete(tree, src, annotations);
    assert(state_after(src, annotations, 0) == Some((src, Seq::<Seq<char>>::empty())));
    lemma_annotate_unique(src, annotations, src, Seq::empty());
}

/// What the annotator did to one file: the file, and the names of the types
/// that received an annotation, each once, in the order of their first edit.
#[derive(Debug, Clone, PartialEq, Eq)]
pub struct JavaFileEdit {
    java_file: JavaFile,
    modified_types: Vec<String>,
}

/// The first `n` of `names`, with a comma and a space between each two.
pub open spec fn joined(names: Seq<Seq<char>>, n: nat) -> Seq<char>
    decreases n,
{
    if n == 0 || n > names.len() {
        Seq::empty()
    } else if n == 1 {
        names[0]
    } else {
        joined(names, (n - 1) as nat) + ", "@ + names[n - 1]
    }
}

/// The line that reports an edit: the path, a space, and the names of the
/// modified types with a comma and a space between each two.
pub open spec fn report_line(path: Seq<char>, names: Seq<Seq<char>>) -> Seq<char> {
    path + " "@ + joined(names, names.len())
}

/// The report lines of the first `n` edits: one for each edit that modified
/// a type, in their order.
pub open spec fn report_lines(edits: Seq<JavaFileEdit>, n: nat) -> Seq<Seq<char>>
    decreases n,
{
    if n == 0 || n > edits.len() {
        Seq::empty()
    } else if edits[n - 1].modified_names().len() > 0 {
        report_lines(edits, (n - 1) as nat).push(
            report_line(edits[n - 1].file_path(), edits[n - 1].modified_names()),
        )
    } else {
        report_lines(edits, (n - 1) as nat)
    }
}

impl JavaFileEdit {
    /// The path of the file.
    pub closed spec fn file_path(&self) -> Seq<char> {
        self.java_file@
    }

    /// The names of the modified types.
    pub closed spec fn modified_names(&self) -> Seq<Seq<char>> {
        texts_of(self.modified_types@)
    }

    /// What holds of every edit that this library hands out: no type is
    /// named twice.
    pub open spec fn wf(&self) -> bool {
        self.modified_names().no_duplicates()
    }

    /// The edit of `java_file` that modified the types named: each is kept
    /// once, in the order in which they first occur.
    pub fn new(java_file: JavaFile, modified_types: Vec<String>) -> (edit: JavaFileEdit)
        ensures
            edit.wf(),
            edit.file_path() == java_file@,
            edit.modified_names() == distinct(texts_of(modified_types@), modified_types@.len()),
    {
        let mut names: Vec<String> = Vec::new();
        let mut i: usize = 0;
        while i < modified_types.len()
            invariant
                i <= modified_types.len(),
                texts_of(names@) == distinct(texts_of(modified_types@), i as nat),
            decreases modified_types.len() - i,
        {
            record_name(&mut names, modified_types[i].clone());
            i = i + 1;
        }
        proof {
            lemma_distinct(texts_of(modified_types@), modified_types@.len());
        }
        JavaFileEdit { java_file, modified_types: names }
    }

    /// The file.
    pub fn java_file(&self) -> (file: &JavaFile)
        ensures
            file@ == self.file_path(),
    {
        &self.java_file
    }

    /// The names of the modified types.
    pub fn modified_types(&self) -> (names: &Vec<String>)
        ensures
            texts_of(names@) == self.modified_names(),
    {
        &self.modified_types
    }

    /// Whether a type of the file received an annotation.
    pub fn is_modified(&self) -> (r: bool)
        ensures
            r == (self.modified_names().len() > 0),
    {
        self.modified_types.len() > 0
    }

    /// The line that reports this edit.
    pub fn to_string(&self) -> (line: String)
        ensures
            line@ == report_line(self.file_path(), self.modified_names()),
    {
        let mut line = self.java_file.path().to_owned();
        line.append(" ");
        let ghost head = line@;
        let mut i: usize = 0;
        while i < self.modified_types.len()
            invariant
                i <= self.modified_types.len(),
                line@ == head + joined(self.modified_names(), i as nat),
            decreases self.modified_types.len() - i,
        {
            if i > 0 {
                line.append(", ");
            }
            line.append(self.modified_types[i].as_str());
            i = i + 1;
        }
        line
    }
}

/// Writes the report: one line for each edit that modified a type, in the
/// order of the edits; nothing for the others.
pub fn report(edits: &Vec<JavaFileEdit>) -> (lines: Vec<String>)
    ensures
        texts_of(lines@) == report_lines(edits@, edits@.len()),
{
    let mut lines: Vec<String> = Vec::new();
    let mut i: usize = 0;
    while i < edits.len()
        invariant
            i <= edits.len(),
            texts_of(lines@) == report_lines(edits@, i as nat),
        decreases edits.len() - i,
    {
        if edits[i].is_modified() {
            lines.push(edits[i].to_string());
        }
        i = i + 1;
    }
    lines
}

/// Whether `outcome` is what annotating a file at `path` with the content
/// `src` gives: the record of the edit with the text to write back, which is
/// the final text where a type was modified and `None` where none was; or a
/// parse failure where the transformer fails on the content.
pub open spec fn file_outcome(
    path: Seq<char>,
    src: Seq<char>,
    annotations: Seq<JavaAnnotation>,
    outcome: Result<(JavaFileEdit, Option<String>), AnnotatorError>,
) -> bool {
    match outcome {
        Ok(done) => {
            &&& done.0.wf()
            &&& done.0.file_path() == path
            &&& done.1.is_some() == (done.0.modified_names().len() > 0)
            &&& annotates_to(
                src,
                annotations,
                match done.1 {
                    Some(text) => text@,
                    None => src,
                },
                done.0.modified_names(),
            )
        },
        Err(e) => e is ParseFailure && fails_on(src, annotations),
    }
}

/// Annotates the content `src` of one file. The result holds the record of
/// the edit and the text to write back: `None` where no type was modified,
/// so that a file with nothing to do is left as it is.
pub fn annotate_file(java_file: &JavaFile, src: &str, annotations: &Vec<JavaAnnotation>) -> (r:
    Result<(JavaFileEdit, Option<String>), AnnotatorError>)
    ensures
        r.is_err() == fails_on(src@, annotations@),
        file_outcome(java_file@, src@, annotations@, r),
{
    match annotate(src, annotations) {
        Ok((text, modified_types)) => {
            let edit = JavaFileEdit { java_file: java_file.duplicate(), modified_types };
            if edit.is_modified() {
                Ok((edit, Some(text)))
            } else {
                proof {
                    lemma_unmodified_is_unchanged(src@, annotations@, text@);
                }
                Ok((edit, None))
            }
        },
        Err(_) => Err(AnnotatorError::ParseFailure),
    }
}

/// A final text that was reached without modifying a type is the source.
pub proof fn lemma_unmodified_is_unchanged(
    src: Seq<char>,
    annotations: Seq<JavaAnnotation>,
    out: Seq<char>,
)
    requires
        annotates_to(src, annotations, out, Seq::empty()),
    ensures
        out == src,
{
    let n = choose|n: nat|
        #[trigger] state_after(src, annotations, n) == Some((out, Seq::<Seq<char>>::empty()))
            && step(out, annotations) is Done;
    if n > 0 {
        let before = state_after(src, annotations, (n - 1) as nat).unwrap();
        match step(before.0, annotations) {
            Step::Edited { text, name } => {
                assert(with_name(before.1, name).contains(name)) by {
                    if !before.1.contains(name) {
                        assert(before.1.push(name)[before.1.len() as int] == name);
                    }
                }
            },
            _ => {},
        }
    }
}

/// Annotates the contents of several files, each by itself: entry `i` of the
/// result is what `annotate_file` gives for entry `i` of `files`.
pub fn annotate_java_files(
    files: &Vec<(JavaFile, String)>,
    annotations: &Vec<JavaAnnotation>,
) -> (outcomes: Vec<Result<(JavaFileEdit, Option<String>), AnnotatorError>>)
    ensures
        outcomes@.len() == files@.len(),
        forall|i: int|
            0 <= i < files@.len() ==> file_outcome(
                files@[i].0@,
                files@[i].1@,
                annotations@,
                #[trigger] outcomes@[i],
            ),
{
    let mut outcomes: Vec<Result<(JavaFileEdit, Option<String>), AnnotatorError>> = Vec::new();
    let mut i: usize = 0;
    while i < files.len()
        invariant
            i <= files.len(),
            outcomes@.len() == i,
            forall|k: int|
                0 <= k < i ==> file_outcome(
                    files@[k].0@,
                    files@[k].1@,
                    annotations@,
                    #[trigger] outcomes@[k],
                ),
        decreases files.len() - i,
    {
        let outcome = annotate_file(&files[i].0, files[i].1.as_str(), annotations);
        outcomes.push(outcome);
        i = i + 1;
    }
    outcomes
}

} // verus!
