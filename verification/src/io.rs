//! The files that the annotator works on.

use crate::text::{str_eq, texts_of};
use vstd::prelude::*;
use vstd::string::*;

verus! {

/// A Java source file, known by its path.
#[derive(Debug, Clone, PartialEq, Eq, Hash)]
pub struct JavaFile(String);

/// Whether a path is that of a Java source file: whether it ends in `.java`.
pub open spec fn is_java_path(path: Seq<char>) -> bool {
    path.len() >= 5 && path.skip(path.len() - 5) == ".java"@
}

/// The Java source files among the first `n` of `paths`, in their order.
pub open spec fn java_paths(paths: Seq<Seq<char>>, n: nat) -> Seq<Seq<char>>
    decreases n,
{
    if n == 0 || n > paths.len() {
        Seq::empty()
    } else if is_java_path(paths[n - 1]) {
        java_paths(paths, (n - 1) as nat).push(paths[n - 1])
    } else {
        java_paths(paths, (n - 1) as nat)
    }
}

/// The paths of a sequence of files.
pub open spec fn paths_of(files: Seq<JavaFile>) -> Seq<Seq<char>> {
    files.map_values(|file: JavaFile| file@)
}

impl View for JavaFile {
    type V = Seq<char>;

    closed spec fn view(&self) -> Seq<char> {
        self.0@
    }
}

impl JavaFile {
    /// The file at `path`.
    pub fn new(path: String) -> (file: JavaFile)
        ensures
            file@ == path@,
    {
        JavaFile(path)
    }

    /// The file's path.
    pub fn path(&self) -> (path: &str)
        ensures
            path@ == self@,
    {
        self.0.as_str()
    }

    /// Another value for the same file.
    pub fn duplicate(&self) -> (file: JavaFile)
        ensures
            file@ == self@,
    {
        JavaFile(self.0.clone())
    }
}

/// Decides whether a path ends in `.java`.
pub fn has_java_extension(path: &str) -> (r: bool)
    ensures
        r == is_java_path(path@),
{
    let len = path.unicode_len();
    if len < 5 {
        return false;
    }
    str_eq(path.substring_char(len - 5, len), ".java")
}

/// Picks the Java source files out of a list of paths: those that end in
/// `.java`, in the order in which they were given.
pub fn collect_java_files(paths: Vec<String>) -> (files: Vec<JavaFile>)
    ensures
        paths_of(files@) == java_paths(texts_of(paths@), paths@.len()),
{
    let mut files: Vec<JavaFile> = Vec::new();
    let mut i: usize = 0;
    while i < paths.len()
        invariant
            i <= paths.len(),
            paths_of(files@) == java_paths(texts_of(paths@), i as nat),
        decreases paths.len() - i,
    {
        if has_java_extension(paths[i].as_str()) {
            files.push(JavaFile(paths[i].clone()));
        }
        i = i + 1;
    }
    files
}

} // verus!
