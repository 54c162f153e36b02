use java_annotator::io::{collect_java_files, has_java_extension, JavaFile};

fn paths(list: &[&str]) -> Vec<String> {
    list.iter().map(|s| s.to_string()).collect()
}

#[test]
fn java_files_are_kept_in_their_order() {
    let files = collect_java_files(paths(&[
        "src/B.java",
        "src/notes.txt",
        "src/A.java",
        "README",
        "src/x/Größe.java",
    ]));
    let kept: Vec<&str> = files.iter().map(|f| f.path()).collect();
    assert_eq!(kept, vec!["src/B.java", "src/A.java", "src/x/Größe.java"]);
}

#[test]
fn no_paths_give_no_files() {
    assert!(collect_java_files(Vec::new()).is_empty());
    assert!(collect_java_files(paths(&["a.txt", "java"])).is_empty());
}

#[test]
fn extension_is_matched_exactly_at_the_end() {
    assert!(has_java_extension("A.java"));
    assert!(has_java_extension(".java"));
    assert!(has_java_extension("dir.d/é.java"));
    assert!(!has_java_extension("A.JAVA"));
    assert!(!has_java_extension("A.java.bak"));
    assert!(!has_java_extension("A.jav"));
    assert!(!has_java_extension("Ajava"));
    assert!(!has_java_extension("java"));
    assert!(!has_java_extension(""));
    assert!(!has_java_extension("A.java "));
}

#[test]
fn file_is_known_by_its_path() {
    let file = JavaFile::new("src/A.java".to_string());
    assert_eq!(file.path(), "src/A.java");
    assert_eq!(file.duplicate(), file);
}
