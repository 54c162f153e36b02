use java_annotator::annotator::{AnnotatorError, JavaAnnotation};

#[test]
fn simple_name_is_its_own_import() {
    let a = JavaAnnotation::new("@A").unwrap();
    assert_eq!(a.annotation_name(), "@A");
    assert_eq!(a.fully_qualified_name(), "A");
    assert_eq!(a.import(), "import A;");
}

#[test]
fn qualified_name_gives_last_segment() {
    let a = JavaAnnotation::new("@org.example.marks.Audited").unwrap();
    assert_eq!(a.annotation_name(), "@Audited");
    assert_eq!(a.fully_qualified_name(), "org.example.marks.Audited");
    assert_eq!(a.import(), "import org.example.marks.Audited;");
}

#[test]
fn trailing_dot_gives_empty_last_segment() {
    let a = JavaAnnotation::new("@a.b.").unwrap();
    assert_eq!(a.annotation_name(), "@");
    assert_eq!(a.fully_qualified_name(), "a.b.");
}

#[test]
fn non_ascii_name_is_kept() {
    let a = JavaAnnotation::new("@pkg.Prüfung").unwrap();
    assert_eq!(a.annotation_name(), "@Prüfung");
    assert_eq!(a.fully_qualified_name(), "pkg.Prüfung");
    assert_eq!(a.import(), "import pkg.Prüfung;");
}

#[test]
fn missing_sigil_is_malformed() {
    assert_eq!(
        JavaAnnotation::new("A"),
        Err(AnnotatorError::MalformedAnnotation { input: "A".to_string() })
    );
}

#[test]
fn sigil_in_the_middle_is_malformed() {
    assert_eq!(
        JavaAnnotation::new("a.@B"),
        Err(AnnotatorError::MalformedAnnotation { input: "a.@B".to_string() })
    );
}

#[test]
fn bare_sigil_is_malformed() {
    assert_eq!(
        JavaAnnotation::new("@"),
        Err(AnnotatorError::MalformedAnnotation { input: "@".to_string() })
    );
}

#[test]
fn empty_spec_is_malformed() {
    assert_eq!(
        JavaAnnotation::new(""),
        Err(AnnotatorError::MalformedAnnotation { input: String::new() })
    );
}

#[test]
fn malformed_annotation_message_names_the_input() {
    let e = JavaAnnotation::new("Marker").unwrap_err();
    assert_eq!(e.message(), "Annotation 'Marker' must start with '@'");
    let e = JavaAnnotation::new("@").unwrap_err();
    assert_eq!(e.message(), "Annotation '@' is invalid");
    assert_eq!(AnnotatorError::ParseFailure.message(), "Source text cannot be parsed");
}
