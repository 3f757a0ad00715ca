use isml_lsp::bundle::{defines_key, line_of_key};

#[test]
fn matches_only_a_whole_key() {
    assert!(defines_key("label.a.b=Value", "label.a.b"));
    assert!(defines_key("  label.a.b = Value", "label.a.b"));
    assert!(!defines_key("label.a.bc=Value", "label.a.b"));
    assert!(!defines_key("#label.a.b=Value", "label.a.b"));
}

#[test]
fn a_key_without_equals_is_not_defined() {
    assert!(!defines_key("label.a.b", "label.a.b"));
    assert!(!defines_key("label.a.b: x", "label.a.b"));
    assert!(defines_key("\tlabel.a.b\u{3000}=", "label.a.b"));
}

#[test]
fn finds_the_line_of_a_key() {
    let contents = "# comment\nlabel.a=A\r\nlabel.b = B\nlabel.b=again\n";
    assert_eq!(line_of_key(contents, "label.b"), Some(2));
    assert_eq!(line_of_key(contents, "label.a"), Some(1));
    assert_eq!(line_of_key(contents, "label.c"), None);
    assert_eq!(line_of_key("", "x"), None);
    assert_eq!(line_of_key("a=1\nx=2", "x"), Some(1));
}
