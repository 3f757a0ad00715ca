use isml_lsp::path::FsPath;
use isml_lsp::reference::Reference;
use isml_lsp::server::{definition_target, line_at, workspace_roots, Documents};

fn path(p: &str) -> FsPath {
    FsPath {
        anchor: "/".to_string(),
        parts: p
            .split('/')
            .filter(|s| !s.is_empty())
            .map(|s| s.to_string())
            .collect(),
    }
}

#[test]
fn documents_give_back_what_was_written() {
    let mut docs = Documents::new();
    assert!(docs.get("file:///a").is_none());
    docs.set("file:///a".into(), "one".into());
    docs.set("file:///b".into(), "two".into());
    assert_eq!(docs.get("file:///a").map(String::as_str), Some("one"));
    docs.set("file:///a".into(), "three".into());
    assert_eq!(docs.get("file:///a").map(String::as_str), Some("three"));
    assert_eq!(docs.get("file:///b").map(String::as_str), Some("two"));
    docs.close("file:///a");
    assert!(docs.get("file:///a").is_none());
    assert_eq!(docs.get("file:///b").map(String::as_str), Some("two"));
}

#[test]
fn a_change_keeps_its_last_full_text() {
    let mut docs = Documents::new();
    docs.set("u".into(), "old".into());
    docs.change("u".into(), Vec::new());
    assert_eq!(docs.get("u").map(String::as_str), Some("old"));
    docs.change("u".into(), vec!["first".into(), "last".into()]);
    assert_eq!(docs.get("u").map(String::as_str), Some("last"));
}

#[test]
fn lines_are_counted_as_str_lines_counts_them() {
    let text = "zero\r\none\n\nthree";
    assert_eq!(line_at(text, 0).as_deref(), Some("zero"));
    assert_eq!(line_at(text, 1).as_deref(), Some("one"));
    assert_eq!(line_at(text, 2).as_deref(), Some(""));
    assert_eq!(line_at(text, 3).as_deref(), Some("three"));
    assert_eq!(line_at(text, 4), None);
    assert_eq!(line_at("a\n", 1), None);
    assert_eq!(line_at("a\r", 0).as_deref(), Some("a\r"));
}

#[test]
fn a_definition_request_finds_the_reference_under_the_cursor() {
    let text = "<div>\n  💾 <isinclude template=\"a/b\"/>\n";
    // Line 1, UTF-16 column 28: the emoji counts twice.
    assert_eq!(
        definition_target(text, 1, 28),
        Some(Reference::Template("a/b".into()))
    );
    assert_eq!(definition_target(text, 0, 2), None);
    assert_eq!(definition_target(text, 5, 0), None);
}

#[test]
fn workspace_folders_win_over_the_root() {
    assert_eq!(
        workspace_roots(Some(vec![None, Some(path("/a")), Some(path("/b"))]), Some(path("/r"))),
        vec![path("/a"), path("/b")]
    );
    assert_eq!(
        workspace_roots(Some(vec![None]), Some(path("/r"))),
        vec![path("/r")]
    );
    assert_eq!(workspace_roots(None, None), Vec::<FsPath>::new());
}
