use isml_lsp::path::FsPath;

fn path(anchor: &str, parts: &[&str]) -> FsPath {
    FsPath {
        anchor: anchor.to_string(),
        parts: parts.iter().map(|s| s.to_string()).collect(),
    }
}

#[test]
fn join_keeps_dot_pieces_and_a_trailing_separator() {
    let base = path("/", &["w"]);
    assert_eq!(
        base.join("a//./b/../c/"),
        path("/", &["w", "a", ".", "b", "..", "c", ""])
    );
    assert_eq!(base.join(""), path("/", &["w", ""]));
    assert_eq!(base.join("."), path("/", &["w", "."]));
    let folder = base.join("helpers/");
    assert_eq!(folder.join("x"), path("/", &["w", "helpers", "x"]));
    assert_eq!(folder.child("index.js"), path("/", &["w", "helpers", "index.js"]));
    assert_eq!(folder.with_suffix(".js"), path("/", &["w", "helpers", ".js"]));
    assert_eq!(base.join(".").with_suffix(".js"), path("/", &["w", "..js"]));
}

#[test]
fn an_absolute_rest_keeps_only_the_anchor() {
    assert_eq!(path("C:\\", &["w"]).join("/x/y"), path("C:\\", &["x", "y"]));
    assert_eq!(path("", &["w"]).join("/x"), path("/", &["x"]));
}

#[test]
fn parent_file_name_and_suffix() {
    let p = path("/", &["w", "x"]);
    assert_eq!(p.parent(), Some(path("/", &["w"])));
    assert_eq!(path("/", &[]).parent(), None);
    assert_eq!(p.file_name(), Some("x".to_string()));
    assert_eq!(path("/", &["w", ".."]).file_name(), None);
    assert_eq!(path("/", &["w", "x", ".", ""]).file_name(), Some("x".to_string()));
    assert_eq!(path("/", &["w", ".", "x", ""]).parent(), Some(path("/", &["w"])));
    assert_eq!(path("", &[".", "x"]).parent(), Some(path("", &["."])));
    assert_eq!(path("", &["."]).file_name(), None);
    assert_eq!(p.with_suffix(".js"), path("/", &["w", "x.js"]));
    assert_eq!(path("/", &[]).with_suffix(".js"), path("/", &[".js"]));
    assert_eq!(p.child("y"), path("/", &["w", "x", "y"]));
}

#[test]
fn starts_with_compares_components() {
    let p = path("/", &["w", "xy", "z"]);
    assert!(p.starts_with(&path("/", &["w", "xy"])));
    assert!(p.starts_with(&p));
    assert!(!p.starts_with(&path("/", &["w", "x"])));
    assert!(!p.starts_with(&path("", &["w"])));
    assert!(p.same_as(&p.copied()));
    assert!(!p.same_as(&path("/", &["w"])));
}

#[test]
fn paths_compare_by_components() {
    let plain = path("/", &["w", "c"]);
    let slashed = path("/", &["w", "c", ""]);
    let dotted = path("/", &["w", ".", "c", "."]);
    assert!(plain.same_as(&slashed));
    assert!(plain.same_as(&dotted));
    assert!(!plain.identical(&slashed));
    assert!(plain.identical(&plain.copied()));
    assert!(path("/", &["w", ".", "c", "x.isml"]).starts_with(&plain));
    assert!(plain.starts_with(&slashed));
    assert!(!path("/", &["w", "cx"]).starts_with(&plain));
    assert!(path("", &[".", "a"]).same_as(&path("", &[".", "a", "."])));
    assert!(!path("", &[".", "a"]).same_as(&path("", &["a"])));
}

#[test]
fn the_text_of_a_path_is_counted_in_bytes() {
    assert_eq!(path("/", &["w", "\u{e9}"]).text_bytes(), 5);
    assert_eq!(path("/", &[]).text_bytes(), 1);
    assert_eq!(path("", &["a", "b", ""]).text_bytes(), 4);
}
