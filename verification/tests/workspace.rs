use isml_lsp::path::FsPath;
use isml_lsp::workspace::{cartridge_at, classify_entry, within_depth, Cartridge, Entry, Workspace};

fn path(p: &str) -> FsPath {
    FsPath {
        anchor: "/".to_string(),
        parts: p
            .split('/')
            .filter(|s| !s.is_empty())
            .map(|s| s.to_string())
            .collect(),
    }
}

fn cartridge(root: &str) -> Cartridge {
    let root = path(root);
    Cartridge {
        name: root.parts.last().unwrap().clone(),
        root,
    }
}

fn roots(ws: &Workspace) -> Vec<FsPath> {
    ws.cartridges.iter().map(|c| c.root.clone()).collect()
}

#[test]
fn scan_sorts_by_name_and_drops_repeated_roots() {
    let ws = Workspace::scan(
        vec![cartridge("/x/b"), cartridge("/x/a"), cartridge("/x/b")],
        vec![path("/x/modules")],
    );
    assert_eq!(roots(&ws), vec![path("/x/a"), path("/x/b")]);
    assert_eq!(ws.module_roots, vec![path("/x/modules")]);
}

#[test]
fn scan_keeps_equal_names_in_the_order_found() {
    let ws = Workspace::scan(
        vec![cartridge("/p/a"), cartridge("/q/a"), cartridge("/p/a"), cartridge("/p/0")],
        Vec::new(),
    );
    assert_eq!(
        roots(&ws),
        vec![path("/p/0"), path("/p/a"), path("/q/a"), path("/p/a")]
    );
}

#[test]
fn a_file_belongs_to_the_deepest_cartridge_holding_it() {
    let ws = Workspace::scan(vec![cartridge("/w/a"), cartridge("/w/a/in/b")], Vec::new());
    let owner = ws.cartridge_of(&path("/w/a/in/b/cartridge/x.js")).unwrap();
    assert_eq!(owner.name, "b");
    let owner = ws.cartridge_of(&path("/w/a/cartridge/x.js")).unwrap();
    assert_eq!(owner.name, "a");
    assert!(ws.cartridge_of(&path("/elsewhere/x.js")).is_none());
}

#[test]
fn cartridges_from_puts_the_current_one_first() {
    let ws = Workspace::scan(
        vec![cartridge("/w/a"), cartridge("/w/b"), cartridge("/w/c")],
        Vec::new(),
    );
    let names: Vec<&str> = ws
        .cartridges_from(&path("/w/b/cartridge/x.js"))
        .iter()
        .map(|c| c.name.as_str())
        .collect();
    assert_eq!(names, vec!["b", "a", "c"]);
    let names: Vec<&str> = ws
        .cartridges_from(&path("/other/x.js"))
        .iter()
        .map(|c| c.name.as_str())
        .collect();
    assert_eq!(names, vec!["a", "b", "c"]);
}

#[test]
fn the_cartridge_directory_is_under_the_root() {
    assert_eq!(cartridge("/w/a").cartridge_dir(), path("/w/a/cartridge"));
}

#[test]
fn the_walk_classifies_directories() {
    let dir = path("/w/cartridges");
    assert!(matches!(classify_entry(&dir, "node_modules"), Entry::Skip));
    assert!(matches!(classify_entry(&dir, ".idea"), Entry::Skip));
    assert!(matches!(classify_entry(&dir, "static"), Entry::Skip));
    match classify_entry(&dir, "modules") {
        Entry::ModuleRoot(p) => assert_eq!(p, path("/w/cartridges/modules")),
        _ => panic!("expected a module root"),
    }
    match classify_entry(&path("/w/other"), "modules") {
        Entry::Descend(p) => assert_eq!(p, path("/w/other/modules")),
        _ => panic!("expected to descend"),
    }
    match classify_entry(&path("/w/cartridges/app_x"), "cartridge") {
        Entry::Cartridge(c) => {
            assert_eq!(c.name, "app_x");
            assert_eq!(c.root, path("/w/cartridges/app_x"));
        }
        _ => panic!("expected a cartridge"),
    }
    match classify_entry(&dir, "app_y") {
        Entry::Descend(p) => assert_eq!(p, path("/w/cartridges/app_y")),
        _ => panic!("expected to descend"),
    }
}

#[test]
fn a_cartridge_directory_at_the_root_names_no_cartridge() {
    assert!(cartridge_at(&path("/cartridge")).is_none());
    assert!(cartridge_at(&path("/w/a/cartridge")).is_some());
}

#[test]
fn the_walk_stops_below_six_levels() {
    assert!(within_depth(0));
    assert!(within_depth(6));
    assert!(!within_depth(7));
}

#[test]
fn a_root_is_matched_by_components() {
    let ws = Workspace::scan(vec![cartridge("/w/c")], Vec::new());
    let owner = ws.cartridge_of(&path("/w/./c/cartridge/x.isml")).unwrap();
    assert_eq!(owner.name, "c");

    let slashed = Cartridge {
        name: "c".to_string(),
        root: FsPath {
            anchor: "/".to_string(),
            parts: vec!["w".to_string(), "c".to_string(), "".to_string()],
        },
    };
    let ws = Workspace::scan(vec![cartridge("/w/c"), slashed], Vec::new());
    assert_eq!(ws.cartridges.len(), 1);
}

#[test]
fn among_roots_holding_a_file_the_longest_text_wins() {
    let dotted = FsPath {
        anchor: "/".to_string(),
        parts: vec!["w".to_string(), "c".to_string(), ".".to_string()],
    };
    let ws = Workspace {
        cartridges: vec![
            Cartridge { name: "a".to_string(), root: dotted.clone() },
            Cartridge { name: "b".to_string(), root: path("/w/c") },
        ],
        module_roots: Vec::new(),
    };
    let owner = ws.cartridge_of(&path("/w/c/cartridge/x.isml")).unwrap();
    assert_eq!(owner.name, "a");
    let ordered: Vec<String> = ws
        .cartridges_from(&path("/w/c/cartridge/x.isml"))
        .iter()
        .map(|c| c.name.clone())
        .collect();
    assert_eq!(ordered, vec!["a"]);
}
