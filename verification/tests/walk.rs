use isml_lsp::path::FsPath;
use isml_lsp::walk::Walk;
use isml_lsp::workspace::Workspace;

fn path(p: &str) -> FsPath {
    FsPath {
        anchor: "/".to_string(),
        parts: p
            .split('/')
            .filter(|s| !s.is_empty())
            .map(|s| s.to_string())
            .collect(),
    }
}

fn text(p: &FsPath) -> String {
    format!("/{}", p.parts.join("/"))
}

/// Runs a walk over the directory tree `tree` (each directory with the names
/// of its subdirectories); gives the workspace and the directories listed.
fn run(roots: &[&str], tree: &[(&str, &[&str])]) -> (Workspace, Vec<String>) {
    let roots: Vec<FsPath> = roots.iter().map(|r| path(r)).collect();
    let mut walk = Walk::start(&roots);
    let mut asked = Vec::new();
    while let Some((dir, depth)) = walk.next_dir() {
        let name = text(&dir);
        let names = tree
            .iter()
            .find(|(d, _)| *d == name)
            .map(|(_, subdirs)| subdirs.iter().map(|s| s.to_string()).collect());
        asked.push(name);
        walk.listed(&dir, depth, names);
    }
    (walk.into_workspace(), asked)
}

#[test]
fn the_walk_finds_cartridges_and_module_folders() {
    let (ws, asked) = run(
        &["/ws"],
        &[
            ("/ws", &["cartridges", ".git", "node_modules", "docs"]),
            ("/ws/cartridges", &["app_b", "modules", "app_a"]),
            ("/ws/cartridges/app_b", &["cartridge"]),
            ("/ws/cartridges/app_a", &["cartridge"]),
            ("/ws/docs", &[]),
        ],
    );
    assert_eq!(
        asked,
        vec![
            "/ws",
            "/ws/cartridges",
            "/ws/cartridges/app_b",
            "/ws/cartridges/app_a",
            "/ws/docs",
        ]
    );
    let names: Vec<String> = ws.cartridges.iter().map(|c| c.name.clone()).collect();
    assert_eq!(names, vec!["app_a", "app_b"]);
    assert_eq!(ws.cartridges[0].root, path("/ws/cartridges/app_a"));
    assert_eq!(ws.module_roots, vec![path("/ws/cartridges/modules")]);
}

#[test]
fn the_walk_stops_below_the_depth_limit() {
    let (ws, asked) = run(
        &["/d"],
        &[
            ("/d", &["a"]),
            ("/d/a", &["b"]),
            ("/d/a/b", &["c"]),
            ("/d/a/b/c", &["e"]),
            ("/d/a/b/c/e", &["f"]),
            ("/d/a/b/c/e/f", &["g"]),
            ("/d/a/b/c/e/f/g", &["cartridge", "h"]),
            ("/d/a/b/c/e/f/g/h", &["cartridge"]),
        ],
    );
    assert_eq!(asked.len(), 7);
    assert_eq!(asked.last().unwrap(), "/d/a/b/c/e/f/g");
    assert_eq!(ws.cartridges.len(), 1);
    assert_eq!(ws.cartridges[0].root, path("/d/a/b/c/e/f/g"));
    assert_eq!(ws.cartridges[0].name, "g");
}

#[test]
fn a_directory_that_cannot_be_read_gives_nothing() {
    let (ws, asked) = run(&["/x", "/y"], &[("/y", &["cartridges"]), ("/y/cartridges", &["modules"])]);
    assert_eq!(asked, vec!["/x", "/y", "/y/cartridges"]);
    assert!(ws.cartridges.is_empty());
    assert_eq!(ws.module_roots, vec![path("/y/cartridges/modules")]);
}
