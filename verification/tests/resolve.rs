use isml_lsp::disk::{Disk, Listing, Text};
use isml_lsp::path::FsPath;
use isml_lsp::reference::Reference;
use isml_lsp::resolve::{resolve, Hit};
use isml_lsp::workspace::{Cartridge, Workspace};

fn path(p: &str) -> FsPath {
    FsPath {
        anchor: "/".to_string(),
        parts: p
            .split('/')
            .filter(|s| !s.is_empty())
            .map(|s| s.to_string())
            .collect(),
    }
}

fn cartridge(root: &str) -> Cartridge {
    let root = path(root);
    Cartridge {
        name: root.parts.last().unwrap().clone(),
        root,
    }
}

fn workspace() -> Workspace {
    Workspace::scan(
        vec![
            cartridge("/ws/cartridges/app_b"),
            cartridge("/ws/cartridges/app_a"),
        ],
        vec![path("/ws/cartridges/modules")],
    )
}

fn disk(files: &[&str]) -> Disk {
    Disk {
        files: files.iter().map(|f| path(f)).collect(),
        listings: Vec::new(),
        texts: Vec::new(),
    }
}

fn hits_of(hits: &[Hit]) -> Vec<(String, u32)> {
    hits.iter()
        .map(|h| (format!("/{}", h.path.parts.join("/")), h.line))
        .collect()
}

#[test]
fn templates_come_from_every_cartridge_current_first() {
    let mut disk = disk(&[
        "/ws/cartridges/app_a/cartridge/templates/default/account/dashboard.isml",
        "/ws/cartridges/app_b/cartridge/templates/default/account/dashboard.isml",
        "/ws/cartridges/app_b/cartridge/templates/fr_FR/account/dashboard.isml",
    ]);
    disk.listings.push(Listing {
        dir: path("/ws/cartridges/app_b/cartridge/templates"),
        subdirs: vec!["resources".into(), "fr_FR".into(), "default".into(), "de_DE".into()],
    });
    let from = path("/ws/cartridges/app_b/cartridge/templates/default/home.isml");
    let hits = resolve(
        &Reference::Template("/account/dashboard".into()),
        &from,
        &workspace(),
        &disk,
    );
    assert_eq!(
        hits_of(&hits),
        vec![
            ("/ws/cartridges/app_b/cartridge/templates/default/account/dashboard.isml".to_string(), 0),
            ("/ws/cartridges/app_b/cartridge/templates/fr_FR/account/dashboard.isml".to_string(), 0),
            ("/ws/cartridges/app_a/cartridge/templates/default/account/dashboard.isml".to_string(), 0),
        ]
    );
}

#[test]
fn star_modules_are_looked_up_in_every_cartridge() {
    let disk = disk(&[
        "/ws/cartridges/app_a/cartridge/scripts/x.js",
        "/ws/cartridges/app_b/cartridge/scripts/x/index.js",
        "/ws/cartridges/app_b/cartridge/scripts/x.ds",
    ]);
    let from = path("/ws/cartridges/app_a/cartridge/controllers/Home.js");
    let hits = resolve(
        &Reference::Module("*/cartridge/scripts/x".into()),
        &from,
        &workspace(),
        &disk,
    );
    assert_eq!(
        hits_of(&hits),
        vec![
            ("/ws/cartridges/app_a/cartridge/scripts/x.js".to_string(), 0),
            ("/ws/cartridges/app_b/cartridge/scripts/x.ds".to_string(), 0),
        ]
    );
}

#[test]
fn tilde_modules_stay_in_the_current_cartridge() {
    let disk = disk(&[
        "/ws/cartridges/app_a/cartridge/scripts/x.js",
        "/ws/cartridges/app_b/cartridge/scripts/x/index.js",
    ]);
    let from = path("/ws/cartridges/app_b/cartridge/controllers/Home.js");
    let hits = resolve(
        &Reference::Module("~/cartridge/scripts/x".into()),
        &from,
        &workspace(),
        &disk,
    );
    assert_eq!(
        hits_of(&hits),
        vec![("/ws/cartridges/app_b/cartridge/scripts/x/index.js".to_string(), 0)]
    );
}

#[test]
fn relative_modules_resolve_next_to_the_file() {
    let disk = disk(&[
        "/ws/cartridges/app_a/cartridge/scripts/./sibling.json",
        "/ws/cartridges/app_a/cartridge/scripts/../x.js",
    ]);
    let from = path("/ws/cartridges/app_a/cartridge/scripts/a.js");
    let hits = resolve(&Reference::Module("./sibling".into()), &from, &workspace(), &disk);
    assert_eq!(
        hits_of(&hits),
        vec![("/ws/cartridges/app_a/cartridge/scripts/./sibling.json".to_string(), 0)]
    );
    let hits = resolve(&Reference::Module("../x".into()), &from, &workspace(), &disk);
    assert_eq!(
        hits_of(&hits),
        vec![("/ws/cartridges/app_a/cartridge/scripts/../x.js".to_string(), 0)]
    );
}

#[test]
fn a_trailing_separator_makes_a_module_a_folder() {
    let from = path("/w/x.js");
    // `/w/helpers.js` and `/w/helpers/index.js` both exist; the disk holds
    // them under the paths that resolution asks about.
    let both = disk(&["/w/./helpers.js", "/w/./helpers/index.js"]);
    let hits = resolve(&Reference::Module("./helpers/".into()), &from, &workspace(), &both);
    assert_eq!(hits_of(&hits), vec![("/w/./helpers/index.js".to_string(), 0)]);
    let hits = resolve(&Reference::Module("./helpers".into()), &from, &workspace(), &both);
    assert_eq!(hits_of(&hits), vec![("/w/./helpers.js".to_string(), 0)]);

    let from = path("/ws/cartridges/app_a/cartridge/controllers/Home.js");
    let files = disk(&[
        "/ws/cartridges/app_a/cartridge/scripts/x.js",
        "/ws/cartridges/app_a/cartridge/scripts/x/index.js",
    ]);
    let hits = resolve(&Reference::Module("*/cartridge/scripts/x/".into()), &from, &workspace(), &files);
    assert_eq!(
        hits_of(&hits),
        vec![("/ws/cartridges/app_a/cartridge/scripts/x/index.js".to_string(), 0)]
    );
    let hits = resolve(&Reference::Module("~/cartridge/scripts/x".into()), &from, &workspace(), &files);
    assert_eq!(
        hits_of(&hits),
        vec![("/ws/cartridges/app_a/cartridge/scripts/x.js".to_string(), 0)]
    );
}

#[test]
fn an_empty_or_dot_module_is_probed_under_the_modules_folder() {
    let ws = workspace();
    let from = path("/ws/cartridges/app_a/cartridge/scripts/a.js");
    let empty = disk(&[]);
    assert_eq!(
        texts(&isml_lsp::resolve::files_to_check(&Reference::Module("".into()), &from, &ws, &empty)),
        vec![
            "/ws/cartridges/modules/",
            "/ws/cartridges/modules/.js",
            "/ws/cartridges/modules/.json",
            "/ws/cartridges/modules/.ds",
            "/ws/cartridges/modules/index.js",
        ]
    );
    assert_eq!(
        texts(&isml_lsp::resolve::files_to_check(&Reference::Module(".".into()), &from, &ws, &empty)),
        vec![
            "/ws/cartridges/modules/.",
            "/ws/cartridges/modules/..js",
            "/ws/cartridges/modules/..json",
            "/ws/cartridges/modules/..ds",
            "/ws/cartridges/modules/./index.js",
        ]
    );
}

#[test]
fn a_named_cartridge_is_looked_up_by_name() {
    let disk = disk(&[
        "/ws/cartridges/app_a/cartridge/scripts/x.js",
        "/ws/cartridges/app_b/cartridge/scripts/x.js",
    ]);
    let from = path("/ws/cartridges/app_a/cartridge/controllers/Home.js");
    let hits = resolve(
        &Reference::Module("app_b/cartridge/scripts/x".into()),
        &from,
        &workspace(),
        &disk,
    );
    assert_eq!(
        hits_of(&hits),
        vec![("/ws/cartridges/app_b/cartridge/scripts/x.js".to_string(), 0)]
    );
}

#[test]
fn bare_modules_come_from_the_modules_folder() {
    let disk = disk(&["/ws/cartridges/modules/server/index.js"]);
    let from = path("/ws/cartridges/app_a/cartridge/controllers/Home.js");
    let hits = resolve(&Reference::Module("server".into()), &from, &workspace(), &disk);
    assert_eq!(
        hits_of(&hits),
        vec![("/ws/cartridges/modules/server/index.js".to_string(), 0)]
    );
}

#[test]
fn platform_modules_resolve_to_nothing() {
    let disk = disk(&[
        "/ws/cartridges/modules/dw/system/Site.js",
        "/ws/cartridges/modules/dw.system.js",
    ]);
    let from = path("/ws/cartridges/app_a/cartridge/controllers/Home.js");
    assert!(resolve(&Reference::Module("dw/system/Site".into()), &from, &workspace(), &disk)
        .is_empty());
    assert!(resolve(&Reference::Module("dw.system".into()), &from, &workspace(), &disk)
        .is_empty());
}

#[test]
fn a_resource_key_resolves_to_its_line() {
    let mut disk = disk(&[
        "/ws/cartridges/app_a/cartridge/templates/resources/account.properties",
        "/ws/cartridges/app_b/cartridge/templates/resources/account.properties",
    ]);
    disk.texts.push(Text {
        path: path("/ws/cartridges/app_a/cartridge/templates/resources/account.properties"),
        contents: "a=1\nb=2\nlabel.x = X\n".into(),
    });
    disk.texts.push(Text {
        path: path("/ws/cartridges/app_b/cartridge/templates/resources/account.properties"),
        contents: "label.y=Y\n".into(),
    });
    let from = path("/ws/cartridges/app_b/cartridge/templates/default/home.isml");
    let hits = resolve(
        &Reference::Resource {
            key: "label.x".into(),
            bundle: "account".into(),
        },
        &from,
        &workspace(),
        &disk,
    );
    assert_eq!(
        hits_of(&hits),
        vec![("/ws/cartridges/app_a/cartridge/templates/resources/account.properties".to_string(), 2)]
    );
    // A key nobody defines offers the bundles, current cartridge first.
    let hits = resolve(
        &Reference::Resource {
            key: "label.typo".into(),
            bundle: "account".into(),
        },
        &from,
        &workspace(),
        &disk,
    );
    assert_eq!(
        hits_of(&hits),
        vec![
            ("/ws/cartridges/app_b/cartridge/templates/resources/account.properties".to_string(), 0),
            ("/ws/cartridges/app_a/cartridge/templates/resources/account.properties".to_string(), 0),
        ]
    );
}

#[test]
fn a_hit_from_a_path_is_its_first_line() {
    let hit = Hit::from(path("/a/b"));
    assert_eq!(hit.line, 0);
    assert_eq!(hit.path, path("/a/b"));
}

fn texts(paths: &[FsPath]) -> Vec<String> {
    paths
        .iter()
        .map(|p| format!("/{}", p.parts.join("/")))
        .collect()
}

#[test]
fn probes_name_the_paths_a_resolution_reads() {
    let ws = workspace();
    let from = path("/ws/cartridges/app_a/cartridge/controllers/Home.js");
    let reference = Reference::Module("~/cartridge/scripts/x".into());
    let empty = disk(&[]);
    assert!(isml_lsp::resolve::dirs_to_list(&reference, &from, &ws).is_empty());
    assert_eq!(
        texts(&isml_lsp::resolve::files_to_check(&reference, &from, &ws, &empty)),
        vec![
            "/ws/cartridges/app_a/cartridge/scripts/x",
            "/ws/cartridges/app_a/cartridge/scripts/x.js",
            "/ws/cartridges/app_a/cartridge/scripts/x.json",
            "/ws/cartridges/app_a/cartridge/scripts/x.ds",
            "/ws/cartridges/app_a/cartridge/scripts/x/index.js",
            "/ws/cartridges/modules/~/cartridge/scripts/x",
            "/ws/cartridges/modules/~/cartridge/scripts/x.js",
            "/ws/cartridges/modules/~/cartridge/scripts/x.json",
            "/ws/cartridges/modules/~/cartridge/scripts/x.ds",
            "/ws/cartridges/modules/~/cartridge/scripts/x/index.js",
        ]
    );
    let template = Reference::Template("a".into());
    assert_eq!(
        texts(&isml_lsp::resolve::dirs_to_list(&template, &from, &ws)),
        vec![
            "/ws/cartridges/app_a/cartridge/templates",
            "/ws/cartridges/app_b/cartridge/templates",
        ]
    );
    let resource = Reference::Resource {
        key: "k".into(),
        bundle: "account".into(),
    };
    let files = disk(&["/ws/cartridges/app_b/cartridge/templates/resources/account.properties"]);
    assert_eq!(
        texts(&isml_lsp::resolve::files_to_read(&resource, &from, &ws, &files)),
        vec!["/ws/cartridges/app_b/cartridge/templates/resources/account.properties"]
    );
}

#[test]
fn a_disk_of_only_the_probed_facts_resolves_alike() {
    let ws = workspace();
    let from = path("/ws/cartridges/app_b/cartridge/templates/default/home.isml");
    let mut full = disk(&[
        "/ws/cartridges/app_a/cartridge/templates/default/x.isml",
        "/ws/cartridges/app_b/cartridge/templates/it_IT/x.isml",
        "/ws/unrelated/file.txt",
        "/ws/cartridges/app_a/cartridge/templates/resources/account.properties",
    ]);
    full.listings.push(Listing {
        dir: path("/ws/cartridges/app_b/cartridge/templates"),
        subdirs: vec!["it_IT".into(), "resources".into()],
    });
    full.listings.push(Listing {
        dir: path("/ws/elsewhere"),
        subdirs: vec!["x".into()],
    });
    full.texts.push(Text {
        path: path("/ws/cartridges/app_a/cartridge/templates/resources/account.properties"),
        contents: "k=v\n".into(),
    });
    for reference in [
        Reference::Template("x".into()),
        Reference::Resource {
            key: "k".into(),
            bundle: "account".into(),
        },
    ] {
        let mut probed = disk(&[]);
        for dir in isml_lsp::resolve::dirs_to_list(&reference, &from, &ws) {
            if let Some(listing) = full.listings.iter().find(|l| l.dir == dir) {
                probed.listings.push(Listing {
                    dir,
                    subdirs: listing.subdirs.clone(),
                });
            }
        }
        for p in isml_lsp::resolve::files_to_check(&reference, &from, &ws, &probed) {
            if full.is_file(&p) {
                probed.files.push(p);
            }
        }
        for p in isml_lsp::resolve::files_to_read(&reference, &from, &ws, &probed) {
            if let Some(contents) = full.text(&p) {
                probed.texts.push(Text {
                    path: p,
                    contents: contents.clone(),
                });
            }
        }
        let a = resolve(&reference, &from, &ws, &full);
        let b = resolve(&reference, &from, &ws, &probed);
        assert_eq!(hits_of(&a), hits_of(&b));
        assert!(!a.is_empty());
        for hit in &a {
            assert!(full.is_file(&hit.path));
        }
    }
}
