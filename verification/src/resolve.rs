//! Turning a [`Reference`] into the files it points at.
use vstd::prelude::*;

use crate::bundle::{key_line, line_of_key};
use crate::disk::{is_file, lookup, Disk, DiskView};
use crate::order::{sort_texts, sorted_by_key, texts_of, whole_text};
use crate::path::{child, join, parent, path_views, with_suffix, FsPath, PathView};
use crate::reference::{Reference, ReferenceView};
use crate::text::{chars_of, has_prefix, same_text, starts_with, string_of};
use crate::workspace::{ordered_from, owner, ref_views, views, CartridgeView, Workspace};

verus! {

/// A place to jump to.
#[derive(Debug)]
pub struct Hit {
    pub path: FsPath,
    /// Zero-based line to put the cursor on.
    pub line: u32,
}

pub struct HitView {
    pub path: PathView,
    pub line: u32,
}

impl View for Hit {
    type V = HitView;

    open spec fn view(&self) -> HitView {
        HitView { path: self.path@, line: self.line }
    }
}

pub open spec fn hit_views(v: Seq<Hit>) -> Seq<HitView> {
    v.map_values(|h: Hit| h@)
}

pub open spec fn start_of(p: PathView) -> HitView {
    HitView { path: p, line: 0 }
}

impl From<FsPath> for Hit {
    /// The first line of `path`.
    fn from(path: FsPath) -> (hit: Hit) {
        Hit { path, line: 0 }
    }
}

impl vstd::std_specs::convert::FromSpecImpl<FsPath> for Hit {
    open spec fn obeys_from_spec() -> bool {
        true
    }

    open spec fn from_spec(path: FsPath) -> Hit {
        Hit { path, line: 0 }
    }
}

// ---------------------------------------------------------------- templates

/// `<root>/cartridge/templates`.
pub open spec fn templates_dir(c: CartridgeView) -> PathView {
    child(child(c.root, "cartridge"@), "templates"@)
}

/// A locale folder other than the fallback `default` and the bundle folder
/// `resources`.
pub open spec fn other_locale() -> spec_fn(Seq<char>) -> bool {
    |name: Seq<char>| name != "default"@ && name != "resources"@
}

/// The locale folders of `dir` to look in: `default` first, then the other
/// subdirectories in the order of their names.
pub open spec fn locales(disk: DiskView, dir: PathView) -> Seq<Seq<char>> {
    seq!["default"@] + match lookup(disk.listings, dir) {
        None => Seq::empty(),
        Some(names) => sorted_by_key(names.filter(other_locale()), whole_text()),
    }
}

/// `p` at its first line, when it is a file.
pub open spec fn file_hit(disk: DiskView, p: PathView) -> Option<HitView> {
    if is_file(disk, p) {
        Some(start_of(p))
    } else {
        None
    }
}

pub open spec fn locale_hit(disk: DiskView, dir: PathView, relative: Seq<char>) -> spec_fn(
    Seq<char>,
) -> Option<HitView> {
    |locale: Seq<char>| file_hit(disk, join(child(dir, locale), relative))
}

/// The template files of one cartridge, locale by locale.
pub open spec fn cartridge_templates(disk: DiskView, relative: Seq<char>) -> spec_fn(
    CartridgeView,
) -> Seq<HitView> {
    |c: CartridgeView|
        locales(disk, templates_dir(c)).filter_map(locale_hit(disk, templates_dir(c), relative))
}

/// `s` without its leading `/`s.
pub open spec fn trim_leading_slashes(s: Seq<char>) -> Seq<char>
    decreases s.len(),
{
    if s.len() > 0 && s[0] == '/' {
        trim_leading_slashes(s.drop_first())
    } else {
        s
    }
}

/// `template.isml` under `templates/<locale>/` of each cartridge, the
/// current file's cartridge first.
pub open spec fn template_hits(
    disk: DiskView,
    cs: Seq<CartridgeView>,
    from: PathView,
    template: Seq<char>,
) -> Seq<HitView> {
    let relative = trim_leading_slashes(template) + ".isml"@;
    ordered_from(cs, from).flat_map(cartridge_templates(disk, relative))
}

// ------------------------------------------------------------------ modules

/// `x` resolves to `x`, `x.js`, `x.json`, `x.ds` or `x/index.js`, the first
/// that is a file. The suffixes go after the text of `x` as written, so a
/// candidate ending in a separator (`x/`) tries `x/.js` and then
/// `x/index.js`.
pub open spec fn module_file(disk: DiskView, candidate: PathView) -> Option<PathView> {
    if is_file(disk, candidate) {
        Some(candidate)
    } else if is_file(disk, with_suffix(candidate, ".js"@)) {
        Some(with_suffix(candidate, ".js"@))
    } else if is_file(disk, with_suffix(candidate, ".json"@)) {
        Some(with_suffix(candidate, ".json"@))
    } else if is_file(disk, with_suffix(candidate, ".ds"@)) {
        Some(with_suffix(candidate, ".ds"@))
    } else if is_file(disk, child(candidate, "index.js"@)) {
        Some(child(candidate, "index.js"@))
    } else {
        None
    }
}

pub open spec fn module_hit(disk: DiskView, candidate: PathView) -> Option<HitView> {
    match module_file(disk, candidate) {
        Some(p) => Some(start_of(p)),
        None => None,
    }
}

pub open spec fn optional(h: Option<HitView>) -> Seq<HitView> {
    match h {
        Some(h) => seq![h],
        None => Seq::empty(),
    }
}

pub open spec fn module_in_cartridge(disk: DiskView, rest: Seq<char>) -> spec_fn(
    CartridgeView,
) -> Option<HitView> {
    |c: CartridgeView| module_hit(disk, join(c.root, rest))
}

pub open spec fn module_in_named(disk: DiskView, name: Seq<char>, rest: Seq<char>) -> spec_fn(
    CartridgeView,
) -> Option<HitView> {
    |c: CartridgeView|
        if c.name == name {
            module_hit(disk, join(c.root, rest))
        } else {
            None
        }
}

pub open spec fn module_in_root(disk: DiskView, module: Seq<char>) -> spec_fn(PathView) -> Option<
    HitView,
> {
    |root: PathView| module_hit(disk, join(root, module))
}

/// The index of the first `/` in `s`, at `i` or later.
pub open spec fn first_slash(s: Seq<char>, i: int) -> Option<int>
    decreases s.len() - i,
{
    if i < 0 || i >= s.len() {
        None
    } else if s[i] == '/' {
        Some(i)
    } else {
        first_slash(s, i + 1)
    }
}

/// The module files a cartridge-relative specifier names: `*/x` in every
/// cartridge, `~/x` in the current one, `name/x` in the cartridges called
/// `name`.
pub open spec fn cartridge_module_hits(
    disk: DiskView,
    cs: Seq<CartridgeView>,
    from: PathView,
    module: Seq<char>,
) -> Seq<HitView> {
    if starts_with(module, "*/"@) {
        ordered_from(cs, from).filter_map(module_in_cartridge(disk, module.skip(2)))
    } else if starts_with(module, "~/"@) {
        match owner(cs, from) {
            Some(j) => optional(module_hit(disk, join(cs[j].root, module.skip(2)))),
            None => Seq::empty(),
        }
    } else {
        match first_slash(module, 0) {
            Some(k) => ordered_from(cs, from).filter_map(
                module_in_named(disk, module.take(k), module.skip(k + 1)),
            ),
            None => Seq::empty(),
        }
    }
}

/// The files a `require` specifier names. `dw/...` and `dw.x` are the
/// platform's own; `./x` and `../x` are relative to the requiring file; the
/// others are looked up in the cartridges and, when no cartridge has them,
/// in the `cartridges/modules` folders.
pub open spec fn module_hits(
    disk: DiskView,
    cs: Seq<CartridgeView>,
    roots: Seq<PathView>,
    from: PathView,
    module: Seq<char>,
) -> Seq<HitView> {
    if starts_with(module, "dw/"@) || starts_with(module, "dw."@) {
        Seq::empty()
    } else if starts_with(module, "./"@) || starts_with(module, "../"@) {
        let base = match parent(from) {
            Some(p) => p,
            None => from,
        };
        optional(module_hit(disk, join(base, module)))
    } else {
        let hits = cartridge_module_hits(disk, cs, from, module);
        if hits.len() == 0 {
            roots.filter_map(module_in_root(disk, module))
        } else {
            hits
        }
    }
}

// ---------------------------------------------------------------- resources

/// `<root>/cartridge/templates/resources/<file_name>`.
pub open spec fn bundle_path(c: CartridgeView, file_name: Seq<char>) -> PathView {
    join(child(child(child(c.root, "cartridge"@), "templates"@), "resources"@), file_name)
}

pub open spec fn existing_bundle(disk: DiskView, file_name: Seq<char>) -> spec_fn(
    CartridgeView,
) -> Option<PathView> {
    |c: CartridgeView|
        if is_file(disk, bundle_path(c, file_name)) {
            Some(bundle_path(c, file_name))
        } else {
            None
        }
}

/// The bundle files `<bundle>.properties` that exist, current cartridge
/// first.
pub open spec fn bundles(disk: DiskView, cs: Seq<CartridgeView>, from: PathView, bundle: Seq<char>) -> Seq<
    PathView,
> {
    ordered_from(cs, from).filter_map(existing_bundle(disk, bundle + ".properties"@))
}

/// The line of `p` that defines `key`, when `p` could be read and has one.
pub open spec fn key_hit(disk: DiskView, key: Seq<char>) -> spec_fn(PathView) -> Option<HitView> {
    |p: PathView|
        match lookup(disk.texts, p) {
            None => None,
            Some(contents) => match key_line(contents, key) {
                Some(line) => Some(HitView { path: p, line }),
                None => None,
            },
        }
}

pub open spec fn at_start() -> spec_fn(PathView) -> HitView {
    |p: PathView| start_of(p)
}

/// The lines defining `key` in the bundles; when no bundle defines it (a
/// typo, usually), the bundles it would belong to.
pub open spec fn resource_hits(
    disk: DiskView,
    cs: Seq<CartridgeView>,
    from: PathView,
    key: Seq<char>,
    bundle: Seq<char>,
) -> Seq<HitView> {
    let found = bundles(disk, cs, from, bundle);
    let defining = found.filter_map(key_hit(disk, key));
    if defining.len() == 0 {
        found.map_values(at_start())
    } else {
        defining
    }
}

pub open spec fn resolution(
    disk: DiskView,
    cs: Seq<CartridgeView>,
    roots: Seq<PathView>,
    from: PathView,
    reference: ReferenceView,
) -> Seq<HitView> {
    match reference {
        ReferenceView::Template(t) => template_hits(disk, cs, from, t),
        ReferenceView::Module(m) => module_hits(disk, cs, roots, from, m),
        ReferenceView::Resource { key, bundle } => resource_hits(disk, cs, from, key, bundle),
    }
}

proof fn lemma_filter_map_has<A, B>(s: Seq<A>, f: spec_fn(A) -> Option<B>, i: int)
    requires
        0 <= i < s.len(),
        f(s[i]) is Some,
    ensures
        s.filter_map(f).contains(f(s[i])->0),
    decreases s.len(),
{
    let rest = s.drop_last();
    let y = f(s[i])->0;
    if i < s.len() - 1 {
        assert(rest[i] == s[i]);
        lemma_filter_map_has(rest, f, i);
        let q = choose|q: int| 0 <= q < rest.filter_map(f).len() && rest.filter_map(f)[q] == y;
        match f(s.last()) {
            Some(z) => {
                assert(s.filter_map(f) == rest.filter_map(f) + seq![z]);
                assert(s.filter_map(f)[q] == y);
            },
            None => {
                assert(s.filter_map(f) == rest.filter_map(f));
            },
        }
    } else {
        assert(s.last() == s[i]);
        assert(s.filter_map(f) == rest.filter_map(f) + seq![y]);
        assert(s.filter_map(f)[rest.filter_map(f).len() as int] == y);
    }
}

proof fn lemma_filter_map_from<A, B>(s: Seq<A>, f: spec_fn(A) -> Option<B>, k: int)
    requires
        0 <= k < s.filter_map(f).len(),
    ensures
        exists|i: int| 0 <= i < s.len() && f(s[i]) == Some(s.filter_map(f)[k]),
    decreases s.len(),
{
    let rest = s.drop_last();
    let y = s.filter_map(f)[k];
    match f(s.last()) {
        Some(z) => {
            assert(s.filter_map(f) == rest.filter_map(f) + seq![z]);
            if k < rest.filter_map(f).len() {
                assert(rest.filter_map(f)[k] == y);
                lemma_filter_map_from(rest, f, k);
                let i = choose|i: int| 0 <= i < rest.len() && f(rest[i]) == Some(y);
                assert(s[i] == rest[i]);
            } else {
                assert(f(s[s.len() - 1]) == Some(y));
            }
        },
        None => {
            assert(s.filter_map(f) == rest.filter_map(f));
            lemma_filter_map_from(rest, f, k);
            let i = choose|i: int| 0 <= i < rest.len() && f(rest[i]) == Some(y);
            assert(s[i] == rest[i]);
        },
    }
}

/// `path` is the bundle file `file_name`, existing on `disk`, of one of
/// the cartridges `ordered`.
pub open spec fn in_a_bundle_file(
    disk: DiskView,
    ordered: Seq<CartridgeView>,
    file_name: Seq<char>,
    path: PathView,
) -> bool {
    exists|j: int|
        0 <= j < ordered.len() && is_file(disk, bundle_path(#[trigger] ordered[j], file_name))
            && path == bundle_path(ordered[j], file_name)
}

/// Every bundle that defines a resource key is answered, at its defining
/// line: for the `i`-th cartridge searched, when its `<bundle>.properties`
/// is a file that could be read as `text` and `key` is first assigned on
/// `line` of it, the hits hold that file at that line. Each hit, whatever the key, lies
/// in the bundle file of a cartridge searched.
pub proof fn law_every_defining_bundle_is_answered(
    disk: DiskView,
    cs: Seq<CartridgeView>,
    roots: Seq<PathView>,
    from: PathView,
    key: Seq<char>,
    bundle: Seq<char>,
    i: int,
    text: Seq<char>,
    line: u32,
)
    requires
        0 <= i < ordered_from(cs, from).len(),
    ensures
        ({
            let p = bundle_path(ordered_from(cs, from)[i], bundle + ".properties"@);
            let hits = resolution(disk, cs, roots, from, ReferenceView::Resource { key, bundle });
            is_file(disk, p) && lookup(disk.texts, p) == Some(text) && key_line(text, key) == Some(
                line,
            ) ==> hits.contains(HitView { path: p, line })
        }),
        forall|k: int|
            0 <= k < resolution(disk, cs, roots, from, ReferenceView::Resource { key, bundle }).len()
                ==> in_a_bundle_file(
                disk,
                ordered_from(cs, from),
                bundle + ".properties"@,
                (#[trigger] resolution(
                    disk,
                    cs,
                    roots,
                    from,
                    ReferenceView::Resource { key, bundle },
                )[k]).path,
            ),
{
    let ordered = ordered_from(cs, from);
    let name = bundle + ".properties"@;
    let eb = existing_bundle(disk, name);
    let found = bundles(disk, cs, from, bundle);
    let kh = key_hit(disk, key);
    let defining = found.filter_map(kh);
    let hits = resolution(disk, cs, roots, from, ReferenceView::Resource { key, bundle });
    assert(found == ordered.filter_map(eb));
    let p = bundle_path(ordered[i], name);
    if is_file(disk, p) && lookup(disk.texts, p) == Some(text) && key_line(text, key) == Some(line) {
        assert(eb(ordered[i]) == Some(p));
        lemma_filter_map_has(ordered, eb, i);
        let q = choose|q: int| 0 <= q < found.len() && found[q] == p;
        assert(kh(found[q]) == Some(HitView { path: p, line }));
        lemma_filter_map_has(found, kh, q);
        assert(defining.len() > 0);
        assert(hits == defining);
    }
    assert forall|k: int| 0 <= k < hits.len() implies in_a_bundle_file(
        disk,
        ordered,
        name,
        (#[trigger] hits[k]).path,
    ) by {
        let path = if defining.len() == 0 {
            assert(hits[k] == at_start()(found[k]));
            found[k]
        } else {
            lemma_filter_map_from(found, kh, k);
            let q = choose|q: int| 0 <= q < found.len() && kh(found[q]) == Some(defining[k]);
            assert(hits[k].path == found[q]);
            found[q]
        };
        assert(found.contains(path));
        let q = choose|q: int| 0 <= q < found.len() && found[q] == path;
        lemma_filter_map_from(ordered, eb, q);
        let j = choose|j: int| 0 <= j < ordered.len() && eb(ordered[j]) == Some(found[q]);
        assert(is_file(disk, bundle_path(ordered[j], name)));
    }
}

/// A module candidate that is itself a file resolves to itself; whatever a
/// candidate resolves to is a file, and a candidate resolves to nothing only
/// when none of it, `.js`, `.json`, `.ds` after it and `index.js` inside it
/// is a file.
pub proof fn law_module_file_is_a_file(disk: DiskView, candidate: PathView)
    ensures
        is_file(disk, candidate) ==> module_file(disk, candidate) == Some(candidate),
        module_file(disk, candidate) matches Some(p) ==> is_file(disk, p),
        module_file(disk, candidate) is None <==> {
            &&& !is_file(disk, candidate)
            &&& !is_file(disk, with_suffix(candidate, ".js"@))
            &&& !is_file(disk, with_suffix(candidate, ".json"@))
            &&& !is_file(disk, with_suffix(candidate, ".ds"@))
            &&& !is_file(disk, child(candidate, "index.js"@))
        },
{
}

/// The places `reference`, met in the file `from`, points at, as far as
/// `disk` shows the files.
pub fn resolve(reference: &Reference, from: &FsPath, workspace: &Workspace, disk: &Disk) -> (hits:
    Vec<Hit>)
    ensures
        hit_views(hits@) == resolution(
            disk@,
            views(workspace.cartridges@),
            path_views(workspace.module_roots@),
            from@,
            reference@,
        ),
{
    match reference {
        Reference::Template(path) => templates(path.as_str(), from, workspace, disk),
        Reference::Module(path) => modules(path.as_str(), from, workspace, disk),
        Reference::Resource { key, bundle } => resources(
            key.as_str(),
            bundle.as_str(),
            from,
            workspace,
            disk,
        ),
    }
}

fn templates(template: &str, from: &FsPath, workspace: &Workspace, disk: &Disk) -> (hits: Vec<Hit>)
    ensures
        hit_views(hits@) == template_hits(disk@, views(workspace.cartridges@), from@, template@),
{
    let relative_text = trim_slashes(template);
    let mut relative = relative_text;
    relative.append(".isml");
    let ghost rel = relative@;
    let ghost f = cartridge_templates(disk@, rel);
    let ordered = workspace.cartridges_from(from);
    let ghost cs = ref_views(ordered@);
    let mut hits: Vec<Hit> = Vec::new();
    let mut i: usize = 0;
    while i < ordered.len()
        invariant
            i <= ordered@.len(),
            cs == ref_views(ordered@),
            cs == ordered_from(views(workspace.cartridges@), from@),
            rel == relative@,
            f == cartridge_templates(disk@, rel),
            hit_views(hits@) == cs.take(i as int).flat_map(f),
        decreases ordered@.len() - i,
    {
        let ghost before = hit_views(hits@);
        let c = ordered[i];
        assert(cs[i as int] == c@);
        let templates_dir = c.cartridge_dir().child("templates");
        let dirs = template_dirs(&templates_dir, disk);
        let ghost ls = texts_of(dirs@);
        let ghost g = locale_hit(disk@, templates_dir@, rel);
        let mut j: usize = 0;
        while j < dirs.len()
            invariant
                j <= dirs@.len(),
                ls == texts_of(dirs@),
                g == locale_hit(disk@, templates_dir@, rel),
                rel == relative@,
                hit_views(hits@) == before + ls.take(j as int).filter_map(g),
            decreases dirs@.len() - j,
        {
            let candidate = templates_dir.child(dirs[j].as_str()).join(relative.as_str());
            proof {
                ls.lemma_filter_map_take_succ(g, j as int);
            }
            let ghost mid = hit_views(hits@);
            if disk.is_file(&candidate) {
                hits.push(Hit::from(candidate));
                assert(hit_views(hits@) =~= mid.push(start_of(candidate@)));
            }
            j = j + 1;
            assert(hit_views(hits@) =~= before + ls.take(j as int).filter_map(g));
        }
        proof {
            assert(ls.take(j as int) =~= ls);
            cs.lemma_flat_map_take_append(f, i as int);
            assert(f(cs[i as int]) == ls.filter_map(g));
        }
        i = i + 1;
        assert(hit_views(hits@) =~= cs.take(i as int).flat_map(f));
    }
    assert(cs.take(i as int) =~= cs);
    hits
}

/// `template` without its leading `/`s.
fn trim_slashes(template: &str) -> (r: String)
    ensures
        r@ == trim_leading_slashes(template@),
{
    let chars = chars_of(template);
    let mut k: usize = 0;
    assert(chars@.skip(0) =~= chars@);
    while k < chars.len() && chars[k] == '/'
        invariant
            k <= chars@.len(),
            chars@ == template@,
            trim_leading_slashes(template@) == trim_leading_slashes(chars@.skip(k as int)),
        decreases chars@.len() - k,
    {
        assert(chars@.skip(k as int).drop_first() =~= chars@.skip(k + 1));
        k = k + 1;
    }
    assert(chars@.subrange(k as int, chars@.len() as int) =~= chars@.skip(k as int));
    string_of(&chars.as_slice()[k..chars.len()])
}

/// `default` first, then any other locale folder that exists.
fn template_dirs(templates_dir: &FsPath, disk: &Disk) -> (dirs: Vec<String>)
    ensures
        texts_of(dirs@) == locales(disk@, templates_dir@),
{
    let mut dirs: Vec<String> = Vec::new();
    dirs.push("default".to_owned());
    let names = match disk.listing(templates_dir) {
        Some(names) => names,
        None => {
            assert(texts_of(dirs@) =~= locales(disk@, templates_dir@));
            return dirs;
        },
    };
    let ghost all = texts_of(names@);
    let mut others: Vec<String> = Vec::new();
    let mut i: usize = 0;
    proof {
        reveal(Seq::filter);
        assert(all.take(0) =~= Seq::<Seq<char>>::empty());
        assert(texts_of(others@) =~= Seq::<Seq<char>>::empty());
    }
    while i < names.len()
        invariant
            i <= names@.len(),
            all == texts_of(names@),
            texts_of(others@) == all.take(i as int).filter(other_locale()),
        decreases names@.len() - i,
    {
        let name = &names[i];
        proof {
            assert(all.take(i + 1) =~= all.take(i as int).push(name@));
            all.take(i as int).lemma_filter_push(name@, other_locale());
        }
        let is_default = same_text(name.as_str(), "default");
        let is_resources = same_text(name.as_str(), "resources");
        if !is_default && !is_resources {
            let ghost before = texts_of(others@);
            others.push(name.clone());
            assert(texts_of(others@) =~= before.push(name@));
        }
        i = i + 1;
    }
    assert(all.take(i as int) =~= all);
    let sorted = sort_texts(others);
    let ghost head = texts_of(dirs@);
    let mut k: usize = 0;
    while k < sorted.len()
        invariant
            k <= sorted@.len(),
            head == seq!["default"@],
            texts_of(dirs@) == head + texts_of(sorted@).take(k as int),
        decreases sorted@.len() - k,
    {
        let ghost before = texts_of(dirs@);
        dirs.push(sorted[k].clone());
        assert(texts_of(dirs@) =~= before.push(texts_of(sorted@)[k as int]));
        k = k + 1;
        assert(texts_of(dirs@) =~= head + texts_of(sorted@).take(k as int));
    }
    assert(texts_of(sorted@).take(k as int) =~= texts_of(sorted@));
    dirs
}

/// The module files a `require` specifier names.
fn modules(module: &str, from: &FsPath, workspace: &Workspace, disk: &Disk) -> (hits: Vec<Hit>)
    ensures
        hit_views(hits@) == module_hits(
            disk@,
            views(workspace.cartridges@),
            path_views(workspace.module_roots@),
            from@,
            module@,
        ),
{
    if has_prefix(module, "dw/") || has_prefix(module, "dw.") {
        let hits: Vec<Hit> = Vec::new();
        assert(hit_views(hits@) =~= Seq::<HitView>::empty());
        return hits;
    }
    if has_prefix(module, "./") || has_prefix(module, "../") {
        let base = match from.parent() {
            Some(p) => p,
            None => from.copied(),
        };
        let mut hits: Vec<Hit> = Vec::new();
        assert(hit_views(hits@) =~= Seq::<HitView>::empty());
        push_module(&mut hits, &base.join(module), disk);
        assert(hit_views(hits@) =~= optional(module_hit(disk@, join(base@, module@))));
        return hits;
    }
    let mut hits = cartridge_modules(module, from, workspace, disk);
    if hits.len() == 0 {
        // Bare specifiers (`server`, `int_gtm`, `dwapi/...`) come from a
        // `cartridges/modules` folder.
        let ghost roots = path_views(workspace.module_roots@);
        let ghost g = module_in_root(disk@, module@);
        assert(hit_views(hits@) =~= roots.take(0).filter_map(g));
        let mut i: usize = 0;
        while i < workspace.module_roots.len()
            invariant
                i <= workspace.module_roots@.len(),
                roots == path_views(workspace.module_roots@),
                g == module_in_root(disk@, module@),
                hit_views(hits@) == roots.take(i as int).filter_map(g),
            decreases workspace.module_roots@.len() - i,
        {
            proof {
                roots.lemma_filter_map_take_succ(g, i as int);
            }
            let candidate = workspace.module_roots[i].join(module);
            push_module(&mut hits, &candidate, disk);
            i = i + 1;
            assert(hit_views(hits@) =~= roots.take(i as int).filter_map(g));
        }
        assert(roots.take(i as int) =~= roots);
    }
    hits
}

/// The module files a cartridge-relative specifier names.
fn cartridge_modules(module: &str, from: &FsPath, workspace: &Workspace, disk: &Disk) -> (hits:
    Vec<Hit>)
    ensures
        hit_views(hits@) == cartridge_module_hits(
            disk@,
            views(workspace.cartridges@),
            from@,
            module@,
        ),
{
    let chars = chars_of(module);
    let mut hits: Vec<Hit> = Vec::new();
    assert(hit_views(hits@) =~= Seq::<HitView>::empty());
    proof {
        reveal_strlit("*/");
        reveal_strlit("~/");
    }
    if has_prefix(module, "*/") {
        let rest = string_of(&chars.as_slice()[2..chars.len()]);
        assert(rest@ =~= module@.skip(2));
        let ordered = workspace.cartridges_from(from);
        let ghost cs = ref_views(ordered@);
        let ghost g = module_in_cartridge(disk@, rest@);
        assert(hit_views(hits@) =~= cs.take(0).filter_map(g));
        let mut i: usize = 0;
        while i < ordered.len()
            invariant
                i <= ordered@.len(),
                cs == ref_views(ordered@),
                g == module_in_cartridge(disk@, rest@),
                hit_views(hits@) == cs.take(i as int).filter_map(g),
            decreases ordered@.len() - i,
        {
            proof {
                cs.lemma_filter_map_take_succ(g, i as int);
            }
            let c = ordered[i];
            assert(cs[i as int] == c@);
            push_module(&mut hits, &c.root.join(rest.as_str()), disk);
            i = i + 1;
            assert(hit_views(hits@) =~= cs.take(i as int).filter_map(g));
        }
        assert(cs.take(i as int) =~= cs);
    } else if has_prefix(module, "~/") {
        let rest = string_of(&chars.as_slice()[2..chars.len()]);
        assert(rest@ =~= module@.skip(2));
        if let Some(c) = workspace.cartridge_of(from) {
            push_module(&mut hits, &c.root.join(rest.as_str()), disk);
            assert(hit_views(hits@) =~= optional(module_hit(disk@, join(c.root@, rest@))));
        }
    } else {
        let mut k: usize = 0;
        while k < chars.len() && chars[k] != '/'
            invariant
                k <= chars@.len(),
                chars@ == module@,
                first_slash(module@, 0) == first_slash(module@, k as int),
            decreases chars@.len() - k,
        {
            k = k + 1;
        }
        if k < chars.len() {
            // `app_common_eu_guess/cartridge/scripts/x`: an explicit cartridge.
            let name = string_of(&chars.as_slice()[0..k]);
            let rest = string_of(&chars.as_slice()[k + 1..chars.len()]);
            assert(name@ =~= module@.take(k as int));
            assert(rest@ =~= module@.skip(k + 1));
            let ordered = workspace.cartridges_from(from);
            let ghost cs = ref_views(ordered@);
            let ghost g = module_in_named(disk@, name@, rest@);
            assert(hit_views(hits@) =~= cs.take(0).filter_map(g));
            let mut i: usize = 0;
            while i < ordered.len()
                invariant
                    i <= ordered@.len(),
                    cs == ref_views(ordered@),
                    g == module_in_named(disk@, name@, rest@),
                    hit_views(hits@) == cs.take(i as int).filter_map(g),
                decreases ordered@.len() - i,
            {
                proof {
                    cs.lemma_filter_map_take_succ(g, i as int);
                }
                let c = ordered[i];
                assert(cs[i as int] == c@);
                if c.name == name {
                    push_module(&mut hits, &c.root.join(rest.as_str()), disk);
                }
                i = i + 1;
                assert(hit_views(hits@) =~= cs.take(i as int).filter_map(g));
            }
            assert(cs.take(i as int) =~= cs);
        }
    }
    hits
}

/// Adds the module file `candidate` names, if there is one.
fn push_module(hits: &mut Vec<Hit>, candidate: &FsPath, disk: &Disk)
    ensures
        hit_views(final(hits)@) == hit_views(old(hits)@) + optional(module_hit(disk@, candidate@)),
{
    let ghost before = hit_views(hits@);
    if let Some(path) = existing_module(candidate, disk) {
        hits.push(Hit::from(path));
        assert(hit_views(hits@) =~= before + seq![start_of(path@)]);
    } else {
        assert(hit_views(hits@) =~= before + Seq::<HitView>::empty());
    }
}

/// `x` resolves to `x`, `x.js`, `x.json`, `x.ds` or `x/index.js`, as SFCC does.
fn existing_module(candidate: &FsPath, disk: &Disk) -> (r: Option<FsPath>)
    ensures
        match r {
            Some(p) => module_file(disk@, candidate@) == Some(p@),
            None => module_file(disk@, candidate@) is None,
        },
{
    if disk.is_file(candidate) {
        return Some(candidate.copied());
    }
    let with_js = candidate.with_suffix(".js");
    if disk.is_file(&with_js) {
        return Some(with_js);
    }
    let with_json = candidate.with_suffix(".json");
    if disk.is_file(&with_json) {
        return Some(with_json);
    }
    let with_ds = candidate.with_suffix(".ds");
    if disk.is_file(&with_ds) {
        return Some(with_ds);
    }
    let index = candidate.child("index.js");
    if disk.is_file(&index) {
        return Some(index);
    }
    None
}

/// The lines defining `key` in the `bundle` files, or the bundle files
/// themselves when none defines it.
fn resources(key: &str, bundle: &str, from: &FsPath, workspace: &Workspace, disk: &Disk) -> (hits:
    Vec<Hit>)
    ensures
        hit_views(hits@) == resource_hits(disk@, views(workspace.cartridges@), from@, key@, bundle@),
{
    let found = existing_bundles(bundle, from, workspace, disk);
    let ghost paths = path_views(found@);
    let ghost h = key_hit(disk@, key@);
    let mut defining: Vec<Hit> = Vec::new();
    assert(hit_views(defining@) =~= paths.take(0).filter_map(h));
    let mut j: usize = 0;
    while j < found.len()
        invariant
            j <= found@.len(),
            paths == path_views(found@),
            h == key_hit(disk@, key@),
            hit_views(defining@) == paths.take(j as int).filter_map(h),
        decreases found@.len() - j,
    {
        proof {
            paths.lemma_filter_map_take_succ(h, j as int);
        }
        let ghost before = hit_views(defining@);
        assert(paths[j as int] == found@[j as int]@);
        if let Some(contents) = disk.text(&found[j]) {
            if let Some(line) = line_of_key(contents.as_str(), key) {
                defining.push(Hit { path: found[j].copied(), line });
                assert(hit_views(defining@) =~= before.push(
                    HitView { path: paths[j as int], line },
                ));
            }
        }
        j = j + 1;
        assert(hit_views(defining@) =~= paths.take(j as int).filter_map(h));
    }
    assert(paths.take(j as int) =~= paths);
    // A key nobody defines is usually a typo; still offer the bundles it would
    // belong to rather than nothing at all.
    if defining.len() == 0 {
        let mut hits: Vec<Hit> = Vec::new();
        let mut k: usize = 0;
        while k < found.len()
            invariant
                k <= found@.len(),
                paths == path_views(found@),
                hit_views(hits@) == paths.take(k as int).map_values(at_start()),
            decreases found@.len() - k,
        {
            let ghost before = hit_views(hits@);
            hits.push(Hit::from(found[k].copied()));
            assert(hit_views(hits@) =~= before.push(start_of(paths[k as int])));
            k = k + 1;
            assert(hit_views(hits@) =~= paths.take(k as int).map_values(at_start()));
        }
        assert(paths.take(k as int) =~= paths);
        return hits;
    }
    defining
}

// ------------------------------------------------------------ what is read

/// The templates folders whose listings resolving `reference` reads.
pub open spec fn probed_dirs(cs: Seq<CartridgeView>, from: PathView, reference: ReferenceView) -> Seq<
    PathView,
> {
    match reference {
        ReferenceView::Template(_) => ordered_from(cs, from).map_values(templates_dir_fn()),
        _ => Seq::empty(),
    }
}

pub open spec fn template_candidates(disk: DiskView, relative: Seq<char>) -> spec_fn(
    CartridgeView,
) -> Seq<PathView> {
    |c: CartridgeView|
        locales(disk, templates_dir(c)).map_values(locale_candidate(templates_dir(c), relative))
}

pub open spec fn templates_dir_fn() -> spec_fn(CartridgeView) -> PathView {
    |c: CartridgeView| templates_dir(c)
}

pub open spec fn locale_candidate(dir: PathView, relative: Seq<char>) -> spec_fn(Seq<char>) -> PathView {
    |locale: Seq<char>| join(child(dir, locale), relative)
}

pub open spec fn root_joined(rest: Seq<char>) -> spec_fn(CartridgeView) -> PathView {
    |c: CartridgeView| join(c.root, rest)
}

pub open spec fn named_root_joined(name: Seq<char>, rest: Seq<char>) -> spec_fn(CartridgeView) -> Option<
    PathView,
> {
    |c: CartridgeView|
        if c.name == name {
            Some(join(c.root, rest))
        } else {
            None
        }
}

pub open spec fn path_joined(rest: Seq<char>) -> spec_fn(PathView) -> PathView {
    |p: PathView| join(p, rest)
}

pub open spec fn bundle_path_fn(file_name: Seq<char>) -> spec_fn(CartridgeView) -> PathView {
    |c: CartridgeView| bundle_path(c, file_name)
}

/// The paths `existing_module` looks at for `candidate`, in order.
pub open spec fn module_candidates() -> spec_fn(PathView) -> Seq<PathView> {
    |candidate: PathView|
        seq![
            candidate,
            with_suffix(candidate, ".js"@),
            with_suffix(candidate, ".json"@),
            with_suffix(candidate, ".ds"@),
            child(candidate, "index.js"@),
        ]
}

/// The module paths a cartridge-relative specifier names, before extensions
/// are tried.
pub open spec fn cartridge_module_bases(cs: Seq<CartridgeView>, from: PathView, module: Seq<char>) -> Seq<
    PathView,
> {
    if starts_with(module, "*/"@) {
        ordered_from(cs, from).map_values(root_joined(module.skip(2)))
    } else if starts_with(module, "~/"@) {
        match owner(cs, from) {
            Some(j) => seq![join(cs[j].root, module.skip(2))],
            None => Seq::empty(),
        }
    } else {
        match first_slash(module, 0) {
            Some(k) => ordered_from(cs, from).filter_map(
                named_root_joined(module.take(k), module.skip(k + 1)),
            ),
            None => Seq::empty(),
        }
    }
}

/// Every module path resolving `module` may look at, before extensions are
/// tried.
pub open spec fn module_bases(
    cs: Seq<CartridgeView>,
    roots: Seq<PathView>,
    from: PathView,
    module: Seq<char>,
) -> Seq<PathView> {
    if starts_with(module, "dw/"@) || starts_with(module, "dw."@) {
        Seq::empty()
    } else if starts_with(module, "./"@) || starts_with(module, "../"@) {
        let base = match parent(from) {
            Some(p) => p,
            None => from,
        };
        seq![join(base, module)]
    } else {
        cartridge_module_bases(cs, from, module) + roots.map_values(path_joined(module))
    }
}

/// The paths whose being a file resolving `reference` reads, given the
/// listings of `disk`.
pub open spec fn probed_files(
    disk: DiskView,
    cs: Seq<CartridgeView>,
    roots: Seq<PathView>,
    from: PathView,
    reference: ReferenceView,
) -> Seq<PathView> {
    match reference {
        ReferenceView::Template(t) => ordered_from(cs, from).flat_map(
            template_candidates(disk, trim_leading_slashes(t) + ".isml"@),
        ),
        ReferenceView::Module(m) => module_bases(cs, roots, from, m).flat_map(module_candidates()),
        ReferenceView::Resource { key, bundle } => ordered_from(cs, from).map_values(
            bundle_path_fn(bundle + ".properties"@),
        ),
    }
}

/// The files whose contents resolving `reference` reads, given which paths
/// `disk` shows as files.
pub open spec fn read_files(
    disk: DiskView,
    cs: Seq<CartridgeView>,
    from: PathView,
    reference: ReferenceView,
) -> Seq<PathView> {
    match reference {
        ReferenceView::Resource { key, bundle } => bundles(disk, cs, from, bundle),
        _ => Seq::empty(),
    }
}

/// The bundle files `<bundle>.properties` that exist, current cartridge
/// first.
fn existing_bundles(bundle: &str, from: &FsPath, workspace: &Workspace, disk: &Disk) -> (found: Vec<
    FsPath,
>)
    ensures
        path_views(found@) == bundles(disk@, views(workspace.cartridges@), from@, bundle@),
{
    let mut file_name = bundle.to_owned();
    file_name.append(".properties");
    let ordered = workspace.cartridges_from(from);
    let ghost cs = ref_views(ordered@);
    let ghost g = existing_bundle(disk@, file_name@);
    let mut found: Vec<FsPath> = Vec::new();
    assert(path_views(found@) =~= cs.take(0).filter_map(g));
    let mut i: usize = 0;
    while i < ordered.len()
        invariant
            i <= ordered@.len(),
            cs == ref_views(ordered@),
            g == existing_bundle(disk@, file_name@),
            path_views(found@) == cs.take(i as int).filter_map(g),
        decreases ordered@.len() - i,
    {
        proof {
            cs.lemma_filter_map_take_succ(g, i as int);
        }
        let c = ordered[i];
        assert(cs[i as int] == c@);
        let path = c.cartridge_dir().child("templates").child("resources").join(
            file_name.as_str(),
        );
        let ghost before = path_views(found@);
        if disk.is_file(&path) {
            found.push(path);
            assert(path_views(found@) =~= before.push(bundle_path(c@, file_name@)));
        }
        i = i + 1;
        assert(path_views(found@) =~= cs.take(i as int).filter_map(g));
    }
    assert(cs.take(i as int) =~= cs);
    found
}

/// The templates folders whose listings resolving `reference` reads.
pub fn dirs_to_list(reference: &Reference, from: &FsPath, workspace: &Workspace) -> (dirs: Vec<
    FsPath,
>)
    ensures
        path_views(dirs@) == probed_dirs(views(workspace.cartridges@), from@, reference@),
{
    let mut dirs: Vec<FsPath> = Vec::new();
    match reference {
        Reference::Template(_) => {
            let ordered = workspace.cartridges_from(from);
            let ghost cs = ref_views(ordered@);
            let mut i: usize = 0;
            while i < ordered.len()
                invariant
                    i <= ordered@.len(),
                    cs == ref_views(ordered@),
                    path_views(dirs@) == cs.take(i as int).map_values(templates_dir_fn()),
                decreases ordered@.len() - i,
            {
                let c = ordered[i];
                assert(cs[i as int] == c@);
                let ghost before = path_views(dirs@);
                dirs.push(c.cartridge_dir().child("templates"));
                assert(path_views(dirs@) =~= before.push(templates_dir(c@)));
                assert(cs.take(i + 1).map_values(templates_dir_fn()) =~= cs.take(i as int).map_values(
                    templates_dir_fn(),
                ).push(templates_dir(cs[i as int])));
                i = i + 1;
            }
            assert(cs.take(i as int) =~= cs);
        },
        _ => {
            assert(path_views(dirs@) =~= Seq::<PathView>::empty());
        },
    }
    dirs
}

/// The paths whose being a file resolving `reference` reads, given the
/// listings `disk` holds.
pub fn files_to_check(reference: &Reference, from: &FsPath, workspace: &Workspace, disk: &Disk) -> (files:
    Vec<FsPath>)
    ensures
        path_views(files@) == probed_files(
            disk@,
            views(workspace.cartridges@),
            path_views(workspace.module_roots@),
            from@,
            reference@,
        ),
{
    match reference {
        Reference::Template(t) => template_files(t.as_str(), from, workspace, disk),
        Reference::Module(m) => {
            let bases = module_bases_of(m.as_str(), from, workspace);
            let ghost bs = path_views(bases@);
            let ghost f = module_candidates();
            let mut files: Vec<FsPath> = Vec::new();
            assert(path_views(files@) =~= bs.take(0).flat_map(f));
            let mut i: usize = 0;
            while i < bases.len()
                invariant
                    i <= bases@.len(),
                    bs == path_views(bases@),
                    f == module_candidates(),
                    path_views(files@) == bs.take(i as int).flat_map(f),
                decreases bases@.len() - i,
            {
                proof {
                    bs.lemma_flat_map_take_append(f, i as int);
                }
                let b = &bases[i];
                let ghost before = path_views(files@);
                files.push(b.copied());
                files.push(b.with_suffix(".js"));
                files.push(b.with_suffix(".json"));
                files.push(b.with_suffix(".ds"));
                files.push(b.child("index.js"));
                assert(path_views(files@) =~= before + f(b@));
                i = i + 1;
            }
            assert(bs.take(i as int) =~= bs);
            files
        },
        Reference::Resource { key: _, bundle } => {
            let mut file_name = bundle.clone();
            file_name.append(".properties");
            let ordered = workspace.cartridges_from(from);
            let ghost cs = ref_views(ordered@);
            let ghost fname = file_name@;
            let mut files: Vec<FsPath> = Vec::new();
            let mut i: usize = 0;
            while i < ordered.len()
                invariant
                    i <= ordered@.len(),
                    cs == ref_views(ordered@),
                    fname == file_name@,
                    path_views(files@) == cs.take(i as int).map_values(bundle_path_fn(fname)),
                decreases ordered@.len() - i,
            {
                let c = ordered[i];
                assert(cs[i as int] == c@);
                let ghost before = path_views(files@);
                files.push(
                    c.cartridge_dir().child("templates").child("resources").join(
                        file_name.as_str(),
                    ),
                );
                assert(path_views(files@) =~= before.push(bundle_path(c@, fname)));
                assert(cs.take(i + 1).map_values(bundle_path_fn(fname)) =~= cs.take(
                    i as int,
                ).map_values(bundle_path_fn(fname)).push(bundle_path(cs[i as int], fname)));
                i = i + 1;
            }
            assert(cs.take(i as int) =~= cs);
            files
        },
    }
}

fn template_files(template: &str, from: &FsPath, workspace: &Workspace, disk: &Disk) -> (files: Vec<
    FsPath,
>)
    ensures
        path_views(files@) == ordered_from(views(workspace.cartridges@), from@).flat_map(
            template_candidates(disk@, trim_leading_slashes(template@) + ".isml"@),
        ),
{
    let mut relative = trim_slashes(template);
    relative.append(".isml");
    let ghost rel = relative@;
    let ghost f = template_candidates(disk@, rel);
    let ordered = workspace.cartridges_from(from);
    let ghost cs = ref_views(ordered@);
    let mut files: Vec<FsPath> = Vec::new();
    let mut i: usize = 0;
    assert(path_views(files@) =~= cs.take(0).flat_map(f));
    while i < ordered.len()
        invariant
            i <= ordered@.len(),
            cs == ref_views(ordered@),
            rel == relative@,
            f == template_candidates(disk@, rel),
            path_views(files@) == cs.take(i as int).flat_map(f),
        decreases ordered@.len() - i,
    {
        let ghost before = path_views(files@);
        let c = ordered[i];
        assert(cs[i as int] == c@);
        let templates_dir = c.cartridge_dir().child("templates");
        let dirs = template_dirs(&templates_dir, disk);
        let ghost ls = texts_of(dirs@);
        let ghost dir = templates_dir@;
        let mut j: usize = 0;
        while j < dirs.len()
            invariant
                j <= dirs@.len(),
                ls == texts_of(dirs@),
                dir == templates_dir@,
                rel == relative@,
                path_views(files@) == before + ls.take(j as int).map_values(
                    locale_candidate(dir, rel),
                ),
            decreases dirs@.len() - j,
        {
            let ghost mid = path_views(files@);
            files.push(templates_dir.child(dirs[j].as_str()).join(relative.as_str()));
            assert(path_views(files@) =~= mid.push(join(child(dir, ls[j as int]), rel)));
            assert(ls.take(j + 1).map_values(locale_candidate(dir, rel)) =~= ls.take(
                j as int,
            ).map_values(locale_candidate(dir, rel)).push(join(child(dir, ls[j as int]), rel)));
            j = j + 1;
        }
        proof {
            assert(ls.take(j as int) =~= ls);
            cs.lemma_flat_map_take_append(f, i as int);
            assert(f(cs[i as int]) =~= ls.map_values(locale_candidate(dir, rel)));
        }
        i = i + 1;
    }
    assert(cs.take(i as int) =~= cs);
    files
}

/// The module paths resolving `module` may look at, before extensions are
/// tried.
fn module_bases_of(module: &str, from: &FsPath, workspace: &Workspace) -> (bases: Vec<FsPath>)
    ensures
        path_views(bases@) == module_bases(
            views(workspace.cartridges@),
            path_views(workspace.module_roots@),
            from@,
            module@,
        ),
{
    let mut bases: Vec<FsPath> = Vec::new();
    if has_prefix(module, "dw/") || has_prefix(module, "dw.") {
        assert(path_views(bases@) =~= Seq::<PathView>::empty());
        return bases;
    }
    if has_prefix(module, "./") || has_prefix(module, "../") {
        let base = match from.parent() {
            Some(p) => p,
            None => from.copied(),
        };
        bases.push(base.join(module));
        assert(path_views(bases@) =~= seq![join(base@, module@)]);
        return bases;
    }
    let chars = chars_of(module);
    proof {
        reveal_strlit("*/");
        reveal_strlit("~/");
    }
    let ordered = workspace.cartridges_from(from);
    let ghost cs = ref_views(ordered@);
    if has_prefix(module, "*/") {
        let rest = string_of(&chars.as_slice()[2..chars.len()]);
        assert(rest@ =~= module@.skip(2));
        let mut i: usize = 0;
        while i < ordered.len()
            invariant
                i <= ordered@.len(),
                cs == ref_views(ordered@),
                rest@ == module@.skip(2),
                path_views(bases@) == cs.take(i as int).map_values(root_joined(module@.skip(2))),
            decreases ordered@.len() - i,
        {
            let c = ordered[i];
            assert(cs[i as int] == c@);
            let ghost before = path_views(bases@);
            bases.push(c.root.join(rest.as_str()));
            assert(path_views(bases@) =~= before.push(join(c@.root, rest@)));
            assert(cs.take(i + 1).map_values(root_joined(module@.skip(2))) =~= cs.take(
                i as int,
            ).map_values(root_joined(module@.skip(2))).push(join(cs[i as int].root, rest@)));
            i = i + 1;
        }
        assert(cs.take(i as int) =~= cs);
    } else if has_prefix(module, "~/") {
        let rest = string_of(&chars.as_slice()[2..chars.len()]);
        assert(rest@ =~= module@.skip(2));
        if let Some(c) = workspace.cartridge_of(from) {
            bases.push(c.root.join(rest.as_str()));
            assert(path_views(bases@) =~= seq![join(c.root@, rest@)]);
        } else {
            assert(path_views(bases@) =~= Seq::<PathView>::empty());
        }
    } else {
        let mut k: usize = 0;
        while k < chars.len() && chars[k] != '/'
            invariant
                k <= chars@.len(),
                chars@ == module@,
                first_slash(module@, 0) == first_slash(module@, k as int),
            decreases chars@.len() - k,
        {
            k = k + 1;
        }
        if k < chars.len() {
            let name = string_of(&chars.as_slice()[0..k]);
            let rest = string_of(&chars.as_slice()[k + 1..chars.len()]);
            assert(name@ =~= module@.take(k as int));
            assert(rest@ =~= module@.skip(k + 1));
            let ghost pick = named_root_joined(module@.take(k as int), module@.skip(k + 1));
            assert(path_views(bases@) =~= cs.take(0).filter_map(pick));
            let mut i: usize = 0;
            while i < ordered.len()
                invariant
                    i <= ordered@.len(),
                    cs == ref_views(ordered@),
                    name@ == module@.take(k as int),
                    rest@ == module@.skip(k + 1),
                    pick == named_root_joined(module@.take(k as int), module@.skip(k + 1)),
                    path_views(bases@) == cs.take(i as int).filter_map(pick),
                decreases ordered@.len() - i,
            {
                proof {
                    cs.lemma_filter_map_take_succ(pick, i as int);
                }
                let c = ordered[i];
                assert(cs[i as int] == c@);
                let ghost before = path_views(bases@);
                if c.name == name {
                    bases.push(c.root.join(rest.as_str()));
                    assert(path_views(bases@) =~= before.push(join(c.root@, rest@)));
                }
                i = i + 1;
                assert(path_views(bases@) =~= cs.take(i as int).filter_map(pick));
            }
            assert(cs.take(i as int) =~= cs);
        } else {
            assert(path_views(bases@) =~= Seq::<PathView>::empty());
        }
    }
    let ghost head = path_views(bases@);
    let ghost roots = path_views(workspace.module_roots@);
    let mut i: usize = 0;
    while i < workspace.module_roots.len()
        invariant
            i <= workspace.module_roots@.len(),
            roots == path_views(workspace.module_roots@),
            path_views(bases@) == head + roots.take(i as int).map_values(path_joined(module@)),
        decreases workspace.module_roots@.len() - i,
    {
        let ghost before = path_views(bases@);
        bases.push(workspace.module_roots[i].join(module));
        assert(path_views(bases@) =~= before.push(join(roots[i as int], module@)));
        assert(roots.take(i + 1).map_values(path_joined(module@)) =~= roots.take(
            i as int,
        ).map_values(path_joined(module@)).push(join(roots[i as int], module@)));
        i = i + 1;
    }
    assert(roots.take(i as int) =~= roots);
    bases
}

/// The files whose contents resolving `reference` reads, given which paths
/// `disk` holds as files.
pub fn files_to_read(reference: &Reference, from: &FsPath, workspace: &Workspace, disk: &Disk) -> (files:
    Vec<FsPath>)
    ensures
        path_views(files@) == read_files(disk@, views(workspace.cartridges@), from@, reference@),
{
    match reference {
        Reference::Resource { key: _, bundle } => existing_bundles(
            bundle.as_str(),
            from,
            workspace,
            disk,
        ),
        _ => {
            let files: Vec<FsPath> = Vec::new();
            assert(path_views(files@) =~= Seq::<PathView>::empty());
            files
        },
    }
}

} // verus!
