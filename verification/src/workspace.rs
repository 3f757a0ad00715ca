//! The SFCC cartridges of the open folder, and the walk that discovers them.
use vstd::prelude::*;

use crate::path::{child, file_name, parent, same_path, starts_with, text_bytes, FsPath, PathView};
use crate::order::{
    has_key, lemma_sorted_by_key, is_sort_of, keyed_sorted, text_le, lemma_insert_sorted, lemma_sort_is_sorted_by_key, lemma_sort_of_empty,
    sorted_by_key, text_less, text_lt,
};
use crate::text::{chars_of, same_text};

verus! {

/// How deep below a workspace root the walk looks for cartridges.
pub const MAX_DEPTH: usize = 6;

#[derive(Debug, Clone)]
pub struct Cartridge {
    pub name: String,
    /// The directory holding `cartridge/`, e.g. `.../cartridges/app_common_eu_guess`.
    pub root: FsPath,
}

pub struct CartridgeView {
    pub name: Seq<char>,
    pub root: PathView,
}

impl View for Cartridge {
    type V = CartridgeView;

    open spec fn view(&self) -> CartridgeView {
        CartridgeView { name: self.name@, root: self.root@ }
    }
}

pub open spec fn views(cs: Seq<Cartridge>) -> Seq<CartridgeView> {
    cs.map_values(|c: Cartridge| c@)
}

pub open spec fn ref_views(cs: Seq<&Cartridge>) -> Seq<CartridgeView> {
    cs.map_values(|c: &Cartridge| c@)
}

impl Cartridge {
    /// `<root>/cartridge`.
    pub fn cartridge_dir(&self) -> (dir: FsPath)
        ensures
            dir@ == child(self.root@, "cartridge"@),
    {
        self.root.child("cartridge")
    }

    pub(crate) fn copied(&self) -> (r: Cartridge)
        ensures
            r@ == self@,
    {
        Cartridge { name: self.name.clone(), root: self.root.copied() }
    }
}

#[derive(Debug, Default)]
pub struct Workspace {
    pub cartridges: Vec<Cartridge>,
    /// `cartridges/modules` folders, which hold plain CommonJS modules such as
    /// `server` that are required without a `cartridge/` segment.
    pub module_roots: Vec<FsPath>,
}

/// A cartridge's name, as its sort key.
pub open spec fn name_key() -> spec_fn(CartridgeView) -> Seq<char> {
    |c: CartridgeView| c.name
}

/// `s` without each cartridge whose root is the same path as that of the
/// cartridge before it.
pub open spec fn dedup_roots(s: Seq<CartridgeView>) -> Seq<CartridgeView>
    decreases s.len(),
{
    if s.len() == 0 {
        s
    } else if s.len() >= 2 && same_path(s[s.len() - 2].root, s.last().root) {
        dedup_roots(s.drop_last())
    } else {
        dedup_roots(s.drop_last()).push(s.last())
    }
}

/// The index of the cartridge, among the first `n`, whose root holds `file`
/// and has the longest text (in bytes); the last such one when several tie.
pub open spec fn owner_among(cs: Seq<CartridgeView>, file: PathView, n: int) -> Option<int>
    decreases n,
{
    if n <= 0 {
        None
    } else {
        let earlier = owner_among(cs, file, n - 1);
        if starts_with(file, cs[n - 1].root) && (earlier matches Some(e) ==> text_bytes(cs[e].root)
            <= text_bytes(cs[n - 1].root)) {
            Some(n - 1)
        } else {
            earlier
        }
    }
}

pub open spec fn owner(cs: Seq<CartridgeView>, file: PathView) -> Option<int> {
    owner_among(cs, file, cs.len() as int)
}

pub open spec fn rooted_elsewhere(root: PathView) -> spec_fn(CartridgeView) -> bool {
    |c: CartridgeView| !same_path(c.root, root)
}

/// Every cartridge, with the one owning `file` first and then the others,
/// in order, whose root is another path.
pub open spec fn ordered_from(cs: Seq<CartridgeView>, file: PathView) -> Seq<CartridgeView> {
    match owner(cs, file) {
        Some(j) => seq![cs[j]] + cs.filter(rooted_elsewhere(cs[j].root)),
        None => cs,
    }
}

impl Workspace {
    /// The workspace made of the cartridges and `cartridges/modules` folders
    /// that a walk of the roots found, in the order it found them: the
    /// cartridges sorted by name (stably), without a cartridge whose root is
    /// the same path as that of the one before it.
    pub fn scan(found: Vec<Cartridge>, module_roots: Vec<FsPath>) -> (workspace: Workspace)
        ensures
            views(workspace.cartridges@) == dedup_roots(sorted_by_key(views(found@), name_key())),
            workspace.module_roots@ == module_roots@,
    {
        let sorted = sort_by_name(found);
        let cartridges = dedup_by_root(sorted);
        Workspace { cartridges, module_roots }
    }

    fn owner_index(&self, file: &FsPath) -> (r: Option<usize>)
        ensures
            match r {
                Some(j) => owner(views(self.cartridges@), file@) == Some(j as int) && j
                    < self.cartridges@.len(),
                None => owner(views(self.cartridges@), file@) is None,
            },
    {
        let ghost cs = views(self.cartridges@);
        let mut best: Option<usize> = None;
        let mut i: usize = 0;
        while i < self.cartridges.len()
            invariant
                i <= self.cartridges@.len(),
                cs == views(self.cartridges@),
                match best {
                    Some(j) => owner_among(cs, file@, i as int) == Some(j as int) && j < i,
                    None => owner_among(cs, file@, i as int) is None,
                },
            decreases self.cartridges@.len() - i,
        {
            let candidate = &self.cartridges[i];
            if file.starts_with(&candidate.root) {
                let deeper = match best {
                    Some(j) => self.cartridges[j].root.text_bytes() <= candidate.root.text_bytes(),
                    None => true,
                };
                if deeper {
                    best = Some(i);
                }
            }
            i = i + 1;
        }
        best
    }

    /// The cartridge a file belongs to, if any: of those whose root holds the
    /// file, the one whose root has the longest text.
    pub fn cartridge_of(&self, file: &FsPath) -> (r: Option<&Cartridge>)
        ensures
            match r {
                Some(c) => owner(views(self.cartridges@), file@) matches Some(j) && c@
                    == views(self.cartridges@)[j],
                None => owner(views(self.cartridges@), file@) is None,
            },
    {
        match self.owner_index(file) {
            Some(j) => {
                assert(views(self.cartridges@)[j as int] == self.cartridges@[j as int]@);
                Some(&self.cartridges[j])
            },
            None => None,
        }
    }

    /// Every cartridge, with the one owning `file` first: `*/cartridge/...`
    /// most often means "this cartridge, then the rest of the path".
    pub fn cartridges_from(&self, file: &FsPath) -> (ordered: Vec<&Cartridge>)
        ensures
            ref_views(ordered@) == ordered_from(views(self.cartridges@), file@),
    {
        let ghost cs = views(self.cartridges@);
        let current = self.owner_index(file);
        let mut ordered: Vec<&Cartridge> = Vec::new();
        match current {
            None => {
                let mut i: usize = 0;
                while i < self.cartridges.len()
                    invariant
                        i <= self.cartridges@.len(),
                        cs == views(self.cartridges@),
                        ref_views(ordered@) == cs.take(i as int),
                    decreases self.cartridges@.len() - i,
                {
                    let ghost before = ordered@;
                    ordered.push(&self.cartridges[i]);
                    assert(cs[i as int] == self.cartridges@[i as int]@);
                    assert(ref_views(ordered@) =~= ref_views(before).push(cs[i as int]));
                    assert(cs.take(i + 1) =~= cs.take(i as int).push(cs[i as int]));
                    i = i + 1;
                }
                assert(cs.take(i as int) =~= cs);
            },
            Some(j) => {
                let owner = &self.cartridges[j];
                ordered.push(owner);
                let ghost keep = rooted_elsewhere(cs[j as int].root);
                proof {
                    reveal(Seq::filter);
                    assert(cs.take(0) =~= Seq::<CartridgeView>::empty());
                    assert(cs[j as int] == self.cartridges@[j as int]@);
                    assert(ref_views(ordered@) =~= seq![cs[j as int]] + cs.take(0).filter(keep));
                }
                let mut i: usize = 0;
                while i < self.cartridges.len()
                    invariant
                        i <= self.cartridges@.len(),
                        j < self.cartridges@.len(),
                        owner@ == cs[j as int],
                        cs == views(self.cartridges@),
                        keep == rooted_elsewhere(cs[j as int].root),
                        ref_views(ordered@) == seq![cs[j as int]] + cs.take(i as int).filter(keep),
                    decreases self.cartridges@.len() - i,
                {
                    let ghost before = ordered@;
                    proof {
                        assert(cs.take(i + 1) =~= cs.take(i as int).push(cs[i as int]));
                        cs.take(i as int).lemma_filter_push(cs[i as int], keep);
                    }
                    assert(cs[i as int] == self.cartridges@[i as int]@);
                    if !self.cartridges[i].root.same_as(&owner.root) {
                        ordered.push(&self.cartridges[i]);
                        assert(ref_views(ordered@) =~= ref_views(before).push(cs[i as int]));
                    }
                    i = i + 1;
                }
                assert(cs.take(i as int) =~= cs);
            },
        }
        ordered
    }
}

proof fn lemma_owner_among(cs: Seq<CartridgeView>, file: PathView, n: int)
    requires
        0 <= n <= cs.len(),
    ensures
        owner_among(cs, file, n) matches Some(j) ==> {
            &&& 0 <= j < n
            &&& starts_with(file, cs[j].root)
            &&& forall|k: int|
                0 <= k < n && starts_with(file, #[trigger] cs[k].root) ==> text_bytes(cs[k].root)
                    <= text_bytes(cs[j].root)
        },
        owner_among(cs, file, n) is None ==> forall|k: int|
            0 <= k < n ==> !starts_with(file, #[trigger] cs[k].root),
    decreases n,
{
    if n > 0 {
        lemma_owner_among(cs, file, n - 1);
    }
}

/// The cartridge a file belongs to is the deepest one holding it: its root
/// holds the file, and no cartridge holding the file has a root with a
/// longer text. A file no cartridge holds belongs to none.
pub proof fn law_owner_is_deepest(cs: Seq<CartridgeView>, file: PathView)
    ensures
        owner(cs, file) matches Some(j) ==> {
            &&& 0 <= j < cs.len()
            &&& starts_with(file, cs[j].root)
            &&& forall|k: int|
                0 <= k < cs.len() && starts_with(file, #[trigger] cs[k].root)
                    ==> text_bytes(cs[k].root) <= text_bytes(cs[j].root)
        },
        owner(cs, file) is None <==> forall|k: int|
            0 <= k < cs.len() ==> !starts_with(file, #[trigger] cs[k].root),
{
    lemma_owner_among(cs, file, cs.len() as int);
}

/// Cartridge overrides are all returned, ordered with the current file's
/// cartridge first: the owner of `file` comes first, then every cartridge
/// with another root, in order; with no owner, all cartridges in order.
pub proof fn law_current_cartridge_first(cs: Seq<CartridgeView>, file: PathView)
    ensures
        owner(cs, file) matches Some(j) ==> {
            let ordered = ordered_from(cs, file);
            &&& ordered.len() > 0
            &&& ordered[0] == cs[j]
            &&& forall|k: int|
                0 <= k < cs.len() && !same_path(cs[k].root, cs[j].root) ==> ordered.contains(
                    #[trigger] cs[k],
                )
            &&& forall|m: int| 1 <= m < ordered.len() ==> !same_path((#[trigger] ordered[m]).root, cs[j].root)
        },
        owner(cs, file) is None ==> ordered_from(cs, file) == cs,
{
    broadcast use vstd::seq_lib::group_filter_ensures;

    lemma_owner_among(cs, file, cs.len() as int);
    match owner(cs, file) {
        Some(j) => {
            let keep = rooted_elsewhere(cs[j].root);
            let rest = cs.filter(keep);
            let ordered = ordered_from(cs, file);
            assert(ordered == seq![cs[j]] + rest);
            assert forall|k: int| 0 <= k < cs.len() && !same_path(cs[k].root, cs[j].root) implies ordered.contains(
                #[trigger] cs[k],
            ) by {
                assert(keep(cs[k]));
                assert(rest.contains(cs[k]));
                let q = choose|q: int| 0 <= q < rest.len() && rest[q] == cs[k];
                assert(ordered[q + 1] == cs[k]);
            }
            assert forall|m: int| 1 <= m < ordered.len() implies !same_path(
                (#[trigger] ordered[m]).root,
                cs[j].root,
            ) by {
                assert(ordered[m] == rest[m - 1]);
                assert(keep(rest[m - 1]));
            }
        },
        None => {},
    }
}

/// Some cartridge of `d` has the root `root`.
pub open spec fn has_root(d: Seq<CartridgeView>, root: PathView) -> bool {
    exists|k: int| 0 <= k < d.len() && same_path(#[trigger] d[k].root, root)
}

proof fn lemma_dedup_from(s: Seq<CartridgeView>)
    ensures
        forall|k: int| 0 <= k < dedup_roots(s).len() ==> s.contains(#[trigger] dedup_roots(s)[k]),
        s.len() > 0 ==> dedup_roots(s).len() > 0 && same_path(dedup_roots(s).last().root, s.last().root),
    decreases s.len(),
{
    if s.len() > 0 {
        let rest = s.drop_last();
        let d = dedup_roots(rest);
        lemma_dedup_from(rest);
        assert forall|k: int| 0 <= k < d.len() implies s.contains(#[trigger] d[k]) by {
            let q = choose|q: int| 0 <= q < rest.len() && rest[q] == d[k];
            assert(s[q] == d[k]);
        }
        if !(s.len() >= 2 && same_path(s[s.len() - 2].root, s.last().root)) {
            let out = d.push(s.last());
            assert forall|k: int| 0 <= k < out.len() implies s.contains(#[trigger] out[k]) by {
                if k < d.len() {
                    assert(out[k] == d[k]);
                } else {
                    assert(s[s.len() - 1] == out[k]);
                }
            }
        }
    }
}

proof fn lemma_dedup_covers(s: Seq<CartridgeView>)
    ensures
        forall|i: int| 0 <= i < s.len() ==> has_root(dedup_roots(s), #[trigger] s[i].root),
    decreases s.len(),
{
    if s.len() > 0 {
        let rest = s.drop_last();
        let d = dedup_roots(rest);
        lemma_dedup_covers(rest);
        lemma_dedup_from(rest);
        if s.len() >= 2 && same_path(s[s.len() - 2].root, s.last().root) {
            assert forall|i: int| 0 <= i < s.len() implies has_root(dedup_roots(s), #[trigger] s[i].root) by {
                if i < s.len() - 1 {
                    assert(s[i] == rest[i]);
                } else {
                    assert(same_path(d[d.len() - 1].root, s[i].root));
                }
            }
        } else {
            let out = d.push(s.last());
            assert forall|i: int| 0 <= i < s.len() implies has_root(out, #[trigger] s[i].root) by {
                if i < s.len() - 1 {
                    assert(s[i] == rest[i]);
                    assert(has_root(d, rest[i].root));
                    let k = choose|k: int| 0 <= k < d.len() && same_path(#[trigger] d[k].root, rest[i].root);
                    assert(out[k] == d[k]);
                } else {
                    assert(out[d.len() as int] == s[i]);
                }
            }
        }
    }
}

proof fn lemma_dedup_adjacent(s: Seq<CartridgeView>)
    ensures
        forall|i: int|
            0 < i < dedup_roots(s).len() ==> !same_path(
                dedup_roots(s)[i - 1].root,
                (#[trigger] dedup_roots(s)[i]).root,
            ),
    decreases s.len(),
{
    if s.len() > 0 {
        let rest = s.drop_last();
        let d = dedup_roots(rest);
        lemma_dedup_adjacent(rest);
        lemma_dedup_from(rest);
        if !(s.len() >= 2 && same_path(s[s.len() - 2].root, s.last().root)) {
            let out = d.push(s.last());
            assert forall|i: int| 0 < i < out.len() implies !same_path(
                out[i - 1].root,
                (#[trigger] out[i]).root,
            ) by {
                if i == out.len() - 1 {
                    assert(out[i - 1] == d.last());
                    assert(rest.last() == s[s.len() - 2]);
                } else {
                    assert(out[i - 1] == d[i - 1] && out[i] == d[i]);
                }
            }
        }
    }
}

proof fn lemma_dedup_sorted(s: Seq<CartridgeView>)
    requires
        keyed_sorted(s, name_key()),
    ensures
        keyed_sorted(dedup_roots(s), name_key()),
    decreases s.len(),
{
    if s.len() > 0 {
        let rest = s.drop_last();
        let d = dedup_roots(rest);
        assert forall|i: int, j: int| 0 <= i < j < rest.len() implies text_le(
            name_key()(#[trigger] rest[i]),
            name_key()(#[trigger] rest[j]),
        ) by {
            assert(rest[i] == s[i] && rest[j] == s[j]);
        }
        lemma_dedup_sorted(rest);
        lemma_dedup_from(rest);
        if !(s.len() >= 2 && same_path(s[s.len() - 2].root, s.last().root)) {
            let out = d.push(s.last());
            assert forall|i: int, j: int| 0 <= i < j < out.len() implies text_le(
                name_key()(#[trigger] out[i]),
                name_key()(#[trigger] out[j]),
            ) by {
                if j == out.len() - 1 {
                    assert(out[i] == d[i]);
                    assert(rest.contains(d[i]));
                    let q = choose|q: int| 0 <= q < rest.len() && rest[q] == d[i];
                    assert(s[q] == d[i]);
                    assert(out[j] == s[s.len() - 1]);
                    assert(text_le(name_key()(s[q]), name_key()(s[s.len() - 1])));
                } else {
                    assert(out[i] == d[i] && out[j] == d[j]);
                }
            }
        }
    }
}

/// The workspace's cartridges are in order of name, no two in a row share a
/// root, and every cartridge the walk found is there by its root.
pub proof fn law_scan_sorted_without_repeats(found: Seq<CartridgeView>)
    ensures
        ({
            let cs = dedup_roots(sorted_by_key(found, name_key()));
            &&& keyed_sorted(cs, name_key())
            &&& forall|i: int| 0 < i < cs.len() ==> !same_path(cs[i - 1].root, (#[trigger] cs[i]).root)
            &&& forall|i: int| 0 <= i < found.len() ==> has_root(cs, #[trigger] found[i].root)
        }),
{
    broadcast use vstd::seq_lib::group_filter_ensures;

    let sorted = sorted_by_key(found, name_key());
    lemma_sorted_by_key(found, name_key());
    lemma_dedup_sorted(sorted);
    lemma_dedup_adjacent(sorted);
    lemma_dedup_covers(sorted);
    let cs = dedup_roots(sorted);
    assert forall|i: int| 0 <= i < found.len() implies has_root(cs, #[trigger] found[i].root) by {
        let n = found[i].name;
        let p = has_key(name_key(), n);
        assert(p(found[i]));
        assert(found.filter(p).contains(found[i]));
        assert(sorted.filter(p) == found.filter(p));
        lemma_filter_member(sorted, p, found[i]);
        let q = choose|q: int| 0 <= q < sorted.len() && sorted[q] == found[i];
        assert(has_root(cs, sorted[q].root));
    }
}

proof fn lemma_filter_member(s: Seq<CartridgeView>, p: spec_fn(CartridgeView) -> bool, x: CartridgeView)
    requires
        s.filter(p).contains(x),
    ensures
        s.contains(x),
{
    broadcast use vstd::seq_lib::group_seq_properties;

    s.lemma_filter_contains_rev(p, x);
}

/// `found` sorted by name, keeping the order of cartridges with equal names.
fn sort_by_name(found: Vec<Cartridge>) -> (sorted: Vec<Cartridge>)
    ensures
        views(sorted@) == sorted_by_key(views(found@), name_key()),
{
    let ghost input = views(found@);
    let mut sorted: Vec<Cartridge> = Vec::new();
    proof {
        lemma_sort_of_empty(name_key());
        assert(input.take(0) =~= Seq::<CartridgeView>::empty());
        assert(views(sorted@) =~= Seq::<CartridgeView>::empty());
    }
    let mut i: usize = 0;
    while i < found.len()
        invariant
            i <= found@.len(),
            input == views(found@),
            is_sort_of(views(sorted@), input.take(i as int), name_key()),
        decreases found@.len() - i,
    {
        let item = found[i].copied();
        let ghost x = item@;
        let mut p = sorted.len();
        while p > 0 && text_less(item.name.as_str(), sorted[p - 1].name.as_str())
            invariant
                p <= sorted@.len(),
                forall|k: int|
                    p <= k < sorted@.len() ==> text_lt(x.name, #[trigger] views(sorted@)[k].name),
                x == item@,
            decreases p,
        {
            p = p - 1;
        }
        let ghost old_sorted = views(sorted@);
        proof {
            lemma_insert_sorted(old_sorted, x, p as int, input.take(i as int), name_key());
            assert(input.take(i + 1) =~= input.take(i as int).push(x));
        }
        sorted.insert(p, item);
        assert(views(sorted@) =~= old_sorted.insert(p as int, x));
        i = i + 1;
    }
    assert(input.take(i as int) =~= input);
    proof {
        lemma_sort_is_sorted_by_key(views(sorted@), input, name_key());
    }
    sorted
}

/// `sorted` without each cartridge whose root is that of the cartridge kept
/// before it.
fn dedup_by_root(sorted: Vec<Cartridge>) -> (kept: Vec<Cartridge>)
    ensures
        views(kept@) == dedup_roots(views(sorted@)),
{
    let ghost s = views(sorted@);
    let mut kept: Vec<Cartridge> = Vec::new();
    let mut i: usize = 0;
    while i < sorted.len()
        invariant
            i <= sorted@.len(),
            s == views(sorted@),
            views(kept@) == dedup_roots(s.take(i as int)),
            i > 0 ==> kept@.len() > 0 && same_path(views(kept@).last().root, s[i - 1].root),
        decreases sorted@.len() - i,
    {
        let item = &sorted[i];
        let ghost before = views(kept@);
        assert(s.take(i + 1).drop_last() =~= s.take(i as int));
        let repeated = kept.len() > 0 && kept[kept.len() - 1].root.same_as(&item.root);
        if !repeated {
            kept.push(item.copied());
            assert(views(kept@) =~= before.push(s[i as int]));
        }
        i = i + 1;
    }
    assert(s.take(i as int) =~= s);
    kept
}

/// What the walk does with a subdirectory it meets.
pub enum Entry {
    /// A directory that is not looked into.
    Skip,
    /// A `cartridge` directory: the cartridge it belongs to.
    Cartridge(Cartridge),
    /// A `modules` directory inside `cartridges`.
    ModuleRoot(FsPath),
    /// Any other directory, looked into one level deeper.
    Descend(FsPath),
}

/// Directory names the walk never enters.
pub open spec fn skipped_name(name: Seq<char>) -> bool {
    ||| name == "node_modules"@
    ||| name == ".git"@
    ||| name == "static"@
    ||| name == "build"@
    ||| name == "dist"@
    ||| name == "coverage"@
    ||| name == ".zed"@
    ||| name == ".vscode"@
    ||| (name.len() > 0 && name[0] == '.')
}

/// The cartridge whose `cartridge/` directory is `dir`: named after the
/// directory holding it.
pub open spec fn cartridge_at_spec(dir: PathView) -> Option<CartridgeView> {
    match parent(dir) {
        None => None,
        Some(root) => match file_name(root) {
            None => None,
            Some(name) => Some(CartridgeView { name, root }),
        },
    }
}

pub open spec fn entry_spec(dir: PathView, name: Seq<char>) -> EntryView {
    let path = child(dir, name);
    if skipped_name(name) {
        EntryView::Skip
    } else if name == "cartridge"@ {
        match cartridge_at_spec(path) {
            Some(c) => EntryView::Cartridge(c),
            None => EntryView::Skip,
        }
    } else if name == "modules"@ && file_name(dir) == Some("cartridges"@) {
        EntryView::ModuleRoot(path)
    } else {
        EntryView::Descend(path)
    }
}

pub enum EntryView {
    Skip,
    Cartridge(CartridgeView),
    ModuleRoot(PathView),
    Descend(PathView),
}

impl View for Entry {
    type V = EntryView;

    open spec fn view(&self) -> EntryView {
        match self {
            Entry::Skip => EntryView::Skip,
            Entry::Cartridge(c) => EntryView::Cartridge(c@),
            Entry::ModuleRoot(p) => EntryView::ModuleRoot(p@),
            Entry::Descend(p) => EntryView::Descend(p@),
        }
    }
}

/// The walk never looks into a dependency, build output, coverage report,
/// version-control or editor folder, nor any hidden one: a subdirectory
/// named `node_modules`, `.git`, `static`, `build`, `dist`, `coverage`,
/// `.zed` or `.vscode`, or whose name starts with `.`, is skipped, whatever
/// directory it is met in.
pub proof fn law_skipped_directories(dir: PathView, name: Seq<char>)
    requires
        name == "node_modules"@ || name == ".git"@ || name == "static"@ || name == "build"@ || name
            == "dist"@ || name == "coverage"@ || name == ".zed"@ || name == ".vscode"@ || (name.len()
            > 0 && name[0] == '.'),
    ensures
        entry_spec(dir, name) == EntryView::Skip,
{
}

/// Whether the walk still looks into a directory at `depth` below a root.
pub fn within_depth(depth: usize) -> (b: bool)
    ensures
        b == (depth <= MAX_DEPTH),
{
    depth <= MAX_DEPTH
}

/// What the walk does with the subdirectory `name` of `dir`.
pub fn classify_entry(dir: &FsPath, name: &str) -> (entry: Entry)
    ensures
        entry@ == entry_spec(dir@, name@),
{
    let path = dir.child(name);
    if is_skipped(name) {
        return Entry::Skip;
    }
    if same_text(name, "cartridge") {
        return match cartridge_at(&path) {
            Some(c) => Entry::Cartridge(c),
            None => Entry::Skip,
        };
    }
    if same_text(name, "modules") {
        if let Some(parent_name) = dir.file_name() {
            if same_text(parent_name.as_str(), "cartridges") {
                return Entry::ModuleRoot(path);
            }
        }
    }
    Entry::Descend(path)
}

fn is_skipped(name: &str) -> (b: bool)
    ensures
        b == skipped_name(name@),
{
    let chars = chars_of(name);
    same_text(name, "node_modules") || same_text(name, ".git") || same_text(name, "static")
        || same_text(name, "build") || same_text(name, "dist") || same_text(name, "coverage")
        || same_text(name, ".zed") || same_text(name, ".vscode") || (chars.len() > 0 && chars[0]
        == '.')
}

/// The cartridge whose `cartridge/` directory is `cartridge_dir`.
pub fn cartridge_at(cartridge_dir: &FsPath) -> (r: Option<Cartridge>)
    ensures
        match r {
            Some(c) => cartridge_at_spec(cartridge_dir@) == Some(c@),
            None => cartridge_at_spec(cartridge_dir@) is None,
        },
{
    let root = match cartridge_dir.parent() {
        Some(root) => root,
        None => return None,
    };
    let name = match root.file_name() {
        Some(name) => name,
        None => return None,
    };
    Some(Cartridge { name, root })
}

} // verus!
