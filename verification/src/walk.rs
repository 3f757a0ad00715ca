//! The directory walk that discovers the cartridges, one listing at a time.
//!
//! A walk keeps a stack of the entries it still has to deal with, the next
//! one on top, and the cartridges and `modules` folders it has found, in the
//! order met. Each step asks for the listing of one directory; the caller
//! reads it and hands the names back. The walk goes depth first and meets the
//! entries of a directory in the order listed, as a recursive walk does.
use vstd::prelude::*;

use crate::path::{path_views, texts, FsPath, PathView};
use crate::workspace::{
    classify_entry, dedup_roots, entry_spec, name_key, views, within_depth, Cartridge,
    CartridgeView, Entry, EntryView, Workspace, MAX_DEPTH,
};
use crate::order::sorted_by_key;

verus! {

/// What the walk finds below `dir`, met at `depth` below a root, when each
/// directory `d` lists as `listing(d)` (none when it cannot be read).
pub open spec fn walked(
    listing: spec_fn(PathView) -> Option<Seq<Seq<char>>>,
    dir: PathView,
    depth: int,
) -> Seq<EntryView>
    decreases MAX_DEPTH as int + 1 - depth, 1int, 0int,
{
    if depth < 0 || depth > MAX_DEPTH as int {
        Seq::empty()
    } else {
        match listing(dir) {
            None => Seq::empty(),
            Some(names) => walked_names(listing, dir, depth, names),
        }
    }
}

/// What the walk finds through the subdirectories `names` of `dir`.
pub open spec fn walked_names(
    listing: spec_fn(PathView) -> Option<Seq<Seq<char>>>,
    dir: PathView,
    depth: int,
    names: Seq<Seq<char>>,
) -> Seq<EntryView>
    decreases MAX_DEPTH as int + 1 - depth, 0int, names.len(),
{
    if depth < 0 || depth > MAX_DEPTH as int || names.len() == 0 {
        Seq::empty()
    } else {
        let rest = walked_names(listing, dir, depth, names.skip(1));
        match entry_spec(dir, names[0]) {
            EntryView::Skip => rest,
            EntryView::Descend(p) => walked(listing, p, depth + 1) + rest,
            found => seq![found] + rest,
        }
    }
}

/// What the walk finds below each of `roots`, in order.
pub open spec fn walked_roots(
    listing: spec_fn(PathView) -> Option<Seq<Seq<char>>>,
    roots: Seq<PathView>,
) -> Seq<EntryView>
    decreases roots.len(),
{
    if roots.len() == 0 {
        Seq::empty()
    } else {
        walked(listing, roots[0], 0) + walked_roots(listing, roots.skip(1))
    }
}

/// What a pending entry, met at `task.1` below a root, still gives.
pub open spec fn expand_task(
    listing: spec_fn(PathView) -> Option<Seq<Seq<char>>>,
    task: (EntryView, int),
) -> Seq<EntryView> {
    match task.0 {
        EntryView::Skip => Seq::empty(),
        EntryView::Descend(p) => walked(listing, p, task.1),
        found => seq![found],
    }
}

/// What a stack of pending entries still gives, top (last) first.
pub open spec fn expand(
    listing: spec_fn(PathView) -> Option<Seq<Seq<char>>>,
    pending: Seq<(EntryView, int)>,
) -> Seq<EntryView>
    decreases pending.len(),
{
    if pending.len() == 0 {
        Seq::empty()
    } else {
        expand_task(listing, pending.last()) + expand(listing, pending.drop_last())
    }
}

/// The entries for the subdirectories `names` of `dir` (met at `depth`), as
/// stacked: the first name on top.
pub open spec fn tasks_of(dir: PathView, depth: int, names: Seq<Seq<char>>) -> Seq<(EntryView, int)>
    decreases names.len(),
{
    if names.len() == 0 {
        Seq::empty()
    } else {
        tasks_of(dir, depth, names.skip(1)) + seq![(entry_spec(dir, names[0]), depth + 1)]
    }
}

/// The roots as stacked at the start: the first root on top.
pub open spec fn root_tasks(roots: Seq<PathView>) -> Seq<(EntryView, int)>
    decreases roots.len(),
{
    if roots.len() == 0 {
        Seq::empty()
    } else {
        root_tasks(roots.skip(1)) + seq![(EntryView::Descend(roots[0]), 0int)]
    }
}

pub struct Walk {
    /// The entries still to deal with, the next one last.
    pub pending: Vec<(Entry, usize)>,
    /// The cartridges and `modules` folders found so far, in the order met.
    pub found: Vec<Entry>,
}

pub struct WalkView {
    pub pending: Seq<(EntryView, int)>,
    pub found: Seq<EntryView>,
}

pub open spec fn entry_views(v: Seq<Entry>) -> Seq<EntryView> {
    v.map_values(|e: Entry| e@)
}

pub open spec fn task_views(v: Seq<(Entry, usize)>) -> Seq<(EntryView, int)> {
    v.map_values(|t: (Entry, usize)| (t.0@, t.1 as int))
}

impl View for Walk {
    type V = WalkView;

    open spec fn view(&self) -> WalkView {
        WalkView { pending: task_views(self.pending@), found: entry_views(self.found@) }
    }
}

/// The walk after dealing with the pending entries up to the next directory
/// to list, and that directory with its depth; none when nothing is left.
/// Entries too deep are dropped unlisted.
pub open spec fn settle(w: WalkView) -> (WalkView, Option<(PathView, int)>)
    decreases w.pending.len(),
{
    if w.pending.len() == 0 {
        (w, None)
    } else {
        let (entry, depth) = w.pending.last();
        let rest = WalkView { pending: w.pending.drop_last(), found: w.found };
        match entry {
            EntryView::Skip => settle(rest),
            EntryView::Descend(p) => if 0 <= depth <= MAX_DEPTH as int {
                (rest, Some((p, depth)))
            } else {
                settle(rest)
            },
            found => settle(WalkView { pending: w.pending.drop_last(), found: w.found.push(found) }),
        }
    }
}

/// The names a listing answer holds; none for a directory that cannot be read.
pub open spec fn listed_names(names: Option<Seq<Seq<char>>>) -> Seq<Seq<char>> {
    match names {
        Some(n) => n,
        None => Seq::empty(),
    }
}

/// The cartridges among `found`, in order.
pub open spec fn found_cartridges(found: Seq<EntryView>) -> Seq<CartridgeView>
    decreases found.len(),
{
    if found.len() == 0 {
        Seq::empty()
    } else {
        match found.last() {
            EntryView::Cartridge(c) => found_cartridges(found.drop_last()).push(c),
            _ => found_cartridges(found.drop_last()),
        }
    }
}

/// The `modules` folders among `found`, in order.
pub open spec fn found_module_roots(found: Seq<EntryView>) -> Seq<PathView>
    decreases found.len(),
{
    if found.len() == 0 {
        Seq::empty()
    } else {
        match found.last() {
            EntryView::ModuleRoot(p) => found_module_roots(found.drop_last()).push(p),
            _ => found_module_roots(found.drop_last()),
        }
    }
}

/// `w` accounts for the whole walk of `roots`: what it has found, followed
/// by what its pending entries still give, is what the walk finds.
pub open spec fn tracks(
    w: WalkView,
    listing: spec_fn(PathView) -> Option<Seq<Seq<char>>>,
    roots: Seq<PathView>,
) -> bool {
    w.found + expand(listing, w.pending) == walked_roots(listing, roots)
}

impl Walk {
    /// A walk that starts at `roots`, in order.
    pub fn start(roots: &Vec<FsPath>) -> (w: Walk)
        ensures
            w@.found.len() == 0,
            w@.pending == root_tasks(path_views(roots@)),
    {
        let mut pending: Vec<(Entry, usize)> = Vec::new();
        let ghost rs = path_views(roots@);
        let mut i: usize = roots.len();
        while i > 0
            invariant
                i <= roots@.len(),
                rs == path_views(roots@),
                task_views(pending@) == root_tasks(rs.skip(i as int)),
            decreases i,
        {
            let ghost before = pending@;
            pending.push((Entry::Descend(roots[i - 1].copied()), 0));
            i = i - 1;
            assert(rs.skip(i as int).skip(1) =~= rs.skip(i + 1));
            assert(task_views(pending@) =~= task_views(before).push(
                (EntryView::Descend(rs[i as int]), 0int),
            ));
        }
        assert(rs.skip(0) =~= rs);
        let w = Walk { pending, found: Vec::new() };
        assert(w@.found =~= Seq::<EntryView>::empty());
        w
    }

    /// Deals with the pending entries up to the next directory to list, and
    /// gives that directory with its depth; none when the walk is over.
    pub fn next_dir(&mut self) -> (r: Option<(FsPath, usize)>)
        ensures
            final(self)@ == settle(old(self)@).0,
            match r {
                Some((p, d)) => settle(old(self)@).1 == Some((p@, d as int)),
                None => settle(old(self)@).1 is None,
            },
    {
        while self.pending.len() > 0
            invariant
                settle(self@) == settle(old(self)@),
            decreases self.pending@.len(),
        {
            let ghost before = self@;
            let (entry, depth) = self.pending.pop().unwrap();
            assert(task_views(self.pending@) =~= before.pending.drop_last());
            assert(before.pending.last() == (entry@, depth as int));
            match entry {
                Entry::Skip => {},
                Entry::Descend(p) => {
                    if within_depth(depth) {
                        return Some((p, depth));
                    }
                },
                other => {
                    let ghost e = other@;
                    self.found.push(other);
                    assert(entry_views(self.found@) =~= before.found.push(e));
                },
            }
        }
        None
    }

    /// Takes the listing of `dir`, handed out by `next_dir` with `depth`: the
    /// names of its subdirectories, none when it cannot be read.
    pub fn listed(&mut self, dir: &FsPath, depth: usize, names: Option<Vec<String>>)
        requires
            depth < usize::MAX,
        ensures
            final(self)@.found == old(self)@.found,
            final(self)@.pending == old(self)@.pending + tasks_of(
                dir@,
                depth as int,
                listed_names(
                    match names {
                        Some(v) => Some(texts(v@)),
                        None => None,
                    },
                ),
            ),
    {
        if let Some(names) = names {
            let ghost ns = texts(names@);
            let ghost start = self@.pending;
            let mut i: usize = names.len();
            while i > 0
                invariant
                    i <= names@.len(),
                    ns == texts(names@),
                    depth < usize::MAX,
                    self@.found == old(self)@.found,
                    start == old(self)@.pending,
                    self@.pending == start + tasks_of(dir@, depth as int, ns.skip(i as int)),
                decreases i,
            {
                let ghost before = self@.pending;
                let entry = classify_entry(dir, names[i - 1].as_str());
                self.pending.push((entry, depth + 1));
                i = i - 1;
                assert(ns.skip(i as int).skip(1) =~= ns.skip(i + 1));
                assert(self@.pending =~= before.push((entry_spec(dir@, ns[i as int]), depth + 1)));
            }
            assert(ns.skip(0) =~= ns);
        } else {
            assert(tasks_of(dir@, depth as int, Seq::empty()) =~= Seq::empty());
            assert(self@.pending =~= old(self)@.pending + Seq::empty());
        }
    }

    /// The workspace of what the walk found.
    pub fn into_workspace(self) -> (workspace: Workspace)
        ensures
            views(workspace.cartridges@) == dedup_roots(
                sorted_by_key(found_cartridges(self@.found), name_key()),
            ),
            path_views(workspace.module_roots@) == found_module_roots(self@.found),
    {
        let mut cartridges: Vec<Cartridge> = Vec::new();
        let mut module_roots: Vec<FsPath> = Vec::new();
        let ghost all = self@.found;
        let found = self.found;
        let mut i: usize = 0;
        let n = found.len();
        while i < n
            invariant
                n == found@.len(),
                i <= n,
                entry_views(found@) == all,
                views(cartridges@) == found_cartridges(all.take(i as int)),
                path_views(module_roots@) == found_module_roots(all.take(i as int)),
            decreases n - i,
        {
            let ghost before_c = views(cartridges@);
            let ghost before_m = path_views(module_roots@);
            assert(all.take(i + 1).drop_last() =~= all.take(i as int));
            assert(all.take(i + 1).last() == found@[i as int]@);
            match &found[i] {
                Entry::Cartridge(c) => {
                    cartridges.push(c.copied());
                    assert(views(cartridges@) =~= before_c.push(c@));
                },
                Entry::ModuleRoot(p) => {
                    module_roots.push(p.copied());
                    assert(path_views(module_roots@) =~= before_m.push(p@));
                },
                _ => {},
            }
            i = i + 1;
        }
        assert(all.take(n as int) =~= all);
        let workspace = Workspace::scan(cartridges, module_roots);
        workspace
    }
}

/// The walk finds exactly what the directory tree holds: started at `roots`,
/// with each directory it asks for listed as `listing` answers, a walk always
/// accounts for the whole walk of the roots (what it found, then what its
/// pending entries still give); a step keeps that so, and once no directory
/// is left to list, what it found is the whole walk.
pub proof fn law_walk_is_complete(
    listing: spec_fn(PathView) -> Option<Seq<Seq<char>>>,
    roots: Seq<PathView>,
    w: WalkView,
)
    ensures
        tracks(WalkView { pending: root_tasks(roots), found: Seq::empty() }, listing, roots),
        tracks(w, listing, roots) ==> match settle(w) {
            (next, Some((dir, depth))) => tracks(
                WalkView {
                    pending: next.pending + tasks_of(dir, depth, listed_names(listing(dir))),
                    found: next.found,
                },
                listing,
                roots,
            ),
            (next, None) => next.found == walked_roots(listing, roots),
        },
{
    lemma_root_tasks(listing, roots);
    assert(Seq::<EntryView>::empty() + expand(listing, root_tasks(roots)) =~= expand(
        listing,
        root_tasks(roots),
    ));
    lemma_settle(listing, w);
    match settle(w) {
        (next, Some((dir, depth))) => {
            lemma_tasks_of(listing, next.pending, dir, depth, listed_names(listing(dir)));
            if listing(dir) is None {
                assert(walked(listing, dir, depth) =~= Seq::empty());
            }
            assert(next.found + walked(listing, dir, depth) + expand(listing, next.pending)
                =~= next.found + (walked(listing, dir, depth) + expand(listing, next.pending)));
        },
        (next, None) => {
            assert(next.found + expand(listing, next.pending) =~= next.found);
        },
    }
}

/// The stacked roots give the walk of the roots.
proof fn lemma_root_tasks(
    listing: spec_fn(PathView) -> Option<Seq<Seq<char>>>,
    roots: Seq<PathView>,
)
    ensures
        expand(listing, root_tasks(roots)) == walked_roots(listing, roots),
    decreases roots.len(),
{
    if roots.len() > 0 {
        lemma_root_tasks(listing, roots.skip(1));
        let t = root_tasks(roots);
        assert(t.drop_last() =~= root_tasks(roots.skip(1)));
    }
}

/// Stacking the entries of a listed directory adds, on top, what the walk
/// finds through them.
proof fn lemma_tasks_of(
    listing: spec_fn(PathView) -> Option<Seq<Seq<char>>>,
    pending: Seq<(EntryView, int)>,
    dir: PathView,
    depth: int,
    names: Seq<Seq<char>>,
)
    requires
        0 <= depth <= MAX_DEPTH as int,
    ensures
        expand(listing, pending + tasks_of(dir, depth, names)) == walked_names(
            listing,
            dir,
            depth,
            names,
        ) + expand(listing, pending),
    decreases names.len(),
{
    if names.len() == 0 {
        assert(pending + tasks_of(dir, depth, names) =~= pending);
    } else {
        lemma_tasks_of(listing, pending, dir, depth, names.skip(1));
        let whole = pending + tasks_of(dir, depth, names);
        let below = pending + tasks_of(dir, depth, names.skip(1));
        assert(whole.drop_last() =~= below);
        assert(whole.last() == (entry_spec(dir, names[0]), depth + 1));
        let first = expand_task(listing, (entry_spec(dir, names[0]), depth + 1));
        let rest = walked_names(listing, dir, depth, names.skip(1));
        assert(walked_names(listing, dir, depth, names) == first + rest);
        assert(first + (rest + expand(listing, pending)) =~= (first + rest) + expand(
            listing,
            pending,
        ));
    }
}

/// Dealing with pending entries up to the next directory to list loses and
/// adds nothing: what was found and what is pending give the same as before,
/// with the walk below that directory in between.
proof fn lemma_settle(listing: spec_fn(PathView) -> Option<Seq<Seq<char>>>, w: WalkView)
    ensures
        match settle(w) {
            (next, Some((dir, depth))) => {
                &&& 0 <= depth <= MAX_DEPTH as int
                &&& w.found + expand(listing, w.pending) == next.found + walked(listing, dir, depth)
                    + expand(listing, next.pending)
            },
            (next, None) => {
                &&& next.pending.len() == 0
                &&& w.found + expand(listing, w.pending) == next.found
            },
        },
    decreases w.pending.len(),
{
    if w.pending.len() == 0 {
        assert(w.found + expand(listing, w.pending) =~= w.found);
    } else {
        let (entry, depth) = w.pending.last();
        let rest = WalkView { pending: w.pending.drop_last(), found: w.found };
        let tail = expand(listing, w.pending.drop_last());
        match entry {
            EntryView::Skip => {
                lemma_settle(listing, rest);
                assert(w.found + expand(listing, w.pending) =~= rest.found + tail);
            },
            EntryView::Descend(p) => {
                if 0 <= depth <= MAX_DEPTH as int {
                    assert(w.found + expand(listing, w.pending) =~= w.found + walked(listing, p, depth)
                        + tail);
                } else {
                    lemma_settle(listing, rest);
                    assert(w.found + expand(listing, w.pending) =~= rest.found + tail);
                }
            },
            found => {
                let more = WalkView { pending: w.pending.drop_last(), found: w.found.push(found) };
                lemma_settle(listing, more);
                assert(w.found + expand(listing, w.pending) =~= more.found + tail);
            },
        }
    }
}

} // verus!
