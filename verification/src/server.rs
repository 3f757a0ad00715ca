//! The decisions of the language server: the open documents, the reference
//! a definition request points at, and the folders to scan.
use vstd::prelude::*;

use crate::bundle::{lines, lines_from};
use crate::path::{path_views, FsPath, PathView};
use crate::position::{char_index_from, char_offset};
use crate::reference::{at_cursor, option_view, reference_at, Reference, ReferenceView};
use crate::text::{chars_of, same_text, string_of};

verus! {

/// The text of every open document, by URI: (URI, text) pairs in which no
/// URI occurs twice. Its view is the map from each URI to its text.
pub struct Documents {
    entries: Vec<(String, String)>,
}

pub open spec fn entry_map(entries: Seq<(String, String)>) -> Map<Seq<char>, Seq<char>>
    decreases entries.len(),
{
    if entries.len() == 0 {
        Map::empty()
    } else {
        entry_map(entries.drop_last()).insert(entries.last().0@, entries.last().1@)
    }
}

impl View for Documents {
    type V = Map<Seq<char>, Seq<char>>;

    closed spec fn view(&self) -> Map<Seq<char>, Seq<char>> {
        entry_map(self.entries@)
    }
}

impl Documents {
    /// No URI is recorded twice.
    #[verifier::type_invariant]
    closed spec fn unique_uris(self) -> bool {
        forall|i: int, j: int|
            0 <= i < j < self.entries@.len() ==> #[trigger] self.entries@[i].0@
                != #[trigger] self.entries@[j].0@
    }

    /// No open document.
    pub fn new() -> (documents: Documents)
        ensures
            documents@ == Map::<Seq<char>, Seq<char>>::empty(),
    {
        Documents { entries: Vec::new() }
    }

    /// The text of the document `uri`, if it is open.
    pub fn get(&self, uri: &str) -> (text: Option<&String>)
        ensures
            text is Some <==> self@.contains_key(uri@),
            text matches Some(t) ==> self@[uri@] == t@,
    {
        proof {
            use_type_invariant(self);
        }
        match self.position(uri) {
            Some(i) => {
                proof {
                    lemma_entry_at(self.entries@, i as int);
                }
                let t = &self.entries[i].1;
                assert(t@ == self.entries@[i as int].1@);
                Some(t)
            },
            None => {
                proof {
                    lemma_missing_key(self.entries@, uri@);
                }
                None
            },
        }
    }

    /// The document `uri` now holds `text` (opened, or changed as a whole).
    pub fn set(&mut self, uri: String, text: String)
        ensures
            final(self)@ == old(self)@.insert(uri@, text@),
    {
        proof {
            use_type_invariant(&*self);
        }
        let ghost before = self.entries@;
        match self.position(uri.as_str()) {
            Some(i) => {
                proof {
                    lemma_replace_entry(before, i as int, (uri, text));
                }
                let mut entries = Vec::new();
                std::mem::swap(&mut entries, &mut self.entries);
                entries.set(i, (uri, text));
                self.entries = entries;
            },
            None => {
                proof {
                    lemma_missing_key(before, uri@);
                    assert(before.push((uri, text)).drop_last() =~= before);
                    assert forall|a: int, b: int|
                        0 <= a < b < before.push((uri, text)).len() implies #[trigger] before.push(
                        (uri, text),
                    )[a].0@ != #[trigger] before.push((uri, text))[b].0@ by {
                        if b == before.len() {
                            assert(before.push((uri, text))[a] == before[a]);
                        }
                    }
                }
                let mut entries = Vec::new();
                std::mem::swap(&mut entries, &mut self.entries);
                entries.push((uri, text));
                self.entries = entries;
            },
        }
    }

    /// The document `uri` changed; the last of `changes` is its whole new
    /// text, and no change leaves it as it was.
    pub fn change(&mut self, uri: String, changes: Vec<String>)
        ensures
            changes@.len() == 0 ==> final(self)@ == old(self)@,
            changes@.len() > 0 ==> final(self)@ == old(self)@.insert(uri@, changes@.last()@),
    {
        let mut changes = changes;
        match changes.pop() {
            Some(last) => self.set(uri, last),
            None => {},
        }
    }

    /// The document `uri` was closed.
    pub fn close(&mut self, uri: &str)
        ensures
            final(self)@ == old(self)@.remove(uri@),
    {
        proof {
            use_type_invariant(&*self);
        }
        let ghost before = self.entries@;
        match self.position(uri) {
            Some(i) => {
                proof {
                    lemma_remove_entry(before, i as int);
                }
                let mut entries = Vec::new();
                std::mem::swap(&mut entries, &mut self.entries);
                entries.remove(i);
                self.entries = entries;
            },
            None => {
                proof {
                    lemma_missing_key(before, uri@);
                    assert(entry_map(before) =~= entry_map(before).remove(uri@));
                }
            },
        }
    }

    fn position(&self, uri: &str) -> (r: Option<usize>)
        ensures
            match r {
                Some(i) => i < self.entries@.len() && self.entries@[i as int].0@ == uri@,
                None => forall|k: int| 0 <= k < self.entries@.len() ==> self.entries@[k].0@ != uri@,
            },
    {
        let mut i: usize = 0;
        while i < self.entries.len()
            invariant
                i <= self.entries@.len(),
                forall|k: int| 0 <= k < i ==> self.entries@[k].0@ != uri@,
            decreases self.entries@.len() - i,
        {
            if same_text(self.entries[i].0.as_str(), uri) {
                return Some(i);
            }
            i = i + 1;
        }
        None
    }
}

proof fn lemma_missing_key(entries: Seq<(String, String)>, uri: Seq<char>)
    requires
        forall|k: int| 0 <= k < entries.len() ==> entries[k].0@ != uri,
    ensures
        !entry_map(entries).contains_key(uri),
    decreases entries.len(),
{
    if entries.len() > 0 {
        lemma_missing_key(entries.drop_last(), uri);
    }
}

proof fn lemma_entry_at(entries: Seq<(String, String)>, i: int)
    requires
        0 <= i < entries.len(),
        forall|a: int, b: int|
            0 <= a < b < entries.len() ==> #[trigger] entries[a].0@ != #[trigger] entries[b].0@,
    ensures
        entry_map(entries).contains_key(entries[i].0@),
        entry_map(entries)[entries[i].0@] == entries[i].1@,
    decreases entries.len(),
{
    if i < entries.len() - 1 {
        lemma_entry_at(entries.drop_last(), i);
        assert(entries.last().0@ != entries[i].0@);
    }
}

proof fn lemma_replace_entry(entries: Seq<(String, String)>, i: int, e: (String, String))
    requires
        0 <= i < entries.len(),
        entries[i].0@ == e.0@,
        forall|a: int, b: int|
            0 <= a < b < entries.len() ==> #[trigger] entries[a].0@ != #[trigger] entries[b].0@,
    ensures
        entry_map(entries.update(i, e)) == entry_map(entries).insert(e.0@, e.1@),
        forall|a: int, b: int|
            0 <= a < b < entries.update(i, e).len() ==> #[trigger] entries.update(i, e)[a].0@
                != #[trigger] entries.update(i, e)[b].0@,
    decreases entries.len(),
{
    let updated = entries.update(i, e);
    assert forall|a: int, b: int| 0 <= a < b < updated.len() implies #[trigger] updated[a].0@
        != #[trigger] updated[b].0@ by {
        assert(updated[a].0@ == entries[a].0@);
        assert(updated[b].0@ == entries[b].0@);
    }
    if i == entries.len() - 1 {
        assert(updated.drop_last() =~= entries.drop_last());
        lemma_missing_key(entries.drop_last(), e.0@);
        assert(entry_map(updated) =~= entry_map(entries).insert(e.0@, e.1@));
    } else {
        assert(updated.drop_last() =~= entries.drop_last().update(i, e));
        lemma_replace_entry(entries.drop_last(), i, e);
        assert(entries.last().0@ != e.0@);
        assert(entry_map(updated) =~= entry_map(entries).insert(e.0@, e.1@));
    }
}

proof fn lemma_remove_entry(entries: Seq<(String, String)>, i: int)
    requires
        0 <= i < entries.len(),
        forall|a: int, b: int|
            0 <= a < b < entries.len() ==> #[trigger] entries[a].0@ != #[trigger] entries[b].0@,
    ensures
        entry_map(entries.remove(i)) == entry_map(entries).remove(entries[i].0@),
        forall|a: int, b: int|
            0 <= a < b < entries.remove(i).len() ==> #[trigger] entries.remove(i)[a].0@
                != #[trigger] entries.remove(i)[b].0@,
    decreases entries.len(),
{
    let removed = entries.remove(i);
    let key = entries[i].0@;
    assert forall|a: int, b: int| 0 <= a < b < removed.len() implies #[trigger] removed[a].0@
        != #[trigger] removed[b].0@ by {
        let a2 = if a < i {
            a
        } else {
            a + 1
        };
        let b2 = if b < i {
            b
        } else {
            b + 1
        };
        assert(removed[a] == entries[a2]);
        assert(removed[b] == entries[b2]);
    }
    if i == entries.len() - 1 {
        assert(removed =~= entries.drop_last());
        lemma_missing_key(entries.drop_last(), key);
        assert(entry_map(removed) =~= entry_map(entries).remove(key));
    } else {
        assert(removed.drop_last() =~= entries.drop_last().remove(i));
        assert(removed.last() == entries.last());
        lemma_remove_entry(entries.drop_last(), i);
        assert(entries.last().0@ != key);
        assert(entry_map(removed) =~= entry_map(entries).remove(key));
    }
}

/// A document read back holds what was last written to it: over the view
/// that `set`, `change`, `close` and `get` speak of, after `set` (or a
/// `change`) of `uri`, `uri` reads as the new text and every other document
/// reads as before; after `close`, `uri` is no longer open.
pub proof fn law_read_after_write(
    docs: Map<Seq<char>, Seq<char>>,
    uri: Seq<char>,
    text: Seq<char>,
    other: Seq<char>,
)
    ensures
        docs.insert(uri, text).contains_key(uri),
        docs.insert(uri, text)[uri] == text,
        other != uri ==> docs.insert(uri, text).contains_key(other) == docs.contains_key(other),
        other != uri && docs.contains_key(other) ==> docs.insert(uri, text)[other] == docs[other],
        !docs.remove(uri).contains_key(uri),
{
}

/// The `n`th line of `text`, as `str::lines` counts them.
pub fn line_at(text: &str, n: usize) -> (line: Option<String>)
    ensures
        match line {
            Some(l) => n < lines(text@).len() && l@ == lines(text@)[n as int],
            None => n >= lines(text@).len(),
        },
{
    let s = chars_of(text);
    let ghost all = lines(s@);
    let ghost mut done: Seq<Seq<char>> = Seq::empty();
    let mut k: usize = 0;
    let mut start: usize = 0;
    let mut i: usize = 0;
    while i < s.len()
        invariant
            start <= i <= s@.len(),
            s@ == text@,
            all == lines(s@),
            all == done + lines_from(s@, start as int, i as int),
            done.len() == k,
            k <= start,
            k <= n,
        decreases s@.len() - i,
    {
        if s[i] == '\n' {
            let mut end = i;
            if end > start && s[end - 1] == '\r' {
                end = end - 1;
            }
            let ghost line = s@.subrange(start as int, end as int);
            assert(line == (if s@.subrange(start as int, i as int).len() > 0 && s@.subrange(
                start as int,
                i as int,
            ).last() == '\r' {
                s@.subrange(start as int, i as int).drop_last()
            } else {
                s@.subrange(start as int, i as int)
            }));
            assert(lines_from(s@, start as int, i as int) == seq![line] + lines_from(
                s@,
                i + 1,
                i + 1,
            ));
            if k == n {
                assert(all[k as int] == line);
                return Some(string_of(&s.as_slice()[start..end]));
            }
            proof {
                done = done.push(line);
                assert(all =~= done + lines_from(s@, i + 1, i + 1));
            }
            k = k + 1;
            start = i + 1;
        }
        i = i + 1;
    }
    if start < s.len() {
        assert(all =~= done + seq![s@.subrange(start as int, s@.len() as int)]);
        if k == n {
            return Some(string_of(&s.as_slice()[start..s.len()]));
        }
    } else {
        assert(all =~= done);
    }
    None
}

/// The reference a definition request at `(line, character)` of `text`
/// asks about: on the `line`th line, at the character the UTF-16 column
/// `character` falls on.
pub open spec fn target_at(text: Seq<char>, line: int, character: int) -> Option<ReferenceView> {
    if 0 <= line < lines(text).len() {
        let l = lines(text)[line];
        reference_at(l, char_index_from(l, character, 0))
    } else {
        None
    }
}

/// The reference under the cursor of a definition request.
pub fn definition_target(text: &str, line: u32, character: u32) -> (r: Option<Reference>)
    ensures
        option_view(r) == target_at(text@, line as int, character as int),
{
    let l = match line_at(text, line as usize) {
        Some(l) => l,
        None => return None,
    };
    let column = char_offset(l.as_str(), character as usize);
    at_cursor(l.as_str(), column)
}

/// The folders to scan: the workspace folders that are local paths, when
/// there is one; else the root, when it is a local path.
pub open spec fn roots_of(folders: Option<Seq<Option<PathView>>>, root: Option<PathView>) -> Seq<
    PathView,
> {
    let local = match folders {
        Some(fs) => fs.filter_map(present()),
        None => Seq::empty(),
    };
    if local.len() > 0 {
        local
    } else {
        match root {
            Some(r) => seq![r],
            None => Seq::empty(),
        }
    }
}

pub open spec fn present() -> spec_fn(Option<PathView>) -> Option<PathView> {
    |f: Option<PathView>| f
}

pub open spec fn option_path(p: Option<FsPath>) -> Option<PathView> {
    match p {
        Some(p) => Some(p@),
        None => None,
    }
}

/// The folders to scan, from the workspace folders and the root of an
/// `initialize` request, each given as its local path when it has one.
pub fn workspace_roots(folders: Option<Vec<Option<FsPath>>>, root: Option<FsPath>) -> (roots: Vec<
    FsPath,
>)
    ensures
        path_views(roots@) == roots_of(
            match folders {
                Some(fs) => Some(fs@.map_values(|f: Option<FsPath>| option_path(f))),
                None => None,
            },
            option_path(root),
        ),
{
    let mut local: Vec<FsPath> = Vec::new();
    match folders {
        Some(fs) => {
            let ghost all = fs@.map_values(|f: Option<FsPath>| option_path(f));
            let ghost pick = present();
            assert(path_views(local@) =~= all.take(0).filter_map(pick));
            let mut i: usize = 0;
            let n = fs.len();
            while i < n
                invariant
                    n == fs@.len(),
                    i <= n,
                    all == fs@.map_values(|f: Option<FsPath>| option_path(f)),
                    pick == present(),
                    path_views(local@) == all.take(i as int).filter_map(pick),
                decreases n - i,
            {
                proof {
                    all.lemma_filter_map_take_succ(pick, i as int);
                }
                let ghost before = path_views(local@);
                assert(option_path(fs@[i as int]) == all[i as int]);
                match &fs[i] {
                    Some(p) => {
                        local.push(p.copied());
                        assert(path_views(local@) =~= before.push(all[i as int]->0));
                    },
                    None => {},
                }
                i = i + 1;
                assert(path_views(local@) =~= all.take(i as int).filter_map(pick));
            }
            assert(all.take(i as int) =~= all);
        },
        None => {
            assert(path_views(local@) =~= Seq::<PathView>::empty());
        },
    }
    if local.len() > 0 {
        return local;
    }
    let mut roots: Vec<FsPath> = Vec::new();
    match root {
        Some(r) => {
            roots.push(r);
            assert(path_views(roots@) =~= seq![roots@[0]@]);
        },
        None => {
            assert(path_views(roots@) =~= Seq::<PathView>::empty());
        },
    }
    roots
}

} // verus!
