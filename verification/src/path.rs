//! File-system paths as sequences of parts.
//!
//! A path is its anchor (the text of its root, such as `/` or `C:\`, empty
//! for a relative path) followed by its parts, the pieces of its text between
//! separators. Two paths are the same path when their anchors agree and so
//! do their components, the parts other than empty and `.` pieces.
//! Paths written inside sources (`require` arguments, template names) use `/`
//! as separator and are kept as written: `.` pieces stay, and a trailing
//! separator is an empty last part.
use vstd::prelude::*;

use crate::text::{chars_of, string_of};
use vstd::utf8::encode_utf8;

verus! {

#[derive(Debug, Clone, PartialEq, Eq)]
pub struct FsPath {
    /// The root, e.g. `/`; empty for a relative path.
    pub anchor: String,
    /// The parts after the root, e.g. `["home", "me", "x.isml"]`; an empty
    /// last part stands for a trailing separator.
    pub parts: Vec<String>,
}

pub struct PathView {
    pub anchor: Seq<char>,
    pub parts: Seq<Seq<char>>,
}

pub open spec fn texts(v: Seq<String>) -> Seq<Seq<char>> {
    v.map_values(|s: String| s@)
}

impl View for FsPath {
    type V = PathView;

    open spec fn view(&self) -> PathView {
        PathView { anchor: self.anchor@, parts: texts(self.parts@) }
    }
}

pub open spec fn path_views(v: Seq<FsPath>) -> Seq<PathView> {
    v.map_values(|p: FsPath| p@)
}

/// The parts without the empty piece that stands for a trailing separator.
pub open spec fn unterminated(parts: Seq<Seq<char>>) -> Seq<Seq<char>> {
    if parts.len() > 0 && parts.last().len() == 0 {
        parts.drop_last()
    } else {
        parts
    }
}

/// `p` with the component `name` (free of separators) added; a trailing
/// separator of `p` is not doubled.
pub open spec fn child(p: PathView, name: Seq<char>) -> PathView {
    PathView { anchor: p.anchor, parts: unterminated(p.parts).push(name) }
}

/// The pieces of the `/`-separated text `s[start..]`, where the current piece
/// began at `start` and the scan is at `i`. Empty pieces before a separator
/// are dropped (a doubled separator adds nothing); the last piece is kept even
/// when empty, so that a text ending in `/` keeps its trailing separator.
/// `.` pieces are kept as written.
pub open spec fn segments_from(s: Seq<char>, start: int, i: int) -> Seq<Seq<char>>
    decreases s.len() - i,
{
    if i < start || i >= s.len() {
        seq![s.subrange(start, s.len() as int)]
    } else if s[i] == '/' {
        let piece = s.subrange(start, i);
        if piece.len() > 0 {
            seq![piece] + segments_from(s, i + 1, i + 1)
        } else {
            segments_from(s, i + 1, i + 1)
        }
    } else {
        segments_from(s, start, i + 1)
    }
}

/// The pieces of the `/`-separated text `s`.
pub open spec fn segments(s: Seq<char>) -> Seq<Seq<char>> {
    segments_from(s, 0, 0)
}

/// `p` joined with the `/`-separated text `rest`, as text is appended to a
/// path: a separator goes between them unless `p` already ends in one. A
/// `rest` that starts with `/` is absolute and keeps only the anchor of `p`.
pub open spec fn join(p: PathView, rest: Seq<char>) -> PathView {
    if rest.len() > 0 && rest[0] == '/' {
        PathView {
            anchor: if p.anchor.len() > 0 {
                p.anchor
            } else {
                seq!['/']
            },
            parts: segments(rest),
        }
    } else {
        PathView { anchor: p.anchor, parts: unterminated(p.parts) + segments(rest) }
    }
}

/// A piece that names no component when it ends a path: empty (a trailing
/// separator) or `.`.
pub open spec fn is_filler(piece: Seq<char>) -> bool {
    piece.len() == 0 || piece == seq!['.']
}

/// How many leading parts are never trimmed: a relative path that starts with
/// `.` keeps that `.` as its first component.
pub open spec fn body_start(p: PathView) -> int {
    if p.anchor.len() == 0 && p.parts.len() > 0 && p.parts[0] == seq!['.'] {
        1
    } else {
        0
    }
}

/// `parts` without the filler pieces at its end, keeping the first `floor`.
pub open spec fn trim_fillers(parts: Seq<Seq<char>>, floor: int) -> Seq<Seq<char>>
    decreases parts.len(),
{
    if parts.len() > floor && parts.len() > 0 && is_filler(parts.last()) {
        trim_fillers(parts.drop_last(), floor)
    } else {
        parts
    }
}

/// The path without its last component (trailing separators and `.` pieces
/// are no component); none for a bare anchor.
pub open spec fn parent(p: PathView) -> Option<PathView> {
    let t = trim_fillers(p.parts, body_start(p));
    if t.len() == 0 {
        None
    } else {
        Some(PathView { anchor: p.anchor, parts: trim_fillers(t.drop_last(), body_start(p)) })
    }
}

/// The last component, unless the path ends in `..` or `.` or has none.
pub open spec fn file_name(p: PathView) -> Option<Seq<char>> {
    let t = trim_fillers(p.parts, body_start(p));
    if t.len() == 0 || t.last() == seq!['.', '.'] || t.last() == seq!['.'] {
        None
    } else {
        Some(t.last())
    }
}

/// The parts among `parts` that name a component: neither empty nor `.`.
pub open spec fn named_parts(parts: Seq<Seq<char>>) -> Seq<Seq<char>>
    decreases parts.len(),
{
    if parts.len() == 0 {
        Seq::empty()
    } else if is_filler(parts.last()) {
        named_parts(parts.drop_last())
    } else {
        named_parts(parts.drop_last()).push(parts.last())
    }
}

/// The components of `p` after its anchor: its parts without empty and `.`
/// pieces, except that a relative path starting with `.` keeps that `.`.
pub open spec fn components(p: PathView) -> Seq<Seq<char>> {
    if body_start(p) == 1 {
        seq![seq!['.']] + named_parts(p.parts.skip(1))
    } else {
        named_parts(p.parts)
    }
}

/// `p` and `q` are the same path: the same anchor and the same components,
/// however many separators and `.` pieces their texts hold.
pub open spec fn same_path(p: PathView, q: PathView) -> bool {
    p.anchor == q.anchor && components(p) == components(q)
}

/// `p` lies inside `base` (or is `base`): same anchor, and the components of
/// `base` begin those of `p`.
pub open spec fn starts_with(p: PathView, base: PathView) -> bool {
    p.anchor == base.anchor && components(base).is_prefix_of(components(p))
}

/// How many bytes the UTF-8 text `s` takes.
pub open spec fn byte_len(s: Seq<char>) -> int {
    encode_utf8(s).len() as int
}

/// How many bytes the parts take in a path's text, one separator between
/// each two.
pub open spec fn parts_bytes(parts: Seq<Seq<char>>) -> int
    decreases parts.len(),
{
    if parts.len() == 0 {
        0
    } else {
        parts_bytes(parts.drop_last()) + byte_len(parts.last()) + if parts.len() > 1 {
            1int
        } else {
            0int
        }
    }
}

/// How many bytes the text of `p` takes: its anchor, then its parts.
pub open spec fn text_bytes(p: PathView) -> int {
    byte_len(p.anchor) + parts_bytes(p.parts)
}

/// The path whose text is that of `p` followed by `suffix` (a suffix without
/// separators, such as `.js`).
pub open spec fn with_suffix(p: PathView, suffix: Seq<char>) -> PathView {
    if p.parts.len() == 0 {
        PathView { anchor: p.anchor, parts: seq![suffix] }
    } else {
        PathView { anchor: p.anchor, parts: p.parts.drop_last().push(p.parts.last() + suffix) }
    }
}

impl FsPath {
    /// A copy of this path.
    pub fn copied(&self) -> (r: FsPath)
        ensures
            r@ == self@,
    {
        let mut parts: Vec<String> = Vec::new();
        let mut i: usize = 0;
        while i < self.parts.len()
            invariant
                i <= self.parts@.len(),
                texts(parts@) == texts(self.parts@).take(i as int),
            decreases self.parts@.len() - i,
        {
            let ghost before = parts@;
            parts.push(self.parts[i].clone());
            assert(texts(parts@) =~= texts(before).push(self.parts@[i as int]@));
            i = i + 1;
            assert(texts(self.parts@).take(i as int) =~= texts(self.parts@).take(i - 1).push(
                self.parts@[i - 1]@,
            ));
        }
        assert(texts(self.parts@).take(i as int) =~= texts(self.parts@));
        FsPath { anchor: self.anchor.clone(), parts }
    }

    /// Whether `self` and `other` are written alike, part for part.
    pub fn identical(&self, other: &FsPath) -> (b: bool)
        ensures
            b == (self@ == other@),
    {
        if self.anchor != other.anchor {
            return false;
        }
        if !same_texts(&self.parts, &other.parts) {
            return false;
        }
        true
    }

    /// Whether `self` and `other` are the same path, component for component.
    pub fn same_as(&self, other: &FsPath) -> (b: bool)
        ensures
            b == same_path(self@, other@),
    {
        if self.anchor != other.anchor {
            return false;
        }
        let mine = self.components_of();
        let theirs = other.components_of();
        same_texts(&mine, &theirs)
    }

    /// The components of this path after its anchor.
    fn components_of(&self) -> (v: Vec<String>)
        ensures
            texts(v@) == components(self@),
    {
        let start = self.body_start();
        let ghost all = texts(self.parts@);
        let mut v: Vec<String> = Vec::new();
        if start == 1 {
            v.push(".".to_owned());
            proof {
                reveal_strlit(".");
                assert("."@ =~= seq!['.']);
                assert(texts(v@) =~= seq![seq!['.']]);
            }
        }
        let ghost head = texts(v@);
        let mut i: usize = start;
        while i < self.parts.len()
            invariant
                start <= i <= self.parts@.len(),
                start == body_start(self@),
                all == texts(self.parts@),
                texts(v@) == head + named_parts(all.subrange(start as int, i as int)),
            decreases self.parts@.len() - i,
        {
            let ghost before = texts(v@);
            let ghost piece = all[i as int];
            assert(all.subrange(start as int, i + 1).drop_last() =~= all.subrange(
                start as int,
                i as int,
            ));
            assert(all.subrange(start as int, i + 1).last() == piece);
            if !is_filler_text(&self.parts[i]) {
                v.push(self.parts[i].clone());
                assert(texts(v@) =~= before.push(piece));
                assert(head + named_parts(all.subrange(start as int, i + 1)) =~= (head + named_parts(
                    all.subrange(start as int, i as int),
                )).push(piece));
            }
            i = i + 1;
        }
        assert(all.subrange(start as int, i as int) =~= all.skip(start as int));
        if start == 0 {
            assert(all.skip(0) =~= all);
            assert(head =~= Seq::<Seq<char>>::empty());
            assert(texts(v@) =~= named_parts(all));
        }
        v
    }

    /// How many bytes the text of this path takes.
    pub fn text_bytes(&self) -> (n: u128)
        ensures
            n as int == text_bytes(self@),
    {
        let ghost all = texts(self.parts@);
        let ghost most = usize::MAX as int;
        let mut total: u128 = self.anchor.as_str().as_bytes().len() as u128;
        let mut i: usize = 0;
        while i < self.parts.len()
            invariant
                i <= self.parts@.len(),
                all == texts(self.parts@),
                most == usize::MAX as int,
                total as int == byte_len(self@.anchor) + parts_bytes(all.take(i as int)),
                total as int <= most + i * (most + 1),
            decreases self.parts@.len() - i,
        {
            let len = self.parts[i].as_str().as_bytes().len() as u128;
            let sep: u128 = if i > 0 {
                1
            } else {
                0
            };
            let ghost k = i as int;
            assert(all.take(k + 1).drop_last() =~= all.take(k));
            assert(all.take(k + 1).last() == all[k]);
            assert(total + len + sep <= most + (k + 1) * (most + 1)) by (nonlinear_arith)
                requires
                    total as int <= most + k * (most + 1),
                    len as int <= most,
                    sep as int <= 1,
            ;
            assert(most + (k + 1) * (most + 1) <= u128::MAX) by (nonlinear_arith)
                requires
                    most == usize::MAX as int,
                    0 <= k < most,
            ;
            total = total + len + sep;
            i = i + 1;
        }
        assert(all.take(i as int) =~= all);
        total
    }

    /// A copy of this path without a trailing separator.
    fn unterminated_copy(&self) -> (r: FsPath)
        ensures
            r@ == (PathView { anchor: self@.anchor, parts: unterminated(self@.parts) }),
    {
        let mut r = self.copied();
        let n = r.parts.len();
        if n > 0 && r.parts[n - 1].as_str().unicode_len() == 0 {
            let ghost before = r.parts@;
            r.parts.pop();
            assert(texts(r.parts@) =~= texts(before).drop_last());
        }
        r
    }

    /// This path with the component `name` added.
    pub fn child(&self, name: &str) -> (r: FsPath)
        ensures
            r@ == child(self@, name@),
    {
        let mut r = self.unterminated_copy();
        let ghost before = r.parts@;
        r.parts.push(name.to_owned());
        assert(texts(r.parts@) =~= texts(before).push(name@));
        r
    }

    /// This path joined with the `/`-separated text `rest`.
    pub fn join(&self, rest: &str) -> (r: FsPath)
        ensures
            r@ == join(self@, rest@),
    {
        let chars = chars_of(rest);
        let names = segments_of(&chars);
        if chars.len() > 0 && chars[0] == '/' {
            let anchor = if self.anchor.as_str().unicode_len() > 0 {
                self.anchor.clone()
            } else {
                "/".to_owned()
            };
            proof {
                reveal_strlit("/");
                assert("/"@ =~= seq!['/']);
            }
            FsPath { anchor, parts: names }
        } else {
            let mut r = self.unterminated_copy();
            let ghost base = r@.parts;
            let mut i: usize = 0;
            while i < names.len()
                invariant
                    i <= names@.len(),
                    r@.anchor == self@.anchor,
                    r@.parts == base + texts(names@).take(i as int),
                decreases names@.len() - i,
            {
                let ghost before = r.parts@;
                r.parts.push(names[i].clone());
                assert(texts(r.parts@) =~= texts(before).push(names@[i as int]@));
                i = i + 1;
                assert(texts(names@).take(i as int) =~= texts(names@).take(i - 1).push(
                    names@[i - 1]@,
                ));
            }
            assert(texts(names@).take(i as int) =~= texts(names@));
            r
        }
    }

    /// How many leading parts are never trimmed.
    fn body_start(&self) -> (n: usize)
        ensures
            n == body_start(self@),
    {
        proof {
            reveal_strlit(".");
            assert("."@ =~= seq!['.']);
        }
        if self.anchor.as_str().unicode_len() == 0 && self.parts.len() > 0 && self.parts[0]
            == ".".to_owned() {
            1
        } else {
            0
        }
    }

    /// The path without its last component.
    pub fn parent(&self) -> (r: Option<FsPath>)
        ensures
            match r {
                Some(p) => parent(self@) == Some(p@),
                None => parent(self@) is None,
            },
    {
        let floor = self.body_start();
        let mut r = self.copied();
        trim_fillers_of(&mut r.parts, floor);
        if r.parts.len() == 0 {
            return None;
        }
        let ghost trimmed = r@.parts;
        r.parts.pop();
        assert(texts(r.parts@) =~= trimmed.drop_last());
        trim_fillers_of(&mut r.parts, floor);
        Some(r)
    }

    /// The last component, unless it is `..` or `.`.
    pub fn file_name(&self) -> (r: Option<String>)
        ensures
            match r {
                Some(n) => file_name(self@) == Some(n@),
                None => file_name(self@) is None,
            },
    {
        let floor = self.body_start();
        let mut r = self.copied();
        trim_fillers_of(&mut r.parts, floor);
        if r.parts.len() == 0 {
            return None;
        }
        let last = r.parts[r.parts.len() - 1].clone();
        let dots = "..".to_owned();
        let dot = ".".to_owned();
        proof {
            reveal_strlit("..");
            reveal_strlit(".");
            assert(".."@ =~= seq!['.', '.']);
            assert("."@ =~= seq!['.']);
        }
        if last == dots || last == dot {
            None
        } else {
            Some(last)
        }
    }

    /// Whether this path lies inside `base` (or is `base`), component for
    /// component.
    pub fn starts_with(&self, base: &FsPath) -> (b: bool)
        ensures
            b == starts_with(self@, base@),
    {
        if self.anchor != base.anchor {
            return false;
        }
        let mine = self.components_of();
        let theirs = base.components_of();
        if theirs.len() > mine.len() {
            assert(texts(theirs@).len() == theirs@.len());
            return false;
        }
        let mut i: usize = 0;
        while i < theirs.len()
            invariant
                i <= theirs@.len() <= mine@.len(),
                texts(mine@) == components(self@),
                texts(theirs@) == components(base@),
                self@.anchor == base@.anchor,
                forall|k: int| 0 <= k < i ==> texts(theirs@)[k] == texts(mine@)[k],
            decreases theirs@.len() - i,
        {
            if theirs[i] != mine[i] {
                assert(texts(theirs@)[i as int] != texts(mine@)[i as int]);
                assert(texts(mine@).subrange(0, texts(theirs@).len() as int)[i as int] != texts(
                    theirs@,
                )[i as int]);
                return false;
            }
            i = i + 1;
        }
        true
    }

    /// The path whose text is this path's text followed by `suffix`.
    pub fn with_suffix(&self, suffix: &str) -> (r: FsPath)
        ensures
            r@ == with_suffix(self@, suffix@),
    {
        let mut r = self.copied();
        if r.parts.len() == 0 {
            r.parts.push(suffix.to_owned());
            assert(texts(r.parts@) =~= seq![suffix@]);
        } else {
            let ghost before = r.parts@;
            let mut last = r.parts.pop().unwrap();
            let ghost old_last = last@;
            last.append(suffix);
            r.parts.push(last);
            assert(texts(r.parts@) =~= texts(before).drop_last().push(old_last + suffix@));
        }
        r
    }
}

/// Whether `a` and `b` hold the same texts in the same order.
fn same_texts(a: &Vec<String>, b: &Vec<String>) -> (same: bool)
    ensures
        same == (texts(a@) == texts(b@)),
{
    if a.len() != b.len() {
        assert(texts(a@).len() != texts(b@).len());
        return false;
    }
    let mut i: usize = 0;
    while i < a.len()
        invariant
            i <= a@.len() == b@.len(),
            forall|k: int| 0 <= k < i ==> a@[k]@ == b@[k]@,
        decreases a@.len() - i,
    {
        if a[i] != b[i] {
            assert(texts(a@)[i as int] != texts(b@)[i as int]);
            return false;
        }
        i = i + 1;
    }
    assert(texts(a@) =~= texts(b@));
    true
}

/// Whether `piece` is empty or `.`.
fn is_filler_text(piece: &String) -> (b: bool)
    ensures
        b == is_filler(piece@),
{
    proof {
        reveal_strlit(".");
        assert("."@ =~= seq!['.']);
    }
    piece.as_str().unicode_len() == 0 || *piece == ".".to_owned()
}

/// Drops the filler pieces at the end of `parts`, keeping the first `floor`.
fn trim_fillers_of(parts: &mut Vec<String>, floor: usize)
    ensures
        texts(final(parts)@) == trim_fillers(texts(old(parts)@), floor as int),
{
    while parts.len() > floor && parts.len() > 0 && is_filler_text(&parts[parts.len() - 1])
        invariant
            trim_fillers(texts(parts@), floor as int) == trim_fillers(texts(old(parts)@), floor as int),
        decreases parts@.len(),
    {
        let ghost before = parts@;
        assert(texts(before).last() == before.last()@);
        assert(is_filler(texts(before).last()));
        parts.pop();
        assert(texts(parts@) =~= texts(before).drop_last());
        assert(trim_fillers(texts(before), floor as int) == trim_fillers(
            texts(before).drop_last(),
            floor as int,
        ));
    }
    assert(parts@.len() > 0 ==> texts(parts@).last() == parts@.last()@);
}

/// The pieces of the `/`-separated characters `chars`.
fn segments_of(chars: &Vec<char>) -> (names: Vec<String>)
    ensures
        texts(names@) == segments(chars@),
{
    let mut names: Vec<String> = Vec::new();
    let mut start: usize = 0;
    let mut i: usize = 0;
    while i < chars.len()
        invariant
            start <= i <= chars@.len(),
            texts(names@) + segments_from(chars@, start as int, i as int) == segments(chars@),
        decreases chars@.len() - i,
    {
        if chars[i] == '/' {
            let ghost before = names@;
            let ghost old_start = start as int;
            if start < i {
                names.push(string_of(&chars.as_slice()[start..i]));
            }
            assert(texts(names@) =~= texts(before) + if old_start < i {
                seq![chars@.subrange(old_start, i as int)]
            } else {
                Seq::empty()
            });
            start = i + 1;
            i = i + 1;
            assert(texts(names@) + segments_from(chars@, start as int, i as int) =~= texts(before)
                + segments_from(chars@, old_start, (i - 1) as int));
        } else {
            i = i + 1;
        }
    }
    let ghost before = names@;
    names.push(string_of(&chars.as_slice()[start..i]));
    assert(texts(names@) =~= texts(before) + segments_from(chars@, start as int, i as int));
    names
}

} // verus!
