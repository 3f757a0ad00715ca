//! What the file system showed about the paths a resolution looks at.
//!
//! A resolution only decides; it never touches the disk. The facts it needs
//! (which paths are files, which subdirectories a directory has, what a file
//! holds) are read beforehand and handed over as a [`Disk`].
use vstd::prelude::*;

use crate::path::{path_views, FsPath, PathView};

verus! {

/// The subdirectories of `dir` whose names are text.
pub struct Listing {
    pub dir: FsPath,
    pub subdirs: Vec<String>,
}

/// The contents of the file `path`, read as text.
pub struct Text {
    pub path: FsPath,
    pub contents: String,
}

pub struct Disk {
    /// Paths that are regular files.
    pub files: Vec<FsPath>,
    /// The directories that could be read.
    pub listings: Vec<Listing>,
    /// The files that could be read as text.
    pub texts: Vec<Text>,
}

pub struct DiskView {
    pub files: Seq<PathView>,
    pub listings: Seq<(PathView, Seq<Seq<char>>)>,
    pub texts: Seq<(PathView, Seq<char>)>,
}

impl View for Disk {
    type V = DiskView;

    open spec fn view(&self) -> DiskView {
        DiskView {
            files: path_views(self.files@),
            listings: self.listings@.map_values(
                |l: Listing| (l.dir@, l.subdirs@.map_values(|s: String| s@)),
            ),
            texts: self.texts@.map_values(|t: Text| (t.path@, t.contents@)),
        }
    }
}

/// The value recorded first for `key`.
pub open spec fn lookup<V>(entries: Seq<(PathView, V)>, key: PathView) -> Option<V>
    decreases entries.len(),
{
    if entries.len() == 0 {
        None
    } else if entries[0].0 == key {
        Some(entries[0].1)
    } else {
        lookup(entries.drop_first(), key)
    }
}

pub open spec fn is_file(disk: DiskView, p: PathView) -> bool {
    disk.files.contains(p)
}

impl Disk {
    /// Whether `p` is a regular file.
    pub fn is_file(&self, p: &FsPath) -> (b: bool)
        ensures
            b == is_file(self@, p@),
    {
        let mut i: usize = 0;
        while i < self.files.len()
            invariant
                i <= self.files@.len(),
                forall|k: int| 0 <= k < i ==> self@.files[k] != p@,
            decreases self.files@.len() - i,
        {
            if self.files[i].identical(p) {
                assert(self@.files[i as int] == p@);
                return true;
            }
            i = i + 1;
        }
        false
    }

    /// The subdirectories of `dir`, when it could be read.
    pub fn listing(&self, dir: &FsPath) -> (r: Option<&Vec<String>>)
        ensures
            match r {
                Some(names) => lookup(self@.listings, dir@) == Some(
                    names@.map_values(|s: String| s@),
                ),
                None => lookup(self@.listings, dir@) is None,
            },
    {
        let ghost all = self@.listings;
        let mut i: usize = 0;
        assert(all.skip(0) =~= all);
        while i < self.listings.len()
            invariant
                i <= self.listings@.len(),
                all == self@.listings,
                lookup(all, dir@) == lookup(all.skip(i as int), dir@),
            decreases self.listings@.len() - i,
        {
            assert(all.skip(i as int)[0] == all[i as int]);
            if self.listings[i].dir.identical(dir) {
                return Some(&self.listings[i].subdirs);
            }
            assert(all.skip(i as int).drop_first() =~= all.skip(i + 1));
            i = i + 1;
        }
        None
    }

    /// The contents of `p`, when it could be read as text.
    pub fn text(&self, p: &FsPath) -> (r: Option<&String>)
        ensures
            match r {
                Some(t) => lookup(self@.texts, p@) == Some(t@),
                None => lookup(self@.texts, p@) is None,
            },
    {
        let ghost all = self@.texts;
        let mut i: usize = 0;
        assert(all.skip(0) =~= all);
        while i < self.texts.len()
            invariant
                i <= self.texts@.len(),
                all == self@.texts,
                lookup(all, p@) == lookup(all.skip(i as int), p@),
            decreases self.texts@.len() - i,
        {
            assert(all.skip(i as int)[0] == all[i as int]);
            if self.texts[i].path.identical(p) {
                return Some(&self.texts[i].contents);
            }
            assert(all.skip(i as int).drop_first() =~= all.skip(i + 1));
            i = i + 1;
        }
        None
    }
}

} // verus!
