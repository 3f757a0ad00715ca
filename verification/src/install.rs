//! Getting the server binary when none is installed locally, as a sequence of
//! steps: reuse the binary found last time, else look up the latest release,
//! and download and unpack it unless that version is already there.
//!
//! Each step takes what the last action brought back and gives the next
//! action; the caller performs it (a file check, a request, a download).
use vstd::prelude::*;

use crate::extension::{
    archive, archive_of, asset_name, asset_name_spec, binary_path, download_failure, find_asset,
    missing_asset, version_dir, Arch, Archive, Os,
};

verus! {

/// The latest release, with the platform the editor runs on.
pub struct Release {
    pub version: String,
    /// The names of the release's assets, in order.
    pub asset_names: Vec<String>,
    pub os: Os,
    pub arch: Arch,
}

pub struct ReleaseView {
    pub version: Seq<char>,
    pub asset_names: Seq<Seq<char>>,
    pub os: Os,
    pub arch: Arch,
}

impl View for Release {
    type V = ReleaseView;

    open spec fn view(&self) -> ReleaseView {
        ReleaseView {
            version: self.version@,
            asset_names: self.asset_names@.map_values(|s: String| s@),
            os: self.os,
            arch: self.arch,
        }
    }
}

/// Where getting the binary stands.
pub enum Stage {
    /// Checking that the binary found last time is still a file.
    Cached(String),
    /// Looking up the latest release.
    Fetching,
    /// Checking whether the release's binary is already unpacked.
    Checking {
        asset: usize,
        asset_name: String,
        version_dir: String,
        binary: String,
        archive: Archive,
    },
    /// Downloading and unpacking the release's asset.
    Downloading { asset_name: String, version_dir: String, binary: String },
    /// Making the unpacked binary executable.
    MakingExecutable { version_dir: String, binary: String },
    /// Removing the folders of other versions.
    Removing { binary: String },
    /// Done.
    Finished,
}

/// What the last action brought back.
pub enum Event {
    /// Whether the path checked is a file.
    IsFile(bool),
    /// The latest release, or why it could not be had.
    Release(Result<Release, String>),
    /// How a download, a permission change or a clean-up went.
    Outcome(Result<(), String>),
}

/// What to do next.
#[derive(Debug, PartialEq, Eq)]
pub enum Action {
    /// Check whether the path is a file.
    CheckFile(String),
    /// Report that updates are being checked for, then look up the latest
    /// release and the platform.
    FetchRelease,
    /// Report the download, then download the release's asset number
    /// `asset` and unpack it into `dir`.
    Download { asset: usize, dir: String, archive: Archive },
    /// Make the file executable.
    MakeExecutable(String),
    /// Remove every entry of the extension's folder but `dir`.
    RemoveOtherVersions(String),
    /// Done: the binary to run, or why there is none.
    Finish(Result<String, String>),
}

pub enum StageView {
    Cached(Seq<char>),
    Fetching,
    Checking {
        asset: int,
        asset_name: Seq<char>,
        version_dir: Seq<char>,
        binary: Seq<char>,
        archive: Archive,
    },
    Downloading { asset_name: Seq<char>, version_dir: Seq<char>, binary: Seq<char> },
    MakingExecutable { version_dir: Seq<char>, binary: Seq<char> },
    Removing { binary: Seq<char> },
    Finished,
}

pub enum EventView {
    IsFile(bool),
    Release(Result<ReleaseView, Seq<char>>),
    Outcome(Result<(), Seq<char>>),
}

pub enum ActionView {
    CheckFile(Seq<char>),
    FetchRelease,
    Download { asset: int, dir: Seq<char>, archive: Archive },
    MakeExecutable(Seq<char>),
    RemoveOtherVersions(Seq<char>),
    Finish(Result<Seq<char>, Seq<char>>),
}

impl View for Stage {
    type V = StageView;

    open spec fn view(&self) -> StageView {
        match self {
            Stage::Cached(p) => StageView::Cached(p@),
            Stage::Fetching => StageView::Fetching,
            Stage::Checking { asset, asset_name, version_dir, binary, archive } => StageView::Checking {
                asset: *asset as int,
                asset_name: asset_name@,
                version_dir: version_dir@,
                binary: binary@,
                archive: *archive,
            },
            Stage::Downloading { asset_name, version_dir, binary } => StageView::Downloading {
                asset_name: asset_name@,
                version_dir: version_dir@,
                binary: binary@,
            },
            Stage::MakingExecutable { version_dir, binary } => StageView::MakingExecutable {
                version_dir: version_dir@,
                binary: binary@,
            },
            Stage::Removing { binary } => StageView::Removing { binary: binary@ },
            Stage::Finished => StageView::Finished,
        }
    }
}

impl View for Event {
    type V = EventView;

    open spec fn view(&self) -> EventView {
        match self {
            Event::IsFile(b) => EventView::IsFile(*b),
            Event::Release(Ok(r)) => EventView::Release(Ok(r@)),
            Event::Release(Err(e)) => EventView::Release(Err(e@)),
            Event::Outcome(Ok(())) => EventView::Outcome(Ok(())),
            Event::Outcome(Err(e)) => EventView::Outcome(Err(e@)),
        }
    }
}

impl View for Action {
    type V = ActionView;

    open spec fn view(&self) -> ActionView {
        match self {
            Action::CheckFile(p) => ActionView::CheckFile(p@),
            Action::FetchRelease => ActionView::FetchRelease,
            Action::Download { asset, dir, archive } => ActionView::Download {
                asset: *asset as int,
                dir: dir@,
                archive: *archive,
            },
            Action::MakeExecutable(p) => ActionView::MakeExecutable(p@),
            Action::RemoveOtherVersions(d) => ActionView::RemoveOtherVersions(d@),
            Action::Finish(Ok(p)) => ActionView::Finish(Ok(p@)),
            Action::Finish(Err(e)) => ActionView::Finish(Err(e@)),
        }
    }
}

/// The index of the first of `names[i..]` equal to `name`.
pub open spec fn first_index(names: Seq<Seq<char>>, name: Seq<char>, i: int) -> Option<int>
    decreases names.len() - i,
{
    if i < 0 || i >= names.len() {
        None
    } else if names[i] == name {
        Some(i)
    } else {
        first_index(names, name, i + 1)
    }
}

/// `<dir>/isml-lsp`, or `<dir>/isml-lsp.exe` on Windows.
pub open spec fn binary_in(dir: Seq<char>, os: Os) -> Seq<char> {
    dir + match os {
        Os::Windows => "/isml-lsp.exe"@,
        Os::Mac | Os::Linux => "/isml-lsp"@,
    }
}

/// The first step, with the binary found last time, if any.
pub open spec fn begin_spec(cached: Option<Seq<char>>) -> (StageView, ActionView) {
    match cached {
        Some(p) => (StageView::Cached(p), ActionView::CheckFile(p)),
        None => (StageView::Fetching, ActionView::FetchRelease),
    }
}

/// Whether `stage` waits for an event of the kind of `event`.
pub open spec fn expects(stage: StageView, event: EventView) -> bool {
    match (stage, event) {
        (StageView::Cached(_), EventView::IsFile(_)) => true,
        (StageView::Fetching, EventView::Release(_)) => true,
        (StageView::Checking { .. }, EventView::IsFile(_)) => true,
        (StageView::Downloading { .. }, EventView::Outcome(_)) => true,
        (StageView::MakingExecutable { .. }, EventView::Outcome(_)) => true,
        (StageView::Removing { .. }, EventView::Outcome(_)) => true,
        _ => false,
    }
}

/// What follows a release: its binary is checked for when it has an asset
/// for the platform.
pub open spec fn after_release(r: ReleaseView) -> (StageView, ActionView) {
    match asset_name_spec(r.os, r.arch) {
        Err(e) => (StageView::Finished, ActionView::Finish(Err(e))),
        Ok(name) => match first_index(r.asset_names, name, 0) {
            None => (
                StageView::Finished,
                ActionView::Finish(Err("no asset named "@ + name + " in release "@ + r.version)),
            ),
            Some(i) => {
                let dir = "isml-lsp-"@ + r.version;
                let binary = binary_in(dir, r.os);
                (
                    StageView::Checking {
                        asset: i,
                        asset_name: name,
                        version_dir: dir,
                        binary,
                        archive: archive_of(r.os),
                    },
                    ActionView::CheckFile(binary),
                )
            },
        },
    }
}

/// The next stage and action, from `stage` and what the last action brought.
pub open spec fn step_spec(stage: StageView, event: EventView) -> (StageView, ActionView) {
    match (stage, event) {
        (StageView::Cached(p), EventView::IsFile(true)) => (
            StageView::Finished,
            ActionView::Finish(Ok(p)),
        ),
        (StageView::Cached(_), EventView::IsFile(false)) => (
            StageView::Fetching,
            ActionView::FetchRelease,
        ),
        (StageView::Fetching, EventView::Release(Err(e))) => (
            StageView::Finished,
            ActionView::Finish(Err(e)),
        ),
        (StageView::Fetching, EventView::Release(Ok(r))) => after_release(r),
        (
            StageView::Checking { asset, asset_name, version_dir, binary, archive },
            EventView::IsFile(present),
        ) => if present {
            (StageView::Finished, ActionView::Finish(Ok(binary)))
        } else {
            (
                StageView::Downloading { asset_name, version_dir, binary },
                ActionView::Download { asset, dir: version_dir, archive },
            )
        },
        (StageView::Downloading { asset_name, version_dir, binary }, EventView::Outcome(o)) => match o {
            Err(e) => (
                StageView::Finished,
                ActionView::Finish(Err("failed to download "@ + asset_name + ": "@ + e)),
            ),
            Ok(_) => (
                StageView::MakingExecutable { version_dir, binary },
                ActionView::MakeExecutable(binary),
            ),
        },
        (StageView::MakingExecutable { version_dir, binary }, EventView::Outcome(o)) => match o {
            Err(e) => (StageView::Finished, ActionView::Finish(Err(e))),
            Ok(_) => (StageView::Removing { binary }, ActionView::RemoveOtherVersions(version_dir)),
        },
        (StageView::Removing { binary }, EventView::Outcome(_)) => (
            StageView::Finished,
            ActionView::Finish(Ok(binary)),
        ),
        _ => (stage, ActionView::Finish(Err(Seq::empty()))),
    }
}

/// The first step: check the binary found last time, else look up the
/// latest release.
pub fn begin(cached: Option<String>) -> (r: (Stage, Action))
    ensures
        (r.0@, r.1@) == begin_spec(
            match cached {
                Some(p) => Some(p@),
                None => None,
            },
        ),
{
    match cached {
        Some(p) => {
            let again = p.clone();
            (Stage::Cached(p), Action::CheckFile(again))
        },
        None => (Stage::Fetching, Action::FetchRelease),
    }
}

impl Stage {
    /// Whether this stage waits for an event of the kind of `event`.
    pub fn expects(&self, event: &Event) -> (b: bool)
        ensures
            b == expects(self@, event@),
    {
        match (self, event) {
            (Stage::Cached(_), Event::IsFile(_)) => true,
            (Stage::Fetching, Event::Release(_)) => true,
            (Stage::Checking { .. }, Event::IsFile(_)) => true,
            (Stage::Downloading { .. }, Event::Outcome(_)) => true,
            (Stage::MakingExecutable { .. }, Event::Outcome(_)) => true,
            (Stage::Removing { .. }, Event::Outcome(_)) => true,
            _ => false,
        }
    }
}

/// `find_asset`'s answer is the first index of the name.
proof fn lemma_first_index(names: Seq<Seq<char>>, name: Seq<char>, found: Option<int>, i: int)
    requires
        0 <= i,
        match found {
            Some(j) => i <= j < names.len() && names[j] == name && forall|k: int|
                i <= k < j ==> names[k] != name,
            None => forall|k: int| i <= k < names.len() ==> names[k] != name,
        },
    ensures
        first_index(names, name, i) == found,
    decreases names.len() - i,
{
    if i < names.len() {
        if names[i] != name {
            lemma_first_index(names, name, found, i + 1);
        }
    }
}

/// What follows the latest release `r`.
fn after_release_of(r: Release) -> (next: (Stage, Action))
    ensures
        (next.0@, next.1@) == after_release(r@),
{
    let name = match asset_name(r.os, r.arch) {
        Ok(n) => n,
        Err(e) => return (Stage::Finished, Action::Finish(Err(e))),
    };
    let found = find_asset(&r.asset_names, name.as_str());
    proof {
        let names = r@.asset_names;
        assert forall|k: int| 0 <= k < names.len() implies names[k] == r.asset_names@[k]@ by {}
        lemma_first_index(
            names,
            name@,
            match found {
                Some(i) => Some(i as int),
                None => None,
            },
            0,
        );
    }
    match found {
        None => (Stage::Finished, Action::Finish(Err(missing_asset(name.as_str(), r.version.as_str())))),
        Some(i) => {
            let dir = version_dir(r.version.as_str());
            let binary = binary_path(dir.as_str(), r.os);
            let check = binary.clone();
            (
                Stage::Checking {
                    asset: i,
                    asset_name: name,
                    version_dir: dir,
                    binary,
                    archive: archive(r.os),
                },
                Action::CheckFile(check),
            )
        },
    }
}

/// The next stage and action, from `stage` and what the last action brought.
pub fn step(stage: Stage, event: Event) -> (next: (Stage, Action))
    requires
        expects(stage@, event@),
    ensures
        (next.0@, next.1@) == step_spec(stage@, event@),
{
    match (stage, event) {
        (Stage::Cached(p), Event::IsFile(present)) => if present {
            (Stage::Finished, Action::Finish(Ok(p)))
        } else {
            (Stage::Fetching, Action::FetchRelease)
        },
        (Stage::Fetching, Event::Release(release)) => match release {
            Err(e) => (Stage::Finished, Action::Finish(Err(e))),
            Ok(r) => after_release_of(r),
        },
        (Stage::Checking { asset, asset_name, version_dir, binary, archive }, Event::IsFile(present)) => {
            if present {
                (Stage::Finished, Action::Finish(Ok(binary)))
            } else {
                let dir = version_dir.clone();
                (
                    Stage::Downloading { asset_name, version_dir, binary },
                    Action::Download { asset, dir, archive },
                )
            }
        },
        (Stage::Downloading { asset_name, version_dir, binary }, Event::Outcome(outcome)) => {
            match outcome {
                Err(e) => (
                    Stage::Finished,
                    Action::Finish(Err(download_failure(asset_name.as_str(), e.as_str()))),
                ),
                Ok(()) => {
                    let again = binary.clone();
                    (Stage::MakingExecutable { version_dir, binary }, Action::MakeExecutable(again))
                },
            }
        },
        (Stage::MakingExecutable { version_dir, binary }, Event::Outcome(outcome)) => match outcome {
            Err(e) => (Stage::Finished, Action::Finish(Err(e))),
            Ok(()) => (Stage::Removing { binary }, Action::RemoveOtherVersions(version_dir)),
        },
        (Stage::Removing { binary }, Event::Outcome(_)) => (Stage::Finished, Action::Finish(Ok(binary))),
        (stage, _) => (stage, Action::Finish(Err(String::new()))),
    }
}

/// Nothing is downloaded but a release's binary that was found missing, and
/// a binary found last time that is still a file is run again without
/// looking up any release.
pub proof fn law_download_only_when_missing(stage: StageView, event: EventView)
    requires
        expects(stage, event),
    ensures
        step_spec(stage, event).1 is Download ==> stage is Checking && event == EventView::IsFile(
            false,
        ),
        stage is Cached && event == EventView::IsFile(true) ==> step_spec(stage, event).1
            == ActionView::Finish(Ok(stage->Cached_0)),
{
    if let (StageView::Fetching, EventView::Release(Ok(r))) = (stage, event) {
        assert(!(after_release(r).1 is Download));
    }
}

} // verus!
