//! The decisions of the editor extension that launches the server: which
//! binary to run and, when none is installed, which release asset to fetch.
use vstd::prelude::*;

use crate::text::same_text;

verus! {

/// The platform the editor runs on.
#[derive(Debug, Clone, Copy, PartialEq, Eq)]
pub enum Os {
    Mac,
    Linux,
    Windows,
}

/// The processor architecture the editor runs on.
#[derive(Debug, Clone, Copy, PartialEq, Eq)]
pub enum Arch {
    Aarch64,
    X8664,
    X86,
}

/// How a release asset is packed.
#[derive(Debug, Clone, Copy, PartialEq, Eq)]
pub enum Archive {
    Zip,
    GzipTar,
}

/// The server's binary as configured in the editor's settings.
pub struct BinarySettings {
    pub path: Option<String>,
    pub arguments: Option<Vec<String>>,
}

pub open spec fn arch_text(arch: Arch) -> Seq<char> {
    match arch {
        Arch::Aarch64 => "aarch64"@,
        Arch::X8664 => "x86_64"@,
        Arch::X86 => Seq::empty(),
    }
}

pub open spec fn os_text(os: Os) -> Seq<char> {
    match os {
        Os::Mac => "macos"@,
        Os::Linux => "linux"@,
        Os::Windows => "windows"@,
    }
}

pub open spec fn archive_of(os: Os) -> Archive {
    match os {
        Os::Windows => Archive::Zip,
        Os::Mac | Os::Linux => Archive::GzipTar,
    }
}

pub open spec fn archive_extension(os: Os) -> Seq<char> {
    match archive_of(os) {
        Archive::Zip => "zip"@,
        Archive::GzipTar => "tar.gz"@,
    }
}

/// `isml-lsp-<arch>-<os>.<zip|tar.gz>`, the names the release workflow
/// gives its archives; 32-bit x86 has none.
pub open spec fn asset_name_spec(os: Os, arch: Arch) -> Result<Seq<char>, Seq<char>> {
    if arch == Arch::X86 {
        Err("32-bit x86 is not supported"@)
    } else {
        Ok("isml-lsp-"@ + arch_text(arch) + "-"@ + os_text(os) + "."@ + archive_extension(os))
    }
}

/// The name of the release asset for this platform.
pub fn asset_name(os: Os, arch: Arch) -> (name: Result<String, String>)
    ensures
        match name {
            Ok(n) => asset_name_spec(os, arch) == Ok::<Seq<char>, Seq<char>>(n@),
            Err(e) => asset_name_spec(os, arch) == Err::<Seq<char>, Seq<char>>(e@),
        },
{
    let arch_part = match arch {
        Arch::Aarch64 => "aarch64",
        Arch::X8664 => "x86_64",
        Arch::X86 => return Err("32-bit x86 is not supported".to_owned()),
    };
    let os_part = match os {
        Os::Mac => "macos",
        Os::Linux => "linux",
        Os::Windows => "windows",
    };
    let extension = match os {
        Os::Windows => "zip",
        Os::Mac | Os::Linux => "tar.gz",
    };
    let mut name = "isml-lsp-".to_owned();
    name.append(arch_part);
    name.append("-");
    name.append(os_part);
    name.append(".");
    name.append(extension);
    Ok(name)
}

/// How the asset for `os` is packed.
pub fn archive(os: Os) -> (a: Archive)
    ensures
        a == archive_of(os),
{
    match os {
        Os::Windows => Archive::Zip,
        Os::Mac | Os::Linux => Archive::GzipTar,
    }
}

/// The folder a release is unpacked into: `isml-lsp-<version>`.
pub fn version_dir(version: &str) -> (dir: String)
    ensures
        dir@ == "isml-lsp-"@ + version@,
{
    let mut dir = "isml-lsp-".to_owned();
    dir.append(version);
    dir
}

/// The server binary inside the unpacked release.
pub fn binary_path(version_dir: &str, os: Os) -> (path: String)
    ensures
        path@ == version_dir@ + match os {
            Os::Windows => "/isml-lsp.exe"@,
            Os::Mac | Os::Linux => "/isml-lsp"@,
        },
{
    let mut path = version_dir.to_owned();
    match os {
        Os::Windows => path.append("/isml-lsp.exe"),
        Os::Mac | Os::Linux => path.append("/isml-lsp"),
    }
    path
}

/// The name of the server binary on Windows, looked up on `PATH` after the
/// plain one.
pub fn exe_name() -> (name: String)
    ensures
        name@ == "isml-lsp.exe"@,
{
    "isml-lsp.exe".to_owned()
}

/// The index of the first asset called `name`.
pub fn find_asset(names: &Vec<String>, name: &str) -> (r: Option<usize>)
    ensures
        match r {
            Some(i) => i < names@.len() && names@[i as int]@ == name@ && forall|k: int|
                0 <= k < i ==> names@[k]@ != name@,
            None => forall|k: int| 0 <= k < names@.len() ==> names@[k]@ != name@,
        },
{
    let mut i: usize = 0;
    while i < names.len()
        invariant
            i <= names@.len(),
            forall|k: int| 0 <= k < i ==> names@[k]@ != name@,
        decreases names@.len() - i,
    {
        if same_text(names[i].as_str(), name) {
            return Some(i);
        }
        i = i + 1;
    }
    None
}

/// `no asset named <name> in release <version>`.
pub fn missing_asset(asset_name: &str, version: &str) -> (message: String)
    ensures
        message@ == "no asset named "@ + asset_name@ + " in release "@ + version@,
{
    let mut message = "no asset named ".to_owned();
    message.append(asset_name);
    message.append(" in release ");
    message.append(version);
    message
}

/// `failed to download <name>: <error>`.
pub fn download_failure(asset_name: &str, error: &str) -> (message: String)
    ensures
        message@ == "failed to download "@ + asset_name@ + ": "@ + error@,
{
    let mut message = "failed to download ".to_owned();
    message.append(asset_name);
    message.append(": ");
    message.append(error);
    message
}

/// Whether an entry of the extension's folder is left over from another
/// version: any entry whose name is not the current version's folder (a
/// name that is not text never is).
pub fn is_stale(entry_name: Option<&str>, current: &str) -> (stale: bool)
    ensures
        stale == !(entry_name matches Some(n) && n@ == current@),
{
    match entry_name {
        Some(n) => !same_text(n, current),
        None => true,
    }
}

/// The binary to run without downloading, and its arguments: a configured
/// path, else `isml-lsp` found on `PATH`, else `isml-lsp.exe` found there;
/// the configured arguments, or none.
pub fn local_binary(
    configured: Option<BinarySettings>,
    on_path: Option<String>,
    on_path_exe: Option<String>,
) -> (binary: (Option<String>, Vec<String>))
    ensures
        binary.0 == match configured {
            Some(BinarySettings { path: Some(p), .. }) => Some(p),
            _ => match on_path {
                Some(p) => Some(p),
                None => on_path_exe,
            },
        },
        binary.1@ == match configured {
            Some(BinarySettings { arguments: Some(a), .. }) => a@,
            _ => Seq::empty(),
        },
{
    let (configured_path, args) = match configured {
        Some(binary) => (
            binary.path,
            match binary.arguments {
                Some(a) => a,
                None => Vec::new(),
            },
        ),
        None => (None, Vec::new()),
    };
    let path = match configured_path {
        Some(p) => Some(p),
        None => match on_path {
            Some(p) => Some(p),
            None => on_path_exe,
        },
    };
    (path, args)
}

} // verus!
