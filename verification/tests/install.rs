use isml_lsp::extension::{Arch, Archive, Os};
use isml_lsp::install::{begin, step, Action, Event, Release, Stage};

fn release(os: Os, arch: Arch) -> Event {
    Event::Release(Ok(Release {
        version: "v1.2.0".to_string(),
        asset_names: vec![
            "isml-lsp-aarch64-macos.tar.gz".to_string(),
            "isml-lsp-x86_64-linux.tar.gz".to_string(),
            "isml-lsp-x86_64-windows.zip".to_string(),
        ],
        os,
        arch,
    }))
}

fn next(stage: Stage, event: Event) -> (Stage, Action) {
    assert!(stage.expects(&event));
    step(stage, event)
}

#[test]
fn a_cached_binary_that_is_still_there_is_reused() {
    let (stage, action) = begin(Some("isml-lsp-v1.1.0/isml-lsp".to_string()));
    assert_eq!(action, Action::CheckFile("isml-lsp-v1.1.0/isml-lsp".to_string()));
    let (_, action) = next(stage, Event::IsFile(true));
    assert_eq!(action, Action::Finish(Ok("isml-lsp-v1.1.0/isml-lsp".to_string())));
}

#[test]
fn a_missing_binary_is_downloaded_unpacked_and_made_executable() {
    let (stage, action) = begin(Some("gone".to_string()));
    assert_eq!(action, Action::CheckFile("gone".to_string()));
    let (stage, action) = next(stage, Event::IsFile(false));
    assert_eq!(action, Action::FetchRelease);
    let (stage, action) = next(stage, release(Os::Linux, Arch::X8664));
    assert_eq!(action, Action::CheckFile("isml-lsp-v1.2.0/isml-lsp".to_string()));
    let (stage, action) = next(stage, Event::IsFile(false));
    assert_eq!(
        action,
        Action::Download {
            asset: 1,
            dir: "isml-lsp-v1.2.0".to_string(),
            archive: Archive::GzipTar,
        }
    );
    let (stage, action) = next(stage, Event::Outcome(Ok(())));
    assert_eq!(action, Action::MakeExecutable("isml-lsp-v1.2.0/isml-lsp".to_string()));
    let (stage, action) = next(stage, Event::Outcome(Ok(())));
    assert_eq!(action, Action::RemoveOtherVersions("isml-lsp-v1.2.0".to_string()));
    let (stage, action) = next(stage, Event::Outcome(Ok(())));
    assert_eq!(action, Action::Finish(Ok("isml-lsp-v1.2.0/isml-lsp".to_string())));
    assert!(matches!(stage, Stage::Finished));
}

#[test]
fn an_unpacked_release_is_not_downloaded_again() {
    let (stage, action) = begin(None);
    assert_eq!(action, Action::FetchRelease);
    let (stage, action) = next(stage, release(Os::Windows, Arch::X8664));
    assert_eq!(action, Action::CheckFile("isml-lsp-v1.2.0/isml-lsp.exe".to_string()));
    let (_, action) = next(stage, Event::IsFile(true));
    assert_eq!(action, Action::Finish(Ok("isml-lsp-v1.2.0/isml-lsp.exe".to_string())));
}

#[test]
fn install_failures_are_reported() {
    let (stage, _) = begin(None);
    let (_, action) = next(stage, Event::Release(Err("rate limited".to_string())));
    assert_eq!(action, Action::Finish(Err("rate limited".to_string())));

    let (stage, _) = begin(None);
    let (_, action) = next(stage, release(Os::Linux, Arch::X86));
    assert_eq!(action, Action::Finish(Err("32-bit x86 is not supported".to_string())));

    let (stage, _) = begin(None);
    let (_, action) = next(stage, release(Os::Linux, Arch::Aarch64));
    assert_eq!(
        action,
        Action::Finish(Err(
            "no asset named isml-lsp-aarch64-linux.tar.gz in release v1.2.0".to_string()
        ))
    );

    let (stage, _) = begin(None);
    let (stage, _) = next(stage, release(Os::Mac, Arch::Aarch64));
    let (stage, action) = next(stage, Event::IsFile(false));
    assert_eq!(
        action,
        Action::Download {
            asset: 0,
            dir: "isml-lsp-v1.2.0".to_string(),
            archive: Archive::GzipTar,
        }
    );
    let (_, action) = next(stage, Event::Outcome(Err("timed out".to_string())));
    assert_eq!(
        action,
        Action::Finish(Err(
            "failed to download isml-lsp-aarch64-macos.tar.gz: timed out".to_string()
        ))
    );

    let (stage, _) = begin(None);
    let (stage, _) = next(stage, release(Os::Mac, Arch::Aarch64));
    let (stage, _) = next(stage, Event::IsFile(false));
    let (stage, _) = next(stage, Event::Outcome(Ok(())));
    let (_, action) = next(stage, Event::Outcome(Err("permission denied".to_string())));
    assert_eq!(action, Action::Finish(Err("permission denied".to_string())));
}

#[test]
fn a_stage_expects_only_its_own_kind_of_event() {
    let (stage, _) = begin(None);
    assert!(!stage.expects(&Event::IsFile(true)));
    assert!(!stage.expects(&Event::Outcome(Ok(()))));
    assert!(!Stage::Finished.expects(&Event::IsFile(true)));
}
