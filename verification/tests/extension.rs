use isml_lsp::extension::{
    archive, asset_name, binary_path, download_failure, exe_name, find_asset, is_stale,
    local_binary, missing_asset, version_dir, Arch, Archive, BinarySettings, Os,
};

#[test]
fn asset_names_follow_the_release_workflow() {
    assert_eq!(
        asset_name(Os::Linux, Arch::X8664),
        Ok("isml-lsp-x86_64-linux.tar.gz".to_string())
    );
    assert_eq!(
        asset_name(Os::Mac, Arch::Aarch64),
        Ok("isml-lsp-aarch64-macos.tar.gz".to_string())
    );
    assert_eq!(
        asset_name(Os::Windows, Arch::X8664),
        Ok("isml-lsp-x86_64-windows.zip".to_string())
    );
    assert_eq!(
        asset_name(Os::Windows, Arch::X86),
        Err("32-bit x86 is not supported".to_string())
    );
    assert_eq!(archive(Os::Windows), Archive::Zip);
    assert_eq!(archive(Os::Linux), Archive::GzipTar);
}

#[test]
fn the_binary_lives_in_a_folder_per_version() {
    let dir = version_dir("v0.1.0");
    assert_eq!(dir, "isml-lsp-v0.1.0");
    assert_eq!(binary_path(&dir, Os::Windows), "isml-lsp-v0.1.0/isml-lsp.exe");
    assert_eq!(binary_path(&dir, Os::Mac), "isml-lsp-v0.1.0/isml-lsp");
    assert_eq!(exe_name(), "isml-lsp.exe");
}

#[test]
fn assets_are_found_by_name() {
    let names = vec!["a".to_string(), "b".to_string(), "b".to_string()];
    assert_eq!(find_asset(&names, "b"), Some(1));
    assert_eq!(find_asset(&names, "c"), None);
    assert_eq!(
        missing_asset("x.zip", "v1"),
        "no asset named x.zip in release v1"
    );
    assert_eq!(download_failure("x.zip", "boom"), "failed to download x.zip: boom");
}

#[test]
fn other_versions_are_stale() {
    assert!(!is_stale(Some("isml-lsp-v1"), "isml-lsp-v1"));
    assert!(is_stale(Some("isml-lsp-v0"), "isml-lsp-v1"));
    assert!(is_stale(None, "isml-lsp-v1"));
}

#[test]
fn a_configured_binary_wins() {
    let configured = BinarySettings {
        path: Some("/opt/lsp".into()),
        arguments: Some(vec!["--x".into()]),
    };
    assert_eq!(
        local_binary(Some(configured), Some("/usr/bin/isml-lsp".into()), None),
        (Some("/opt/lsp".to_string()), vec!["--x".to_string()])
    );
    let args_only = BinarySettings {
        path: None,
        arguments: None,
    };
    assert_eq!(
        local_binary(Some(args_only), None, Some("C:\\isml-lsp.exe".into())),
        (Some("C:\\isml-lsp.exe".to_string()), Vec::<String>::new())
    );
    assert_eq!(local_binary(None, None, None), (None, Vec::<String>::new()));
}
