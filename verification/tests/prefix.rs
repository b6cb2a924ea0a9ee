use rustup::dist::prefix::{
    AbAddressing, AddressError, AddressingStrategy, InstallPrefix, Partition, ReferenceState,
    DIST_MANIFEST,
};
use rustup::path::FsPath;

fn comps(s: &str) -> Vec<String> {
    FsPath::parse(s).components().clone()
}

#[test]
fn manifest_paths() {
    let prefix = InstallPrefix::from_path(FsPath::parse("/home/u/.rustup/toolchains/stable"));
    assert_eq!(
        prefix.manifest_dir().components(),
        &comps("/home/u/.rustup/toolchains/stable/lib/rustlib")
    );
    assert_eq!(
        prefix.manifest_file("components").components(),
        &comps("/home/u/.rustup/toolchains/stable/lib/rustlib/components")
    );
    assert_eq!(
        prefix.dist_manifest_path().components(),
        &comps("/home/u/.rustup/toolchains/stable/lib/rustlib/multirust-channel-manifest.toml")
    );
    assert_eq!(
        prefix.dist_manifest(true).unwrap().components(),
        &comps("/home/u/.rustup/toolchains/stable/lib/rustlib/multirust-channel-manifest.toml")
    );
    assert!(prefix.dist_manifest(false).is_none());
    assert_eq!(DIST_MANIFEST, "multirust-channel-manifest.toml");
    let rel = prefix.rel_manifest_file("components");
    assert_eq!(rel.components(), &comps("lib/rustlib/components"));
    assert!(!rel.is_absolute());
    assert_eq!(
        prefix.abs_path(&FsPath::parse("bin/rustc")).components(),
        &comps("/home/u/.rustup/toolchains/stable/bin/rustc")
    );
}

#[test]
fn v1_manifest_guess() {
    let prefix = InstallPrefix::from_path(FsPath::parse("/p"));
    let files = prefix.v1_manifest_files();
    let names: Vec<Vec<String>> = files.iter().map(|f| f.components().clone()).collect();
    assert_eq!(
        names,
        vec![
            comps("/p/lib/rustlib/manifest-cargo"),
            comps("/p/lib/rustlib/manifest-rustc"),
            comps("/p/lib/rustlib/manifest-rust-docs"),
        ]
    );
    assert!(prefix.guess_v1_manifest(&vec![true, true, true]));
    assert!(!prefix.guess_v1_manifest(&vec![true, false, true]));
}

#[test]
fn partition_of_link_target() {
    assert!(matches!(AbAddressing::partition("stable-A"), Some(Partition::A)));
    assert!(matches!(AbAddressing::partition("stable-B"), Some(Partition::B)));
    assert!(AbAddressing::partition("stable").is_none());
    assert!(AbAddressing::partition("stable-C").is_none());
    assert!(AbAddressing::partition("-").is_none());
}

fn address(current: Option<&str>, exists: bool) -> Result<Vec<String>, AddressError> {
    let ab = AbAddressing::new(FsPath::parse("/r/heap"));
    let reference = InstallPrefix::from_path(FsPath::parse("/r/toolchains/stable"));
    let state = ReferenceState {
        link_name: current.map(String::from),
        exists,
    };
    let target = ab.address(&reference, &state)?;
    assert_eq!(target.orig.is_some(), exists);
    if let Some(orig) = &target.orig {
        assert_eq!(orig.path().components(), &comps("/r/toolchains/stable"));
    }
    Ok(target.dest.path().components().clone())
}

#[test]
fn ab_addressing_alternates() {
    assert_eq!(address(None, false).unwrap(), comps("/r/heap/stable-A"));
    assert_eq!(
        address(Some("stable-A"), true).unwrap(),
        comps("/r/heap/stable-B")
    );
    assert_eq!(
        address(Some("stable-B"), true).unwrap(),
        comps("/r/heap/stable-A")
    );
    assert_eq!(
        address(Some("else"), true).unwrap(),
        comps("/r/heap/stable-A")
    );
}

#[test]
fn ab_addressing_needs_file_name() {
    let ab = AbAddressing::new(FsPath::parse("/r/heap"));
    let reference = InstallPrefix::from_path(FsPath::parse("/"));
    let state = ReferenceState {
        link_name: None,
        exists: true,
    };
    assert!(matches!(
        ab.address(&reference, &state),
        Err(AddressError::NoFileName)
    ));
}
