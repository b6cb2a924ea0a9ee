use rustup::install::{check_installed, dist_status, uninstall_first, InstallError, UpdateStatus};

#[test]
fn into_obj() {
    let installed = UpdateStatus::Installed {
        obj: Some("stable-A".to_string()),
    };
    assert_eq!(installed.into_obj().unwrap(), "stable-A");
    let updated = UpdateStatus::Updated {
        from: "1.80.0".to_string(),
        obj: Some("stable-B".to_string()),
    };
    assert_eq!(updated.into_obj().unwrap(), "stable-B");
    assert!(UpdateStatus::Installed { obj: None }.into_obj().is_none());
    assert!(UpdateStatus::Unchanged.into_obj().is_none());
}

#[test]
fn only_links_replace_what_is_there() {
    assert!(uninstall_first(true, true));
    assert!(!uninstall_first(true, false));
    assert!(!uninstall_first(false, true));
}

#[test]
fn status_of_dist_install() {
    assert!(matches!(dist_status(None, None), UpdateStatus::Unchanged));
    assert!(matches!(
        dist_status(Some(Some("o".to_string())), None),
        UpdateStatus::Installed { obj: Some(o) } if o == "o"
    ));
    assert!(matches!(
        dist_status(Some(None), Some("1.0.0".to_string())),
        UpdateStatus::Updated { from, obj: None } if from == "1.0.0"
    ));
}

#[test]
fn final_check() {
    assert!(matches!(
        check_installed(UpdateStatus::Unchanged, true, "stable".to_string()),
        Ok(UpdateStatus::Unchanged)
    ));
    assert!(matches!(
        check_installed(UpdateStatus::Unchanged, false, "stable".to_string()),
        Err(InstallError::ToolchainNotInstallable { toolchain }) if toolchain == "stable"
    ));
}
