//! The decisions of installing and upgrading toolchains, both
//! distribution-managed and linked ones.
use vstd::prelude::*;

verus! {

/// What an installation did.
#[derive(Debug)]
pub enum UpdateStatus {
    /// A toolchain was installed where none was; `obj` is the object behind the
    /// reference, none for an unofficial toolchain.
    Installed { obj: Option<String> },
    /// A toolchain was updated from the rustc version `from`; `obj` is the object
    /// behind the reference, none for an unofficial toolchain.
    Updated { from: String, obj: Option<String> },
    /// The toolchain was already up to date.
    Unchanged,
}

/// Why an installation failed.
#[derive(Debug)]
pub enum InstallError {
    /// After the installation the toolchain is still not there.
    ToolchainNotInstallable { toolchain: String },
}

impl UpdateStatus {
    /// The object behind the reference, when an installation or an update put one there.
    pub fn into_obj(self) -> (r: Option<String>)
        ensures
            r == match self {
                UpdateStatus::Installed { obj } => obj,
                UpdateStatus::Updated { obj, .. } => obj,
                UpdateStatus::Unchanged => None,
            },
    {
        match self {
            UpdateStatus::Installed { obj } => obj,
            UpdateStatus::Updated { obj, .. } => obj,
            UpdateStatus::Unchanged => None,
        }
    }
}

/// Whether an existing toolchain at the reference path is removed before an
/// installation: only a linked toolchain replaces what is there.
pub fn uninstall_first(is_link: bool, reference_exists: bool) -> (r: bool)
    ensures
        r == (reference_exists && is_link),
{
    reference_exists && is_link
}

/// The outcome of a distribution installation: `installed` is none when nothing
/// changed, else the object installed; `old_version` is the rustc version of
/// the toolchain being updated, none for a fresh installation.
pub fn dist_status(installed: Option<Option<String>>, old_version: Option<String>) -> (r:
    UpdateStatus)
    ensures
        r == match installed {
            None => UpdateStatus::Unchanged,
            Some(obj) => match old_version {
                Some(from) => UpdateStatus::Updated { from, obj },
                None => UpdateStatus::Installed { obj },
            },
        },
{
    match installed {
        None => UpdateStatus::Unchanged,
        Some(obj) => match old_version {
            Some(from) => UpdateStatus::Updated { from, obj },
            None => UpdateStatus::Installed { obj },
        },
    }
}

/// The final check of an installation: it succeeds with `status` only when the
/// toolchain is there afterwards.
pub fn check_installed(status: UpdateStatus, toolchain_exists: bool, toolchain: String) -> (r:
    Result<UpdateStatus, InstallError>)
    ensures
        toolchain_exists ==> r == Ok::<UpdateStatus, InstallError>(status),
        !toolchain_exists ==> r == Err::<UpdateStatus, InstallError>(
            InstallError::ToolchainNotInstallable { toolchain },
        ),
{
    if toolchain_exists {
        Ok(status)
    } else {
        Err(InstallError::ToolchainNotInstallable { toolchain })
    }
}

} // verus!
