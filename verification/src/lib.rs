//! Transactional installation logic for toolchain components: installation
//! prefixes and their A/B addressing, object locks, object identifiers, and
//! transactions that stage changes in a temporary directory and either commit
//! them to the installation prefix or roll them back.
pub mod dist;
pub mod fs_model;
pub mod install;
pub mod path;
