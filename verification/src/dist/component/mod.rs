//! Installing components into a prefix: object locks, object identifiers and
//! transactions.
pub mod lock;
pub mod obj;
pub mod transaction;
