//! Installation prefixes and the components installed into them.
pub mod component;
pub mod prefix;
