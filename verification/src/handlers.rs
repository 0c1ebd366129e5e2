//! The operations that the transport maps requests to.

pub mod entries;
pub mod projects;
