//! Locate a repository root nested under a search directory from a partial name.
//!
//! The crate holds the decisions of the tool: the scanner's handling of each
//! directory, the identity-stamped cache record, the configuration of default
//! rules and the resolver that narrows the discovered entries to one path.
//! Reading the filesystem and printing are left to the caller.

pub mod bytes;
pub mod scan;
pub mod cache;
pub mod config;
pub mod resolve;
