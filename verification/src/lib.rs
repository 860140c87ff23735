//! Verified core of a local-first Markdown vault: frontmatter scanning,
//! note projection and search, interop snapshots, registry and path rules,
//! the index freshness decisions, and the local IPC protocol checks.

pub mod frontmatter;
pub mod text;
pub mod digest;
pub mod error;
pub mod fingerprint;
pub mod paths;
pub mod vault;
pub mod yaml;
pub mod frontmatter_scalar;
pub mod index;
pub mod store;
pub mod interop;
pub mod snapshot;
pub mod xdg;
pub mod registry;
pub mod protocol;
pub mod service;
pub mod present;
pub mod observation;
pub mod recovery;
