//! Core of an HTTP proxy that serves filtered views of git repositories.
//!
//! A virtual repository is materialized on demand by applying a declarative
//! filter expression to upstream history.  This crate holds the verified
//! core: the filter language and its application to trees and commits, the
//! persistent commit-to-commit filter cache, the rewriter that materializes
//! filtered refs, the namespace bookkeeping, and the pure decision logic of
//! the request dispatcher, fetch coordinator and update hook.  All I/O
//! (HTTP, the on-disk object database, files) stays outside, handing this
//! crate plain values.

pub mod auth;
pub mod cache;
pub mod fetch;
pub mod gerrit;
pub mod hook;
pub mod codec;
pub mod digest;
pub mod filters;
pub mod odb;
pub mod oid;
pub mod refs;
pub mod rewrite;
pub mod urls;
pub mod tree;
