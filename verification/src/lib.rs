//! A verified catalog of directories and documents that mirrors a tree of
//! files on disk.
//!
//! The catalog holds two relations: directories, which form a forest rooted
//! at the configured root paths, and documents, each owned by exactly one
//! directory.  The store ([`db::Database`]) exposes typed read and write
//! operations over those relations; the service ([`state::DocumentService`])
//! reconciles the catalog against what a filesystem walk reported and
//! resolves caller-supplied identifiers to document paths.

pub mod db;
pub mod error;
pub mod ids;
pub mod models;
pub mod state;
