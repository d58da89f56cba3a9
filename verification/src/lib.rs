//! A versioned remote-filesystem library: a hierarchical namespace of named
//! objects stored in an embedded key-value store, with immutable numbered
//! versions whose bytes live in a flat directory of blob files.
//!
//! The `engine` module holds the object engine (make-directory, upload,
//! append, download, delete, list); `kvstore` and `blobstore` wrap the
//! embedded database and the blob directory behind trusted contracts;
//! `wire` and `records` define the on-disk record formats; `normalize`
//! carries the name-normalization boundary; `auth` decides authentication
//! attempts; `laws` states and proves the library-wide invariants.

pub mod wire;
pub mod time64;
pub mod perms;
pub mod records;
pub mod normalize;
pub mod kvstore;
pub mod blobstore;
pub mod engine;
pub mod laws;
pub mod auth;
pub mod config;
