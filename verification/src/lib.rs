//! A sandboxed file-storage engine: logical paths are resolved against a
//! fixed storage root so that no operation can escape it, uploads are checked
//! against an extension allow-list and a size cap, and every operation on the
//! directory tree returns fresh metadata descriptors.

pub mod errors;
pub mod paths;
pub mod policy;
pub mod storage;
pub mod descriptor;
pub mod config;
pub mod files;
pub mod batch;
pub mod search;
pub mod auth;
