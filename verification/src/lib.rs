//! safetar: a tar-compatible archiver library whose path validation, quota
//! accounting and manifest engine carry machine-checked contracts.

pub mod outside;
pub mod pathlex;
pub mod policy;
pub mod manifest;
pub mod error;
pub mod compress;
pub mod cli;
pub mod archive;
pub mod manifest_json;
