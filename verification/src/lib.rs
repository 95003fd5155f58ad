//! Persistent application state for a mod manager: a record of installed
//! mods plus optional platform configuration, stored as a compact binary
//! snapshot at a path resolved from the user's environment.
//!
//! The library is pure: it models the storage file as a value, so the whole
//! read / repair / write lifecycle is verified. An outer layer performs the
//! actual filesystem and environment access and hands the results in.

pub mod data;
pub mod codec;
pub mod paths;
pub mod store;
