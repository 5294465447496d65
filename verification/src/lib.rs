//! Verified core of a single-user AppImage package manager.
//!
//! Installed bundles carry their whole provenance (name, origin, version) in
//! their file name; this crate holds the codec for that encoding, the
//! semantic-version model and its precedence order, the update and install
//! decisions, and the desktop-entry integration logic. Network and filesystem
//! access stay outside; callers hand the functions plain values.

pub mod bytes;
pub mod error;
pub mod fetch;
pub mod identity;
pub mod index;
pub mod integrate;
pub mod links;
pub mod rate;
pub mod release;
pub mod search;
pub mod update;
pub mod version;
