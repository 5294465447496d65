//! Error taxonomy of the package manager.

use vstd::prelude::*;

verus! {

/// Everything that can go wrong while resolving, fetching or integrating a
/// bundle. `QuotaExceeded` carries the whole minutes left until the code
/// host's request budget resets.
#[derive(Clone, Copy, Debug, PartialEq, Eq, Structural)]
pub enum Error {
    NetworkFailure,
    NotFound,
    QuotaExceeded { minutes: i64 },
    ParseFailure,
    FilesystemFailure,
    IntegrationFailure,
}

impl Error {
    /// A short description for the user-facing layer.
    pub fn message(&self) -> (r: &'static str)
    {
        match self {
            Error::NetworkFailure => "network request failed",
            Error::NotFound => "no results",
            Error::QuotaExceeded { .. } => "rate limit exceeded, wait and try again",
            Error::ParseFailure => "malformed version or file name",
            Error::FilesystemFailure => "filesystem operation failed",
            Error::IntegrationFailure => "bundle is missing a desktop entry or icon",
        }
    }
}

} // verus!
