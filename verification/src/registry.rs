//! Plain-value models of the remote registry's entities.
//!
//! The remote service reports every field optionally; absence is ordinary
//! data, not an error.  Push times are carried as whole epoch seconds; an
//! absent push time sorts as if the image had been pushed at epoch `0`.

use vstd::prelude::*;
use vstd::string::StringExecFns;

verus! {

/// One container image repository as the listing reports it.
#[derive(Clone, Debug, PartialEq, Eq)]
pub struct Repository {
    /// The repository's name, when the service reported one.
    pub name: Option<String>,
    /// The repository's URI, when the service reported one.
    pub uri: Option<String>,
}

/// One image manifest as the listing reports it.
#[derive(Clone, Debug, PartialEq, Eq)]
pub struct Image {
    /// The content-addressed digest, when the service reported one.
    pub digest: Option<String>,
    /// Push time in whole epoch seconds; absent sorts as epoch `0`.
    pub pushed_at: Option<i64>,
    /// Image size in bytes, when the service reported one.
    pub size_bytes: Option<i64>,
}

/// The rendering-boundary helper for optional text fields: the value when
/// present, the fixed sentinel `"n/a"` when absent.
pub fn display_or_default(field: &Option<String>) -> (s: String)
    ensures
        match field {
            Some(v) => s@ == v@,
            None => s@ == "n/a"@,
        },
{
    match field {
        Some(v) => v.clone(),
        None => String::from_str("n/a"),
    }
}

} // verus!
