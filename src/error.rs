//! Why an operation on the collection failed.

use vstd::prelude::*;

verus! {

/// The failures of the bookmark operations, each with the name or URL it
/// concerns.
#[derive(Clone, Debug, PartialEq, Eq)]
pub enum BookmarkError {
    /// A bookmark of this name exists, and replacing it was not asked for.
    AlreadyExists(String),
    /// No bookmark of this name exists.
    NotFound(String),
    /// This URL does not have the `scheme://host` form.
    MalformedUrl(String),
    /// This editor command line cannot be split into words.
    InvalidCommand(String),
    /// The editor command line holds no words.
    EmptyCommand,
}

} // verus!
