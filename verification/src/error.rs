//! Diagnostics shared by every compile stage.

use crate::text::join3;
use vstd::prelude::*;

verus! {

/// A compile-stage error tied to a specific asset path.
#[derive(Debug)]
pub struct AssetError {
    pub path: String,
    pub message: String,
}

pub type AssetResult<T> = Result<T, AssetError>;

impl AssetError {
    /// The error in one line: the path, a colon and the message.
    pub fn describe(&self) -> (r: String)
        ensures
            r@ == self.path@ + ": "@ + self.message@,
    {
        join3(self.path.as_str(), ": ", self.message.as_str())
    }
}

/// The result is the error with this path and message.
pub open spec fn fails_with<T>(r: AssetResult<T>, path: Seq<char>, message: Seq<char>) -> bool {
    r matches Err(e) && e.path@ == path && e.message@ == message
}

/// An error result.
pub fn err<T>(path: &str, message: &str) -> (r: AssetResult<T>)
    ensures
        fails_with(r, path@, message@),
{
    Err(AssetError { path: path.to_owned(), message: message.to_owned() })
}

} // verus!
