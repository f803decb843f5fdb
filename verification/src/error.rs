//! Shared error helpers for consistent exit codes.

use vstd::prelude::*;

verus! {

/// Represents a user input error (invalid flags, missing paths, etc.).
#[derive(Debug)]
pub struct UserInputError(pub String);

impl UserInputError {
    /// Convenience constructor.
    #[must_use]
    pub fn new(message: String) -> (r: Self)
        ensures
            r.0@ == message@,
    {
        UserInputError(message)
    }
}

} // verus!
