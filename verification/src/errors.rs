//! The error taxonomy of the walking boundary: a requested root that does
//! not exist, reported with the offending path, or an underlying
//! filesystem failure, carried as its message text.

use vstd::prelude::*;

verus! {

/// An error raised while walking the requested roots.
#[derive(Debug)]
pub enum WalkError {
    /// An underlying filesystem failure, carried as its message text.
    Io(String),
    /// A requested root does not exist; carries the offending path.
    RootNotFound(String),
}

impl WalkError {
    /// The user-visible message for this error.
    pub fn message(&self) -> (r: String)
        ensures
            (match self {
                WalkError::Io(m) => r@ == m@,
                WalkError::RootNotFound(p) => r@ == "root path not found: "@ + p@,
            }),
    {
        match self {
            WalkError::Io(m) => m.clone(),
            WalkError::RootNotFound(p) => {
                let mut r = "root path not found: ".to_owned();
                r.append(p.as_str());
                r
            },
        }
    }
}

} // verus!
