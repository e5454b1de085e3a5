//! Why a load is given up.

use vstd::prelude::*;

verus! {

/// The ways in which loading a graph fails. Each is final: nothing is
/// retried, and no graph comes out of a failed load.
#[derive(Debug, Clone, Copy, PartialEq, Eq, Structural)]
pub enum LoadError {
    /// The source yielded an object that could not be decoded.
    Decode,
    /// The source could not be set back to its start.
    Rewind,
    /// A way names a node that the graph does not hold.
    DanglingReference,
}

impl LoadError {
    /// A short text for the error.
    pub fn describe(&self) -> (text: &'static str)
        ensures
            text@ == match *self {
                LoadError::Decode => "an object of the source could not be decoded"@,
                LoadError::Rewind => "the source could not be rewound"@,
                LoadError::DanglingReference => "a way refers to a node that was not loaded"@,
            },
    {
        match self {
            LoadError::Decode => "an object of the source could not be decoded",
            LoadError::Rewind => "the source could not be rewound",
            LoadError::DanglingReference => "a way refers to a node that was not loaded",
        }
    }
}

} // verus!
