//! The errors of the store.

use vstd::prelude::*;
use vstd::std_specs::convert::FromSpecImpl;

verus! {

/// `std::io::Error`, the error that the operating system's input and
/// output give, taken as it is: nothing is known of what it holds.
#[verifier::external_type_specification]
#[verifier::external_body]
pub struct ExIoError(std::io::Error);

/// What can go wrong in the store.
#[derive(Debug)]
pub enum Error {
    /// `path` does not name what the store needs there.
    DBFile { path: String },
    /// The file system refused an operation.
    IOError { error: std::io::Error },
}

impl From<std::io::Error> for Error {
    fn from(error: std::io::Error) -> (e: Self) {
        Error::IOError { error }
    }
}

impl FromSpecImpl<std::io::Error> for Error {
    open spec fn obeys_from_spec() -> bool {
        true
    }

    open spec fn from_spec(error: std::io::Error) -> Self {
        Error::IOError { error }
    }
}

} // verus!
