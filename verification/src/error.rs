use vstd::prelude::*;

verus! {

/// Lets `std::str::Utf8Error` stand in the library's error type.
#[verifier::external_type_specification]
#[verifier::external_body]
pub struct ExUtf8Error(std::str::Utf8Error);

/// Lets `std::io::Error` stand in the library's error type.
#[verifier::external_type_specification]
#[verifier::external_body]
pub struct ExIoError(std::io::Error);

/// The two ways a merge can fail.
#[derive(Debug)]
pub enum MergeError {
    Io(std::io::Error),
    Utf8 { position: usize, cause: std::str::Utf8Error },
}

impl From<std::io::Error> for MergeError {
    fn from(e: std::io::Error) -> (r: Self) {
        MergeError::Io(e)
    }
}

impl vstd::std_specs::convert::FromSpecImpl<std::io::Error> for MergeError {
    open spec fn obeys_from_spec() -> bool {
        true
    }

    open spec fn from_spec(e: std::io::Error) -> Self {
        MergeError::Io(e)
    }
}

} // verus!
