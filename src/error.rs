use vstd::prelude::*;

verus! {

/// The HTTP client's error: a transport, status or body-decoding failure.
#[verifier::external_type_specification]
#[verifier::external_body]
pub struct ExReqwestError(reqwest::Error);

/// Why an operation failed.
#[derive(Debug)]
pub enum RobloxError {
    /// The request or the decoding of its response failed.
    Reqwest(reqwest::Error),
    /// The response lacked a field that the operation requires.
    MissingField,
}

impl From<reqwest::Error> for RobloxError {
    fn from(err: reqwest::Error) -> Self {
        RobloxError::Reqwest(err)
    }
}

impl vstd::std_specs::convert::FromSpecImpl<reqwest::Error> for RobloxError {
    open spec fn obeys_from_spec() -> bool {
        true
    }

    open spec fn from_spec(err: reqwest::Error) -> Self {
        RobloxError::Reqwest(err)
    }
}

} // verus!
