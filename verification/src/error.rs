//! Errors of the GDTF Share client.
use vstd::prelude::*;

use crate::text::{decimal, push_decimal};
use serde_json::Error as JsonError;
use vstd::string::to_string_from_display_ensures;

verus! {

/// The error serde_json reports when it cannot encode or decode JSON.
#[verifier::external_type_specification]
#[verifier::external_body]
pub struct ExJsonError(JsonError);

/// What can go wrong when talking to the GDTF Share.
#[derive(Debug)]
pub enum Error {
    /// The JSON of a request or response could not be handled.
    Json(JsonError),
    /// The server answered 401.
    Unauthorized,
    /// The server answered 400.
    BadRequest,
    /// The server answered 404.
    NotFound,
    /// The server answered with a status the call does not expect.
    UnexpectedStatusCode(u16),
    /// The login answer carried no `Set-Cookie` header.
    MissingCookie,
    /// The request could not be made (transport or network failure).
    ClientError(String),
    /// The client is not logged in.
    NoSession,
}

/// A `Result` whose error is the client's [`Error`].
pub type Result<T> = std::result::Result<T, Error>;

impl Error {
    /// The message that describes the error, as it is displayed.
    pub fn to_string(&self) -> (s: String)
        ensures
            match self {
                Error::Json(e) => exists|detail: String|
                    to_string_from_display_ensures::<JsonError>(e, detail) && s@ == "JSON Error: "@ + detail@,
                Error::Unauthorized => s@ == "Unauthorized (401)"@,
                Error::BadRequest => s@ == "Bad Request (400)"@,
                Error::NotFound => s@ == "Not Found (404)"@,
                Error::UnexpectedStatusCode(c) => s@ == "Unexpected status code: "@ + decimal(
                    *c as nat,
                ),
                Error::MissingCookie => s@ == "Set-Cookie header was missing from the response"@,
                Error::ClientError(m) => s@ == "Client Error: "@ + m@,
                Error::NoSession => s@ == "No session available. Please login first."@,
            },
    {
        match self {
            Error::Json(e) => {
                let mut s = "JSON Error: ".to_string();
                let detail = e.to_string();
                s.append(detail.as_str());
                s
            },
            Error::Unauthorized => "Unauthorized (401)".to_string(),
            Error::BadRequest => "Bad Request (400)".to_string(),
            Error::NotFound => "Not Found (404)".to_string(),
            Error::UnexpectedStatusCode(c) => {
                let mut s = "Unexpected status code: ".to_string();
                push_decimal(&mut s, *c as u64);
                s
            },
            Error::MissingCookie => "Set-Cookie header was missing from the response".to_string(),
            Error::ClientError(m) => {
                let mut s = "Client Error: ".to_string();
                s.append(m.as_str());
                s
            },
            Error::NoSession => "No session available. Please login first.".to_string(),
        }
    }
}

} // verus!
