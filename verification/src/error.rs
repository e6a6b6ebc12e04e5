use local_ip_address::Error as LocalIpError;
use reqwest::Error as HttpError;
use std::io::Error as IoError;
use vstd::prelude::*;

use crate::text::decimal;

verus! {

#[verifier::external_type_specification]
#[verifier::external_body]
pub struct ExHttpError(HttpError);

#[verifier::external_type_specification]
#[verifier::external_body]
pub struct ExIoError(IoError);

#[verifier::external_type_specification]
#[verifier::external_body]
pub struct ExLocalIpError(LocalIpError);

/// The text that `http::StatusCode`'s `Display` gives a valid status code:
/// the code, a space, and its canonical reason phrase.
pub uninterp spec fn status_display(code: u16) -> Seq<char>;

/// The code of the HTTP status that a `reqwest::Error` carries, if any: what
/// `reqwest::Error::status` returns, which depends on the error alone.
pub uninterp spec fn http_error_status(e: HttpError) -> Option<u16>;

/// Calls `reqwest::Error::status` and returns the code of the status the
/// error carries, if any. The result is named `http_error_status(*e)`; a
/// `StatusCode` only ever holds a code from 100 to 999.
#[verifier::external_body]
fn reqwest_error_status(e: &HttpError) -> (r: Option<u16>)
    ensures
        r == http_error_status(*e),
        r matches Some(c) ==> 100 <= c <= 999,
{
    match e.status() {
        Some(s) => Some(s.as_u16()),
        None => None,
    }
}

/// Calls `reqwest::StatusCode::from_u16` and formats the status code with its
/// `Display` impl, which writes the code in decimal, a space, and the reason
/// phrase. The text is named `status_display(code)`; of it this states only
/// that it begins with the three digits of the code and a space.
#[verifier::external_body]
fn status_text(code: u16) -> (r: String)
    requires
        100 <= code <= 999,
    ensures
        r@ == status_display(code),
        r@.len() >= 4 && r@.take(4) == decimal(code as nat) + seq![' '],
{
    match reqwest::StatusCode::from_u16(code) {
        Ok(s) => s.to_string(),
        Err(_) => String::new(),
    }
}

/// The errors of the Qobuz client.
#[derive(Debug)]
pub enum Error {
    ActiveSecret,
    AppID,
    Login,
    Create,
    Api { message: String },
    DeserializeJSON { message: String },
    StreamError { message: String },
}

/// The message shown for an error.
pub open spec fn error_text(e: Error) -> Seq<char> {
    match e {
        Error::ActiveSecret => "Failed to get a usable secret from Qobuz."@,
        Error::AppID => "Failed to get an app id from Qobuz."@,
        Error::Login => "Failed to login."@,
        Error::Create => "Failed to create client"@,
        Error::Api { message } => message@,
        Error::DeserializeJSON { message } => "Failed to deserialize json: "@ + message@,
        Error::StreamError { message } => "Unable to start stream: "@ + message@,
    }
}

/// The message of an API error built from an HTTP failure that carried the
/// status code `status`, or none.
pub open spec fn api_message(status: Option<u16>) -> Seq<char> {
    match status {
        Some(c) => status_display(c),
        None => "Unable to connect to Qobuz api"@,
    }
}

impl Error {
    /// The message shown for this error.
    pub fn message(&self) -> (s: String)
        ensures
            s@ == error_text(*self),
    {
        match self {
            Error::ActiveSecret => String::from_str("Failed to get a usable secret from Qobuz."),
            Error::AppID => String::from_str("Failed to get an app id from Qobuz."),
            Error::Login => String::from_str("Failed to login."),
            Error::Create => String::from_str("Failed to create client"),
            Error::Api { message } => message.clone(),
            Error::DeserializeJSON { message } => {
                let mut s = String::from_str("Failed to deserialize json: ");
                s.append(message.as_str());
                s
            },
            Error::StreamError { message } => {
                let mut s = String::from_str("Unable to start stream: ");
                s.append(message.as_str());
                s
            },
        }
    }

    /// The API error for an HTTP failure that carried the status code
    /// `status` (from 100 to 999), or none.
    pub fn from_http_status(status: Option<u16>) -> (e: Error)
        requires
            status matches Some(c) ==> 100 <= c <= 999,
        ensures
            e matches Error::Api { message } && message@ == api_message(status),
            status matches Some(c) ==> e matches Error::Api { message } && message@.len() >= 4
                && message@.take(4) == decimal(c as nat) + seq![' '],
    {
        match status {
            Some(code) => Error::Api { message: status_text(code) },
            None => Error::Api { message: String::from_str("Unable to connect to Qobuz api") },
        }
    }
}

/// An HTTP failure becomes an API error whose message is the text of the
/// status it carried, or a note that the API could not be reached.
impl From<HttpError> for Error {
    fn from(error: HttpError) -> (e: Error)
        ensures
            e matches Error::Api { message } && message@ == api_message(http_error_status(error)),
    {
        let status = reqwest_error_status(&error);
        Error::from_http_status(status)
    }
}

/// Through `From`, an HTTP failure is the API error for the status it carries.
/// The message is a `String`, which a spec function cannot build, so the
/// conversion's own `ensures` states it and this spec claims nothing.
impl vstd::std_specs::convert::FromSpecImpl<HttpError> for Error {
    open spec fn obeys_from_spec() -> bool {
        false
    }

    open spec fn from_spec(v: HttpError) -> Error {
        arbitrary()
    }
}

/// An I/O failure is reported as a failed login.
impl From<IoError> for Error {
    fn from(error: IoError) -> (e: Error) {
        Error::Login
    }
}

impl vstd::std_specs::convert::FromSpecImpl<IoError> for Error {
    open spec fn obeys_from_spec() -> bool {
        true
    }

    open spec fn from_spec(v: IoError) -> Error {
        Error::Login
    }
}

/// Failing to find the local IP address is reported as a failed login.
impl From<LocalIpError> for Error {
    fn from(error: LocalIpError) -> (e: Error) {
        Error::Login
    }
}

impl vstd::std_specs::convert::FromSpecImpl<LocalIpError> for Error {
    open spec fn obeys_from_spec() -> bool {
        true
    }

    open spec fn from_spec(v: LocalIpError) -> Error {
        Error::Login
    }
}

} // verus!
