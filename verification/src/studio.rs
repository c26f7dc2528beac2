//! The Studio desktop commands' request checks and replies: bounded
//! timeouts, queries and response sizes, and the error kinds the user
//! interface shows.
use vstd::prelude::*;

use crate::error::{error_detail, error_label, NovaError};
use crate::text::{chars_of, is_whitespace, unicode_whitespace};

verus! {

/// Longest query, in bytes, Studio sends.
pub const MAX_QUERY_BYTES: usize = 1_048_576;

/// Longest timeout, in milliseconds, a command may ask for.
pub const MAX_TIMEOUT_MILLIS: u64 = 60_000;

/// Largest response, in bytes, a command may accept.
pub const MAX_RESPONSE_BYTES: usize = 16_777_216;

/// A query to run against a server.
pub struct ExecuteRequest {
    pub address: String,
    pub token: Option<String>,
    pub query: String,
    pub timeout_millis: u64,
    pub maximum_response_bytes: usize,
}

/// The reply to a connection command.
pub struct ConnectionResponse {
    pub address: String,
    pub mode: &'static str,
    pub message: String,
}

/// An error as the user interface shows it: a kind and a message.
pub struct CommandError {
    pub kind: &'static str,
    pub message: String,
}

/// The kind shown for each error.
pub open spec fn error_kind(e: NovaError) -> Seq<char> {
    match e {
        NovaError::InvalidArgument(_) => "InvalidArgument"@,
        NovaError::NotFound(_) => "NotFound"@,
        NovaError::AlreadyExists(_) => "AlreadyExists"@,
        NovaError::Unsupported(_) => "Unsupported"@,
        NovaError::Storage(_) => "Storage"@,
        NovaError::Corruption(_) => "Protocol"@,
        NovaError::Auth(_) => "Authentication"@,
        NovaError::PermissionDenied(_) => "PermissionDenied"@,
        NovaError::InvalidState(_) => "InvalidState"@,
        NovaError::Timeout => "Timeout"@,
        NovaError::Io(_) => "Network"@,
        NovaError::Internal(_) => "Internal"@,
    }
}

impl CommandError {
    /// The error shown for a NovaDB error: its kind, and its display text as
    /// the message.
    pub fn from(error: NovaError) -> (r: CommandError)
        ensures
            r.kind@ == error_kind(error),
            !(error is Io) ==> r.message@ == error_label(error) + error_detail(error),
    {
        let kind: &'static str = match &error {
            NovaError::InvalidArgument(_) => "InvalidArgument",
            NovaError::NotFound(_) => "NotFound",
            NovaError::AlreadyExists(_) => "AlreadyExists",
            NovaError::Unsupported(_) => "Unsupported",
            NovaError::Storage(_) => "Storage",
            NovaError::Corruption(_) => "Protocol",
            NovaError::Auth(_) => "Authentication",
            NovaError::PermissionDenied(_) => "PermissionDenied",
            NovaError::InvalidState(_) => "InvalidState",
            NovaError::Timeout => "Timeout",
            NovaError::Io(_) => "Network",
            NovaError::Internal(_) => "Internal",
        };
        CommandError { kind, message: error.to_string() }
    }

    /// An invalid-argument error with `message`.
    pub fn invalid(message: String) -> (r: CommandError)
        ensures
            r.kind@ == "InvalidArgument"@,
            r.message@ == message@,
    {
        CommandError { kind: "InvalidArgument", message }
    }

    /// An internal error with `message`.
    pub fn internal(message: String) -> (r: CommandError)
        ensures
            r.kind@ == "Internal"@,
            r.message@ == message@,
    {
        CommandError { kind: "Internal", message }
    }
}

/// The reply announcing the session-only demo server at `address`.
pub fn demo_response(address: &str) -> (r: ConnectionResponse)
    ensures
        r.address@ == address@,
        r.mode@ == "demo"@,
        r.message@ == "Session-only demo server is running; data is not persisted"@,
{
    ConnectionResponse {
        address: address.to_owned(),
        mode: "demo",
        message: "Session-only demo server is running; data is not persisted".to_owned(),
    }
}

/// Checks a timeout: from one millisecond to `MAX_TIMEOUT_MILLIS`.
pub fn validate_timeout(timeout_millis: u64) -> (r: Result<(), CommandError>)
    ensures
        r is Ok <==> 1 <= timeout_millis <= MAX_TIMEOUT_MILLIS,
        r matches Err(e) ==> e.kind@ == "InvalidArgument"@ && e.message@
            == "timeout must be between 1 and 60000 milliseconds"@,
{
    if timeout_millis == 0 || timeout_millis > MAX_TIMEOUT_MILLIS {
        return Err(CommandError::invalid("timeout must be between 1 and 60000 milliseconds".to_owned()));
    }
    Ok(())
}

/// Every character is whitespace (the text trims to nothing).
pub open spec fn blank(s: Seq<char>) -> bool {
    forall|i: int| 0 <= i < s.len() ==> unicode_whitespace(#[trigger] s[i])
}

/// Whether a text trims to nothing.
fn is_blank(s: &str) -> (r: bool)
    ensures
        r == blank(s@),
{
    let chars = chars_of(s);
    let mut i: usize = 0;
    while i < chars.len()
        invariant
            i <= chars@.len(),
            chars@ == s@,
            forall|j: int| 0 <= j < i ==> unicode_whitespace(#[trigger] s@[j]),
        decreases chars@.len() - i,
    {
        if !is_whitespace(chars[i]) {
            return false;
        }
        i = i + 1;
    }
    true
}

/// Checks a query request before anything is sent: the timeout, a query
/// that is not blank and at most `MAX_QUERY_BYTES` long, and a response
/// limit from one byte to `MAX_RESPONSE_BYTES`; in that order, each
/// failure an invalid-argument error.
pub fn validate_execute_request(request: &ExecuteRequest) -> (r: Result<(), CommandError>)
    ensures
        r is Ok <==> (1 <= request.timeout_millis <= MAX_TIMEOUT_MILLIS && !blank(request.query@)
            && vstd::utf8::encode_utf8(request.query@).len() <= MAX_QUERY_BYTES && 1 <= request.maximum_response_bytes
            <= MAX_RESPONSE_BYTES),
        r matches Err(e) ==> e.kind@ == "InvalidArgument"@ && e.message@ == if !(1 <= request.timeout_millis
            <= MAX_TIMEOUT_MILLIS) {
            "timeout must be between 1 and 60000 milliseconds"@
        } else if blank(request.query@) {
            "NovaQL query cannot be empty"@
        } else if vstd::utf8::encode_utf8(request.query@).len() > MAX_QUERY_BYTES {
            "NovaQL query exceeds 1048576 bytes"@
        } else {
            "response limit must be between 1 and 16777216 bytes"@
        },
{
    match validate_timeout(request.timeout_millis) {
        Ok(()) => {},
        Err(e) => {
            return Err(e);
        },
    }
    if is_blank(request.query.as_str()) {
        return Err(CommandError::invalid("NovaQL query cannot be empty".to_owned()));
    }
    if request.query.as_str().as_bytes().len() > MAX_QUERY_BYTES {
        return Err(CommandError::invalid("NovaQL query exceeds 1048576 bytes".to_owned()));
    }
    if request.maximum_response_bytes == 0 || request.maximum_response_bytes > MAX_RESPONSE_BYTES {
        return Err(CommandError::invalid("response limit must be between 1 and 16777216 bytes".to_owned()));
    }
    Ok(())
}

} // verus!
