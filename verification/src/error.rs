//! Structured error conventions for NovaDB.
use vstd::prelude::*;

verus! {

#[verifier::external_type_specification]
#[verifier::external_body]
pub struct ExIoError(std::io::Error);

/// Top-level structured NovaDB error.
#[derive(Debug)]
pub enum NovaError {
    /// Unexpected internal state; indicates a bug rather than bad input.
    Internal(String),
    /// Invalid argument / malformed input from an external caller.
    InvalidArgument(String),
    /// Referenced resource does not exist.
    NotFound(String),
    /// A resource cannot be created because it already exists.
    AlreadyExists(String),
    /// The requested operation is not supported.
    Unsupported(String),
    /// The storage layer rejected an operation.
    Storage(String),
    /// Corruption was detected in persisted data or in input that must be valid.
    Corruption(String),
    /// Authentication or authorization is required and/or failed.
    Auth(String),
    /// A permission check failed for an authenticated principal.
    PermissionDenied(String),
    /// An operation was attempted in a state where it is not valid.
    InvalidState(String),
    /// An operation exceeded its allowed time budget.
    Timeout,
    /// An I/O error occurred.
    Io(std::io::Error),
}

/// Result alias used across NovaDB.
pub type Result<T> = std::result::Result<T, NovaError>;

/// The label that precedes the message of each error kind.
pub open spec fn error_label(e: NovaError) -> Seq<char> {
    match e {
        NovaError::Internal(_) => "internal error: "@,
        NovaError::InvalidArgument(_) => "invalid argument: "@,
        NovaError::NotFound(_) => "not found: "@,
        NovaError::AlreadyExists(_) => "already exists: "@,
        NovaError::Unsupported(_) => "unsupported: "@,
        NovaError::Storage(_) => "storage error: "@,
        NovaError::Corruption(_) => "corruption: "@,
        NovaError::Auth(_) => "authorization error: "@,
        NovaError::PermissionDenied(_) => "permission denied: "@,
        NovaError::InvalidState(_) => "invalid state: "@,
        NovaError::Timeout => "operation timed out"@,
        NovaError::Io(_) => "io error: "@,
    }
}

/// The message carried by an error kind (empty for `Timeout`).
pub open spec fn error_detail(e: NovaError) -> Seq<char> {
    match e {
        NovaError::Internal(m) => m@,
        NovaError::InvalidArgument(m) => m@,
        NovaError::NotFound(m) => m@,
        NovaError::AlreadyExists(m) => m@,
        NovaError::Unsupported(m) => m@,
        NovaError::Storage(m) => m@,
        NovaError::Corruption(m) => m@,
        NovaError::Auth(m) => m@,
        NovaError::PermissionDenied(m) => m@,
        NovaError::InvalidState(m) => m@,
        NovaError::Timeout => Seq::empty(),
        NovaError::Io(_) => Seq::empty(),
    }
}

/// Calls the `Display` implementation of `std::io::Error`; what the text
/// says is left to the standard library.
#[verifier::external_body]
fn io_error_text(e: &std::io::Error) -> String {
    format!("{e}")
}

impl From<std::io::Error> for NovaError {
    fn from(e: std::io::Error) -> (r: NovaError) {
        NovaError::Io(e)
    }
}

impl vstd::std_specs::convert::FromSpecImpl<std::io::Error> for NovaError {
    open spec fn obeys_from_spec() -> bool {
        true
    }

    open spec fn from_spec(e: std::io::Error) -> NovaError {
        NovaError::Io(e)
    }
}

impl NovaError {
    /// The display text: a label for the kind, then the message. For an I/O
    /// error the message is the standard library's text for it.
    pub fn to_string(&self) -> (r: String)
        ensures
            !(*self is Io) ==> r@ == error_label(*self) + error_detail(*self),
    {
        let mut out = String::new();
        let (label, detail): (&str, &str) = match self {
            NovaError::Internal(m) => ("internal error: ", m.as_str()),
            NovaError::InvalidArgument(m) => ("invalid argument: ", m.as_str()),
            NovaError::NotFound(m) => ("not found: ", m.as_str()),
            NovaError::AlreadyExists(m) => ("already exists: ", m.as_str()),
            NovaError::Unsupported(m) => ("unsupported: ", m.as_str()),
            NovaError::Storage(m) => ("storage error: ", m.as_str()),
            NovaError::Corruption(m) => ("corruption: ", m.as_str()),
            NovaError::Auth(m) => ("authorization error: ", m.as_str()),
            NovaError::PermissionDenied(m) => ("permission denied: ", m.as_str()),
            NovaError::InvalidState(m) => ("invalid state: ", m.as_str()),
            NovaError::Timeout => ("operation timed out", ""),
            NovaError::Io(e) => {
                let text = io_error_text(e);
                crate::text::push_str(&mut out, "io error: ");
                crate::text::push_str(&mut out, text.as_str());
                return out;
            },
        };
        crate::text::push_str(&mut out, label);
        crate::text::push_str(&mut out, detail);
        proof {
            reveal_strlit("");
        }
        assert(out@ =~= error_label(*self) + error_detail(*self));
        out
    }

    /// Returns `true` if the error indicates detected data corruption.
    pub fn is_corruption(&self) -> (r: bool)
        ensures
            r == (*self is Corruption),
    {
        match self {
            NovaError::Corruption(_) => true,
            _ => false,
        }
    }
}

} // verus!
