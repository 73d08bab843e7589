//! Error type shared by the whole library.

use vstd::prelude::*;

verus! {

/// `enough::StopReason`, carried through [`Error::Cancelled`] without looking inside.
#[verifier::external_type_specification]
#[verifier::external_body]
pub struct ExStopReason(enough::StopReason);

/// Everything that can go wrong while parsing, decoding or encoding a JPEG AI codestream.
#[derive(Debug, PartialEq, Eq)]
#[non_exhaustive]
pub enum Error {
    /// The input ended before a complete syntax element could be read.
    UnexpectedEof,
    /// The codestream violates the syntax. The string names the violated rule.
    InvalidData(&'static str),
    /// The codestream is valid but uses a feature this implementation does not support.
    Unsupported(&'static str),
    /// The stream does not conform to its declared profile or level.
    NonConforming(&'static str),
    /// A model checkpoint is missing, malformed, or has an unexpected tensor layout.
    Model(String),
    /// A caller-supplied argument is out of range.
    InvalidArgument(&'static str),
    /// A resource limit set by the caller would be exceeded.
    LimitExceeded(&'static str),
    /// A shared resource cannot admit the job right now; a retry may succeed.
    ResourceBusy(&'static str),
    /// The caller's stop token asked the operation to stop (cancelled or timed out).
    Cancelled(enough::StopReason),
}

/// Result of the library's fallible functions.
pub type Result<T> = core::result::Result<T, Error>;

/// The text that `enough::StopReason` displays for a reason.
pub uninterp spec fn stop_reason_text(reason: enough::StopReason) -> Seq<char>;

/// Calls the `Display` impl of `enough::StopReason`: a fixed text for each reason, and no
/// reason displays as anything but one of these two.
#[verifier::external_body]
fn stop_text(reason: &enough::StopReason) -> (text: String)
    ensures
        text@ == stop_reason_text(*reason),
        text@ == "operation cancelled"@ || text@ == "operation timed out"@,
{
    format!("{}", reason)
}

impl Error {
    /// What [`Error::message`] says before the detail of the error.
    pub open spec fn message_prefix(self) -> Seq<char> {
        match self {
            Error::UnexpectedEof => "unexpected end of data"@,
            Error::InvalidData(_) => "invalid codestream: "@,
            Error::Unsupported(_) => "unsupported: "@,
            Error::NonConforming(_) => "non-conforming codestream: "@,
            Error::Model(_) => "model error: "@,
            Error::InvalidArgument(_) => "invalid argument: "@,
            Error::LimitExceeded(_) => "limit exceeded: "@,
            Error::ResourceBusy(_) => "resource busy: "@,
            Error::Cancelled(_) => "stopped: "@,
        }
    }

    /// The detail that [`Error::message`] ends with.
    pub open spec fn message_detail(self) -> Seq<char> {
        match self {
            Error::UnexpectedEof => Seq::empty(),
            Error::InvalidData(s) => s@,
            Error::Unsupported(s) => s@,
            Error::NonConforming(s) => s@,
            Error::Model(s) => s@,
            Error::InvalidArgument(s) => s@,
            Error::LimitExceeded(s) => s@,
            Error::ResourceBusy(s) => s@,
            Error::Cancelled(r) => stop_reason_text(r),
        }
    }

    /// One line for a person to read: the kind of error, then its detail.
    pub fn message(&self) -> (text: String)
        ensures
            text@ == self.message_prefix() + self.message_detail(),
    {
        let mut text = String::new();
        match self {
            Error::UnexpectedEof => text.append("unexpected end of data"),
            Error::InvalidData(s) => {
                text.append("invalid codestream: ");
                text.append(s);
            },
            Error::Unsupported(s) => {
                text.append("unsupported: ");
                text.append(s);
            },
            Error::NonConforming(s) => {
                text.append("non-conforming codestream: ");
                text.append(s);
            },
            Error::Model(s) => {
                text.append("model error: ");
                text.append(s.as_str());
            },
            Error::InvalidArgument(s) => {
                text.append("invalid argument: ");
                text.append(s);
            },
            Error::LimitExceeded(s) => {
                text.append("limit exceeded: ");
                text.append(s);
            },
            Error::ResourceBusy(s) => {
                text.append("resource busy: ");
                text.append(s);
            },
            Error::Cancelled(r) => {
                text.append("stopped: ");
                let detail = stop_text(r);
                text.append(detail.as_str());
            },
        }
        assert(text@ =~= self.message_prefix() + self.message_detail());
        text
    }
}

impl Clone for Error {
    fn clone(&self) -> (copy: Self)
        ensures
            self !is Model ==> copy == *self,
            self matches Error::Model(s) ==> (copy matches Error::Model(t) && t@ == s@),
    {
        match self {
            Error::UnexpectedEof => Error::UnexpectedEof,
            Error::InvalidData(s) => Error::InvalidData(s),
            Error::Unsupported(s) => Error::Unsupported(s),
            Error::NonConforming(s) => Error::NonConforming(s),
            Error::Model(s) => Error::Model(s.clone()),
            Error::InvalidArgument(s) => Error::InvalidArgument(s),
            Error::LimitExceeded(s) => Error::LimitExceeded(s),
            Error::ResourceBusy(s) => Error::ResourceBusy(s),
            Error::Cancelled(reason) => Error::Cancelled(*reason),
        }
    }
}

impl From<enough::StopReason> for Error {
    fn from(reason: enough::StopReason) -> (error: Self) {
        Error::Cancelled(reason)
    }
}

impl vstd::std_specs::convert::FromSpecImpl<enough::StopReason> for Error {
    open spec fn obeys_from_spec() -> bool {
        true
    }

    open spec fn from_spec(reason: enough::StopReason) -> Self {
        Error::Cancelled(reason)
    }
}

} // verus!
