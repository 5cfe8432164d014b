//! Why a media file was left out of matching.
use vstd::prelude::*;

verus! {

/// The kind of failure that keeps a file out of matching.
#[derive(Clone, Copy, Debug, PartialEq, Eq, Structural)]
pub enum SkipReason {
    DecodeFailed,
    TooShort,
    UnsupportedContainer,
    Unreadable,
}

/// The stable snake_case tag of each reason.
pub open spec fn reason_tag(reason: SkipReason) -> Seq<char> {
    match reason {
        SkipReason::DecodeFailed => "decode_failed"@,
        SkipReason::TooShort => "too_short"@,
        SkipReason::UnsupportedContainer => "unsupported_container"@,
        SkipReason::Unreadable => "unreadable"@,
    }
}

impl SkipReason {
    /// The stable snake_case tag of the reason, as reports print it.
    pub fn tag(self) -> (t: &'static str)
        ensures
            t@ == reason_tag(self),
    {
        match self {
            SkipReason::DecodeFailed => "decode_failed",
            SkipReason::TooShort => "too_short",
            SkipReason::UnsupportedContainer => "unsupported_container",
            SkipReason::Unreadable => "unreadable",
        }
    }
}

/// A failure to process one file: its reason and a description.
#[derive(Debug)]
pub struct SkipError {
    pub reason: SkipReason,
    pub detail: String,
}

impl SkipError {
    /// An error with the given reason and description.
    pub fn new(reason: SkipReason, detail: String) -> (e: Self)
        ensures
            e.reason == reason,
            e.detail == detail,
    {
        SkipError { reason, detail }
    }
}

#[verifier::external_type_specification]
#[verifier::external_body]
pub struct ExIoError(std::io::Error);

/// Calls `ToString::to_string` on an I/O error: its message. Nothing is
/// claimed of the text.
#[verifier::external_body]
fn io_error_text(error: &std::io::Error) -> String {
    error.to_string()
}

impl From<std::io::Error> for SkipError {
    /// An I/O failure makes a file unreadable; the error's message is the detail.
    fn from(error: std::io::Error) -> (e: Self)
        ensures
            e.reason == SkipReason::Unreadable,
    {
        SkipError::new(SkipReason::Unreadable, io_error_text(&error))
    }
}

impl vstd::std_specs::convert::FromSpecImpl<std::io::Error> for SkipError {
    open spec fn obeys_from_spec() -> bool {
        false
    }

    open spec fn from_spec(v: std::io::Error) -> Self {
        arbitrary()
    }
}

/// A file that was left out of matching, with the reason.
#[derive(Debug)]
pub struct SkippedFile {
    pub path: String,
    pub reason: SkipReason,
    pub detail: String,
}

impl SkippedFile {
    /// The record of `path` failing with `error`.
    pub fn new(path: String, error: SkipError) -> (s: Self)
        ensures
            s.path == path,
            s.reason == error.reason,
            s.detail == error.detail,
    {
        SkippedFile { path, reason: error.reason, detail: error.detail }
    }
}

} // verus!
