//! The error that commands report.

use vstd::prelude::*;

verus! {

/// What went wrong, by what the caller can do about it.
#[derive(Debug, PartialEq, Eq)]
pub enum CliError {
    /// The request itself is malformed.
    Usage(String),
    /// The operation failed.
    Operational(String),
    /// Credentials are missing or were refused.
    Auth(String),
    /// What was asked for does not exist.
    NotFound(String),
    /// What would be written is already there.
    Conflict(String),
}

/// The message of an error.
pub open spec fn cli_message(e: CliError) -> Seq<char> {
    match e {
        CliError::Usage(m) => m@,
        CliError::Operational(m) => m@,
        CliError::Auth(m) => m@,
        CliError::NotFound(m) => m@,
        CliError::Conflict(m) => m@,
    }
}

impl CliError {
    /// The message of the error.
    pub fn message(&self) -> (r: String)
        ensures
            r@ == cli_message(*self),
    {
        match self {
            CliError::Usage(m) => m.clone(),
            CliError::Operational(m) => m.clone(),
            CliError::Auth(m) => m.clone(),
            CliError::NotFound(m) => m.clone(),
            CliError::Conflict(m) => m.clone(),
        }
    }
}

/// Whether an error is a usage error with this message.
pub open spec fn is_usage(e: CliError, message: Seq<char>) -> bool {
    e matches CliError::Usage(m) && m@ == message
}

/// Whether an error is an operational error with this message.
pub open spec fn is_operational(e: CliError, message: Seq<char>) -> bool {
    e matches CliError::Operational(m) && m@ == message
}

/// What the caller can do about an error.
#[derive(Debug, Clone, Copy, PartialEq, Eq, Structural)]
pub enum ErrorKind {
    Usage,
    Operational,
    Auth,
    NotFound,
    Conflict,
}

/// An error: its kind and its message.
pub struct ErrorView {
    pub kind: ErrorKind,
    pub message: Seq<char>,
}

impl View for CliError {
    type V = ErrorView;

    open spec fn view(&self) -> ErrorView {
        ErrorView {
            kind: match self {
                CliError::Usage(_) => ErrorKind::Usage,
                CliError::Operational(_) => ErrorKind::Operational,
                CliError::Auth(_) => ErrorKind::Auth,
                CliError::NotFound(_) => ErrorKind::NotFound,
                CliError::Conflict(_) => ErrorKind::Conflict,
            },
            message: cli_message(*self),
        }
    }
}

/// An authentication error with this message.
pub open spec fn denied(message: Seq<char>) -> ErrorView {
    ErrorView { kind: ErrorKind::Auth, message }
}

/// An error about something that is not there, with this message.
pub open spec fn absent(message: Seq<char>) -> ErrorView {
    ErrorView { kind: ErrorKind::NotFound, message }
}

/// An error about something that is already there, with this message.
pub open spec fn conflicting(message: Seq<char>) -> ErrorView {
    ErrorView { kind: ErrorKind::Conflict, message }
}

/// A usage error with this message.
pub open spec fn misused(message: Seq<char>) -> ErrorView {
    ErrorView { kind: ErrorKind::Usage, message }
}

/// An operational error with this message.
pub open spec fn operational(message: Seq<char>) -> ErrorView {
    ErrorView { kind: ErrorKind::Operational, message }
}

/// An error is shown by its kind and its message, and each kind of failure is its own.
pub proof fn law_an_error_is_shown_by_its_kind(e: CliError, message: Seq<char>)
    ensures
        e@.kind is Usage <==> e is Usage,
        e@.kind is Operational <==> e is Operational,
        e@.kind is Auth <==> e is Auth,
        e@.kind is NotFound <==> e is NotFound,
        e@.kind is Conflict <==> e is Conflict,
        match e {
            CliError::Usage(m) => e@.message == m@,
            CliError::Operational(m) => e@.message == m@,
            CliError::Auth(m) => e@.message == m@,
            CliError::NotFound(m) => e@.message == m@,
            CliError::Conflict(m) => e@.message == m@,
        },
        denied(message).kind is Auth && denied(message).message == message,
        absent(message).kind is NotFound && absent(message).message == message,
        conflicting(message).kind is Conflict && conflicting(message).message == message,
        misused(message).kind is Usage && misused(message).message == message,
        operational(message).kind is Operational && operational(message).message == message,
{
}

} // verus!
