//! The statuses that a registry answers with.

use crate::error::{absent, operational, CliError, ErrorView};
use crate::text::{cat2, cat3, cat5};
use vstd::prelude::*;

verus! {

/// The status of an answer: its number, and how it is written in messages.
#[derive(Debug, PartialEq, Eq)]
pub struct Status {
    pub code: u16,
    pub text: String,
}

/// Whether a status is one of success.
pub open spec fn is_success(code: u16) -> bool {
    200 <= code < 300
}

/// Whether a status is one of success.
pub fn status_ok(code: u16) -> (r: bool)
    ensures
        r == is_success(code),
{
    200 <= code && code < 300
}

/// The message about something that the registry does not have.
pub open spec fn not_found_message(path: Seq<char>) -> Seq<char> {
    "registry resource not found: "@ + path
}

/// What is wrong with the status of a request for a resource.
pub open spec fn resource_fault(method: Seq<char>, path: Seq<char>, status: Status) -> Option<
    ErrorView,
> {
    if status.code == 404 {
        Some(absent(not_found_message(path)))
    } else if !is_success(status.code) {
        Some(
            operational("registry "@ + method + " "@ + path + (" returned "@ + status.text@)),
        )
    } else {
        None
    }
}

/// Reads the status of a request for a resource.
pub fn check_resource(method: &str, path: &str, status: &Status) -> (r: Result<(), CliError>)
    ensures
        match resource_fault(method@, path@, *status) {
            None => r is Ok,
            Some(f) => r matches Err(e) && e@ == f,
        },
{
    if status.code == 404 {
        return Err(CliError::NotFound(cat2("registry resource not found: ", path)));
    }
    if !status_ok(status.code) {
        return Err(
            CliError::Operational(
                cat5(
                    "registry ",
                    method,
                    " ",
                    path,
                    cat2(" returned ", status.text.as_str()).as_str(),
                ),
            ),
        );
    }
    Ok(())
}

/// The error of a step of an upload.
pub open spec fn step_fault(operation: Seq<char>, path: Seq<char>, status: Status) -> ErrorView {
    if status.code == 404 {
        absent(not_found_message(path))
    } else {
        operational(operation + " returned "@ + status.text@)
    }
}

/// The error of a step of an upload.
pub fn status_error(operation: &str, path: &str, status: &Status) -> (r: CliError)
    ensures
        r@ == step_fault(operation@, path@, *status),
{
    if status.code == 404 {
        CliError::NotFound(cat2("registry resource not found: ", path))
    } else {
        CliError::Operational(cat3(operation, " returned ", status.text.as_str()))
    }
}

/// Whether a blob is there, as the status of a request for its size says.
pub fn blob_exists(path: &str, status: &Status) -> (r: Result<bool, CliError>)
    ensures
        if status.code == 404 {
            r matches Ok(false)
        } else if is_success(status.code) {
            r matches Ok(true)
        } else {
            r matches Err(e) && Some(e@) == resource_fault("HEAD"@, path@, *status)
        },
{
    if status.code == 404 {
        return Ok(false);
    }
    match check_resource("HEAD", path, status) {
        Ok(()) => Ok(true),
        Err(e) => Err(e),
    }
}

/// Whether the registry itself lists what refers to a manifest. One that does not keeps the
/// list under a tag.
pub fn lists_referrers(path: &str, status: &Status) -> (r: Result<bool, CliError>)
    ensures
        if status.code == 404 {
            r matches Ok(false)
        } else if is_success(status.code) {
            r matches Ok(true)
        } else {
            r matches Err(e) && Some(e@) == resource_fault("GET"@, path@, *status)
        },
{
    if status.code == 404 {
        return Ok(false);
    }
    match check_resource("GET", path, status) {
        Ok(()) => Ok(true),
        Err(e) => Err(e),
    }
}

/// Checks that the registry can be reached with the credential.
pub fn check_ping(status: &Status) -> (r: Result<(), CliError>)
    ensures
        if is_success(status.code) {
            r is Ok
        } else {
            r matches Err(e) && e@ == operational("registry ping /v2/ returned "@ + status.text@)
        },
{
    if status_ok(status.code) {
        Ok(())
    } else {
        Err(CliError::Operational(cat2("registry ping /v2/ returned ", status.text.as_str())))
    }
}

/// An answer is taken exactly where its code is one of success, and what is not there is told from
/// every other failure.
pub proof fn law_a_failure_is_told_by_its_code(
    method: Seq<char>,
    operation: Seq<char>,
    path: Seq<char>,
    status: Status,
)
    ensures
        resource_fault(method, path, status) is None <==> 200 <= status.code <= 299,
        resource_fault(method, path, status) matches Some(e) ==> {
            &&& e.kind is NotFound <==> status.code == 404
            &&& e.kind is Operational <==> status.code != 404
        },
        step_fault(operation, path, status).kind is NotFound <==> status.code == 404,
        step_fault(operation, path, status).kind is Operational <==> status.code != 404,
{
}

} // verus!
