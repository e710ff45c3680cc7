use vstd::prelude::*;

use crate::errors::LeviError;

verus! {

/// What the logic reads of an HTTP response: its status code, the length of
/// its body if the server announced one, and whether it carries an
/// `Accept-Ranges` header.
pub struct ResponseHead {
    pub status: u16,
    pub content_length: Option<u64>,
    pub accepts_ranges: bool,
}

/// Whether `status` is a success status, in `200..300`
/// (`StatusCode::is_success`).
pub open spec fn is_success(status: u16) -> bool {
    200 <= status < 300
}

/// Accepts a response with a success status and refuses any other with
/// `LeviError::HttpStatus` and its status code.
pub fn check_response(head: ResponseHead) -> (r: Result<ResponseHead, LeviError>)
    ensures
        200 <= head.status < 300 ==> (r matches Ok(h) && h == head),
        !(200 <= head.status < 300) ==> (r matches Err(LeviError::HttpStatus(s)) && s
            == head.status),
{
    if 200 <= head.status && head.status < 300 {
        Ok(head)
    } else {
        Err(LeviError::HttpStatus(head.status))
    }
}

/// A status is a success exactly when it lies in `200..300`: every
/// informational, redirection, client-error and server-error status is not.
pub proof fn lemma_success_statuses(status: u16)
    ensures
        is_success(status) <==> 200 <= status && status < 300,
        status < 200 ==> !is_success(status),
        status >= 300 ==> !is_success(status),
{
}

/// Whether the server lets a download resume: the response carries an
/// `Accept-Ranges` header, whatever its value.
pub fn is_resumable(head: &ResponseHead) -> (r: bool)
    ensures
        r == head.accepts_ranges,
{
    head.accepts_ranges
}

} // verus!
