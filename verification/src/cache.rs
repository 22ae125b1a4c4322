//! What the request cache keeps of a response, and which responses it
//! keeps.

use crate::xmltv::Timestamp;
use vstd::prelude::*;

verus! {

/// A response body as the cache keeps it, with the time it was fetched.
#[derive(Debug)]
pub struct CachedResponse {
    pub time_created: Timestamp,
    pub body: String,
}

/// Why a fetched response is not kept: its status is not a success.
#[derive(Debug)]
pub struct UnexpectedStatus {
    pub status: u16,
    pub body: String,
}

/// A status code in the success class, 200 to 299 (as
/// `http::StatusCode::is_success` tells).
pub open spec fn success_status(status: u16) -> bool {
    200 <= status <= 299
}

/// Whether a status code is in the success class.
pub fn is_success(status: u16) -> (b: bool)
    ensures
        b == success_status(status),
{
    200 <= status && status <= 299
}

/// Calls `chrono::Utc::now` and takes the instant it gives (`timestamp`,
/// `timestamp_subsec_nanos`). Nothing is claimed of the result: it is the
/// time of the call.
#[verifier::external_body]
fn now() -> Timestamp {
    let t = chrono::Utc::now();
    Timestamp { seconds: t.timestamp(), nanos: t.timestamp_subsec_nanos() }
}

/// What to make of a fetched response with `status` and `body` at time
/// `time`: the response to keep, or, where the status is not a success,
/// the error with the status and the body.
pub fn response_to_keep(status: u16, body: String, time: Timestamp) -> (r: Result<CachedResponse, UnexpectedStatus>)
    ensures
        r is Ok <==> success_status(status),
        r matches Ok(c) ==> c.time_created == time && c.body@ == body@,
        r matches Err(e) ==> e.status == status && e.body@ == body@,
{
    if !is_success(status) {
        return Err(UnexpectedStatus { status, body });
    }
    Ok(CachedResponse { time_created: time, body })
}

/// The response to keep of a response fetched now, stamped with the
/// current time; or the error where the status is not a success.
pub fn fresh_response(status: u16, body: String) -> (r: Result<CachedResponse, UnexpectedStatus>)
    ensures
        r is Ok <==> success_status(status),
        r matches Ok(c) ==> c.body@ == body@,
        r matches Err(e) ==> e.status == status && e.body@ == body@,
{
    let time = now();
    response_to_keep(status, body, time)
}

/// What to do after looking a request up in the cache.
#[derive(Debug)]
pub enum CacheStep {
    /// Answer with the response kept in the cache, serialized as found.
    Answer(Vec<u8>),
    /// Fetch the response, keep it, and answer with it.
    Fetch,
}

/// The step after a cache lookup: answer with what was found, or fetch
/// where nothing was.
pub fn after_lookup(found: Option<Vec<u8>>) -> (step: CacheStep)
    ensures
        found is None <==> step is Fetch,
        step matches CacheStep::Answer(bytes) ==> found matches Some(f) && bytes@ == f@,
{
    match found {
        Some(bytes) => CacheStep::Answer(bytes),
        None => CacheStep::Fetch,
    }
}

} // verus!
