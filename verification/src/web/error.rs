//! The refusals of the service.

use vstd::prelude::*;
use crate::text::joined;

verus! {

/// The request is malformed.
pub const BAD_REQUEST: u16 = 400;

/// The token is missing or wrong.
pub const UNAUTHORIZED: u16 = 401;

/// The request comes from another site.
pub const FORBIDDEN: u16 = 403;

/// The upload takes too long.
pub const REQUEST_TIMEOUT: u16 = 408;

/// The upload is too large.
pub const PAYLOAD_TOO_LARGE: u16 = 413;

/// The service failed.
pub const INTERNAL_SERVER_ERROR: u16 = 500;

/// The service is busy, or about to end.
pub const SERVICE_UNAVAILABLE: u16 = 503;

/// The content type of an answer in JSON.
pub const JSON_TYPE: &'static str = "application/json; charset=utf-8";

/// An answer in JSON.
#[derive(Debug)]
pub struct JsonReply {
    /// The content type.
    pub content_type: &'static str,
    /// The body.
    pub body: String,
}

/// A refusal: an HTTP status and a message.
#[derive(Debug)]
pub struct ApiError {
    /// The status.
    pub status: u16,
    /// The message.
    pub message: &'static str,
}

/// A refusal as contracts speak of it.
pub ghost struct Refusal {
    /// The status.
    pub status: u16,
    /// The message.
    pub message: Seq<char>,
}

impl View for ApiError {
    type V = Refusal;

    open spec fn view(&self) -> Refusal {
        Refusal { status: self.status, message: self.message@ }
    }
}

/// The refusal with this status and this message.
pub open spec fn refusal(status: u16, message: Seq<char>) -> Refusal {
    Refusal { status, message }
}

impl ApiError {
    /// The refusal with this status and this message.
    pub fn new(status: u16, message: &'static str) -> (e: Self)
        ensures
            e@ == refusal(status, message@),
    {
        ApiError { status, message }
    }

    /// The answer to the request, in JSON.
    pub fn into_response(&self) -> (reply: JsonReply)
        ensures
            reply.content_type@ == JSON_TYPE@,
            reply.body@ == "{\"error\":\""@ + self@.message + "\"}"@,
    {
        let mut body = joined("{\"error\":\"", self.message);
        body.append("\"}");
        JsonReply { content_type: JSON_TYPE, body }
    }
}

} // verus!
