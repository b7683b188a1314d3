use vstd::prelude::*;
use crate::text::{join, push_decimal, decimal};

verus! {

pub const STATUS_CONFLICT: u16 = 409;

pub const STATUS_INTERNAL_SERVER_ERROR: u16 = 500;

pub const STATUS_GATEWAY_TIMEOUT: u16 = 504;

/// A failed request: the HTTP status to answer with and a message for the
/// client.
#[derive(Clone, Debug, PartialEq, Eq)]
pub struct HttpError {
    pub status: u16,
    pub message: String,
}

/// Why a command could not be handed to the broker.
#[derive(Clone, Debug, PartialEq, Eq)]
pub enum SendFailure {
    /// The codec could not encode it; the codec's description.
    Encode(String),
    /// The outbound queue refused it; the queue's description.
    Queue(String),
}

/// The message reporting `failure`.
pub open spec fn send_failure_text(failure: SendFailure) -> Seq<char> {
    match failure {
        SendFailure::Encode(d) => "Failed to encode command as protobuf: "@ + d@,
        SendFailure::Queue(d) => "Failed to send command to MQTT publisher task: "@ + d@,
    }
}

/// The message that reports a failure to send a command.
pub fn send_failure_message(failure: &SendFailure) -> (r: String)
    ensures
        r@ == send_failure_text(*failure),
{
    match failure {
        SendFailure::Encode(d) => join("Failed to encode command as protobuf: ", d.as_str()),
        SendFailure::Queue(d) => join("Failed to send command to MQTT publisher task: ", d.as_str()),
    }
}

/// The answer to a request whose command could not be sent: status 500.
pub fn send_failure_error(failure: &SendFailure) -> (r: HttpError)
    ensures
        r.status == STATUS_INTERNAL_SERVER_ERROR,
        r.message@ == send_failure_text(*failure),
{
    HttpError { status: STATUS_INTERNAL_SERVER_ERROR, message: send_failure_message(failure) }
}

/// The answer to a route update asked for while another one runs.
pub fn route_update_conflict() -> (r: HttpError)
    ensures
        r.status == STATUS_CONFLICT,
        r.message@ == "Next hops update has already been requested by another client"@,
{
    HttpError {
        status: STATUS_CONFLICT,
        message: String::from_str("Next hops update has already been requested by another client"),
    }
}

/// The answer to a request for the mesh settings when no reply came:
/// status 504 with the reason.
pub fn mesh_reply_missing(reason: String) -> (r: HttpError)
    ensures
        r.status == STATUS_GATEWAY_TIMEOUT,
        r.message@ == reason@,
{
    HttpError { status: STATUS_GATEWAY_TIMEOUT, message: reason }
}

/// The message reporting that no reply came within `seconds` seconds.
pub open spec fn timeout_text(seconds: nat) -> Seq<char> {
    "Timed out waiting for mesh response after "@ + decimal(seconds) + " seconds"@
}

/// The reason given when no reply came within `seconds` seconds.
pub fn timeout_message(seconds: u64) -> (r: String)
    ensures
        r@ == timeout_text(seconds as nat),
{
    let mut s = String::from_str("Timed out waiting for mesh response after ");
    push_decimal(&mut s, seconds);
    s.append(" seconds");
    s
}

} // verus!
