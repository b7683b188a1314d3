use vstd::prelude::*;
use crate::command::MeshSettings;
use crate::response::{
    mesh_reply_missing, send_failure_error, send_failure_text, HttpError, SendFailure,
    STATUS_GATEWAY_TIMEOUT, STATUS_INTERNAL_SERVER_ERROR,
};

verus! {

/// Whether the mesh has been asked to stream live telemetry.
#[derive(Clone, Copy, Debug, PartialEq, Eq, Structural)]
pub struct LiveStatus {
    pub is_live: bool,
}

/// The answer to a request whose only work is to send one command: success
/// when it was sent, status 500 with the reason when it was not.
pub fn command_outcome(sent: &Result<(), SendFailure>) -> (r: Result<(), HttpError>)
    ensures
        match *sent {
            Ok(()) => r is Ok,
            Err(f) => r matches Err(e) && e.status == STATUS_INTERNAL_SERVER_ERROR && e.message@
                == send_failure_text(f),
        },
{
    match sent {
        Ok(()) => Ok(()),
        Err(f) => Err(send_failure_error(f)),
    }
}

/// Starting or stopping live telemetry: once the command has been sent the
/// status records it; when it could not be sent, the status is unchanged
/// and the answer is status 500.
pub fn set_is_live(status: &mut LiveStatus, sent: &Result<(), SendFailure>, is_live: bool) -> (r:
    Result<(), HttpError>)
    ensures
        final(status).is_live == (if sent is Ok {
            is_live
        } else {
            old(status).is_live
        }),
        match *sent {
            Ok(()) => r is Ok,
            Err(f) => r matches Err(e) && e.status == STATUS_INTERNAL_SERVER_ERROR && e.message@
                == send_failure_text(f),
        },
{
    let r = command_outcome(sent);
    if r.is_ok() {
        status.is_live = is_live;
    }
    r
}

/// The answer to a request for the mesh settings, from whether the request
/// was sent and, if it was, how the wait for the reply ended: the settings,
/// status 500 when the request could not be sent, status 504 with the
/// reason when no reply came.
pub fn mesh_settings_outcome(
    sent: &Result<(), SendFailure>,
    reply: Result<MeshSettings, String>,
) -> (r: Result<MeshSettings, HttpError>)
    ensures
        match *sent {
            Err(f) => r matches Err(e) && e.status == STATUS_INTERNAL_SERVER_ERROR && e.message@
                == send_failure_text(f),
            Ok(()) => match reply {
                Ok(s) => r == Ok::<MeshSettings, HttpError>(s),
                Err(m) => r matches Err(e) && e.status == STATUS_GATEWAY_TIMEOUT && e.message@
                    == m@,
            },
        },
{
    match sent {
        Err(f) => Err(send_failure_error(f)),
        Ok(()) => match reply {
            Ok(s) => Ok(s),
            Err(m) => Err(mesh_reply_missing(m)),
        },
    }
}

} // verus!
