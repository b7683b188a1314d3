use vstd::prelude::*;
use crate::response::{timeout_message, timeout_text};
use crate::text::join;

verus! {

/// What a wait for a reply on the message bus observes next.
pub enum BusEvent<R> {
    /// A message arrived and the awaited-reply test accepted it, giving this.
    Matched(R),
    /// A message arrived that is not the awaited reply.
    Unmatched,
    /// A message arrived that could not be decoded; the decoder's description.
    DecodeFailed(String),
    /// The receiver fell behind the bus and missed messages.
    Lagged,
    /// The bus was shut down.
    Closed,
    /// The deadline passed.
    TimedOut,
}

/// Whether a wait goes on, or how it ends.
pub enum WaitStep<R> {
    Continue,
    Done(Result<R, String>),
}

/// The message reporting an undecodable message.
pub open spec fn decode_failure_text(detail: Seq<char>) -> Seq<char> {
    "Failed to decode CrisislabMessage: "@ + detail
}

/// The decision of a wait for a reply within `timeout_seconds` seconds on
/// one event: an accepted reply ends it with that value; a message that is
/// not the reply lets it go on; an undecodable message, a lagging receiver,
/// a closed bus or the deadline ends it with an error.
pub fn await_mesh_response_step<R>(event: BusEvent<R>, timeout_seconds: u64) -> (r: WaitStep<R>)
    ensures
        match event {
            BusEvent::Matched(v) => r == WaitStep::Done(Ok::<R, String>(v)),
            BusEvent::Unmatched => r is Continue,
            BusEvent::DecodeFailed(d) => r matches WaitStep::Done(Err(m)) && m@
                == decode_failure_text(d@),
            BusEvent::Lagged => r matches WaitStep::Done(Err(m)) && m@
                == "Mesh response receiver lagged"@,
            BusEvent::Closed => r matches WaitStep::Done(Err(m)) && m@
                == "Mesh response receiver closed"@,
            BusEvent::TimedOut => r matches WaitStep::Done(Err(m)) && m@ == timeout_text(
                timeout_seconds as nat,
            ),
        },
{
    match event {
        BusEvent::Matched(v) => WaitStep::Done(Ok(v)),
        BusEvent::Unmatched => WaitStep::Continue,
        BusEvent::DecodeFailed(d) => WaitStep::Done(
            Err(join("Failed to decode CrisislabMessage: ", d.as_str())),
        ),
        BusEvent::Lagged => WaitStep::Done(Err(String::from_str("Mesh response receiver lagged"))),
        BusEvent::Closed => WaitStep::Done(Err(String::from_str("Mesh response receiver closed"))),
        BusEvent::TimedOut => WaitStep::Done(Err(timeout_message(timeout_seconds))),
    }
}

} // verus!
