use vstd::prelude::*;

verus! {

/// Seconds to wait after a failed poll of the broker before polling again.
pub const POLL_RETRY_SECONDS: u64 = 3;

/// What one poll of the broker session gave. `P` is a message payload.
pub enum PollOutcome<P> {
    /// A message was published on the subscribed topic.
    Published(P),
    /// Some other protocol event.
    Other,
    /// The poll failed.
    Failed,
}

/// What the source side of the broker bridge does next.
pub enum BridgeAction<P> {
    /// Hand the payload to every subscriber of the bus, then poll again.
    Forward(P),
    /// Poll again at once.
    Poll,
    /// Wait this many seconds, then poll again.
    Retry(u64),
}

/// The source side of the bridge: forward each published payload onto the
/// bus, ignore other events, and back off for `POLL_RETRY_SECONDS` after
/// a failed poll rather than retrying at once.
pub fn on_poll<P>(outcome: PollOutcome<P>) -> (r: BridgeAction<P>)
    ensures
        match outcome {
            PollOutcome::Published(p) => r == BridgeAction::Forward(p),
            PollOutcome::Other => r is Poll,
            PollOutcome::Failed => r == BridgeAction::<P>::Retry(POLL_RETRY_SECONDS),
        },
{
    match outcome {
        PollOutcome::Published(p) => BridgeAction::Forward(p),
        PollOutcome::Other => BridgeAction::Poll,
        PollOutcome::Failed => BridgeAction::Retry(POLL_RETRY_SECONDS),
    }
}

} // verus!
