use mesh_control::command::Command;
use mesh_control::live_session::{session_step, SessionAction, SessionEvent, SessionState};
use mesh_control::ring_buffer::RingBuffer;

/// Runs a session over `events`, applying its actions to `cache` and
/// `gauge`, and returns the frames it would send.
fn run(events: Vec<SessionEvent<u32>>, cache: &mut RingBuffer<u32>, gauge: &mut i64) -> (SessionState, Vec<String>) {
    let mut state = SessionState::Connecting;
    let mut sent = Vec::new();
    for e in events {
        let step = session_step(state, e);
        state = step.state;
        *gauge += step.gauge_change as i64;
        match step.action {
            SessionAction::SendCache => {
                let items: Vec<String> = cache.oldest_first().iter().map(|t| t.to_string()).collect();
                sent.push(format!("cache[{}]", items.join(",")));
            }
            SessionAction::ForwardTelemetry(t) => {
                cache.write(t);
                sent.push(format!("telemetry {}", t));
            }
            SessionAction::SendError(m) => sent.push(format!("error {}", m)),
            SessionAction::Close | SessionAction::Nothing => {}
        }
    }
    (state, sent)
}

#[test]
fn live_session_with_cache() {
    let mut cache = RingBuffer::new(4);
    for t in [1u32, 2, 3] {
        cache.write(t);
    }
    let mut gauge = 0;
    let (state, sent) = run(
        vec![SessionEvent::Connected, SessionEvent::Bus(Command::LiveTelemetry(4))],
        &mut cache,
        &mut gauge,
    );
    assert_eq!(state, SessionState::Open);
    assert_eq!(sent, vec!["cache[1,2,3]".to_string(), "telemetry 4".to_string()]);
    let all: Vec<u32> = cache.oldest_first().into_iter().copied().collect();
    assert_eq!(all, vec![1, 2, 3, 4]);
    assert_eq!(gauge, 1);
}

#[test]
fn live_session_ignores_other_messages_and_reports_decode_errors() {
    let mut cache = RingBuffer::new(2);
    let mut gauge = 0;
    let (state, sent) = run(
        vec![
            SessionEvent::Connected,
            SessionEvent::Bus(Command::GetMeshSettingsRequest),
            SessionEvent::ClientFrame,
            SessionEvent::BusDecodeFailed("truncated".to_string()),
        ],
        &mut cache,
        &mut gauge,
    );
    assert_eq!(state, SessionState::Open);
    assert_eq!(sent, vec!["cache[]".to_string(), "error Failed to decode CrisislabMessage: truncated".to_string()]);
    assert_eq!(cache.len(), 0);
}

#[test]
fn gauge_counts_live_sessions() {
    let mut cache = RingBuffer::new(2);
    let mut gauge = 0;
    // one session ends twice over, one lags, one stays open
    run(
        vec![SessionEvent::Connected, SessionEvent::SendFailed, SessionEvent::ClientGone, SessionEvent::BusClosed],
        &mut cache,
        &mut gauge,
    );
    assert_eq!(gauge, 0);
    run(vec![SessionEvent::Connected, SessionEvent::BusLagged], &mut cache, &mut gauge);
    assert_eq!(gauge, 0);
    let (state, _) = run(vec![SessionEvent::Connected, SessionEvent::ClientFrame], &mut cache, &mut gauge);
    assert_eq!(state, SessionState::Open);
    assert_eq!(gauge, 1);
    let (state, _) = run(vec![SessionEvent::ClientGone], &mut cache, &mut gauge);
    assert_eq!(state, SessionState::Connecting);
    assert_eq!(gauge, 1);
}
