use mesh_control::bridge::{on_poll, BridgeAction, PollOutcome, POLL_RETRY_SECONDS};
use mesh_control::command::{
    ad_hoc_telemetry_command, mesh_settings_command, mesh_settings_reply, next_hops_command,
    Command, GetAdHocTelemetryBody, MeshSettings, MeshSettingsBody,
};
use mesh_control::config::{qos_from_str, QosLevel};
use mesh_control::handlers::{command_outcome, mesh_settings_outcome, set_is_live, LiveStatus};
use mesh_control::response::{
    route_update_conflict, send_failure_message, timeout_message, SendFailure,
};
use mesh_control::wait::{await_mesh_response_step, BusEvent, WaitStep};
use std::collections::HashMap;

fn sample_settings() -> MeshSettings {
    MeshSettings {
        broadcast_interval_seconds: Some(60),
        channel_name: Some("mesh".to_string()),
        ping_timeout_seconds: None,
    }
}

#[test]
fn concurrent_update_refused_with_conflict() {
    let e = route_update_conflict();
    assert_eq!(e.status, 409);
    assert_eq!(e.message, "Next hops update has already been requested by another client");
}

#[test]
fn mesh_settings_timeout_is_gateway_timeout() {
    let step = await_mesh_response_step::<MeshSettings>(BusEvent::TimedOut, 7);
    let reason = match step {
        WaitStep::Done(Err(m)) => m,
        _ => panic!("expected a failed wait"),
    };
    assert_eq!(reason, "Timed out waiting for mesh response after 7 seconds");
    let r = mesh_settings_outcome(&Ok(()), Err(reason));
    let e = r.unwrap_err();
    assert_eq!(e.status, 504);
    assert_eq!(e.message, "Timed out waiting for mesh response after 7 seconds");
}

#[test]
fn timeout_message_digits() {
    assert_eq!(timeout_message(0), "Timed out waiting for mesh response after 0 seconds");
    assert_eq!(timeout_message(120), "Timed out waiting for mesh response after 120 seconds");
    assert_eq!(
        timeout_message(u64::MAX),
        "Timed out waiting for mesh response after 18446744073709551615 seconds"
    );
}

#[test]
fn wait_steps() {
    assert!(matches!(await_mesh_response_step::<u8>(BusEvent::Unmatched, 1), WaitStep::Continue));
    assert!(matches!(await_mesh_response_step::<u8>(BusEvent::Matched(3), 1), WaitStep::Done(Ok(3))));
    match await_mesh_response_step::<u8>(BusEvent::Lagged, 1) {
        WaitStep::Done(Err(m)) => assert_eq!(m, "Mesh response receiver lagged"),
        _ => panic!("expected lag error"),
    }
    match await_mesh_response_step::<u8>(BusEvent::Closed, 1) {
        WaitStep::Done(Err(m)) => assert_eq!(m, "Mesh response receiver closed"),
        _ => panic!("expected closed error"),
    }
    match await_mesh_response_step::<u8>(BusEvent::DecodeFailed("bad tag".to_string()), 1) {
        WaitStep::Done(Err(m)) => assert_eq!(m, "Failed to decode CrisislabMessage: bad tag"),
        _ => panic!("expected decode error"),
    }
}

#[test]
fn encode_failure_is_internal_error() {
    let sent = Err(SendFailure::Encode("buffer too small".to_string()));
    let e = command_outcome(&sent).unwrap_err();
    assert_eq!(e.status, 500);
    assert_eq!(e.message, "Failed to encode command as protobuf: buffer too small");
    let q = send_failure_message(&SendFailure::Queue("closed".to_string()));
    assert_eq!(q, "Failed to send command to MQTT publisher task: closed");
    assert!(command_outcome(&Ok(())).is_ok());
}

#[test]
fn mesh_settings_outcomes() {
    let ok = mesh_settings_outcome(&Ok(()), Ok(sample_settings()));
    assert_eq!(ok.unwrap(), sample_settings());
    let failed = mesh_settings_outcome(&Err(SendFailure::Queue("full".to_string())), Ok(sample_settings()));
    assert_eq!(failed.unwrap_err().status, 500);
}

#[test]
fn live_status_changes_only_when_sent() {
    let mut status = LiveStatus { is_live: false };
    assert!(set_is_live(&mut status, &Ok(()), true).is_ok());
    assert!(status.is_live);
    let r = set_is_live(&mut status, &Err(SendFailure::Queue("x".to_string())), false);
    assert_eq!(r.unwrap_err().status, 500);
    assert!(status.is_live);
}

#[test]
fn command_builders() {
    let body = MeshSettingsBody {
        broadcast_interval_seconds: Some(60),
        channel_name: Some("mesh".to_string()),
        ping_timeout_seconds: None,
    };
    let cmd = mesh_settings_command::<()>(body);
    assert_eq!(mesh_settings_reply(cmd), Some(sample_settings()));
    assert_eq!(mesh_settings_reply::<()>(Command::GetMeshSettingsRequest), None);
    assert!(matches!(
        ad_hoc_telemetry_command::<()>(GetAdHocTelemetryBody { node_id: 42 }),
        Command::GetAdHocTelemetry(42)
    ));
    let mut table = HashMap::new();
    table.insert(1u32, vec![10u32]);
    match next_hops_command::<()>(table.clone()) {
        Command::UpdatedNextHops(t) => assert_eq!(t, table),
        _ => panic!("expected a next-hops command"),
    }
}

#[test]
fn qos_names() {
    assert_eq!(qos_from_str("AtMostOnce"), Ok(QosLevel::AtMostOnce));
    assert_eq!(qos_from_str("AtLeastOnce"), Ok(QosLevel::AtLeastOnce));
    assert_eq!(qos_from_str("ExactlyOnce"), Ok(QosLevel::ExactlyOnce));
    assert_eq!(qos_from_str("Sometimes"), Err("Invalid QoS: Sometimes".to_string()));
}

#[test]
fn bridge_poll_decisions() {
    assert!(matches!(on_poll(PollOutcome::Published(vec![1u8, 2])), BridgeAction::Forward(p) if p == vec![1, 2]));
    assert!(matches!(on_poll::<Vec<u8>>(PollOutcome::Other), BridgeAction::Poll));
    assert!(matches!(on_poll::<Vec<u8>>(PollOutcome::Failed), BridgeAction::Retry(3)));
    assert_eq!(POLL_RETRY_SECONDS, 3);
}
