use std::collections::HashMap;
use vstd::prelude::*;
use crate::graph::NodeId;

verus! {

/// Mesh-wide settings, as sent to the mesh or reported by it. A field left
/// out is not changed, or was not reported.
#[derive(Clone, Debug, PartialEq, Eq)]
pub struct MeshSettings {
    pub broadcast_interval_seconds: Option<u32>,
    pub channel_name: Option<String>,
    pub ping_timeout_seconds: Option<u32>,
}

/// The body of a request to change the mesh settings.
#[derive(Clone, Debug, PartialEq, Eq)]
pub struct MeshSettingsBody {
    pub broadcast_interval_seconds: Option<u32>,
    pub channel_name: Option<String>,
    pub ping_timeout_seconds: Option<u32>,
}

/// The body of a request for telemetry from one node.
#[derive(Clone, Copy, Debug, PartialEq, Eq)]
pub struct GetAdHocTelemetryBody {
    pub node_id: u32,
}

/// One link heard by a node: its transmitter, the signal strength in dBm
/// and the signal-to-noise ratio in hundredths of a dB.
#[derive(Clone, Copy, Debug, PartialEq, Eq)]
pub struct LinkReport {
    pub from: NodeId,
    pub rssi: i32,
    pub snr: i32,
}

/// What a node reports of the links it hears, and whether it is a gateway.
#[derive(Clone, Debug, PartialEq, Eq)]
pub struct SignalData {
    pub to: NodeId,
    pub is_gateway: bool,
    pub links: Vec<LinkReport>,
}

/// A message exchanged with the mesh: exactly one of these alternatives.
/// `T` is the telemetry record that nodes report.
#[derive(Clone, Debug)]
pub enum Command<T> {
    /// A message with no alternative set.
    Unset,
    MeshSettings(MeshSettings),
    GetMeshSettingsRequest,
    UpdateNextHopsRequest,
    UpdatedNextHops(HashMap<NodeId, Vec<NodeId>>),
    StartLiveTelemetry,
    StopLiveTelemetry,
    GetAdHocTelemetry(NodeId),
    SignalData(SignalData),
    LiveTelemetry(T),
}

/// The command that sets the mesh settings given in `body`.
pub fn mesh_settings_command<T>(body: MeshSettingsBody) -> (r: Command<T>)
    ensures
        r matches Command::MeshSettings(s) && s.broadcast_interval_seconds
            == body.broadcast_interval_seconds && s.channel_name == body.channel_name
            && s.ping_timeout_seconds == body.ping_timeout_seconds,
{
    Command::MeshSettings(
        MeshSettings {
            broadcast_interval_seconds: body.broadcast_interval_seconds,
            channel_name: body.channel_name,
            ping_timeout_seconds: body.ping_timeout_seconds,
        },
    )
}

/// The command that asks node `body.node_id` for its telemetry now.
pub fn ad_hoc_telemetry_command<T>(body: GetAdHocTelemetryBody) -> (r: Command<T>)
    ensures
        r == Command::<T>::GetAdHocTelemetry(body.node_id),
{
    Command::GetAdHocTelemetry(body.node_id)
}

/// The mesh settings carried by `message`, if it carries any: the reply
/// awaited after asking the mesh for its settings.
pub fn mesh_settings_reply<T>(message: Command<T>) -> (r: Option<MeshSettings>)
    ensures
        r == (match message {
            Command::MeshSettings(s) => Some(s),
            _ => None,
        }),
{
    match message {
        Command::MeshSettings(s) => Some(s),
        _ => None,
    }
}

/// The command that hands the mesh its next-hop table.
pub fn next_hops_command<T>(table: HashMap<NodeId, Vec<NodeId>>) -> (r: Command<T>)
    ensures
        r matches Command::UpdatedNextHops(t) && t@ == table@,
{
    Command::UpdatedNextHops(table)
}

} // verus!
