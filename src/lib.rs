//! Control-plane logic for a radio telemetry mesh: a recent-telemetry ring
//! buffer, next-hop route computation, runtime settings, command envelopes,
//! and the decision logic of the request handlers and live sessions.

pub mod ring_buffer;
pub mod settings;
pub mod graph;
pub mod pathfinding;
pub mod text;
pub mod command;
pub mod response;
pub mod wait;
pub mod route_update;
pub mod live_session;
pub mod config;
pub mod handlers;
pub mod bridge;
