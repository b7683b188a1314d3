use vstd::prelude::*;
use crate::text::join;

verus! {

/// Delivery guarantee of the broker for published messages.
#[derive(Clone, Copy, Debug, PartialEq, Eq, Structural)]
pub enum QosLevel {
    AtMostOnce,
    AtLeastOnce,
    ExactlyOnce,
}

/// The delivery guarantee that `name` names, if any.
pub open spec fn qos_named(name: Seq<char>) -> Option<QosLevel> {
    if name == "AtMostOnce"@ {
        Some(QosLevel::AtMostOnce)
    } else if name == "AtLeastOnce"@ {
        Some(QosLevel::AtLeastOnce)
    } else if name == "ExactlyOnce"@ {
        Some(QosLevel::ExactlyOnce)
    } else {
        None
    }
}

/// The delivery guarantee named `name` (`AtMostOnce`, `AtLeastOnce` or
/// `ExactlyOnce`), or an error naming the unknown value.
pub fn qos_from_str(name: &str) -> (r: Result<QosLevel, String>)
    ensures
        match qos_named(name@) {
            Some(q) => r == Ok::<QosLevel, String>(q),
            None => r matches Err(m) && m@ == "Invalid QoS: "@ + name@,
        },
{
    let given = String::from_str(name);
    if given == String::from_str("AtMostOnce") {
        Ok(QosLevel::AtMostOnce)
    } else if given == String::from_str("AtLeastOnce") {
        Ok(QosLevel::AtLeastOnce)
    } else if given == String::from_str("ExactlyOnce") {
        Ok(QosLevel::ExactlyOnce)
    } else {
        Err(join("Invalid QoS: ", name))
    }
}

/// The server's configuration, read once at start-up. The default route
/// weights are in thousandths, as in `AppSettings`.
#[derive(Clone, Debug, PartialEq, Eq)]
pub struct Config {
    pub mqtt_username: String,
    pub mqtt_password: String,
    pub mqtt_host: String,
    pub mqtt_port: u16,
    pub mqtt_qos: QosLevel,
    pub mqtt_outgoing_topic: String,
    pub mqtt_incoming_topic: String,
    pub channel_capacity: usize,
    pub server_port: u16,
    pub default_get_settings_timeout_seconds: u64,
    pub default_signal_data_timeout_seconds: u64,
    pub default_route_cost_weight: u32,
    pub default_route_hops_weight: u32,
    pub telemetry_cache_capacity: usize,
}

} // verus!
