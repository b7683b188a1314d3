use mesh_control::settings::{get_server_settings, set_server_settings, AppSettings, ServerSettingsBody};

fn defaults() -> AppSettings {
    AppSettings::new(5, 30, 1000, 250)
}

fn empty_body() -> ServerSettingsBody {
    ServerSettingsBody {
        get_settings_timeout_seconds: None,
        signal_data_timeout_seconds: None,
        route_cost_weight: None,
        route_hops_weight: None,
    }
}

#[test]
fn settings_round_trip_one_field() {
    let mut s = defaults();
    let body = ServerSettingsBody { signal_data_timeout_seconds: Some(45), ..empty_body() };
    set_server_settings(&mut s, &body);
    let got = get_server_settings(&s);
    assert_eq!(got.signal_data_timeout_seconds, 45);
    assert_eq!(got.get_settings_timeout_seconds, 5);
    assert_eq!(got.route_cost_weight, 1000);
    assert_eq!(got.route_hops_weight, 250);
}

#[test]
fn settings_empty_change_keeps_all() {
    let mut s = defaults();
    set_server_settings(&mut s, &empty_body());
    assert_eq!(s, defaults());
}

#[test]
fn settings_change_all_fields() {
    let mut s = defaults();
    let body = ServerSettingsBody {
        get_settings_timeout_seconds: Some(1),
        signal_data_timeout_seconds: Some(2),
        route_cost_weight: Some(3),
        route_hops_weight: Some(4),
    };
    set_server_settings(&mut s, &body);
    assert_eq!(s, AppSettings::new(1, 2, 3, 4));
}

#[test]
fn settings_change_twice_same_as_once() {
    let body = ServerSettingsBody { route_hops_weight: Some(0), get_settings_timeout_seconds: Some(9), ..empty_body() };
    let mut once = defaults();
    set_server_settings(&mut once, &body);
    let mut twice = defaults();
    set_server_settings(&mut twice, &body);
    set_server_settings(&mut twice, &body);
    assert_eq!(once, twice);
}
