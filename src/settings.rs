use vstd::prelude::*;

verus! {

/// Settings of the server itself, changeable at run time. The two route
/// weights are fixed-point numbers in thousandths (`1000` stands for `1.0`);
/// being unsigned integers, every value is finite and non-negative.
#[derive(Clone, Copy, Debug, PartialEq, Eq, Structural)]
pub struct AppSettings {
    pub get_settings_timeout_seconds: u64,
    pub signal_data_timeout_seconds: u64,
    pub route_cost_weight: u32,
    pub route_hops_weight: u32,
}

/// A request to change some of the server settings; `None` leaves a setting
/// as it is.
#[derive(Clone, Copy, Debug, PartialEq, Eq, Structural)]
pub struct ServerSettingsBody {
    pub get_settings_timeout_seconds: Option<u64>,
    pub signal_data_timeout_seconds: Option<u64>,
    pub route_cost_weight: Option<u32>,
    pub route_hops_weight: Option<u32>,
}

/// `value` when present, else `current`.
pub open spec fn override_with<T>(current: T, value: Option<T>) -> T {
    match value {
        Some(v) => v,
        None => current,
    }
}

/// The settings after applying `body` to `settings`, field by field.
pub open spec fn updated_settings(settings: AppSettings, body: ServerSettingsBody) -> AppSettings {
    AppSettings {
        get_settings_timeout_seconds: override_with(
            settings.get_settings_timeout_seconds,
            body.get_settings_timeout_seconds,
        ),
        signal_data_timeout_seconds: override_with(
            settings.signal_data_timeout_seconds,
            body.signal_data_timeout_seconds,
        ),
        route_cost_weight: override_with(settings.route_cost_weight, body.route_cost_weight),
        route_hops_weight: override_with(settings.route_hops_weight, body.route_hops_weight),
    }
}

impl AppSettings {
    pub fn new(
        get_settings_timeout_seconds: u64,
        signal_data_timeout_seconds: u64,
        route_cost_weight: u32,
        route_hops_weight: u32,
    ) -> (r: AppSettings)
        ensures
            r.get_settings_timeout_seconds == get_settings_timeout_seconds,
            r.signal_data_timeout_seconds == signal_data_timeout_seconds,
            r.route_cost_weight == route_cost_weight,
            r.route_hops_weight == route_hops_weight,
    {
        AppSettings {
            get_settings_timeout_seconds,
            signal_data_timeout_seconds,
            route_cost_weight,
            route_hops_weight,
        }
    }
}

/// Applies a settings change: each field given in `body` replaces the
/// current value, each omitted one is left unchanged.
pub fn set_server_settings(settings: &mut AppSettings, body: &ServerSettingsBody)
    ensures
        *final(settings) == updated_settings(*old(settings), *body),
        final(settings).get_settings_timeout_seconds == override_with(
            old(settings).get_settings_timeout_seconds,
            body.get_settings_timeout_seconds,
        ),
        final(settings).signal_data_timeout_seconds == override_with(
            old(settings).signal_data_timeout_seconds,
            body.signal_data_timeout_seconds,
        ),
        final(settings).route_cost_weight == override_with(
            old(settings).route_cost_weight,
            body.route_cost_weight,
        ),
        final(settings).route_hops_weight == override_with(
            old(settings).route_hops_weight,
            body.route_hops_weight,
        ),
{
    if let Some(v) = body.get_settings_timeout_seconds {
        settings.get_settings_timeout_seconds = v;
    }
    if let Some(v) = body.signal_data_timeout_seconds {
        settings.signal_data_timeout_seconds = v;
    }
    if let Some(v) = body.route_cost_weight {
        settings.route_cost_weight = v;
    }
    if let Some(v) = body.route_hops_weight {
        settings.route_hops_weight = v;
    }
}

/// A snapshot of the current settings.
pub fn get_server_settings(settings: &AppSettings) -> (r: AppSettings)
    ensures
        r == *settings,
{
    *settings
}

/// A settings change leaves every field it omits as it was.
pub proof fn lemma_settings_change_is_fieldwise(settings: AppSettings, body: ServerSettingsBody)
    ensures
        body.get_settings_timeout_seconds is None ==> updated_settings(
            settings,
            body,
        ).get_settings_timeout_seconds == settings.get_settings_timeout_seconds,
        body.signal_data_timeout_seconds is None ==> updated_settings(
            settings,
            body,
        ).signal_data_timeout_seconds == settings.signal_data_timeout_seconds,
        body.route_cost_weight is None ==> updated_settings(settings, body).route_cost_weight
            == settings.route_cost_weight,
        body.route_hops_weight is None ==> updated_settings(settings, body).route_hops_weight
            == settings.route_hops_weight,
{
}

/// Applying the same settings change twice gives the same settings as
/// applying it once.
pub proof fn lemma_settings_change_idempotent(settings: AppSettings, body: ServerSettingsBody)
    ensures
        updated_settings(updated_settings(settings, body), body) == updated_settings(
            settings,
            body,
        ),
{
}

} // verus!
