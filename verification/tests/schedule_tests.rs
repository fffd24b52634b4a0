use omnia_lighting_app_backend::commands::{CommandStatus, HttpMethod, Principal};
use omnia_lighting_app_backend::schedule::{schedule_command, set_wot_devices, ScheduleError};
use omnia_lighting_app_backend::state::State;
use omnia_lighting_app_backend::wot::WotDevices;
use omnia_lighting_app_backend::COMMANDS_INTERVAL;

fn state_with_device(url: &str) -> State {
    let mut state: State = Default::default();
    let mut devices = WotDevices::new();
    devices.add_header(
        &String::from(url),
        String::from("Accept"),
        String::from("application/json"),
    );
    set_wot_devices(&mut state, devices);
    state
}

#[test]
fn anonymous_callers_are_rejected() {
    let mut state = state_with_device("https://light");
    state.store_access_key(String::from("k"));
    let anonymous = Principal { bytes: vec![4] };
    let r = schedule_command(
        &mut state,
        &String::from("https://light"),
        &String::from("red"),
        &anonymous,
        0,
    );
    assert_eq!(r.unwrap_err(), ScheduleError::ValidationError);
    assert_eq!(
        ScheduleError::ValidationError.message().as_str(),
        "User not authenticated"
    );
    assert_eq!(state.device_commands.scheduled_commands.len(), 0);
}

#[test]
fn unknown_devices_are_rejected() {
    let mut state = state_with_device("https://light");
    state.store_access_key(String::from("k"));
    let user = Principal { bytes: vec![1] };
    let r = schedule_command(
        &mut state,
        &String::from("https://other"),
        &String::from("red"),
        &user,
        0,
    );
    assert_eq!(r.unwrap_err(), ScheduleError::NotFoundError);
    assert_eq!(ScheduleError::NotFoundError.message().as_str(), "Device not found");
}

#[test]
fn missing_credential_is_reported_for_lazy_refresh() {
    let mut state = state_with_device("https://light");
    let user = Principal { bytes: vec![1] };
    let r = schedule_command(
        &mut state,
        &String::from("https://light"),
        &String::from("red"),
        &user,
        0,
    );
    assert_eq!(r.unwrap_err(), ScheduleError::CredentialMissing);
    // the host obtains a credential and retries: now the admission goes through
    state.store_access_key(String::from("fresh-key"));
    schedule_command(
        &mut state,
        &String::from("https://light"),
        &String::from("red"),
        &user,
        0,
    )
    .unwrap();
    assert_eq!(state.device_commands.scheduled_commands.len(), 1);
}

#[test]
fn scheduling_builds_the_full_outbound_request() {
    let mut state = state_with_device("https://light");
    state.store_access_key(String::from("key-9"));
    let user = Principal { bytes: vec![1, 2] };
    schedule_command(
        &mut state,
        &String::from("https://light"),
        &String::from("blue"),
        &user,
        0,
    )
    .unwrap();
    let ts = COMMANDS_INTERVAL;
    let cmd = state.device_commands.scheduled_commands.get(ts).unwrap();
    assert_eq!(cmd.device_url.as_str(), "https://light");
    assert_eq!(cmd.http_arguments.url.as_str(), "https://light/actions/768");
    assert!(matches!(cmd.http_arguments.method, HttpMethod::Post));
    assert_eq!(cmd.http_arguments.headers.len(), 2);
    assert_eq!(cmd.http_arguments.headers[0].name.as_str(), "Accept");
    assert_eq!(cmd.http_arguments.headers[1].value.as_str(), "Bearer key-9");
    let body = String::from_utf8(cmd.http_arguments.body.clone().unwrap()).unwrap();
    assert!(body.contains("\"0\": 170,"));
    assert_eq!(cmd.sender.bytes, vec![1, 2]);
    assert_eq!(cmd.metadata.as_ref().unwrap().light_color.as_str(), "blue");
    assert!(matches!(cmd.status, CommandStatus::Scheduled));
    assert_eq!(cmd.schedule_timestamp, ts);
}
