use omnia_lighting_app_backend::commands::{
    CommandHttpArguments, CommandMetadata, CommandStatus, DeviceCommand, HttpHeader, HttpMethod,
    Principal,
};
use omnia_lighting_app_backend::executor::{begin_command, finish_command, CallOutcome,
    HttpResponseData};
use omnia_lighting_app_backend::persist::{load_state, save_state};
use omnia_lighting_app_backend::schedule::schedule_command;
use omnia_lighting_app_backend::state::State;
use omnia_lighting_app_backend::wot::WotDevices;

fn populated_state() -> State {
    let mut state: State = Default::default();
    let mut devices = WotDevices::new();
    devices.add_header(
        &String::from("https://light"),
        String::from("Accept"),
        String::from("application/json"),
    );
    omnia_lighting_app_backend::schedule::set_wot_devices(&mut state, devices);
    state.store_access_key(String::from("key-xyz"));
    let caller = Principal { bytes: vec![7, 7] };
    let url = String::from("https://light");
    // one pending, one running, one completed, one failed
    for (color, now) in [("red", 0u64), ("green", 1), ("blue", 2), ("red", 3)] {
        schedule_command(&mut state, &url, &String::from(color), &caller, now).unwrap();
    }
    let due = state.device_commands.get_commands_to_run(u64::MAX);
    let ts0 = due[0].schedule_timestamp;
    let ts1 = due[1].schedule_timestamp;
    let ts2 = due[2].schedule_timestamp;
    begin_command(&mut state, ts0).unwrap();
    let ok = CallOutcome::Response(HttpResponseData { status: 200, body: vec![] });
    finish_command(&mut state, ts0, &ok).unwrap();
    begin_command(&mut state, ts1).unwrap();
    let bad = CallOutcome::Response(HttpResponseData { status: 503, body: vec![] });
    finish_command(&mut state, ts1, &bad).unwrap();
    begin_command(&mut state, ts2).unwrap();
    state
}

#[test]
fn save_load_round_trips_queue_and_credential() {
    let state = populated_state();
    let bytes = save_state(&state);
    let loaded = load_state(&bytes).unwrap();
    // the persisted fields come back exactly: re-saving yields the same bytes
    let bytes_again = save_state(&loaded);
    assert_eq!(bytes, bytes_again);
    // spot checks
    assert_eq!(loaded.cached_access_key().unwrap().as_str(), "key-xyz");
    assert_eq!(
        loaded.device_commands.scheduled_commands.len(),
        state.device_commands.scheduled_commands.len()
    );
    assert_eq!(
        loaded.device_commands.running_commands.len(),
        state.device_commands.running_commands.len()
    );
    assert_eq!(
        loaded.device_commands.finished_commands.len(),
        state.device_commands.finished_commands.len()
    );
    assert_eq!(loaded.next_idempotency_token, state.next_idempotency_token);
    // the volatile device directory is deliberately not persisted
    assert_eq!(loaded.wot_devices.len(), 0);
}

#[test]
fn save_load_round_trips_every_field_of_a_command() {
    let mut state: State = Default::default();
    let cmd = DeviceCommand::new(
        String::from("https://light-\u{00e9}"),
        CommandHttpArguments {
            url: String::from("https://light/actions/768"),
            method: HttpMethod::Post,
            headers: vec![HttpHeader {
                name: String::from("Authorization"),
                value: String::from("Bearer abc"),
            }],
            body: Some(vec![0, 255, 128]),
        },
        0,
        Principal { bytes: vec![4] },
        Some(CommandMetadata { light_color: String::from("red") }),
    );
    state
        .device_commands
        .schedule_command_with_delay(cmd, 5, 10)
        .unwrap();
    let bytes = save_state(&state);
    let loaded = load_state(&bytes).unwrap();
    let got = loaded.device_commands.scheduled_commands.get(15).unwrap();
    assert_eq!(got.device_url.as_str(), "https://light-\u{00e9}");
    assert_eq!(got.http_arguments.url.as_str(), "https://light/actions/768");
    assert_eq!(got.http_arguments.headers.len(), 1);
    assert_eq!(got.http_arguments.headers[0].value.as_str(), "Bearer abc");
    assert_eq!(got.http_arguments.body.as_ref().unwrap(), &vec![0u8, 255, 128]);
    assert_eq!(got.schedule_timestamp, 15);
    assert_eq!(got.sender.bytes, vec![4]);
    assert_eq!(got.metadata.as_ref().unwrap().light_color.as_str(), "red");
    match &got.status {
        CommandStatus::Scheduled => {}
        other => panic!("unexpected status: {:?}", other),
    }
}

#[test]
fn failed_status_reason_survives_the_round_trip() {
    let state = populated_state();
    let bytes = save_state(&state);
    let loaded = load_state(&bytes).unwrap();
    let mut failed_reasons = 0;
    for i in 0..loaded.device_commands.finished_commands.len() {
        let entry = loaded.device_commands.finished_commands.entry_at(i);
        if let CommandStatus::Failed(reason) = &entry.1.status {
            assert_eq!(reason.as_str(), "HTTP status: 503");
            failed_reasons += 1;
        }
    }
    assert_eq!(failed_reasons, 1);
}

#[test]
fn truncated_or_garbage_bytes_are_rejected() {
    let state = populated_state();
    let bytes = save_state(&state);
    // truncated
    let truncated: Vec<u8> = bytes[..bytes.len() - 1].to_vec();
    assert!(load_state(&truncated).is_err());
    // trailing garbage
    let mut padded = bytes.clone();
    padded.push(0);
    assert!(load_state(&padded).is_err());
    // plain garbage
    let garbage: Vec<u8> = vec![255; 40];
    assert!(load_state(&garbage).is_err());
    // empty input is not a saved state either (it lacks the counter)
    let empty: Vec<u8> = Vec::new();
    assert!(load_state(&empty).is_err());
}

#[test]
fn fresh_state_round_trips() {
    let state: State = Default::default();
    let bytes = save_state(&state);
    let loaded = load_state(&bytes).unwrap();
    assert_eq!(save_state(&loaded), bytes);
    assert!(loaded.cached_access_key().is_none());
    assert_eq!(loaded.next_idempotency_token, 0);
    assert_eq!(loaded.device_commands.scheduled_commands.len(), 0);
}
