use omnia_lighting_app_backend::commands::{
    CommandHttpArguments, CommandStatus, DeviceCommand, HttpMethod, Principal,
};
use omnia_lighting_app_backend::executor::{
    begin_command, finish_command, interpret_outcome, prepare_attempt, CallOutcome,
    HttpResponseData, RejectionCode,
};
use omnia_lighting_app_backend::outcalls::transform_device_response;
use omnia_lighting_app_backend::schedule::{schedule_command, ScheduleError};
use omnia_lighting_app_backend::state::State;
use omnia_lighting_app_backend::wot::WotDevices;

fn state_with_device(url: &str) -> State {
    let mut state: State = Default::default();
    let mut devices = WotDevices::new();
    devices.add_header(
        &String::from(url),
        String::from("Accept"),
        String::from("application/json"),
    );
    omnia_lighting_app_backend::schedule::set_wot_devices(&mut state, devices);
    state.store_access_key(String::from("key-1"));
    state
}

fn caller() -> Principal {
    Principal { bytes: vec![9, 9, 9] }
}

/// Schedules one command and relocates it into the running partition,
/// returning its timestamp.
fn one_running_command(state: &mut State) -> u64 {
    let url = String::from("https://light");
    schedule_command(state, &url, &String::from("red"), &caller(), 0).unwrap();
    let due = state.device_commands.get_commands_to_run(u64::MAX);
    assert_eq!(due.len(), 1);
    let ts = due[0].schedule_timestamp;
    begin_command(state, ts).unwrap();
    ts
}

#[test]
fn http_500_fails_command_and_keeps_credential() {
    let mut state = state_with_device("https://light");
    let ts = one_running_command(&mut state);
    let outcome = CallOutcome::Response(HttpResponseData { status: 500, body: vec![] });
    finish_command(&mut state, ts, &outcome).unwrap();
    assert!(!state.device_commands.running_commands.contains(ts));
    assert!(state.device_commands.finished_commands.contains(ts));
    match &state.device_commands.finished_commands.get(ts).unwrap().status {
        CommandStatus::Failed(reason) => assert_eq!(reason.as_str(), "HTTP status: 500"),
        other => panic!("unexpected status: {:?}", other),
    }
    // the cached credential is untouched
    assert_eq!(state.cached_access_key().unwrap().as_str(), "key-1");
}

#[test]
fn http_401_fails_command_and_clears_credential() {
    let mut state = state_with_device("https://light");
    let ts = one_running_command(&mut state);
    let outcome = CallOutcome::Response(HttpResponseData { status: 401, body: vec![] });
    finish_command(&mut state, ts, &outcome).unwrap();
    assert!(state.device_commands.finished_commands.contains(ts));
    match &state.device_commands.finished_commands.get(ts).unwrap().status {
        CommandStatus::Failed(reason) => assert_eq!(reason.as_str(), "access key invalid"),
        other => panic!("unexpected status: {:?}", other),
    }
    // the cached credential is cleared at once...
    assert!(state.cached_access_key().is_none());
    // ...and the next scheduling call must obtain a fresh credential
    let r = schedule_command(
        &mut state,
        &String::from("https://light"),
        &String::from("blue"),
        &caller(),
        u64::MAX / 2,
    );
    assert_eq!(r.unwrap_err(), ScheduleError::CredentialMissing);
}

#[test]
fn success_statuses_complete_the_command() {
    for status in [200u64, 204, 301, 399] {
        let outcome = CallOutcome::Response(HttpResponseData { status, body: vec![] });
        match interpret_outcome(&outcome) {
            CommandStatus::Completed => {}
            other => panic!("status {} gave {:?}", status, other),
        }
    }
    for status in [199u64, 400, 404, 500] {
        let outcome = CallOutcome::Response(HttpResponseData { status, body: vec![] });
        match interpret_outcome(&outcome) {
            CommandStatus::Failed(_) => {}
            other => panic!("status {} gave {:?}", status, other),
        }
    }
}

#[test]
fn transport_rejection_records_code_and_message() {
    let outcome = CallOutcome::Rejected(
        RejectionCode::SysTransient,
        String::from("connection reset"),
    );
    match interpret_outcome(&outcome) {
        CommandStatus::Failed(reason) => {
            assert_eq!(
                reason.as_str(),
                "RejectionCode: SysTransient, Error: connection reset"
            );
        }
        other => panic!("unexpected status: {:?}", other),
    }
}

#[test]
fn every_attempt_carries_a_fresh_idempotency_token() {
    let mut state: State = Default::default();
    let cmd = DeviceCommand::new(
        String::from("https://light"),
        CommandHttpArguments {
            url: String::from("https://light/actions/768"),
            method: HttpMethod::Post,
            headers: Vec::new(),
            body: None,
        },
        0,
        caller(),
        None,
    );
    let first = prepare_attempt(&mut state, &cmd);
    let second = prepare_attempt(&mut state, &cmd);
    let t1 = &first.headers[first.headers.len() - 1];
    let t2 = &second.headers[second.headers.len() - 1];
    assert_eq!(t1.name.as_str(), "Idempotency-Key");
    assert_eq!(t2.name.as_str(), "Idempotency-Key");
    assert_eq!(t1.value.as_str(), "0");
    assert_eq!(t2.value.as_str(), "1");
    assert_ne!(t1.value, t2.value);
    // the command's own headers and payload are untouched
    assert_eq!(first.url.as_str(), "https://light/actions/768");
    assert_eq!(first.headers.len(), 1);
}

#[test]
fn finish_command_on_unknown_timestamp_changes_nothing() {
    let mut state = state_with_device("https://light");
    let outcome = CallOutcome::Response(HttpResponseData { status: 401, body: vec![] });
    assert!(finish_command(&mut state, 12345, &outcome).is_err());
    // even a 401 outcome leaves the credential alone when nothing was running
    assert_eq!(state.cached_access_key().unwrap().as_str(), "key-1");
}

#[test]
fn response_transform_keeps_status_and_drops_body() {
    let raw = HttpResponseData { status: 200, body: vec![1, 2, 3] };
    let out = transform_device_response(raw);
    assert_eq!(out.status, 200);
    assert!(out.body.is_empty());
}

#[test]
fn run_cycle_processes_due_commands_in_timestamp_order() {
    let mut state = state_with_device("https://light");
    let url = String::from("https://light");
    schedule_command(&mut state, &url, &String::from("red"), &caller(), 0).unwrap();
    schedule_command(&mut state, &url, &String::from("green"), &caller(), 0).unwrap();
    let due = state.device_commands.get_commands_to_run(u64::MAX);
    assert_eq!(due.len(), 2);
    assert!(due[0].schedule_timestamp < due[1].schedule_timestamp);
    for cmd in &due {
        let ts = cmd.schedule_timestamp;
        begin_command(&mut state, ts).unwrap();
        let outcome = CallOutcome::Response(HttpResponseData { status: 204, body: vec![] });
        finish_command(&mut state, ts, &outcome).unwrap();
    }
    assert_eq!(state.device_commands.scheduled_commands.len(), 0);
    assert_eq!(state.device_commands.running_commands.len(), 0);
    assert_eq!(state.device_commands.finished_commands.len(), 2);
}

#[test]
fn queue_snapshot_bounds_finished_commands() {
    let mut state = state_with_device("https://light");
    let url = String::from("https://light");
    for i in 0..12u64 {
        schedule_command(&mut state, &url, &String::from("red"), &caller(), i * 100).unwrap();
    }
    let due = state.device_commands.get_commands_to_run(u64::MAX);
    assert_eq!(due.len(), 12);
    for cmd in &due {
        let ts = cmd.schedule_timestamp;
        begin_command(&mut state, ts).unwrap();
        let outcome = CallOutcome::Response(HttpResponseData { status: 200, body: vec![] });
        finish_command(&mut state, ts, &outcome).unwrap();
    }
    let snapshot = state.get_commands();
    assert_eq!(snapshot.finished_commands.len(), 10);
    // the snapshot keeps the ten most recent finished entries
    let oldest_kept = snapshot.finished_commands.entry_at(0).0;
    let all_ts: Vec<u64> = due.iter().map(|c| c.schedule_timestamp).collect();
    assert_eq!(oldest_kept, all_ts[2]);
}
