use omnia_lighting_app_backend::commands::{
    CommandHttpArguments, CommandStatus, DeviceCommand, DeviceCommands, HttpMethod, Principal,
    QueueError,
};
use omnia_lighting_app_backend::COMMANDS_INTERVAL;

fn sample_command(url: &str) -> DeviceCommand {
    DeviceCommand::new(
        String::from(url),
        CommandHttpArguments {
            url: format!("{}/actions/768", url),
            method: HttpMethod::Post,
            headers: Vec::new(),
            body: Some(vec![1, 2, 3]),
        },
        0,
        Principal { bytes: vec![1, 2, 3, 4] },
        None,
    )
}

#[test]
fn spacing_policy_spaces_consecutive_admissions() {
    // interval = 15s; admitting at now = 0 schedules at 15s, an immediate
    // second admission lands at 30s
    let mut q: DeviceCommands = Default::default();
    let a = q.schedule_command(sample_command("https://light-a"), 0).unwrap();
    assert_eq!(a.schedule_timestamp, 15_000_000_000);
    let b = q.schedule_command(sample_command("https://light-b"), 0).unwrap();
    assert_eq!(b.schedule_timestamp, 30_000_000_000);
    assert_eq!(q.scheduled_commands.len(), 2);
    assert_eq!(q.scheduled_commands.last_key(), Some(30_000_000_000));
}

#[test]
fn spacing_policy_measures_from_now_when_queue_drained() {
    let mut q: DeviceCommands = Default::default();
    let a = q.schedule_command(sample_command("https://light-a"), 100).unwrap();
    assert_eq!(a.schedule_timestamp, 100 + COMMANDS_INTERVAL);
    // much later, with the pending partition still holding an old entry,
    // spacing measures from the later of now and the last pending timestamp
    let b = q
        .schedule_command(sample_command("https://light-b"), 50_000_000_000)
        .unwrap();
    assert_eq!(b.schedule_timestamp, 50_000_000_000 + COMMANDS_INTERVAL);
}

#[test]
fn delayed_admission_conflict_is_rejected_explicitly() {
    // two admissions computed to collide on the same timestamp: the second
    // is rejected, not silently dropped
    let mut q: DeviceCommands = Default::default();
    let a = q
        .schedule_command_with_delay(sample_command("https://light-a"), 10, 5)
        .unwrap();
    assert_eq!(a.schedule_timestamp, 15);
    let r = q.schedule_command_with_delay(sample_command("https://light-b"), 10, 5);
    assert_eq!(r.unwrap_err(), QueueError::TimestampConflict);
    // the first command is still there, untouched
    assert_eq!(q.scheduled_commands.len(), 1);
    assert!(q.scheduled_commands.contains(15));
}

#[test]
fn select_due_returns_due_prefix_in_order_and_is_pure() {
    let mut q: DeviceCommands = Default::default();
    q.schedule_command_with_delay(sample_command("https://a"), 0, 10).unwrap();
    q.schedule_command_with_delay(sample_command("https://b"), 0, 30).unwrap();
    q.schedule_command_with_delay(sample_command("https://c"), 0, 20).unwrap();
    let due = q.get_commands_to_run(25);
    assert_eq!(due.len(), 2);
    assert_eq!(due[0].schedule_timestamp, 10);
    assert_eq!(due[1].schedule_timestamp, 20);
    // calling again without an intervening transition returns the same result
    let due_again = q.get_commands_to_run(25);
    assert_eq!(due_again.len(), 2);
    assert_eq!(due_again[0].schedule_timestamp, 10);
    assert_eq!(due_again[1].schedule_timestamp, 20);
    // strictly-less-than: a command exactly at now is not due
    assert_eq!(q.get_commands_to_run(10).len(), 0);
    assert_eq!(q.get_commands_to_run(11).len(), 1);
}

#[test]
fn transition_moves_forward_only() {
    let mut q: DeviceCommands = Default::default();
    let a = q.schedule_command(sample_command("https://light-a"), 0).unwrap();
    let ts = a.schedule_timestamp;
    // a pending command cannot regress
    assert_eq!(
        q.transition(ts, CommandStatus::Scheduled).unwrap_err(),
        QueueError::StatusOrderViolation
    );
    // pending -> running
    q.transition(ts, CommandStatus::Running).unwrap();
    assert!(!q.scheduled_commands.contains(ts));
    assert!(q.running_commands.contains(ts));
    // running -> completed
    q.transition(ts, CommandStatus::Completed).unwrap();
    assert!(!q.running_commands.contains(ts));
    assert!(q.finished_commands.contains(ts));
    match &q.finished_commands.get(ts).unwrap().status {
        CommandStatus::Completed => {}
        other => panic!("unexpected status: {:?}", other),
    }
    // a finished command cannot be started again
    assert_eq!(
        q.transition(ts, CommandStatus::Running).unwrap_err(),
        QueueError::CommandNotFound
    );
}

#[test]
fn transition_unknown_timestamp_is_not_found() {
    let mut q: DeviceCommands = Default::default();
    assert_eq!(
        q.transition(7, CommandStatus::Running).unwrap_err(),
        QueueError::CommandNotFound
    );
    assert_eq!(
        q.transition(7, CommandStatus::Completed).unwrap_err(),
        QueueError::CommandNotFound
    );
}
