//! The scheduling entry point: validating the caller, resolving the device
//! and the credential, building the outbound request, and admitting the
//! command under the spacing policy.
use vstd::prelude::*;

use crate::commands::{
    spaced_timestamp, spacing_fits, CommandHttpArguments, CommandHttpArgumentsView,
    CommandMetadata, CommandMetadataView, CommandStatusView, DeviceCommand, DeviceCommandView,
    DeviceUrl, HttpHeader, HttpHeaderView, HttpMethod, Principal, QueueError,
};
use crate::queue::has_key;
use crate::state::{State, StateView};
use crate::utils::{dec_digits, get_hue_from_color, hue_of, u64_to_string};
use crate::wot::{devices_has_key, devices_value_at, DeviceHeaders};

verus! {

/// Why a scheduling request was refused.
#[derive(Clone, Copy, Debug, PartialEq, Eq, Structural)]
pub enum ScheduleError {
    /// The caller is the anonymous identity.
    ValidationError,
    /// The device is not in the most recently discovered directory.
    NotFoundError,
    /// No valid access credential is cached; the host must obtain a fresh
    /// one from the credential issuer and try again.
    CredentialMissing,
    /// The computed execution timestamp already keys a command in the
    /// queue; the admission is rejected explicitly.
    ConflictError,
}

/// The text each scheduling error surfaces as.
pub open spec fn schedule_error_message(e: ScheduleError) -> Seq<char> {
    match e {
        ScheduleError::ValidationError => "User not authenticated"@,
        ScheduleError::NotFoundError => "Device not found"@,
        ScheduleError::CredentialMissing => "No valid access key"@,
        ScheduleError::ConflictError => "Command timestamp conflict"@,
    }
}

impl ScheduleError {
    /// The text this error surfaces as.
    pub fn message(&self) -> (r: String)
        ensures
            r@ == schedule_error_message(*self),
    {
        match self {
            ScheduleError::ValidationError => String::from_str("User not authenticated"),
            ScheduleError::NotFoundError => String::from_str("Device not found"),
            ScheduleError::CredentialMissing => String::from_str("No valid access key"),
            ScheduleError::ConflictError => String::from_str("Command timestamp conflict"),
        }
    }
}

/// The header that carries the access credential as a bearer token.
pub open spec fn auth_header_of(key: Seq<char>) -> HttpHeaderView {
    HttpHeaderView { name: "Authorization"@, value: "Bearer "@ + key }
}

/// The headers of one command's request: the device's own headers followed
/// by the credential header.
pub open spec fn request_headers_of(
    device: Seq<(Seq<char>, Seq<char>)>,
    key: Seq<char>,
) -> Seq<HttpHeaderView> {
    device.map(|i: int, h: (Seq<char>, Seq<char>)| HttpHeaderView { name: h.0, value: h.1 }).push(
        auth_header_of(key),
    )
}

/// Builds the request headers: the device's own headers followed by the
/// credential as a bearer token.
pub fn build_request_headers(device: &DeviceHeaders, access_key: &str) -> (r: Vec<HttpHeader>)
    ensures
        crate::commands::headers_view(r@) =~= request_headers_of(device@, access_key@),
{
    let mut r: Vec<HttpHeader> = Vec::new();
    let mut i: usize = 0;
    let n = device.len();
    while i < n
        invariant
            i <= n,
            n == device@.len(),
            r@.len() == i,
            forall|j: int|
                0 <= j < i ==> (#[trigger] r@[j])@ == (HttpHeaderView {
                    name: device@[j].0,
                    value: device@[j].1,
                }),
        decreases n - i,
    {
        let (name, value) = device.entry_at(i);
        r.push(HttpHeader { name: name.clone(), value: value.clone() });
        i = i + 1;
    }
    let mut auth_value = String::from_str("Bearer ");
    auth_value.append(access_key);
    r.push(HttpHeader { name: String::from_str("Authorization"), value: auth_value });
    r
}

/// The fixed action endpoint appended to a device URL.
pub open spec fn command_url_of(device_url: Seq<char>) -> Seq<char> {
    device_url + "/actions/768"@
}

/// The first part of the actuation request body, before the hue value.
pub open spec fn body_head() -> Seq<char> {
    "{\n        \"command\": {\n            \"id\": 6,\n            \"payload\": {\n                \"0\": "@
}

/// The last part of the actuation request body, after the hue value.
pub open spec fn body_tail() -> Seq<char> {
    ",\n                \"1\": 254,\n                \"2\": 0,\n                \"3\": 0,\n                \"4\": 0\n            }\n        }\n    }"@
}

/// The actuation request body for a color: the fixed command payload with
/// the color's hue spliced in, as UTF-8 bytes.
pub open spec fn command_body_of(color: Seq<char>) -> Seq<u8> {
    vstd::utf8::encode_utf8(body_head() + dec_digits(hue_of(color) as int) + body_tail())
}

/// Builds the actuation request body for a color.
pub fn build_command_body(light_color: &str) -> (r: Vec<u8>)
    ensures
        r@ == command_body_of(light_color@),
{
    let hue = get_hue_from_color(light_color);
    let mut body = String::from_str(
        "{\n        \"command\": {\n            \"id\": 6,\n            \"payload\": {\n                \"0\": ",
    );
    let digits = u64_to_string(hue as u64);
    body.append(digits.as_str());
    body.append(
        ",\n                \"1\": 254,\n                \"2\": 0,\n                \"3\": 0,\n                \"4\": 0\n            }\n        }\n    }",
    );
    let r = body.as_str().as_bytes_vec();
    proof {
        assert(body@ == body_head() + dec_digits(hue_of(light_color@) as int) + body_tail());
    }
    r
}

/// The command the scheduling entry point builds, before the queue stamps
/// its execution timestamp.
pub open spec fn built_command_view(
    device_url: Seq<char>,
    device: Seq<(Seq<char>, Seq<char>)>,
    key: Seq<char>,
    color: Seq<char>,
    sender: Seq<u8>,
    ts: u64,
) -> DeviceCommandView {
    DeviceCommandView {
        device_url: device_url,
        http_arguments: CommandHttpArgumentsView {
            url: command_url_of(device_url),
            method: HttpMethod::Post,
            headers: request_headers_of(device, key),
            body: Some(command_body_of(color)),
        },
        schedule_timestamp: ts,
        sender: sender,
        metadata: Some(CommandMetadataView { light_color: color }),
        status: CommandStatusView::Scheduled,
    }
}

/// Schedules a command that sets a device's light color: rejects anonymous
/// callers and unknown devices, requires a cached access credential (the
/// host refreshes it and retries when none is held), builds the outbound
/// request, and admits the command under the spacing policy.
pub fn schedule_command(
    state: &mut State,
    device_url: &DeviceUrl,
    light_color: &String,
    caller: &Principal,
    now: u64,
) -> (r: Result<(), ScheduleError>)
    requires
        old(state).wf(),
        spacing_fits(old(state)@.device_commands.scheduled, now),
    ensures
        final(state).wf(),
        ({
            let q0 = old(state)@.device_commands;
            let ts = spaced_timestamp(q0.scheduled, now);
            match r {
                Ok(()) => {
                    &&& !crate::commands::is_anonymous(caller@)
                    &&& devices_has_key(old(state)@.wot_devices, device_url@)
                    &&& old(state)@.last_valid_access_key is Some
                    &&& final(state)@.device_commands.scheduled =~= q0.scheduled.push(
                        (
                            ts,
                            built_command_view(
                                device_url@,
                                devices_value_at(old(state)@.wot_devices, device_url@),
                                old(state)@.last_valid_access_key->0,
                                light_color@,
                                caller@,
                                ts,
                            ),
                        ),
                    )
                    &&& final(state)@.device_commands.running == q0.running
                    &&& final(state)@.device_commands.finished == q0.finished
                    &&& final(state)@ == (StateView {
                        device_commands: final(state)@.device_commands,
                        ..old(state)@
                    })
                },
                Err(e) => {
                    &&& final(state)@ == old(state)@
                    &&& (e == ScheduleError::ValidationError <==> crate::commands::is_anonymous(
                        caller@,
                    ))
                    &&& (e == ScheduleError::NotFoundError <==> (!crate::commands::is_anonymous(
                        caller@,
                    ) && !devices_has_key(old(state)@.wot_devices, device_url@)))
                    &&& (e == ScheduleError::CredentialMissing <==> (
                    !crate::commands::is_anonymous(caller@) && devices_has_key(
                        old(state)@.wot_devices,
                        device_url@,
                    ) && old(state)@.last_valid_access_key is None))
                    &&& (e == ScheduleError::ConflictError <==> (!crate::commands::is_anonymous(
                        caller@,
                    ) && devices_has_key(old(state)@.wot_devices, device_url@) && old(
                        state,
                    )@.last_valid_access_key is Some && (has_key(q0.running, ts) || has_key(
                        q0.finished,
                        ts,
                    ))))
                },
            }
        }),
{
    if caller.is_anonymous() {
        return Err(ScheduleError::ValidationError);
    }
    let device = match state.wot_devices.get(device_url) {
        Some(d) => d.clone_headers(),
        None => {
            return Err(ScheduleError::NotFoundError);
        },
    };
    let access_key = match state.cached_access_key() {
        Some(k) => k,
        None => {
            return Err(ScheduleError::CredentialMissing);
        },
    };
    let headers = build_request_headers(&device, access_key.as_str());
    let mut url = device_url.clone();
    url.append("/actions/768");
    let body = build_command_body(light_color.as_str());
    let device_command = DeviceCommand::new(
        device_url.clone(),
        CommandHttpArguments {
            url,
            method: HttpMethod::Post,
            headers,
            body: Some(body),
        },
        // the timestamp is stamped by the queue's admission below
        0,
        caller.clone_principal(),
        Some(CommandMetadata { light_color: light_color.clone() }),
    );
    let ghost built = device_command@;
    match state.device_commands.schedule_command(device_command, now) {
        Ok(admitted) => {
            proof {
                let q0 = old(state)@.device_commands;
                let ts = spaced_timestamp(q0.scheduled, now);
                assert(admitted@ == crate::commands::with_timestamp(built, ts));
                assert(admitted@ =~= built_command_view(
                    device_url@,
                    devices_value_at(old(state)@.wot_devices, device_url@),
                    old(state)@.last_valid_access_key->0,
                    light_color@,
                    caller@,
                    ts,
                ));
            }
            Ok(())
        },
        Err(_) => Err(ScheduleError::ConflictError),
    }
}

/// Points the process at a freshly discovered device directory.
pub fn set_wot_devices(state: &mut State, devices: crate::wot::WotDevices)
    requires
        old(state).wf(),
        devices.wf(),
    ensures
        final(state).wf(),
        final(state)@ == (StateView { wot_devices: devices@, ..old(state)@ }),
{
    state.wot_devices = devices;
}

} // verus!
