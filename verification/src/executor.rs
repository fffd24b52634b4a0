//! Interpreting the outcome of one outbound call into a terminal command
//! status, and the executor's per-command steps over the shared state.
use vstd::prelude::*;

use crate::commands::{
    begin_step, finish_step, CommandHttpArguments, CommandStatus, CommandStatusView,
    DeviceCommand, HttpHeader, HttpHeaderView, QueueError,
};
use crate::queue::has_key;
use crate::state::{State, StateView};
use crate::utils::{dec_digits, u64_to_string};

verus! {

/// Why the platform refused to deliver an outbound call, mirroring the
/// host's rejection codes.
#[derive(Clone, Copy, Debug, PartialEq, Eq, Structural)]
pub enum RejectionCode {
    NoError,
    SysFatal,
    SysTransient,
    DestinationInvalid,
    CanisterReject,
    CanisterError,
    Unknown,
}

/// The name a rejection code is reported under.
pub open spec fn rejection_name(c: RejectionCode) -> Seq<char> {
    match c {
        RejectionCode::NoError => "NoError"@,
        RejectionCode::SysFatal => "SysFatal"@,
        RejectionCode::SysTransient => "SysTransient"@,
        RejectionCode::DestinationInvalid => "DestinationInvalid"@,
        RejectionCode::CanisterReject => "CanisterReject"@,
        RejectionCode::CanisterError => "CanisterError"@,
        RejectionCode::Unknown => "Unknown"@,
    }
}

/// The name a rejection code is reported under.
pub fn rejection_name_str(c: RejectionCode) -> (r: &'static str)
    ensures
        r@ == rejection_name(c),
{
    match c {
        RejectionCode::NoError => "NoError",
        RejectionCode::SysFatal => "SysFatal",
        RejectionCode::SysTransient => "SysTransient",
        RejectionCode::DestinationInvalid => "DestinationInvalid",
        RejectionCode::CanisterReject => "CanisterReject",
        RejectionCode::CanisterError => "CanisterError",
        RejectionCode::Unknown => "Unknown",
    }
}

/// One HTTP response as the scheduler models it: the numeric status code
/// and the (possibly sanitized) body bytes.
#[derive(Clone, Debug)]
pub struct HttpResponseData {
    pub status: u64,
    pub body: Vec<u8>,
}

/// Ghost model of a response.
pub struct HttpResponseDataView {
    pub status: u64,
    pub body: Seq<u8>,
}

impl View for HttpResponseData {
    type V = HttpResponseDataView;

    open spec fn view(&self) -> HttpResponseDataView {
        HttpResponseDataView { status: self.status, body: self.body@ }
    }
}

/// What one outbound attempt came back with: a response from the device,
/// or a transport-level rejection with no response obtained.
#[derive(Clone, Debug)]
pub enum CallOutcome {
    Response(HttpResponseData),
    Rejected(RejectionCode, String),
}

/// Ghost model of an outcome.
pub enum CallOutcomeView {
    Response(HttpResponseDataView),
    Rejected(RejectionCode, Seq<char>),
}

impl View for CallOutcome {
    type V = CallOutcomeView;

    open spec fn view(&self) -> CallOutcomeView {
        match self {
            CallOutcome::Response(r) => CallOutcomeView::Response(r@),
            CallOutcome::Rejected(c, m) => CallOutcomeView::Rejected(*c, m@),
        }
    }
}

/// Whether an outcome is the authorization failure that invalidates the
/// cached access credential.
pub open spec fn is_auth_failure(o: CallOutcomeView) -> bool {
    o matches CallOutcomeView::Response(r) && r.status == 401
}

/// The terminal status an outcome drives a running command to: a status
/// in [200, 400) completes it; 401 fails it with the fixed
/// invalid-credential reason; any other status fails it with that status
/// spelled out; a rejection fails it with the rejection's code and
/// message.
pub open spec fn outcome_status(o: CallOutcomeView) -> CommandStatusView {
    match o {
        CallOutcomeView::Response(r) => {
            if 200 <= r.status && r.status < 400 {
                CommandStatusView::Completed
            } else if r.status == 401 {
                CommandStatusView::Failed("access key invalid"@)
            } else {
                CommandStatusView::Failed("HTTP status: "@ + dec_digits(r.status as int))
            }
        },
        CallOutcomeView::Rejected(code, msg) => {
            CommandStatusView::Failed(
                "RejectionCode: "@ + rejection_name(code) + ", Error: "@ + msg,
            )
        },
    }
}

/// Every outcome drives the command to a terminal status.
pub proof fn lemma_outcome_status_terminal(o: CallOutcomeView)
    ensures
        crate::commands::is_terminal(outcome_status(o)),
{
}

/// The name of the header that carries the per-attempt idempotency token.
pub open spec fn idempotency_header_name() -> Seq<char> {
    "Idempotency-Key"@
}

/// Builds the outbound request for one attempt at a command: the command's
/// own request plus a freshly taken idempotency token, so a transport that
/// may deliver a request more than once can deduplicate at the device.
/// Every attempt, even a retry of an identical command, carries a new
/// token.
pub fn prepare_attempt(state: &mut State, cmd: &DeviceCommand) -> (r: CommandHttpArguments)
    requires
        old(state)@.next_idempotency_token < u64::MAX,
    ensures
        final(state)@ == (StateView {
            next_idempotency_token: (old(state)@.next_idempotency_token + 1) as u64,
            ..old(state)@
        }),
        r@.url == cmd@.http_arguments.url,
        r@.method == cmd@.http_arguments.method,
        r@.body == cmd@.http_arguments.body,
        r@.headers =~= cmd@.http_arguments.headers.push(
            HttpHeaderView {
                name: idempotency_header_name(),
                value: dec_digits(old(state)@.next_idempotency_token as int),
            },
        ),
{
    let token = state.take_idempotency_token();
    let mut args = cmd.http_arguments().clone_arguments();
    let header = HttpHeader {
        name: String::from_str("Idempotency-Key"),
        value: u64_to_string(token),
    };
    let ghost hv = header@;
    let ghost hs0 = args.headers@;
    args.headers.push(header);
    proof {
        assert(crate::commands::headers_view(args.headers@) =~= crate::commands::headers_view(
            hs0,
        ).push(hv));
    }
    args
}

/// Relocates a due pending command into the running partition, the step
/// the executor takes just before it issues the outbound call. Fails
/// exactly when no pending command carries the timestamp.
pub fn begin_command(state: &mut State, ts: u64) -> (r: Result<(), QueueError>)
    requires
        old(state).wf(),
    ensures
        final(state).wf(),
        match r {
            Ok(()) => {
                &&& begin_step(old(state)@.device_commands, final(state)@.device_commands, ts)
                &&& final(state)@ == (StateView {
                    device_commands: final(state)@.device_commands,
                    ..old(state)@
                })
            },
            Err(e) => {
                &&& final(state)@ == old(state)@
                &&& e == QueueError::CommandNotFound
                &&& !has_key(old(state)@.device_commands.scheduled, ts)
            },
        },
{
    let r = state.device_commands.transition(ts, CommandStatus::Running);
    match r {
        Ok(()) => Ok(()),
        Err(e) => {
            proof {
                assert(e == QueueError::CommandNotFound);
            }
            Err(e)
        },
    }
}

/// Records the outcome of one outbound attempt: the running command moves
/// to the finished partition with the status the outcome dictates, and an
/// authorization failure additionally drops the cached access credential,
/// so the next scheduling call requests a fresh one. Fails exactly when no
/// running command carries the timestamp, and then changes nothing.
pub fn finish_command(state: &mut State, ts: u64, outcome: &CallOutcome) -> (r: Result<
    (),
    QueueError,
>)
    requires
        old(state).wf(),
    ensures
        final(state).wf(),
        match r {
            Ok(()) => {
                &&& finish_step(
                    old(state)@.device_commands,
                    final(state)@.device_commands,
                    ts,
                    outcome_status(outcome@),
                )
                &&& final(state)@.last_valid_access_key == (if is_auth_failure(outcome@) {
                    None
                } else {
                    old(state)@.last_valid_access_key
                })
                &&& final(state)@ == (StateView {
                    device_commands: final(state)@.device_commands,
                    last_valid_access_key: final(state)@.last_valid_access_key,
                    ..old(state)@
                })
            },
            Err(e) => {
                &&& final(state)@ == old(state)@
                &&& e == QueueError::CommandNotFound
                &&& !has_key(old(state)@.device_commands.running, ts)
            },
        },
{
    let status = interpret_outcome(outcome);
    proof {
        lemma_outcome_status_terminal(outcome@);
    }
    let r = state.device_commands.transition(ts, status);
    match r {
        Ok(()) => {
            let auth_failed = match outcome {
                CallOutcome::Response(resp) => resp.status == 401,
                CallOutcome::Rejected(_, _) => false,
            };
            if auth_failed {
                // this is the case when the access key is not valid: drop it,
                // so that the next scheduling call obtains a new one
                state.invalidate_access_key();
            }
            Ok(())
        },
        Err(e) => {
            proof {
                assert(e == QueueError::CommandNotFound);
            }
            Err(e)
        },
    }
}

/// Interprets one outbound attempt's outcome as the command's terminal
/// status.
pub fn interpret_outcome(o: &CallOutcome) -> (r: CommandStatus)
    ensures
        r@ == outcome_status(o@),
{
    match o {
        CallOutcome::Response(resp) => {
            if 200 <= resp.status && resp.status < 400 {
                CommandStatus::Completed
            } else if resp.status == 401 {
                let reason = String::from_str("access key invalid");
                CommandStatus::Failed(reason)
            } else {
                let mut reason = String::from_str("HTTP status: ");
                let digits = u64_to_string(resp.status);
                reason.append(digits.as_str());
                CommandStatus::Failed(reason)
            }
        },
        CallOutcome::Rejected(code, msg) => {
            let mut reason = String::from_str("RejectionCode: ");
            reason.append(rejection_name_str(*code));
            reason.append(", Error: ");
            reason.append(msg.as_str());
            CommandStatus::Failed(reason)
        },
    }
}

} // verus!
