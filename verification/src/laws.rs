//! The library's laws: properties of whole runs, proved once over the spec
//! functions that the operations' contracts are stated in.
use vstd::prelude::*;

use crate::commands::{
    begin_step, finish_step, is_terminal, queue_wf, spaced_timestamp, spacing_fits,
    status_rank, status_step_allowed, well_spaced, CommandStatusView, DeviceCommandView,
    DeviceCommandsView,
};
use crate::queue::{has_key, key_index, map_sorted, value_at, Entries};
use crate::state::StateView;
use crate::utils::{dec_digits, lemma_dec_digits_injective};
use crate::COMMANDS_INTERVAL;

verus! {

/// Law: an admission under the spacing policy keeps the pending partition
/// sorted (timestamps non-decreasing) and well spaced: every consecutive
/// pair of pending timestamps differs by at least the fixed interval. Any
/// sequence of such admissions therefore keeps both, by induction over the
/// sequence; this is exactly the shape `DeviceCommands::schedule_command`
/// ensures for its pending partition.
pub proof fn lemma_spacing_policy_preserves_spacing(
    pre: Entries,
    post: Entries,
    c: DeviceCommandView,
    now: u64,
)
    requires
        map_sorted(pre),
        well_spaced(pre),
        spacing_fits(pre, now),
        post == pre.push((spaced_timestamp(pre, now), c)),
    ensures
        map_sorted(post),
        well_spaced(post),
{
    let ts = spaced_timestamp(pre, now);
    assert(forall|j: int| 0 <= j < pre.len() ==> post[j] == pre[j]);
    assert(post[post.len() - 1] == (ts, c));
    if pre.len() > 0 {
        let last = pre[pre.len() - 1].0;
        assert(ts >= last + COMMANDS_INTERVAL);
        assert forall|j: int| 0 <= j < pre.len() implies (#[trigger] pre[j]).0 < ts by {
            if j < pre.len() - 1 {
                assert(pre[j].0 < last);
            }
        }
    }
    assert(map_sorted(post)) by {
        assert forall|p: int, q: int| 0 <= p < q < post.len() implies (#[trigger] post[p]).0 < (
        #[trigger] post[q]).0 by {
            if q < post.len() - 1 {
                assert(pre[p].0 < pre[q].0);
            }
        }
    }
    assert(well_spaced(post)) by {
        assert forall|i: int|
            #![trigger post[i]]
            0 <= i && i + 1 < post.len() implies post[i].0 + COMMANDS_INTERVAL <= post[i
            + 1].0 by {
            if i + 1 < post.len() - 1 {
                assert(pre[i].0 + COMMANDS_INTERVAL <= pre[i + 1].0);
            } else {
                assert(post[i] == pre[pre.len() - 1]);
            }
        }
    }
}

/// One handing-out of an idempotency token: the attempt carries the
/// counter's current value and the counter moves past it. This is the
/// shape `State::take_idempotency_token` and `prepare_attempt` ensure; no
/// other operation of the library ever decreases the counter.
pub open spec fn token_step(s0: StateView, s1: StateView, t: u64) -> bool {
    &&& s0.next_idempotency_token < u64::MAX
    &&& t == s0.next_idempotency_token
    &&& s1 == (StateView {
        next_idempotency_token: (s0.next_idempotency_token + 1) as u64,
        ..s0
    })
}

/// Law: every outbound attempt carries a distinct idempotency token. A
/// fresh token differs from every token handed out before it — those lie
/// below the counter — and the rendered token strings differ too, because
/// decimal rendering is injective. In particular two attempts in a row,
/// even for retried admissions of identical commands, carry different
/// tokens.
pub proof fn lemma_idempotency_tokens_distinct(
    s0: StateView,
    s1: StateView,
    t: u64,
    earlier: u64,
)
    requires
        token_step(s0, s1, t),
        earlier < s0.next_idempotency_token,
    ensures
        t != earlier,
        dec_digits(t as int) != dec_digits(earlier as int),
{
    if dec_digits(t as int) == dec_digits(earlier as int) {
        lemma_dec_digits_injective(t as int, earlier as int);
    }
}

/// Law (corollary): two consecutive attempts carry distinct tokens.
pub proof fn lemma_consecutive_tokens_distinct(
    s0: StateView,
    s1: StateView,
    s2: StateView,
    t1: u64,
    t2: u64,
)
    requires
        token_step(s0, s1, t1),
        token_step(s1, s2, t2),
    ensures
        t1 != t2,
        dec_digits(t1 as int) != dec_digits(t2 as int),
{
    lemma_idempotency_tokens_distinct(s1, s2, t2, t1);
}

/// The status of the command keyed `k`, wherever in the queue it sits.
pub open spec fn status_of(q: DeviceCommandsView, k: u64) -> Option<CommandStatusView> {
    if has_key(q.scheduled, k) {
        Some(value_at(q.scheduled, k).status)
    } else if has_key(q.running, k) {
        Some(value_at(q.running, k).status)
    } else if has_key(q.finished, k) {
        Some(value_at(q.finished, k).status)
    } else {
        None
    }
}

/// In a well-formed queue, a command's status agrees with the partition
/// it sits in.
pub proof fn lemma_status_in_partition(q: DeviceCommandsView, k: u64)
    requires
        queue_wf(q),
    ensures
        has_key(q.scheduled, k) ==> value_at(q.scheduled, k).status is Scheduled,
        has_key(q.running, k) ==> value_at(q.running, k).status is Running,
        has_key(q.finished, k) ==> is_terminal(value_at(q.finished, k).status),
{
    if has_key(q.scheduled, k) {
        let w = key_index(q.scheduled, k);
        assert(0 <= w < q.scheduled.len() && q.scheduled[w].0 == k);
        assert(q.scheduled[w].1.status is Scheduled);
    }
    if has_key(q.running, k) {
        let w = key_index(q.running, k);
        assert(0 <= w < q.running.len() && q.running[w].0 == k);
        assert(q.running[w].1.status is Running);
    }
    if has_key(q.finished, k) {
        let w = key_index(q.finished, k);
        assert(0 <= w < q.finished.len() && q.finished[w].0 == k);
        assert(is_terminal(q.finished[w].1.status));
    }
}

/// Law: a relocation never moves any command's status backwards. The
/// relocated command takes exactly one allowed step along
/// `Scheduled -> Running -> {Completed, Failed}`; every other command
/// keeps its status; no command disappears.
pub proof fn lemma_transitions_forward(
    q0: DeviceCommandsView,
    q1: DeviceCommandsView,
    ts: u64,
    st: CommandStatusView,
    k: u64,
)
    requires
        queue_wf(q0),
        queue_wf(q1),
        begin_step(q0, q1, ts) || finish_step(q0, q1, ts, st),
    ensures
        status_of(q0, k) is Some ==> status_of(q1, k) is Some,
        status_of(q0, k) is Some && k != ts ==> status_of(q1, k) == status_of(q0, k),
        k == ts && status_of(q0, k) is Some ==> status_step_allowed(
            status_of(q0, k)->0,
            status_of(q1, k)->0,
        ),
        status_of(q0, k) is Some ==> status_rank(status_of(q1, k)->0) >= status_rank(
            status_of(q0, k)->0,
        ),
{
    lemma_status_in_partition(q0, k);
    lemma_status_in_partition(q1, k);
    if begin_step(q0, q1, ts) {
        if k == ts {
            assert(has_key(q0.scheduled, ts));
            assert(has_key(q1.running, ts));
            assert(value_at(q1.running, ts).status is Running);
        } else {
            if has_key(q0.scheduled, k) {
                assert(has_key(q1.scheduled, k));
                assert(value_at(q1.scheduled, k) == value_at(q0.scheduled, k));
            } else if has_key(q0.running, k) {
                assert(has_key(q1.running, k));
                assert(value_at(q1.running, k) == value_at(q0.running, k));
                assert(!has_key(q1.scheduled, k)) by {
                    if has_key(q1.scheduled, k) {
                        assert(has_key(q0.scheduled, k));
                    }
                }
            } else if has_key(q0.finished, k) {
                assert(has_key(q1.finished, k));
                assert(!has_key(q1.scheduled, k)) by {
                    if has_key(q1.scheduled, k) {
                        assert(has_key(q0.scheduled, k));
                    }
                }
                assert(!has_key(q1.running, k)) by {
                    if has_key(q1.running, k) {
                        assert(has_key(q0.running, k));
                    }
                }
            }
        }
    } else {
        if k == ts {
            assert(has_key(q0.running, ts));
            assert(!has_key(q0.scheduled, ts));
            assert(has_key(q1.finished, ts));
            assert(!has_key(q1.scheduled, ts)) by {
                if has_key(q1.scheduled, ts) {
                    assert(has_key(q0.scheduled, ts));
                }
            }
            assert(value_at(q1.finished, ts) == crate::commands::with_status(
                value_at(q0.running, ts),
                st,
            ));
        } else {
            if has_key(q0.scheduled, k) {
                assert(has_key(q1.scheduled, k));
                assert(value_at(q1.scheduled, k) == value_at(q0.scheduled, k));
            } else if has_key(q0.running, k) {
                assert(has_key(q1.running, k));
                assert(value_at(q1.running, k) == value_at(q0.running, k));
                assert(!has_key(q1.scheduled, k));
            } else if has_key(q0.finished, k) {
                assert(has_key(q1.finished, k));
                assert(value_at(q1.finished, k) == value_at(q0.finished, k));
                assert(!has_key(q1.scheduled, k));
                assert(!has_key(q1.running, k)) by {
                    if has_key(q1.running, k) {
                        assert(has_key(q0.running, k));
                    }
                }
            }
        }
    }
}

/// Law: selecting the due set is pure. The selection is a function of the
/// pending partition and the clock alone — `get_commands_to_run` borrows
/// the queue immutably and its result is pinned to `due_len` of the
/// pending partition — so two selections with no relocation between them
/// return the same commands.
pub proof fn lemma_select_due_pure(q0: DeviceCommandsView, q1: DeviceCommandsView, now: u64)
    requires
        q0.scheduled == q1.scheduled,
    ensures
        crate::queue::due_len(q0.scheduled, now) == crate::queue::due_len(q1.scheduled, now),
        q0.scheduled.take(crate::queue::due_len(q0.scheduled, now)) == q1.scheduled.take(
            crate::queue::due_len(q1.scheduled, now),
        ),
{
}

/// Law: an authorization failure empties the credential cache at once.
/// `finish_command` ensures exactly the shape this lemma takes; combined
/// with the scheduling entry point's contract — which reports
/// `CredentialMissing` precisely when the cache is empty — the next
/// scheduling call is forced to obtain a fresh credential from the issuer.
pub proof fn lemma_auth_failure_clears_credential(
    s0: StateView,
    s1: StateView,
    ts: u64,
    o: crate::executor::CallOutcomeView,
)
    requires
        queue_wf(s0.device_commands),
        crate::executor::is_auth_failure(o),
        finish_step(
            s0.device_commands,
            s1.device_commands,
            ts,
            crate::executor::outcome_status(o),
        ),
        s1.last_valid_access_key == (if crate::executor::is_auth_failure(o) {
            None::<Seq<char>>
        } else {
            s0.last_valid_access_key
        }),
    ensures
        s1.last_valid_access_key is None,
        status_of(s1.device_commands, ts) == Some(
            CommandStatusView::Failed("access key invalid"@),
        ),
{
    assert(has_key(s1.device_commands.finished, ts));
    assert(!has_key(s1.device_commands.running, ts));
    assert(!has_key(s1.device_commands.scheduled, ts)) by {
        assert(s1.device_commands.scheduled == s0.device_commands.scheduled);
        if has_key(s0.device_commands.scheduled, ts) {
            assert(has_key(s0.device_commands.running, ts));
        }
    }
    assert(outcome_401_status(o));
    assert(value_at(s1.device_commands.finished, ts).status == crate::executor::outcome_status(
        o,
    ));
}

/// The status an authorization failure drives a command to.
spec fn outcome_401_status(o: crate::executor::CallOutcomeView) -> bool {
    crate::executor::is_auth_failure(o) ==> crate::executor::outcome_status(o)
        == CommandStatusView::Failed("access key invalid"@)
}

} // verus!
