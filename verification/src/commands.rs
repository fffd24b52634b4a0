//! Command descriptors, their status lifecycle, and the three-partition
//! command queue with its spacing-policy admission.
use vstd::prelude::*;

use crate::queue::{
    due_len, has_key, key_index, lemma_due_len_characterization, lemma_insert_entry_facts,
    lemma_remove_entry_facts, lemma_sorted_key_index, map_sorted, trigger_idx, value_at,
    CommandMap, Entries,
};
use crate::COMMANDS_INTERVAL;

verus! {

/// The lifecycle of one command. Transitions run strictly forward:
/// `Scheduled` to `Running` to one of the terminal states `Completed`
/// or `Failed`.
#[derive(Clone, Debug)]
pub enum CommandStatus {
    Scheduled,
    Running,
    Completed,
    Failed(String),
}

/// Ghost model of a command status: the failure reason as a character
/// sequence.
#[verifier::ext_equal]
pub enum CommandStatusView {
    Scheduled,
    Running,
    Completed,
    Failed(Seq<char>),
}

impl View for CommandStatus {
    type V = CommandStatusView;

    open spec fn view(&self) -> CommandStatusView {
        match self {
            CommandStatus::Scheduled => CommandStatusView::Scheduled,
            CommandStatus::Running => CommandStatusView::Running,
            CommandStatus::Completed => CommandStatusView::Completed,
            CommandStatus::Failed(reason) => CommandStatusView::Failed(reason@),
        }
    }
}

/// How far along the lifecycle a status stands. Legal transitions strictly
/// increase the rank.
pub open spec fn status_rank(s: CommandStatusView) -> int {
    match s {
        CommandStatusView::Scheduled => 0,
        CommandStatusView::Running => 1,
        CommandStatusView::Completed => 2,
        CommandStatusView::Failed(_) => 2,
    }
}

/// Whether a status is terminal: no transition may leave it.
pub open spec fn is_terminal(s: CommandStatusView) -> bool {
    status_rank(s) == 2
}

/// The lifecycle order: one step forward along
/// `Scheduled -> Running -> {Completed, Failed}`.
pub open spec fn status_step_allowed(from: CommandStatusView, to: CommandStatusView) -> bool {
    &&& status_rank(to) == status_rank(from) + 1
    &&& (from is Scheduled ==> to is Running)
}

impl CommandStatus {
    /// An exact copy; written by hand so that verified callers know the
    /// copy equals the original at the model level.
    pub fn clone_status(&self) -> (r: CommandStatus)
        ensures
            r@ == self@,
    {
        match self {
            CommandStatus::Scheduled => CommandStatus::Scheduled,
            CommandStatus::Running => CommandStatus::Running,
            CommandStatus::Completed => CommandStatus::Completed,
            CommandStatus::Failed(reason) => CommandStatus::Failed(reason.clone()),
        }
    }
}

/// The HTTP method of an outbound request, as the scheduler models it.
#[derive(Clone, Copy, Debug, PartialEq, Eq, Structural)]
pub enum HttpMethod {
    Get,
    Post,
    Head,
}

/// One HTTP request header: a name and its value.
#[derive(Clone, Debug)]
pub struct HttpHeader {
    pub name: String,
    pub value: String,
}

/// Ghost model of a header: both parts as character sequences.
#[verifier::ext_equal]
pub struct HttpHeaderView {
    pub name: Seq<char>,
    pub value: Seq<char>,
}

impl View for HttpHeader {
    type V = HttpHeaderView;

    open spec fn view(&self) -> HttpHeaderView {
        HttpHeaderView { name: self.name@, value: self.value@ }
    }
}

impl HttpHeader {
    /// An exact copy at the model level.
    pub fn clone_header(&self) -> (r: HttpHeader)
        ensures
            r@ == self@,
    {
        HttpHeader { name: self.name.clone(), value: self.value.clone() }
    }
}

/// Ghost model of a header list.
pub open spec fn headers_view(headers: Seq<HttpHeader>) -> Seq<HttpHeaderView> {
    headers.map(|i: int, h: HttpHeader| h@)
}

/// Everything needed to issue the outbound HTTP request of one command.
/// The payload is opaque to the scheduler: it is carried, never read.
#[derive(Clone, Debug)]
pub struct CommandHttpArguments {
    /// The URL to send the HTTP request to.
    pub url: String,
    /// The method of the HTTP request.
    pub method: HttpMethod,
    /// List of HTTP request headers and their corresponding values.
    pub headers: Vec<HttpHeader>,
    /// Optionally provide a request body.
    pub body: Option<Vec<u8>>,
}

/// Ghost model of the request arguments.
#[verifier::ext_equal]
pub struct CommandHttpArgumentsView {
    pub url: Seq<char>,
    pub method: HttpMethod,
    pub headers: Seq<HttpHeaderView>,
    pub body: Option<Seq<u8>>,
}

impl View for CommandHttpArguments {
    type V = CommandHttpArgumentsView;

    open spec fn view(&self) -> CommandHttpArgumentsView {
        CommandHttpArgumentsView {
            url: self.url@,
            method: self.method,
            headers: headers_view(self.headers@),
            body: match self.body {
                Some(b) => Some(b@),
                None => None,
            },
        }
    }
}

/// Domain metadata attached to a command by its initiator.
#[derive(Clone, Debug)]
pub struct CommandMetadata {
    /// The color that has been set for the light in RGB hex format.
    ///
    /// Example: `#ff0000` for red.
    pub light_color: String,
}

/// Ghost model of the metadata.
#[verifier::ext_equal]
pub struct CommandMetadataView {
    pub light_color: Seq<char>,
}

impl View for CommandMetadata {
    type V = CommandMetadataView;

    open spec fn view(&self) -> CommandMetadataView {
        CommandMetadataView { light_color: self.light_color@ }
    }
}

/// The identity that initiated a command, as the raw bytes of its
/// principal. The anonymous identity is the single byte `0x04`.
#[derive(Clone, Debug)]
pub struct Principal {
    pub bytes: Vec<u8>,
}

impl View for Principal {
    type V = Seq<u8>;

    open spec fn view(&self) -> Seq<u8> {
        self.bytes@
    }
}

/// The anonymous (unauthenticated) identity.
pub open spec fn is_anonymous(p: Seq<u8>) -> bool {
    p =~= seq![4u8]
}

impl Principal {
    /// Whether this identity is the anonymous one.
    pub fn is_anonymous(&self) -> (r: bool)
        ensures
            r == is_anonymous(self@),
    {
        let r = self.bytes.len() == 1 && self.bytes[0] == 4u8;
        proof {
            if self.bytes@.len() == 1 && self.bytes@[0] == 4u8 {
                assert(self.bytes@ =~= seq![4u8]);
            }
            if is_anonymous(self@) {
                assert(self.bytes@[0] == 4u8);
            }
        }
        r
    }

    /// An exact copy at the model level.
    pub fn clone_principal(&self) -> (r: Principal)
        ensures
            r@ == self@,
    {
        Principal { bytes: clone_bytes(&self.bytes) }
    }
}

/// The target address of a device, an opaque URL string.
pub type DeviceUrl = String;

/// An exact copy of a byte vector.
pub fn clone_bytes(v: &Vec<u8>) -> (r: Vec<u8>)
    ensures
        r@ == v@,
{
    let mut r: Vec<u8> = Vec::new();
    let mut i: usize = 0;
    while i < v.len()
        invariant
            i <= v.len(),
            r@ == v@.take(i as int),
        decreases v.len() - i,
    {
        r.push(v[i]);
        proof {
            assert(r@ =~= v@.take(i + 1 as int));
        }
        i = i + 1;
    }
    proof {
        assert(v@.take(v@.len() as int) =~= v@);
    }
    r
}

/// An exact copy of a header list at the model level.
pub fn clone_headers(v: &Vec<HttpHeader>) -> (r: Vec<HttpHeader>)
    ensures
        headers_view(r@) == headers_view(v@),
{
    let mut r: Vec<HttpHeader> = Vec::new();
    let mut i: usize = 0;
    while i < v.len()
        invariant
            i <= v.len(),
            r@.len() == i,
            forall|j: int| 0 <= j < i ==> #[trigger] r@[j]@ == v@[j]@,
        decreases v.len() - i,
    {
        r.push(v[i].clone_header());
        i = i + 1;
    }
    proof {
        assert(headers_view(r@) =~= headers_view(v@));
    }
    r
}

impl CommandHttpArguments {
    /// An exact copy at the model level.
    pub fn clone_arguments(&self) -> (r: CommandHttpArguments)
        ensures
            r@ == self@,
    {
        let r = CommandHttpArguments {
            url: self.url.clone(),
            method: self.method,
            headers: clone_headers(&self.headers),
            body: match &self.body {
                Some(b) => Some(clone_bytes(b)),
                None => None,
            },
        };
        proof {
            assert(r@.body == self@.body);
        }
        r
    }
}

/// One actuation request: an immutable descriptor plus its mutable status.
#[derive(Clone, Debug)]
pub struct DeviceCommand {
    /// The device this command targets.
    pub device_url: DeviceUrl,
    /// The outbound request that executes the command.
    pub http_arguments: CommandHttpArguments,
    /// When the command is due, in nanoseconds; also its key in the queue.
    pub schedule_timestamp: u64,
    /// The identity that initiated the command.
    pub sender: Principal,
    /// Optional domain metadata, such as the requested color.
    pub metadata: Option<CommandMetadata>,
    /// Where the command stands in its lifecycle.
    pub status: CommandStatus,
}

/// Ghost model of a command.
#[verifier::ext_equal]
pub struct DeviceCommandView {
    pub device_url: Seq<char>,
    pub http_arguments: CommandHttpArgumentsView,
    pub schedule_timestamp: u64,
    pub sender: Seq<u8>,
    pub metadata: Option<CommandMetadataView>,
    pub status: CommandStatusView,
}

impl View for DeviceCommand {
    type V = DeviceCommandView;

    open spec fn view(&self) -> DeviceCommandView {
        DeviceCommandView {
            device_url: self.device_url@,
            http_arguments: self.http_arguments@,
            schedule_timestamp: self.schedule_timestamp,
            sender: self.sender@,
            metadata: match self.metadata {
                Some(m) => Some(m@),
                None => None,
            },
            status: self.status@,
        }
    }
}

impl DeviceCommand {
    /// Builds a new command in the `Scheduled` state.
    pub fn new(
        device_url: DeviceUrl,
        http_arguments: CommandHttpArguments,
        schedule_timestamp: u64,
        sender: Principal,
        metadata: Option<CommandMetadata>,
    ) -> (r: DeviceCommand)
        ensures
            r@.device_url == device_url@,
            r@.http_arguments == http_arguments@,
            r@.schedule_timestamp == schedule_timestamp,
            r@.sender == sender@,
            (match metadata {
                Some(m) => r@.metadata == Some(m@),
                None => r@.metadata is None,
            }),
            r@.status is Scheduled,
    {
        DeviceCommand {
            device_url,
            http_arguments,
            schedule_timestamp,
            sender,
            metadata,
            status: CommandStatus::Scheduled,
        }
    }

    /// A read-only borrow of the outbound request arguments.
    pub fn http_arguments(&self) -> (r: &CommandHttpArguments)
        ensures
            r@ == self@.http_arguments,
    {
        &self.http_arguments
    }

    /// An exact copy at the model level.
    pub fn clone_command(&self) -> (r: DeviceCommand)
        ensures
            r@ == self@,
    {
        let r = DeviceCommand {
            device_url: self.device_url.clone(),
            http_arguments: self.http_arguments.clone_arguments(),
            schedule_timestamp: self.schedule_timestamp,
            sender: self.sender.clone_principal(),
            metadata: match &self.metadata {
                Some(m) => Some(CommandMetadata { light_color: m.light_color.clone() }),
                None => None,
            },
            status: self.status.clone_status(),
        };
        proof {
            assert(r@.metadata == self@.metadata);
        }
        r
    }
}

/// Why a queue operation was refused.
#[derive(Clone, Copy, Debug, PartialEq, Eq, Structural)]
pub enum QueueError {
    /// The computed execution timestamp already keys a command somewhere
    /// in the queue; the admission is rejected rather than silently
    /// discarding a submitted command.
    TimestampConflict,
    /// No command with the given timestamp stands in the partition the
    /// transition must leave from.
    CommandNotFound,
    /// The requested status does not move the lifecycle forward.
    StatusOrderViolation,
}

/// Ghost model of the whole queue: the three partitions in ascending key
/// order.
#[verifier::ext_equal]
pub struct DeviceCommandsView {
    pub scheduled: Entries,
    pub running: Entries,
    pub finished: Entries,
}

/// The queue invariant: each partition is sorted strictly by key, no key
/// occupies two partitions, every command is keyed by its own execution
/// timestamp, and the partition a command sits in agrees with its status.
pub open spec fn queue_wf(q: DeviceCommandsView) -> bool {
    &&& map_sorted(q.scheduled)
    &&& map_sorted(q.running)
    &&& map_sorted(q.finished)
    &&& forall|k: u64| #[trigger] has_key(q.running, k) ==> !has_key(q.scheduled, k)
    &&& forall|k: u64| #[trigger] has_key(q.finished, k) ==> !has_key(q.scheduled, k)
    &&& forall|k: u64| #[trigger] has_key(q.finished, k) ==> !has_key(q.running, k)
    &&& forall|i: int|
        0 <= i < q.scheduled.len() ==> {
            &&& (#[trigger] q.scheduled[i]).1.schedule_timestamp == q.scheduled[i].0
            &&& q.scheduled[i].1.status is Scheduled
        }
    &&& forall|i: int|
        0 <= i < q.running.len() ==> {
            &&& (#[trigger] q.running[i]).1.schedule_timestamp == q.running[i].0
            &&& q.running[i].1.status is Running
        }
    &&& forall|i: int|
        0 <= i < q.finished.len() ==> {
            &&& (#[trigger] q.finished[i]).1.schedule_timestamp == q.finished[i].0
            &&& is_terminal(q.finished[i].1.status)
        }
}

/// The key the spacing policy measures from: the most recently admitted
/// pending timestamp, or `now` when nothing is pending.
pub open spec fn last_pending_or(q: Entries, now: u64) -> u64 {
    if q.len() == 0 {
        now
    } else {
        q[q.len() - 1].0
    }
}

/// Whether the spacing policy's computed timestamp fits in 64 bits.
pub open spec fn spacing_fits(q: Entries, now: u64) -> bool {
    (if now > last_pending_or(q, now) {
        now
    } else {
        last_pending_or(q, now)
    }) + COMMANDS_INTERVAL <= u64::MAX
}

/// The execution timestamp the spacing policy assigns: one interval past
/// the later of `now` and the most recently admitted pending timestamp.
pub open spec fn spaced_timestamp(q: Entries, now: u64) -> u64 {
    ((if now > last_pending_or(q, now) {
        now
    } else {
        last_pending_or(q, now)
    }) + COMMANDS_INTERVAL) as u64
}

/// The same command, re-stamped for its place in the queue.
pub open spec fn with_timestamp(c: DeviceCommandView, ts: u64) -> DeviceCommandView {
    DeviceCommandView { schedule_timestamp: ts, ..c }
}

/// The same command with its lifecycle moved on.
pub open spec fn with_status(c: DeviceCommandView, st: CommandStatusView) -> DeviceCommandView {
    DeviceCommandView { status: st, ..c }
}

/// Under the spacing policy, consecutive pending commands lie at least one
/// interval apart.
pub open spec fn well_spaced(s: Entries) -> bool {
    forall|i: int|
        #![trigger s[i]]
        0 <= i && i + 1 < s.len() ==> s[i].0 + COMMANDS_INTERVAL <= s[i + 1].0
}

/// Both partitions agree on every key except `ts`.
pub open spec fn same_except(s: Entries, s2: Entries, ts: u64) -> bool {
    &&& forall|k: u64|
        #![trigger has_key(s, k)]
        #![trigger has_key(s2, k)]
        k != ts ==> (has_key(s2, k) <==> has_key(s, k))
    &&& forall|k: u64|
        k != ts && #[trigger] has_key(s, k) && has_key(s2, k) ==> value_at(s2, k) == value_at(
            s,
            k,
        )
}

/// What relocating the pending command keyed `ts` into the running
/// partition does: it leaves the pending partition, enters the running one
/// with status `Running`, keeps its key and every other field, and every
/// other command stays put.
pub open spec fn begin_step(q0: DeviceCommandsView, q1: DeviceCommandsView, ts: u64) -> bool {
    &&& has_key(q0.scheduled, ts)
    &&& status_step_allowed(value_at(q0.scheduled, ts).status, CommandStatusView::Running)
    &&& !has_key(q1.scheduled, ts)
    &&& same_except(q0.scheduled, q1.scheduled, ts)
    &&& q1.scheduled.len() == q0.scheduled.len() - 1
    &&& has_key(q1.running, ts)
    &&& value_at(q1.running, ts) == with_status(
        value_at(q0.scheduled, ts),
        CommandStatusView::Running,
    )
    &&& same_except(q0.running, q1.running, ts)
    &&& q1.running.len() == q0.running.len() + 1
    &&& q1.finished == q0.finished
}

/// What relocating the running command keyed `ts` into the finished
/// partition with terminal status `st` does.
pub open spec fn finish_step(
    q0: DeviceCommandsView,
    q1: DeviceCommandsView,
    ts: u64,
    st: CommandStatusView,
) -> bool {
    &&& is_terminal(st)
    &&& has_key(q0.running, ts)
    &&& status_step_allowed(value_at(q0.running, ts).status, st)
    &&& !has_key(q1.running, ts)
    &&& same_except(q0.running, q1.running, ts)
    &&& q1.running.len() == q0.running.len() - 1
    &&& has_key(q1.finished, ts)
    &&& value_at(q1.finished, ts) == with_status(value_at(q0.running, ts), st)
    &&& same_except(q0.finished, q1.finished, ts)
    &&& q1.finished.len() == q0.finished.len() + 1
    &&& q1.scheduled == q0.scheduled
}

/// The command queue: three ordered partitions keyed by execution
/// timestamp. A command is admitted into `scheduled_commands`, relocated
/// to `running_commands` while its outbound call is in flight, and rests
/// in `finished_commands` with a terminal status.
pub struct DeviceCommands {
    pub scheduled_commands: CommandMap,
    pub running_commands: CommandMap,
    pub finished_commands: CommandMap,
}

impl View for DeviceCommands {
    type V = DeviceCommandsView;

    open spec fn view(&self) -> DeviceCommandsView {
        DeviceCommandsView {
            scheduled: self.scheduled_commands@,
            running: self.running_commands@,
            finished: self.finished_commands@,
        }
    }
}

impl Default for DeviceCommands {
    /// An empty queue.
    fn default() -> (r: DeviceCommands)
        ensures
            r@.scheduled =~= Seq::<(u64, DeviceCommandView)>::empty(),
            r@.running =~= Seq::<(u64, DeviceCommandView)>::empty(),
            r@.finished =~= Seq::<(u64, DeviceCommandView)>::empty(),
            r.wf(),
    {
        DeviceCommands {
            scheduled_commands: CommandMap::new(),
            running_commands: CommandMap::new(),
            finished_commands: CommandMap::new(),
        }
    }
}

impl DeviceCommands {
    /// The queue invariant, at the model level.
    pub open spec fn wf(&self) -> bool {
        queue_wf(self@)
    }

    /// The timestamp the spacing policy measures from: the most recently
    /// admitted pending timestamp, or `now` when nothing is pending.
    fn get_last_command_timestamp(&self, now: u64) -> (r: u64)
        ensures
            r == last_pending_or(self@.scheduled, now),
    {
        match self.scheduled_commands.last_key() {
            Some(k) => k,
            // if there's no command, now is reasonably the closest time
            None => now,
        }
    }

    /// Admits a command under the spacing policy: its execution timestamp
    /// becomes one interval past the later of `now` and the most recently
    /// admitted pending timestamp, so consecutively admitted commands never
    /// run closer together than the interval. Returns the command as
    /// admitted, or rejects it explicitly when the computed timestamp
    /// already keys a command elsewhere in the queue.
    pub fn schedule_command(&mut self, c: DeviceCommand, now: u64) -> (r: Result<
        DeviceCommand,
        QueueError,
    >)
        requires
            old(self).wf(),
            c@.status is Scheduled,
            spacing_fits(old(self)@.scheduled, now),
        ensures
            final(self).wf(),
            ({
                let ts = spaced_timestamp(old(self)@.scheduled, now);
                match r {
                    Ok(c2) => {
                        &&& !has_key(old(self)@.running, ts)
                        &&& !has_key(old(self)@.finished, ts)
                        &&& !has_key(old(self)@.scheduled, ts)
                        &&& c2@ == with_timestamp(c@, ts)
                        &&& final(self)@.scheduled =~= old(self)@.scheduled.push((ts, c2@))
                        &&& final(self)@.running == old(self)@.running
                        &&& final(self)@.finished == old(self)@.finished
                    },
                    Err(e) => {
                        &&& e == QueueError::TimestampConflict
                        &&& (has_key(old(self)@.running, ts) || has_key(old(self)@.finished, ts))
                        &&& final(self)@ == old(self)@
                    },
                }
            }),
    {
        let ghost q0 = self@;
        let last_ts = self.get_last_command_timestamp(now);
        let base = if now > last_ts {
            now
        } else {
            last_ts
        };
        let ts = base + COMMANDS_INTERVAL;
        if self.running_commands.contains(ts) || self.finished_commands.contains(ts) {
            return Err(QueueError::TimestampConflict);
        }
        let mut c2 = c;
        c2.schedule_timestamp = ts;
        let ghost c2v = c2@;
        let admitted = c2.clone_command();
        proof {
            // the computed timestamp lies past every pending key
            assert forall|j: int| 0 <= j < q0.scheduled.len() implies (
            #[trigger] q0.scheduled[j]).0 < ts by {
                if j < q0.scheduled.len() - 1 {
                    assert(q0.scheduled[j].0 < q0.scheduled[q0.scheduled.len() - 1].0);
                }
            }
            assert(!has_key(q0.scheduled, ts)) by {
                if has_key(q0.scheduled, ts) {
                    let w = key_index(q0.scheduled, ts);
                    assert(0 <= w < q0.scheduled.len() && q0.scheduled[w].0 == ts);
                }
            }
        }
        match self.scheduled_commands.insert(ts, c2) {
            Ok(()) => {
                proof {
                    let pre = q0.scheduled;
                    let post = self.scheduled_commands@;
                    let i = choose|i: int|
                        {
                            &&& 0 <= i <= pre.len()
                            &&& #[trigger] trigger_idx(i)
                            &&& post =~= pre.take(i) + seq![(ts, c2v)] + pre.skip(i)
                            &&& forall|j: int| 0 <= j < i ==> (#[trigger] pre[j]).0 < ts
                            &&& forall|j: int| i <= j < pre.len() ==> (#[trigger] pre[j]).0 > ts
                        };
                    assert(i == pre.len()) by {
                        if i < pre.len() {
                            assert(pre[i].0 > ts);
                            assert(pre[i].0 < ts);
                        }
                    }
                    assert(post =~= pre.push((ts, c2v)));
                    lemma_insert_entry_facts(pre, post, i, ts, c2v);
                    assert(queue_wf(self@)) by {
                        assert forall|k: u64| #[trigger] has_key(self@.running, k) implies !has_key(
                            self@.scheduled,
                            k,
                        ) by {
                            assert(has_key(q0.running, k));
                        }
                        assert forall|k: u64| #[trigger] has_key(self@.finished, k)
                            implies !has_key(self@.scheduled, k) by {
                            assert(has_key(q0.finished, k));
                        }
                    }
                }
                Ok(admitted)
            },
            Err(_) => {
                proof {
                    // insertion cannot collide: the key exceeds every pending key
                    assert(false);
                }
                Err(QueueError::TimestampConflict)
            },
        }
    }

    /// Admits a command at the caller-chosen timestamp `now + delay`, with
    /// no spacing adjustment. Rejects the admission explicitly when that
    /// timestamp already keys a command anywhere in the queue.
    pub fn schedule_command_with_delay(&mut self, c: DeviceCommand, now: u64, delay: u64) -> (r:
        Result<DeviceCommand, QueueError>)
        requires
            old(self).wf(),
            c@.status is Scheduled,
            now + delay <= u64::MAX,
        ensures
            final(self).wf(),
            ({
                let ts = (now + delay) as u64;
                match r {
                    Ok(c2) => {
                        &&& !has_key(old(self)@.scheduled, ts)
                        &&& !has_key(old(self)@.running, ts)
                        &&& !has_key(old(self)@.finished, ts)
                        &&& c2@ == with_timestamp(c@, ts)
                        &&& final(self)@.scheduled.len() == old(self)@.scheduled.len() + 1
                        &&& has_key(final(self)@.scheduled, ts)
                        &&& value_at(final(self)@.scheduled, ts) == c2@
                        &&& same_except(old(self)@.scheduled, final(self)@.scheduled, ts)
                        &&& final(self)@.running == old(self)@.running
                        &&& final(self)@.finished == old(self)@.finished
                    },
                    Err(e) => {
                        &&& e == QueueError::TimestampConflict
                        &&& (has_key(old(self)@.scheduled, ts) || has_key(old(self)@.running, ts)
                            || has_key(old(self)@.finished, ts))
                        &&& final(self)@ == old(self)@
                    },
                }
            }),
    {
        let ghost q0 = self@;
        let ts = now + delay;
        if self.scheduled_commands.contains(ts) || self.running_commands.contains(ts)
            || self.finished_commands.contains(ts) {
            return Err(QueueError::TimestampConflict);
        }
        let mut c2 = c;
        c2.schedule_timestamp = ts;
        let ghost c2v = c2@;
        let admitted = c2.clone_command();
        match self.scheduled_commands.insert(ts, c2) {
            Ok(()) => {
                proof {
                    let pre = q0.scheduled;
                    let post = self.scheduled_commands@;
                    let i = choose|i: int|
                        {
                            &&& 0 <= i <= pre.len()
                            &&& #[trigger] trigger_idx(i)
                            &&& post =~= pre.take(i) + seq![(ts, c2v)] + pre.skip(i)
                            &&& forall|j: int| 0 <= j < i ==> (#[trigger] pre[j]).0 < ts
                            &&& forall|j: int| i <= j < pre.len() ==> (#[trigger] pre[j]).0 > ts
                        };
                    lemma_insert_entry_facts(pre, post, i, ts, c2v);
                    assert(queue_wf(self@)) by {
                        assert forall|k: u64| #[trigger] has_key(self@.running, k) implies !has_key(
                            self@.scheduled,
                            k,
                        ) by {
                            assert(has_key(q0.running, k));
                        }
                        assert forall|k: u64| #[trigger] has_key(self@.finished, k)
                            implies !has_key(self@.scheduled, k) by {
                            assert(has_key(q0.finished, k));
                        }
                        assert forall|j: int| 0 <= j < post.len() implies {
                            &&& (#[trigger] post[j]).1.schedule_timestamp == post[j].0
                            &&& post[j].1.status is Scheduled
                        } by {
                            if j < i {
                                assert(post[j] == pre[j]);
                            } else if j > i {
                                assert(post[j] == pre[j - 1]);
                            }
                        }
                    }
                }
                Ok(admitted)
            },
            Err(_) => {
                proof {
                    // the collision check above already ruled the key out
                    assert(false);
                }
                Err(QueueError::TimestampConflict)
            },
        }
    }

    /// The due set: every pending command whose timestamp is strictly
    /// before `now`, in ascending timestamp order. A pure read; the queue
    /// is not touched.
    pub fn get_commands_to_run(&self, now: u64) -> (r: Vec<DeviceCommand>)
        requires
            self.wf(),
        ensures
            r@.len() == due_len(self@.scheduled, now),
            forall|j: int| 0 <= j < r@.len() ==> (#[trigger] r@[j])@ == self@.scheduled[j].1,
    {
        let mut r: Vec<DeviceCommand> = Vec::new();
        let mut i: usize = 0;
        let n = self.scheduled_commands.len();
        while i < n && self.scheduled_commands.entry_at(i).0 < now
            invariant
                self.wf(),
                i <= n,
                n == self@.scheduled.len(),
                r@.len() == i,
                forall|j: int| 0 <= j < i ==> (#[trigger] self@.scheduled[j]).0 < now,
                forall|j: int| 0 <= j < i ==> (#[trigger] r@[j])@ == self@.scheduled[j].1,
            decreases n - i,
        {
            r.push(self.scheduled_commands.entry_at(i).1.clone_command());
            i = i + 1;
        }
        proof {
            lemma_due_len_characterization(self@.scheduled, now, i as int);
        }
        r
    }

    /// Relocates the command keyed `ts` one lifecycle step forward:
    /// `Running` moves it from the pending partition to the running one,
    /// a terminal status moves it from the running partition to the
    /// finished one. The relocation and the status update are one atomic
    /// step; the command keeps its key.
    pub fn transition(&mut self, ts: u64, new_status: CommandStatus) -> (r: Result<
        (),
        QueueError,
    >)
        requires
            old(self).wf(),
        ensures
            final(self).wf(),
            r is Ok <==> ((new_status@ is Running && has_key(old(self)@.scheduled, ts)) || (
            is_terminal(new_status@) && has_key(old(self)@.running, ts))),
            match r {
                Ok(()) => {
                    if new_status@ is Running {
                        begin_step(old(self)@, final(self)@, ts)
                    } else {
                        finish_step(old(self)@, final(self)@, ts, new_status@)
                    }
                },
                Err(e) => {
                    &&& final(self)@ == old(self)@
                    &&& (e == QueueError::StatusOrderViolation <==> new_status@ is Scheduled)
                    &&& (e == QueueError::CommandNotFound <==> {
                        ||| (new_status@ is Running && !has_key(old(self)@.scheduled, ts))
                        ||| (is_terminal(new_status@) && !has_key(old(self)@.running, ts))
                    })
                },
            },
    {
        let ghost q0 = self@;
        match new_status {
            CommandStatus::Scheduled => Err(QueueError::StatusOrderViolation),
            CommandStatus::Running => {
                match self.scheduled_commands.remove(ts) {
                    None => Err(QueueError::CommandNotFound),
                    Some(mut c) => {
                        let ghost c_orig = c@;
                        let ghost mid = self.scheduled_commands@;
                        proof {
                            let i = choose|i: int|
                                {
                                    &&& 0 <= i < q0.scheduled.len()
                                    &&& #[trigger] trigger_idx(i)
                                    &&& q0.scheduled[i] == (ts, c_orig)
                                    &&& mid =~= q0.scheduled.take(i) + q0.scheduled.skip(i + 1)
                                };
                            lemma_sorted_key_index(q0.scheduled, ts, i);
                            lemma_remove_entry_facts(q0.scheduled, mid, i);
                            assert(c_orig == value_at(q0.scheduled, ts));
                            assert(c_orig.status is Scheduled);
                        }
                        c.status = new_status.clone_status();
                        let ghost cv = c@;
                        proof {
                            assert(cv.status is Running);
                            assert(cv =~= with_status(value_at(q0.scheduled, ts), cv.status));
                            assert(!has_key(q0.running, ts)) by {
                                assert(has_key(q0.scheduled, ts));
                            }
                        }
                        match self.running_commands.insert(ts, c) {
                            Ok(()) => {
                                proof {
                                    let post_r = self.running_commands@;
                                    let i_ins = choose|i: int|
                                        {
                                            &&& 0 <= i <= q0.running.len()
                                            &&& #[trigger] trigger_idx(i)
                                            &&& post_r =~= q0.running.take(i) + seq![(ts, cv)]
                                                + q0.running.skip(i)
                                            &&& forall|j: int|
                                                0 <= j < i ==> (#[trigger] q0.running[j]).0 < ts
                                            &&& forall|j: int|
                                                i <= j < q0.running.len() ==> (
                                                #[trigger] q0.running[j]).0 > ts
                                        };
                                    lemma_insert_entry_facts(q0.running, post_r, i_ins, ts, cv);
                                    let i_rm = choose|i: int|
                                        {
                                            &&& 0 <= i < q0.scheduled.len()
                                            &&& #[trigger] trigger_idx(i)
                                            &&& q0.scheduled[i] == (ts, c_orig)
                                            &&& mid =~= q0.scheduled.take(i) + q0.scheduled.skip(
                                                i + 1,
                                            )
                                        };
                                    lemma_sorted_key_index(q0.scheduled, ts, i_rm);
                                    assert(self@.scheduled == mid);
                                    lemma_wf_after_begin(q0, self@, ts, cv, i_rm, i_ins);
                                }
                                Ok(())
                            },
                            Err(_) => {
                                proof {
                                    // the key was removed from the pending partition, and the
                                    // queue invariant keeps it out of the running one
                                    assert(false);
                                }
                                Err(QueueError::TimestampConflict)
                            },
                        }
                    },
                }
            },
            _ => {
                let terminal_status = new_status;
                let ghost stv = terminal_status@;
                match self.running_commands.remove(ts) {
                    None => Err(QueueError::CommandNotFound),
                    Some(mut c) => {
                        let ghost c_orig = c@;
                        let ghost mid = self.running_commands@;
                        proof {
                            let i = choose|i: int|
                                {
                                    &&& 0 <= i < q0.running.len()
                                    &&& #[trigger] trigger_idx(i)
                                    &&& q0.running[i] == (ts, c_orig)
                                    &&& mid =~= q0.running.take(i) + q0.running.skip(i + 1)
                                };
                            lemma_sorted_key_index(q0.running, ts, i);
                            lemma_remove_entry_facts(q0.running, mid, i);
                            assert(c_orig == value_at(q0.running, ts));
                            assert(c_orig.status is Running);
                        }
                        c.status = terminal_status.clone_status();
                        let ghost cv = c@;
                        proof {
                            assert(cv.status == stv);
                            assert(is_terminal(cv.status));
                            assert(cv =~= with_status(value_at(q0.running, ts), cv.status));
                            assert(!has_key(q0.finished, ts)) by {
                                assert(has_key(q0.running, ts));
                            }
                        }
                        match self.finished_commands.insert(ts, c) {
                            Ok(()) => {
                                proof {
                                    let post_f = self.finished_commands@;
                                    let i_ins = choose|i: int|
                                        {
                                            &&& 0 <= i <= q0.finished.len()
                                            &&& #[trigger] trigger_idx(i)
                                            &&& post_f =~= q0.finished.take(i) + seq![(ts, cv)]
                                                + q0.finished.skip(i)
                                            &&& forall|j: int|
                                                0 <= j < i ==> (#[trigger] q0.finished[j]).0 < ts
                                            &&& forall|j: int|
                                                i <= j < q0.finished.len() ==> (
                                                #[trigger] q0.finished[j]).0 > ts
                                        };
                                    lemma_insert_entry_facts(q0.finished, post_f, i_ins, ts, cv);
                                    let i_rm = choose|i: int|
                                        {
                                            &&& 0 <= i < q0.running.len()
                                            &&& #[trigger] trigger_idx(i)
                                            &&& q0.running[i] == (ts, c_orig)
                                            &&& mid =~= q0.running.take(i) + q0.running.skip(
                                                i + 1,
                                            )
                                        };
                                    lemma_sorted_key_index(q0.running, ts, i_rm);
                                    assert(self@.running == mid);
                                    lemma_wf_after_finish(q0, self@, ts, cv, i_rm, i_ins);
                                }
                                Ok(())
                            },
                            Err(_) => {
                                proof {
                                    // the key was removed from the running partition, and the
                                    // queue invariant keeps it out of the finished one
                                    assert(false);
                                }
                                Err(QueueError::TimestampConflict)
                            },
                        }
                    },
                }
            },
        }
    }
}

/// The queue invariant survives relocating a pending command into the
/// running partition with status `Running`: the command leaves the pending
/// partition at position `i_rm` and enters the running partition at
/// position `i_ins`.
proof fn lemma_wf_after_begin(
    q0: DeviceCommandsView,
    q1: DeviceCommandsView,
    ts: u64,
    cv: DeviceCommandView,
    i_rm: int,
    i_ins: int,
)
    requires
        queue_wf(q0),
        0 <= i_rm < q0.scheduled.len(),
        q0.scheduled[i_rm].0 == ts,
        q1.scheduled =~= q0.scheduled.take(i_rm) + q0.scheduled.skip(i_rm + 1),
        0 <= i_ins <= q0.running.len(),
        q1.running =~= q0.running.take(i_ins) + seq![(ts, cv)] + q0.running.skip(i_ins),
        forall|j: int| 0 <= j < i_ins ==> (#[trigger] q0.running[j]).0 < ts,
        forall|j: int| i_ins <= j < q0.running.len() ==> (#[trigger] q0.running[j]).0 > ts,
        q1.finished == q0.finished,
        cv == with_status(q0.scheduled[i_rm].1, cv.status),
        cv.status is Running,
    ensures
        queue_wf(q1),
{
    lemma_sorted_key_index(q0.scheduled, ts, i_rm);
    lemma_remove_entry_facts(q0.scheduled, q1.scheduled, i_rm);
    lemma_insert_entry_facts(q0.running, q1.running, i_ins, ts, cv);
    assert forall|k: u64| #[trigger] has_key(q1.running, k) implies !has_key(q1.scheduled, k) by {
        if has_key(q1.scheduled, k) {
            assert(has_key(q0.scheduled, k) && k != ts);
            assert(has_key(q0.running, k));
        }
    }
    assert forall|k: u64| #[trigger] has_key(q1.finished, k) implies !has_key(q1.scheduled, k) by {
        if has_key(q1.scheduled, k) {
            assert(has_key(q0.scheduled, k));
        }
    }
    assert forall|k: u64| #[trigger] has_key(q1.finished, k) implies !has_key(q1.running, k) by {
        if has_key(q1.running, k) {
            if k == ts {
                assert(has_key(q0.scheduled, ts));
            } else {
                assert(has_key(q0.running, k));
            }
        }
    }
    assert forall|j: int| 0 <= j < q1.scheduled.len() implies {
        &&& (#[trigger] q1.scheduled[j]).1.schedule_timestamp == q1.scheduled[j].0
        &&& q1.scheduled[j].1.status is Scheduled
    } by {
        if j < i_rm {
            assert(q1.scheduled[j] == q0.scheduled[j]);
        } else {
            assert(q1.scheduled[j] == q0.scheduled[j + 1]);
        }
    }
    assert forall|j: int| 0 <= j < q1.running.len() implies {
        &&& (#[trigger] q1.running[j]).1.schedule_timestamp == q1.running[j].0
        &&& q1.running[j].1.status is Running
    } by {
        if j < i_ins {
            assert(q1.running[j] == q0.running[j]);
        } else if j == i_ins {
            assert(q1.running[j] == (ts, cv));
            assert(q0.scheduled[i_rm].1.schedule_timestamp == ts);
        } else {
            assert(q1.running[j] == q0.running[j - 1]);
        }
    }
}

/// The queue invariant survives relocating a running command into the
/// finished partition with a terminal status: the command leaves the
/// running partition at position `i_rm` and enters the finished partition
/// at position `i_ins`.
proof fn lemma_wf_after_finish(
    q0: DeviceCommandsView,
    q1: DeviceCommandsView,
    ts: u64,
    cv: DeviceCommandView,
    i_rm: int,
    i_ins: int,
)
    requires
        queue_wf(q0),
        0 <= i_rm < q0.running.len(),
        q0.running[i_rm].0 == ts,
        q1.running =~= q0.running.take(i_rm) + q0.running.skip(i_rm + 1),
        0 <= i_ins <= q0.finished.len(),
        q1.finished =~= q0.finished.take(i_ins) + seq![(ts, cv)] + q0.finished.skip(i_ins),
        forall|j: int| 0 <= j < i_ins ==> (#[trigger] q0.finished[j]).0 < ts,
        forall|j: int| i_ins <= j < q0.finished.len() ==> (#[trigger] q0.finished[j]).0 > ts,
        q1.scheduled == q0.scheduled,
        cv == with_status(q0.running[i_rm].1, cv.status),
        is_terminal(cv.status),
    ensures
        queue_wf(q1),
{
    lemma_sorted_key_index(q0.running, ts, i_rm);
    lemma_remove_entry_facts(q0.running, q1.running, i_rm);
    lemma_insert_entry_facts(q0.finished, q1.finished, i_ins, ts, cv);
    assert forall|k: u64| #[trigger] has_key(q1.running, k) implies !has_key(q1.scheduled, k) by {
        assert(has_key(q0.running, k));
    }
    assert forall|k: u64| #[trigger] has_key(q1.finished, k) implies !has_key(q1.scheduled, k) by {
        if k == ts {
            assert(has_key(q0.running, ts));
        } else {
            assert(has_key(q0.finished, k));
        }
    }
    assert forall|k: u64| #[trigger] has_key(q1.finished, k) implies !has_key(q1.running, k) by {
        if has_key(q1.running, k) {
            assert(has_key(q0.running, k) && k != ts);
            assert(has_key(q0.finished, k));
        }
    }
    assert forall|j: int| 0 <= j < q1.running.len() implies {
        &&& (#[trigger] q1.running[j]).1.schedule_timestamp == q1.running[j].0
        &&& q1.running[j].1.status is Running
    } by {
        if j < i_rm {
            assert(q1.running[j] == q0.running[j]);
        } else {
            assert(q1.running[j] == q0.running[j + 1]);
        }
    }
    assert forall|j: int| 0 <= j < q1.finished.len() implies {
        &&& (#[trigger] q1.finished[j]).1.schedule_timestamp == q1.finished[j].0
        &&& is_terminal(q1.finished[j].1.status)
    } by {
        if j < i_ins {
            assert(q1.finished[j] == q0.finished[j]);
        } else if j == i_ins {
            assert(q1.finished[j] == (ts, cv));
            assert(q0.running[i_rm].1.schedule_timestamp == ts);
        } else {
            assert(q1.finished[j] == q0.finished[j - 1]);
        }
    }
}

} // verus!
