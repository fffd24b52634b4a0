//! The process-wide application state: the device directory, the command
//! queue, the cached access credential, the RDF connection, and the
//! idempotency counter. Every entry point works on one value of this type.
use vstd::prelude::*;

use crate::commands::{DeviceCommands, DeviceCommandsView, Principal};
use crate::queue::CommandMap;
use crate::rdf::RdfDatabaseConnection;
use crate::wot::{WotDevices, WotDevicesModel};

verus! {

/// The opaque bearer token granting access to the devices' gateway.
pub type AccessKeyUID = String;

/// How many finished commands a queue snapshot surfaces.
pub const MAX_FINISHED_SNAPSHOT: usize = 10;

/// Ghost model of the whole application state.
#[verifier::ext_equal]
pub struct StateView {
    pub omnia_backend_canister_principal: Option<Seq<u8>>,
    pub wot_devices: WotDevicesModel,
    pub device_commands: DeviceCommandsView,
    pub last_valid_access_key: Option<Seq<char>>,
    pub rdf_database_connection: Option<Seq<char>>,
    pub next_idempotency_token: u64,
}

/// The process-wide application state.
pub struct State {
    /// The principal of the backend that answers RDF queries and issues
    /// access credentials.
    pub omnia_backend_canister_principal: Option<Principal>,
    /// The most recently discovered device directory (volatile: rebuilt
    /// after a restart, never persisted).
    pub wot_devices: WotDevices,
    /// The command queue.
    pub device_commands: DeviceCommands,
    /// The last access credential known to be valid; `None` right after an
    /// authorization failure, until the next lazy refresh.
    pub last_valid_access_key: Option<AccessKeyUID>,
    /// Where the RDF database is reached.
    pub rdf_database_connection: Option<RdfDatabaseConnection>,
    /// Feeds one fresh idempotency token to every outbound attempt.
    pub next_idempotency_token: u64,
}

impl View for State {
    type V = StateView;

    open spec fn view(&self) -> StateView {
        StateView {
            omnia_backend_canister_principal: match self.omnia_backend_canister_principal {
                Some(p) => Some(p@),
                None => None,
            },
            wot_devices: self.wot_devices@,
            device_commands: self.device_commands@,
            last_valid_access_key: match self.last_valid_access_key {
                Some(k) => Some(k@),
                None => None,
            },
            rdf_database_connection: match self.rdf_database_connection {
                Some(c) => Some(c@),
                None => None,
            },
            next_idempotency_token: self.next_idempotency_token,
        }
    }
}

impl Default for State {
    /// The state a fresh process starts from: everything empty.
    fn default() -> (r: State)
        ensures
            r.wf(),
            r@.omnia_backend_canister_principal is None,
            r@.wot_devices =~= Seq::<(Seq<char>, Seq<(Seq<char>, Seq<char>)>)>::empty(),
            r@.device_commands.scheduled =~= Seq::<(
                u64,
                crate::commands::DeviceCommandView,
            )>::empty(),
            r@.device_commands.running =~= Seq::<(
                u64,
                crate::commands::DeviceCommandView,
            )>::empty(),
            r@.device_commands.finished =~= Seq::<(
                u64,
                crate::commands::DeviceCommandView,
            )>::empty(),
            r@.last_valid_access_key is None,
            r@.rdf_database_connection is None,
            r@.next_idempotency_token == 0,
    {
        State {
            omnia_backend_canister_principal: None,
            wot_devices: WotDevices::new(),
            device_commands: Default::default(),
            last_valid_access_key: None,
            rdf_database_connection: None,
            next_idempotency_token: 0,
        }
    }
}

impl State {
    /// The state invariant: the queue and the device directory are well
    /// formed.
    pub open spec fn wf(&self) -> bool {
        &&& self.device_commands.wf()
        &&& self.wot_devices.wf()
    }

    /// The cached access credential, if one is held.
    pub fn cached_access_key(&self) -> (r: Option<AccessKeyUID>)
        ensures
            match r {
                Some(k) => self@.last_valid_access_key == Some(k@),
                None => self@.last_valid_access_key is None,
            },
    {
        match &self.last_valid_access_key {
            Some(k) => Some(k.clone()),
            None => None,
        }
    }

    /// Caches a freshly issued access credential.
    pub fn store_access_key(&mut self, key: AccessKeyUID)
        ensures
            final(self)@ == (StateView {
                last_valid_access_key: Some(key@),
                ..old(self)@
            }),
    {
        self.last_valid_access_key = Some(key);
    }

    /// Drops the cached access credential, so the next scheduling call
    /// requests a fresh one.
    pub fn invalidate_access_key(&mut self)
        ensures
            final(self)@ == (StateView { last_valid_access_key: None, ..old(self)@ }),
    {
        self.last_valid_access_key = None;
    }

    /// Hands out the next idempotency counter value; no two calls ever
    /// return the same value.
    pub fn take_idempotency_token(&mut self) -> (r: u64)
        requires
            old(self)@.next_idempotency_token < u64::MAX,
        ensures
            r == old(self)@.next_idempotency_token,
            final(self)@ == (StateView {
                next_idempotency_token: (old(self)@.next_idempotency_token + 1) as u64,
                ..old(self)@
            }),
    {
        let t = self.next_idempotency_token;
        self.next_idempotency_token = t + 1;
        t
    }

    /// A snapshot of the queue for callers: the pending and running
    /// partitions whole, the finished partition bounded to its most recent
    /// entries.
    pub fn get_commands(&self) -> (r: DeviceCommands)
        requires
            self.wf(),
        ensures
            r.wf(),
            r@.scheduled =~= self@.device_commands.scheduled,
            r@.running =~= self@.device_commands.running,
            r@.finished =~= self@.device_commands.finished.skip(
                CommandMap::spec_suffix_start(
                    self@.device_commands.finished.len() as int,
                    MAX_FINISHED_SNAPSHOT as int,
                ),
            ),
    {
        let r = DeviceCommands {
            scheduled_commands: self.device_commands.scheduled_commands.clone_map(),
            running_commands: self.device_commands.running_commands.clone_map(),
            finished_commands: self.device_commands.finished_commands.clone_suffix(
                MAX_FINISHED_SNAPSHOT,
            ),
        };
        proof {
            assert(crate::commands::queue_wf(r@)) by {
                assert forall|k: u64| #[trigger] crate::queue::has_key(r@.running, k)
                    implies !crate::queue::has_key(r@.scheduled, k) by {
                    lemma_skip_key(self@.device_commands.running, 0, k);
                    lemma_skip_key(self@.device_commands.scheduled, 0, k);
                }
                assert forall|k: u64| #[trigger] crate::queue::has_key(r@.finished, k)
                    implies !crate::queue::has_key(r@.scheduled, k) by {
                    lemma_skip_key(
                        self@.device_commands.finished,
                        CommandMap::spec_suffix_start(
                            self@.device_commands.finished.len() as int,
                            MAX_FINISHED_SNAPSHOT as int,
                        ),
                        k,
                    );
                    lemma_skip_key(self@.device_commands.scheduled, 0, k);
                }
                assert forall|k: u64| #[trigger] crate::queue::has_key(r@.finished, k)
                    implies !crate::queue::has_key(r@.running, k) by {
                    lemma_skip_key(
                        self@.device_commands.finished,
                        CommandMap::spec_suffix_start(
                            self@.device_commands.finished.len() as int,
                            MAX_FINISHED_SNAPSHOT as int,
                        ),
                        k,
                    );
                    lemma_skip_key(self@.device_commands.running, 0, k);
                }
                assert forall|i: int| 0 <= i < r@.finished.len() implies {
                    &&& (#[trigger] r@.finished[i]).1.schedule_timestamp == r@.finished[i].0
                    &&& crate::commands::is_terminal(r@.finished[i].1.status)
                } by {
                    let start = CommandMap::spec_suffix_start(
                        self@.device_commands.finished.len() as int,
                        MAX_FINISHED_SNAPSHOT as int,
                    );
                    assert(r@.finished[i] == self@.device_commands.finished[start + i]);
                }
            }
        }
        r
    }
}

/// A key present in a suffix of a partition is present in the whole
/// partition.
proof fn lemma_skip_key(s: crate::queue::Entries, start: int, k: u64)
    requires
        0 <= start <= s.len(),
    ensures
        crate::queue::has_key(s.skip(start), k) ==> crate::queue::has_key(s, k),
{
    if crate::queue::has_key(s.skip(start), k) {
        let w = choose|w: int|
            0 <= w < s.skip(start).len() && (#[trigger] s.skip(start)[w]).0 == k;
        assert(s[start + w].0 == k);
    }
}

} // verus!
