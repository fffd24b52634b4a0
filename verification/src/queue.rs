//! An ordered map from execution timestamp to command, kept as a vector
//! sorted strictly by key. Each queue partition is one such map.
use vstd::prelude::*;

use crate::commands::{DeviceCommand, DeviceCommandView};

verus! {

/// Ghost model of one partition: its entries in ascending key order.
pub type Entries = Seq<(u64, DeviceCommandView)>;

/// Keys are strictly ascending, so every key occurs at most once.
pub open spec fn map_sorted(s: Entries) -> bool {
    forall|i: int, j: int| 0 <= i < j < s.len() ==> (#[trigger] s[i]).0 < (#[trigger] s[j]).0
}

/// Whether some entry carries the key `k`.
pub open spec fn has_key(s: Entries, k: u64) -> bool {
    exists|i: int| 0 <= i < s.len() && (#[trigger] s[i]).0 == k
}

/// The position of the entry with key `k` (meaningful when `has_key` holds
/// and the entries are sorted).
pub open spec fn key_index(s: Entries, k: u64) -> int {
    choose|i: int| 0 <= i < s.len() && (#[trigger] s[i]).0 == k
}

/// The command stored under key `k`.
pub open spec fn value_at(s: Entries, k: u64) -> DeviceCommandView {
    s[key_index(s, k)].1
}

/// An ordered map from execution timestamp to command.
pub struct CommandMap {
    entries: Vec<(u64, DeviceCommand)>,
}

impl View for CommandMap {
    type V = Entries;

    closed spec fn view(&self) -> Entries {
        Seq::new(self.entries@.len(), |i: int| (self.entries@[i].0, self.entries@[i].1@))
    }
}

impl CommandMap {
    /// The partition's entries are sorted strictly by key.
    pub open spec fn wf(&self) -> bool {
        map_sorted(self@)
    }

    /// An empty partition.
    pub fn new() -> (r: CommandMap)
        ensures
            r@ =~= Seq::<(u64, DeviceCommandView)>::empty(),
            r.wf(),
    {
        CommandMap { entries: Vec::new() }
    }

    /// How many commands the partition holds.
    pub fn len(&self) -> (r: usize)
        ensures
            r == self@.len(),
    {
        self.entries.len()
    }

    /// The entry at a position, in ascending key order.
    pub fn entry_at(&self, i: usize) -> (r: &(u64, DeviceCommand))
        requires
            i < self@.len(),
        ensures
            r.0 == self@[i as int].0,
            r.1@ == self@[i as int].1,
    {
        &self.entries[i]
    }

    /// The position of the entry keyed `ts`, if any.
    fn find_index(&self, ts: u64) -> (r: Option<usize>)
        ensures
            match r {
                Some(i) => i < self@.len() && self@[i as int].0 == ts,
                None => !has_key(self@, ts),
            },
    {
        let mut i: usize = 0;
        while i < self.entries.len()
            invariant
                i <= self@.len(),
                self@.len() == self.entries@.len(),
                forall|j: int| 0 <= j < i ==> (#[trigger] self@[j]).0 != ts,
            decreases self.entries.len() - i,
    {
            if self.entries[i].0 == ts {
                return Some(i);
            }
            i = i + 1;
        }
        None
    }

    /// A read-only borrow of the command keyed `ts`.
    pub fn get(&self, ts: u64) -> (r: Option<&DeviceCommand>)
        ensures
            match r {
                Some(c) => has_key(self@, ts) && exists|i: int|
                    0 <= i < self@.len() && self@[i] == (ts, c@),
                None => !has_key(self@, ts),
            },
    {
        match self.find_index(ts) {
            Some(i) => Some(&self.entries[i].1),
            None => None,
        }
    }

    /// Whether the partition holds a command keyed `ts`.
    pub fn contains(&self, ts: u64) -> (r: bool)
        ensures
            r == has_key(self@, ts),
    {
        match self.find_index(ts) {
            Some(_) => true,
            None => false,
        }
    }

    /// The greatest key, or `None` when the partition is empty.
    pub fn last_key(&self) -> (r: Option<u64>)
        ensures
            match r {
                Some(k) => self@.len() > 0 && k == self@[self@.len() - 1].0,
                None => self@.len() == 0,
            },
    {
        if self.entries.len() == 0 {
            None
        } else {
            Some(self.entries[self.entries.len() - 1].0)
        }
    }

    /// Inserts a command under a key not yet present, keeping the entries
    /// sorted. On a key collision the map is unchanged and the command is
    /// handed back.
    pub fn insert(&mut self, ts: u64, cmd: DeviceCommand) -> (r: Result<(), DeviceCommand>)
        requires
            old(self).wf(),
        ensures
            final(self).wf(),
            match r {
                Err(c) => {
                    &&& has_key(old(self)@, ts)
                    &&& c@ == cmd@
                    &&& final(self)@ == old(self)@
                },
                Ok(()) => {
                    &&& !has_key(old(self)@, ts)
                    &&& exists|i: int|
                        {
                            &&& 0 <= i <= old(self)@.len()
                            &&& #[trigger] trigger_idx(i)
                            &&& final(self)@ =~= old(self)@.take(i) + seq![(ts, cmd@)] + old(
                                self,
                            )@.skip(i)
                            &&& forall|j: int| 0 <= j < i ==> (#[trigger] old(self)@[j]).0 < ts
                            &&& forall|j: int|
                                i <= j < old(self)@.len() ==> (#[trigger] old(self)@[j]).0 > ts
                        }
                },
            },
    {
        let ghost s0 = self@;
        let mut i: usize = 0;
        while i < self.entries.len() && self.entries[i].0 < ts
            invariant
                i <= self@.len(),
                self@.len() == self.entries@.len(),
                self@ == s0,
                forall|j: int| 0 <= j < i ==> (#[trigger] self@[j]).0 < ts,
            decreases self.entries.len() - i,
        {
            i = i + 1;
        }
        if i < self.entries.len() && self.entries[i].0 == ts {
            proof {
                assert(s0[i as int].0 == ts);
                assert(has_key(s0, ts));
            }
            return Err(cmd);
        }
        proof {
            // every later key exceeds ts: sortedness past position i
            assert forall|j: int| i <= j < s0.len() implies (#[trigger] s0[j]).0 > ts by {
                if j == i {
                } else {
                    assert(s0[i as int].0 < s0[j].0);
                }
            }
            assert(!has_key(s0, ts)) by {
                if has_key(s0, ts) {
                    let w = key_index(s0, ts);
                    assert(0 <= w < s0.len() && s0[w].0 == ts);
                }
            }
        }
        self.entries.insert(i, (ts, cmd));
        proof {
            assert(trigger_idx(i as int));
            assert(self@ =~= s0.take(i as int) + seq![(ts, cmd@)] + s0.skip(i as int));
            assert(map_sorted(self@)) by {
                assert forall|p: int, q: int| 0 <= p < q < self@.len() implies (
                #[trigger] self@[p]).0 < (#[trigger] self@[q]).0 by {
                    if p < i && q < i {
                    } else if p < i && q == i {
                    } else if p < i && q > i {
                        assert(self@[q] == s0[q - 1]);
                    } else if p == i {
                        assert(self@[q] == s0[q - 1]);
                    } else {
                        assert(self@[p] == s0[p - 1]);
                        assert(self@[q] == s0[q - 1]);
                    }
                }
            }
        }
        Ok(())
    }

    /// Removes and returns the command keyed `ts`; the map is unchanged
    /// when no such command exists.
    pub fn remove(&mut self, ts: u64) -> (r: Option<DeviceCommand>)
        requires
            old(self).wf(),
        ensures
            final(self).wf(),
            match r {
                None => !has_key(old(self)@, ts) && final(self)@ == old(self)@,
                Some(c) => {
                    &&& exists|i: int|
                        {
                            &&& 0 <= i < old(self)@.len()
                            &&& #[trigger] trigger_idx(i)
                            &&& old(self)@[i] == (ts, c@)
                            &&& final(self)@ =~= old(self)@.take(i) + old(self)@.skip(i + 1)
                        }
                },
            },
    {
        let ghost s0 = self@;
        match self.find_index(ts) {
            None => None,
            Some(i) => {
                let (_, c) = self.entries.remove(i);
                proof {
                    assert(trigger_idx(i as int));
                    assert(s0[i as int] == (ts, c@));
                    assert(self@ =~= s0.take(i as int) + s0.skip(i as int + 1));
                    assert(map_sorted(self@)) by {
                        assert forall|p: int, q: int| 0 <= p < q < self@.len() implies (
                        #[trigger] self@[p]).0 < (#[trigger] self@[q]).0 by {
                            if p < i && q < i {
                            } else if p < i {
                                assert(self@[q] == s0[q + 1]);
                            } else {
                                assert(self@[p] == s0[p + 1]);
                                assert(self@[q] == s0[q + 1]);
                            }
                        }
                    }
                }
                Some(c)
            },
        }
    }
}

/// Ghost model of an entry vector.
pub open spec fn entries_view(v: Seq<(u64, DeviceCommand)>) -> Entries {
    Seq::new(v.len(), |i: int| (v[i].0, v[i].1@))
}

impl CommandMap {
    /// A partition holding exactly the given entries, in the given order
    /// (which the caller keeps sorted by key).
    pub fn from_entries(entries: Vec<(u64, DeviceCommand)>) -> (r: CommandMap)
        ensures
            r@ == entries_view(entries@),
    {
        let r = CommandMap { entries };
        proof {
            assert(r@ =~= entries_view(r.entries@));
        }
        r
    }

    /// Where the most recent `count` entries start.
    pub open spec fn spec_suffix_start(len: int, count: int) -> int {
        if count >= len {
            0
        } else {
            len - count
        }
    }

    /// A copy of the most recent `count` entries (all of them when the
    /// partition holds fewer).
    pub fn clone_suffix(&self, count: usize) -> (r: CommandMap)
        ensures
            r@ =~= self@.skip(Self::spec_suffix_start(self@.len() as int, count as int)),
            self.wf() ==> r.wf(),
    {
        let n = self.entries.len();
        let start = if count >= n {
            0
        } else {
            n - count
        };
        let mut es: Vec<(u64, DeviceCommand)> = Vec::new();
        let mut i: usize = start;
        while i < n
            invariant
                start <= i <= n,
                n == self@.len(),
                self@.len() == self.entries@.len(),
                es@.len() == i - start,
                forall|j: int|
                    0 <= j < es@.len() ==> (#[trigger] es@[j]).0 == self@[start + j].0
                        && es@[j].1@ == self@[start + j].1,
            decreases n - i,
        {
            let e = &self.entries[i];
            es.push((e.0, e.1.clone_command()));
            i = i + 1;
        }
        let r = CommandMap { entries: es };
        proof {
            assert(r@ =~= self@.skip(start as int));
            if self.wf() {
                assert(map_sorted(r@)) by {
                    assert forall|p: int, q: int| 0 <= p < q < r@.len() implies (
                    #[trigger] r@[p]).0 < (#[trigger] r@[q]).0 by {
                        assert(r@[p] == self@[start + p]);
                        assert(r@[q] == self@[start + q]);
                    }
                }
            }
        }
        r
    }

    /// An exact copy at the model level.
    pub fn clone_map(&self) -> (r: CommandMap)
        ensures
            r@ =~= self@,
            self.wf() ==> r.wf(),
    {
        let r = self.clone_suffix(self.entries.len());
        proof {
            assert(self@.skip(0) =~= self@);
        }
        r
    }
}

/// A marker used to name the witness position in admission and removal
/// contracts.
pub open spec fn trigger_idx(i: int) -> bool {
    true
}

/// How many commands at the front of a sorted partition are strictly
/// before `now`.
pub open spec fn due_len(s: Entries, now: u64) -> int
    decreases s.len(),
{
    if s.len() == 0 {
        0
    } else if s[0].0 < now {
        1 + due_len(s.drop_first(), now)
    } else {
        0
    }
}

/// Pins `due_len` down from the two facts a scan establishes: the first
/// `n` keys are due and the next one, if any, is not.
pub proof fn lemma_due_len_characterization(s: Entries, now: u64, n: int)
    requires
        0 <= n <= s.len(),
        forall|j: int| 0 <= j < n ==> (#[trigger] s[j]).0 < now,
        n == s.len() || s[n].0 >= now,
    ensures
        due_len(s, now) == n,
    decreases s.len(),
{
    if s.len() == 0 {
    } else if n == 0 {
        assert(s[0].0 >= now);
    } else {
        assert(s[0].0 < now);
        let t = s.drop_first();
        assert forall|j: int| 0 <= j < n - 1 implies (#[trigger] t[j]).0 < now by {
            assert(t[j] == s[j + 1]);
        }
        if n - 1 < t.len() {
            assert(t[n - 1] == s[n as int]);
        }
        lemma_due_len_characterization(t, now, n - 1);
    }
}

/// What an insertion at the witness position does at the key level:
/// sortedness is kept, the new key maps to the new command, and every
/// other key keeps its command.
pub proof fn lemma_insert_entry_facts(s: Entries, s2: Entries, i: int, ts: u64, v: DeviceCommandView)
    requires
        map_sorted(s),
        0 <= i <= s.len(),
        s2 =~= s.take(i) + seq![(ts, v)] + s.skip(i),
        forall|j: int| 0 <= j < i ==> (#[trigger] s[j]).0 < ts,
        forall|j: int| i <= j < s.len() ==> (#[trigger] s[j]).0 > ts,
    ensures
        map_sorted(s2),
        s2.len() == s.len() + 1,
        has_key(s2, ts),
        value_at(s2, ts) == v,
        forall|k: u64| #[trigger] has_key(s2, k) <==> (k == ts || has_key(s, k)),
        forall|k: u64|
            k != ts && #[trigger] has_key(s, k) ==> value_at(s2, k) == value_at(s, k),
{
    assert(forall|j: int| 0 <= j < i ==> s2[j] == s[j]);
    assert(s2[i] == (ts, v));
    assert(forall|j: int| i < j < s2.len() ==> s2[j] == s[j - 1]);
    assert(map_sorted(s2)) by {
        assert forall|p: int, q: int| 0 <= p < q < s2.len() implies (#[trigger] s2[p]).0 < (
        #[trigger] s2[q]).0 by {
            if p < i && q < i {
            } else if p < i && q == i {
            } else if p < i && q > i {
            } else if p == i {
            } else {
            }
        }
    }
    assert(has_key(s2, ts)) by {
        assert(s2[i].0 == ts);
    }
    lemma_sorted_key_index(s2, ts, i);
    assert forall|k: u64| #[trigger] has_key(s2, k) implies (k == ts || has_key(s, k)) by {
        let w = key_index(s2, k);
        assert(0 <= w < s2.len() && s2[w].0 == k);
        if w < i {
            assert(s[w].0 == k);
        } else if w > i {
            assert(s[w - 1].0 == k);
        }
    }
    assert forall|k: u64| k == ts || has_key(s, k) implies #[trigger] has_key(s2, k) by {
        if k != ts {
            let w = key_index(s, k);
            assert(0 <= w < s.len() && s[w].0 == k);
            if w < i {
                assert(s2[w].0 == k);
            } else {
                assert(s2[w + 1].0 == k);
            }
        }
    }
    assert forall|k: u64| k != ts && #[trigger] has_key(s, k) implies value_at(s2, k) == value_at(
        s,
        k,
    ) by {
        let w = key_index(s, k);
        assert(0 <= w < s.len() && s[w].0 == k);
        lemma_sorted_key_index(s, k, w);
        if w < i {
            assert(s2[w].0 == k);
            lemma_sorted_key_index(s2, k, w);
        } else {
            assert(s2[w + 1].0 == k);
            lemma_sorted_key_index(s2, k, w + 1);
        }
    }
}

/// What removing the witness position does at the key level.
pub proof fn lemma_remove_entry_facts(s: Entries, s2: Entries, i: int)
    requires
        map_sorted(s),
        0 <= i < s.len(),
        s2 =~= s.take(i) + s.skip(i + 1),
    ensures
        map_sorted(s2),
        s2.len() == s.len() - 1,
        !has_key(s2, s[i].0),
        forall|k: u64| #[trigger] has_key(s2, k) <==> (has_key(s, k) && k != s[i].0),
        forall|k: u64|
            k != s[i].0 && #[trigger] has_key(s, k) ==> value_at(s2, k) == value_at(s, k),
{
    let ts = s[i].0;
    assert(forall|j: int| 0 <= j < i ==> s2[j] == s[j]);
    assert(forall|j: int| i <= j < s2.len() ==> s2[j] == s[j + 1]);
    assert(map_sorted(s2));
    assert forall|k: u64| #[trigger] has_key(s2, k) implies (has_key(s, k) && k != ts) by {
        let w = key_index(s2, k);
        assert(0 <= w < s2.len() && s2[w].0 == k);
        if w < i {
            assert(s[w].0 == k);
        } else {
            assert(s[w + 1].0 == k);
        }
    }
    assert forall|k: u64| has_key(s, k) && k != ts implies #[trigger] has_key(s2, k) by {
        let w = key_index(s, k);
        assert(0 <= w < s.len() && s[w].0 == k);
        assert(w != i);
        if w < i {
            assert(s2[w].0 == k);
        } else {
            assert(s2[w - 1].0 == k);
        }
    }
    assert(!has_key(s2, ts));
    assert forall|k: u64| k != ts && #[trigger] has_key(s, k) implies value_at(s2, k) == value_at(
        s,
        k,
    ) by {
        let w = key_index(s, k);
        assert(0 <= w < s.len() && s[w].0 == k);
        lemma_sorted_key_index(s, k, w);
        assert(w != i);
        if w < i {
            assert(s2[w].0 == k);
            lemma_sorted_key_index(s2, k, w);
        } else {
            assert(s2[w - 1].0 == k);
            lemma_sorted_key_index(s2, k, w - 1);
        }
    }
}

/// In a sorted partition an index that carries key `k` is the only one,
/// so `key_index` picks it.
pub proof fn lemma_sorted_key_index(s: Entries, k: u64, i: int)
    requires
        map_sorted(s),
        0 <= i < s.len(),
        s[i].0 == k,
    ensures
        has_key(s, k),
        key_index(s, k) == i,
{
    assert(has_key(s, k));
    let w = key_index(s, k);
    assert(0 <= w < s.len() && s[w].0 == k);
    if w < i {
        assert(s[w].0 < s[i].0);
    }
    if w > i {
        assert(s[i].0 < s[w].0);
    }
}

} // verus!
