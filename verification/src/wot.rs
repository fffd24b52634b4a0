//! The device directory: for each discovered device, the headers its
//! requests need. Populated by the discovery entry point, read by the
//! scheduling entry point.
use vstd::prelude::*;

verus! {

/// Whether an association list keyed by strings holds each key at most
/// once.
pub open spec fn string_keys_unique(s: Seq<(Seq<char>, Seq<char>)>) -> bool {
    forall|i: int, j: int| 0 <= i < j < s.len() ==> (#[trigger] s[i]).0 !== (#[trigger] s[j]).0
}

/// Whether an entry with key `k` is present.
pub open spec fn string_has_key(s: Seq<(Seq<char>, Seq<char>)>, k: Seq<char>) -> bool {
    exists|i: int| 0 <= i < s.len() && (#[trigger] s[i]).0 == k
}

/// The value under key `k`.
pub open spec fn string_value_at(s: Seq<(Seq<char>, Seq<char>)>, k: Seq<char>) -> Seq<char> {
    s[choose|i: int| 0 <= i < s.len() && (#[trigger] s[i]).0 == k].1
}

/// The headers one device's requests must carry.
#[derive(Debug)]
pub struct DeviceHeaders {
    headers: Vec<(String, String)>,
}

impl View for DeviceHeaders {
    type V = Seq<(Seq<char>, Seq<char>)>;

    closed spec fn view(&self) -> Seq<(Seq<char>, Seq<char>)> {
        Seq::new(self.headers@.len(), |i: int| (self.headers@[i].0@, self.headers@[i].1@))
    }
}

impl DeviceHeaders {
    /// Each header name occurs at most once.
    pub open spec fn wf(&self) -> bool {
        string_keys_unique(self@)
    }

    /// No headers.
    pub fn new() -> (r: DeviceHeaders)
        ensures
            r@ =~= Seq::<(Seq<char>, Seq<char>)>::empty(),
            r.wf(),
    {
        DeviceHeaders { headers: Vec::new() }
    }

    /// How many headers there are.
    pub fn len(&self) -> (r: usize)
        ensures
            r == self@.len(),
    {
        self.headers.len()
    }

    /// The header at a position: its name and its value.
    pub fn entry_at(&self, i: usize) -> (r: (&String, &String))
        requires
            i < self@.len(),
        ensures
            r.0@ == self@[i as int].0,
            r.1@ == self@[i as int].1,
    {
        (&self.headers[i].0, &self.headers[i].1)
    }

    /// Sets a header: overwrites the value when the name is already
    /// present, appends the pair when it is not.
    pub fn insert(&mut self, name: String, value: String)
        requires
            old(self).wf(),
        ensures
            final(self).wf(),
            string_has_key(final(self)@, name@),
            string_value_at(final(self)@, name@) == value@,
            final(self)@.len() == if string_has_key(old(self)@, name@) {
                old(self)@.len()
            } else {
                old(self)@.len() + 1
            },
            forall|k: Seq<char>|
                k !== name@ ==> (string_has_key(final(self)@, k) <==> string_has_key(
                    old(self)@,
                    k,
                )),
            forall|k: Seq<char>|
                k !== name@ && string_has_key(old(self)@, k) ==> string_value_at(final(self)@, k)
                    == string_value_at(old(self)@, k),
    {
        let ghost s0 = self@;
        let mut i: usize = 0;
        while i < self.headers.len()
            invariant
                i <= self.headers@.len(),
                self@ == s0,
                old(self)@ == s0,
                string_keys_unique(s0),
                self@.len() == self.headers@.len(),
                forall|j: int| 0 <= j < i ==> (#[trigger] s0[j]).0 !== name@,
            decreases self.headers.len() - i,
        {
            if self.headers[i].0.eq(&name) {
                proof {
                    assert(s0[i as int].0 == name@);
                }
                self.headers[i].1 = value;
                proof {
                    assert(self@ =~= s0.update(i as int, (name@, value@)));
                    lemma_string_unique_value(s0, self@, i as int, name@, value@);
                }
                return ;
            }
            i = i + 1;
        }
        proof {
            assert(!string_has_key(s0, name@)) by {
                if string_has_key(s0, name@) {
                    let w = choose|w: int| 0 <= w < s0.len() && (#[trigger] s0[w]).0 == name@;
                    assert(s0[w].0 == name@);
                }
            }
        }
        self.headers.push((name, value));
        proof {
            let s1 = self@;
            assert(s1 =~= s0.push((name@, value@)));
            assert(string_keys_unique(s1)) by {
                assert forall|p: int, q: int| 0 <= p < q < s1.len() implies (#[trigger] s1[p]).0
                    !== (#[trigger] s1[q]).0 by {
                    if q == s1.len() - 1 {
                        assert(s1[p] == s0[p]);
                        if s0[p].0 == name@ {
                            assert(string_has_key(s0, name@));
                        }
                    }
                }
            }
            assert(s1[s1.len() - 1].0 == name@);
            lemma_string_key_at(s1, s1.len() - 1, name@);
            assert forall|k: Seq<char>| k !== name@ && string_has_key(s0, k) implies string_value_at(
                s1,
                k,
            ) == string_value_at(s0, k) by {
                let w = choose|w: int| 0 <= w < s0.len() && (#[trigger] s0[w]).0 == k;
                lemma_string_key_at(s0, w, k);
                lemma_string_key_at(s1, w, k);
            }
            assert forall|k: Seq<char>| k !== name@ && string_has_key(s1, k) implies string_has_key(
                s0,
                k,
            ) by {
                let w = choose|w: int| 0 <= w < s1.len() && (#[trigger] s1[w]).0 == k;
                assert(s1[w] == s0[w]);
            }
            assert forall|k: Seq<char>| k !== name@ && string_has_key(s0, k) implies string_has_key(
                s1,
                k,
            ) by {
                let w = choose|w: int| 0 <= w < s0.len() && (#[trigger] s0[w]).0 == k;
                assert(s1[w] == s0[w]);
            }
        }
    }

    /// The value of the header named `name`, if it is set.
    pub fn get(&self, name: &String) -> (r: Option<&String>)
        requires
            self.wf(),
        ensures
            match r {
                Some(v) => string_has_key(self@, name@) && v@ == string_value_at(self@, name@),
                None => !string_has_key(self@, name@),
            },
    {
        let mut i: usize = 0;
        while i < self.headers.len()
            invariant
                self.wf(),
                i <= self.headers@.len(),
                self@.len() == self.headers@.len(),
                forall|j: int| 0 <= j < i ==> (#[trigger] self@[j]).0 !== name@,
            decreases self.headers.len() - i,
        {
            if self.headers[i].0.eq(name) {
                proof {
                    lemma_string_key_at(self@, i as int, name@);
                }
                return Some(&self.headers[i].1);
            }
            i = i + 1;
        }
        proof {
            if string_has_key(self@, name@) {
                let w = choose|w: int| 0 <= w < self@.len() && (#[trigger] self@[w]).0 == name@;
            }
        }
        None
    }

    /// An exact copy at the model level.
    pub fn clone_headers(&self) -> (r: DeviceHeaders)
        ensures
            r@ == self@,
    {
        let mut hs: Vec<(String, String)> = Vec::new();
        let mut i: usize = 0;
        while i < self.headers.len()
            invariant
                i <= self.headers@.len(),
                hs@.len() == i,
                forall|j: int|
                    0 <= j < i ==> (#[trigger] hs@[j]).0@ == self@[j].0 && hs@[j].1@ == self@[j].1,
            decreases self.headers.len() - i,
        {
            hs.push((self.headers[i].0.clone(), self.headers[i].1.clone()));
            i = i + 1;
        }
        let r = DeviceHeaders { headers: hs };
        proof {
            assert(r@ =~= self@);
        }
        r
    }
}

/// Overwriting the value at the position that carries `name` keeps keys
/// unique, binds `name` to the new value, and leaves every other key
/// alone.
proof fn lemma_string_unique_value(
    s0: Seq<(Seq<char>, Seq<char>)>,
    s1: Seq<(Seq<char>, Seq<char>)>,
    i: int,
    name: Seq<char>,
    value: Seq<char>,
)
    requires
        string_keys_unique(s0),
        0 <= i < s0.len(),
        s0[i].0 == name,
        s1 =~= s0.update(i, (name, value)),
    ensures
        string_keys_unique(s1),
        string_has_key(s1, name),
        string_value_at(s1, name) == value,
        string_has_key(s0, name),
        s1.len() == s0.len(),
        forall|k: Seq<char>|
            k !== name ==> (string_has_key(s1, k) <==> string_has_key(s0, k)),
        forall|k: Seq<char>|
            k !== name && string_has_key(s0, k) ==> string_value_at(s1, k) == string_value_at(
                s0,
                k,
            ),
{
    assert(string_keys_unique(s1)) by {
        assert forall|p: int, q: int| 0 <= p < q < s1.len() implies (#[trigger] s1[p]).0 !== (
        #[trigger] s1[q]).0 by {
            assert(s0[p].0 !== s0[q].0);
        }
    }
    lemma_string_key_at(s1, i, name);
    lemma_string_key_at(s0, i, name);
    assert forall|k: Seq<char>| k !== name implies (string_has_key(s1, k) <==> string_has_key(
        s0,
        k,
    )) by {
        if string_has_key(s1, k) {
            let w = choose|w: int| 0 <= w < s1.len() && (#[trigger] s1[w]).0 == k;
            assert(s0[w].0 == k);
        }
        if string_has_key(s0, k) {
            let w = choose|w: int| 0 <= w < s0.len() && (#[trigger] s0[w]).0 == k;
            assert(s1[w].0 == k);
        }
    }
    assert forall|k: Seq<char>| k !== name && string_has_key(s0, k) implies string_value_at(s1, k)
        == string_value_at(s0, k) by {
        let w = choose|w: int| 0 <= w < s0.len() && (#[trigger] s0[w]).0 == k;
        lemma_string_key_at(s0, w, k);
        assert(s1[w].0 == k);
        lemma_string_key_at(s1, w, k);
    }
}

/// Ghost model of the device directory: device URL to that device's
/// headers.
pub type WotDevicesModel = Seq<(Seq<char>, Seq<(Seq<char>, Seq<char>)>)>;

/// Whether the directory holds each device URL at most once.
pub open spec fn devices_keys_unique(s: WotDevicesModel) -> bool {
    forall|i: int, j: int| 0 <= i < j < s.len() ==> (#[trigger] s[i]).0 !== (#[trigger] s[j]).0
}

/// Whether a device with URL `k` is present.
pub open spec fn devices_has_key(s: WotDevicesModel, k: Seq<char>) -> bool {
    exists|i: int| 0 <= i < s.len() && (#[trigger] s[i]).0 == k
}

/// The headers of the device with URL `k`.
pub open spec fn devices_value_at(s: WotDevicesModel, k: Seq<char>) -> Seq<(Seq<char>, Seq<char>)> {
    s[choose|i: int| 0 <= i < s.len() && (#[trigger] s[i]).0 == k].1
}

/// What setting one header does to a header set: `name` now maps to
/// `value` and every other name keeps its binding.
pub open spec fn headers_updated(
    h0: Seq<(Seq<char>, Seq<char>)>,
    h1: Seq<(Seq<char>, Seq<char>)>,
    name: Seq<char>,
    value: Seq<char>,
) -> bool {
    &&& string_has_key(h1, name)
    &&& string_value_at(h1, name) == value
    &&& forall|k: Seq<char>| k !== name ==> (string_has_key(h1, k) <==> string_has_key(h0, k))
    &&& forall|k: Seq<char>|
        k !== name && string_has_key(h0, k) ==> string_value_at(h1, k) == string_value_at(h0, k)
}

/// The device directory discovered from the environment: each device URL
/// with the headers its requests must carry.
#[derive(Debug)]
pub struct WotDevices {
    devices: Vec<(String, DeviceHeaders)>,
}

impl View for WotDevices {
    type V = WotDevicesModel;

    closed spec fn view(&self) -> WotDevicesModel {
        Seq::new(self.devices@.len(), |i: int| (self.devices@[i].0@, self.devices@[i].1@))
    }
}

impl WotDevices {
    /// Device URLs are unique and each device's header names are unique.
    pub open spec fn wf(&self) -> bool {
        &&& devices_keys_unique(self@)
        &&& forall|i: int| 0 <= i < self@.len() ==> string_keys_unique((#[trigger] self@[i]).1)
    }

    /// An empty directory.
    pub fn new() -> (r: WotDevices)
        ensures
            r@ =~= Seq::<(Seq<char>, Seq<(Seq<char>, Seq<char>)>)>::empty(),
            r.wf(),
    {
        WotDevices { devices: Vec::new() }
    }

    /// How many devices are known.
    pub fn len(&self) -> (r: usize)
        ensures
            r == self@.len(),
    {
        self.devices.len()
    }

    /// The device at a position: its URL and its headers.
    pub fn entry_at(&self, i: usize) -> (r: (&String, &DeviceHeaders))
        requires
            i < self@.len(),
        ensures
            r.0@ == self@[i as int].0,
            r.1@ == self@[i as int].1,
    {
        (&self.devices[i].0, &self.devices[i].1)
    }

    /// The position of the device with URL `url`, if it is known.
    fn find_index(&self, url: &String) -> (r: Option<usize>)
        ensures
            match r {
                Some(i) => i < self@.len() && self@[i as int].0 == url@,
                None => !devices_has_key(self@, url@),
            },
    {
        let mut i: usize = 0;
        while i < self.devices.len()
            invariant
                i <= self.devices@.len(),
                self@.len() == self.devices@.len(),
                forall|j: int| 0 <= j < i ==> (#[trigger] self@[j]).0 !== url@,
            decreases self.devices.len() - i,
        {
            if self.devices[i].0.eq(url) {
                return Some(i);
            }
            i = i + 1;
        }
        proof {
            if devices_has_key(self@, url@) {
                let w = choose|w: int| 0 <= w < self@.len() && (#[trigger] self@[w]).0 == url@;
            }
        }
        None
    }

    /// The headers of the device with URL `url`, if it is known.
    pub fn get(&self, url: &String) -> (r: Option<&DeviceHeaders>)
        requires
            self.wf(),
        ensures
            match r {
                Some(h) => devices_has_key(self@, url@) && h@ == devices_value_at(self@, url@)
                    && h.wf(),
                None => !devices_has_key(self@, url@),
            },
    {
        match self.find_index(url) {
            Some(i) => {
                proof {
                    lemma_devices_key_at(self@, i as int, url@);
                }
                Some(&self.devices[i].1)
            },
            None => None,
        }
    }

    /// Records one discovered header binding: the device's header `name`
    /// is set to `value`, creating the device entry when the URL is new.
    pub fn add_header(&mut self, url: &String, name: String, value: String)
        requires
            old(self).wf(),
        ensures
            final(self).wf(),
            devices_has_key(final(self)@, url@),
            headers_updated(
                if devices_has_key(old(self)@, url@) {
                    devices_value_at(old(self)@, url@)
                } else {
                    Seq::empty()
                },
                devices_value_at(final(self)@, url@),
                name@,
                value@,
            ),
            forall|k: Seq<char>|
                k !== url@ ==> (devices_has_key(final(self)@, k) <==> devices_has_key(
                    old(self)@,
                    k,
                )),
            forall|k: Seq<char>|
                k !== url@ && devices_has_key(old(self)@, k) ==> devices_value_at(final(self)@, k)
                    == devices_value_at(old(self)@, k),
    {
        let ghost s0 = self@;
        match self.find_index(url) {
            Some(i) => {
                proof {
                    lemma_devices_key_at(s0, i as int, url@);
                    assert(string_keys_unique(s0[i as int].1));
                }
                let ghost h0 = self@[i as int].1;
                let entry = &mut self.devices[i].1;
                entry.insert(name, value);
                proof {
                    let s1 = self@;
                    assert(s1.len() == s0.len());
                    assert(forall|j: int| 0 <= j < s1.len() && j != i ==> s1[j] == s0[j]);
                    assert(s1[i as int].0 == url@);
                    assert(devices_keys_unique(s1)) by {
                        assert forall|p: int, q: int| 0 <= p < q < s1.len() implies (
                        #[trigger] s1[p]).0 !== (#[trigger] s1[q]).0 by {
                            assert(s1[p].0 == s0[p].0);
                            assert(s1[q].0 == s0[q].0);
                        }
                    }
                    lemma_devices_key_at(s1, i as int, url@);
                    assert forall|k: Seq<char>| k !== url@ implies (devices_has_key(s1, k)
                        <==> devices_has_key(s0, k)) by {
                        if devices_has_key(s1, k) {
                            let w = choose|w: int|
                                0 <= w < s1.len() && (#[trigger] s1[w]).0 == k;
                            assert(s0[w].0 == k);
                        }
                        if devices_has_key(s0, k) {
                            let w = choose|w: int|
                                0 <= w < s0.len() && (#[trigger] s0[w]).0 == k;
                            assert(s1[w].0 == k);
                        }
                    }
                    assert forall|k: Seq<char>| k !== url@ && devices_has_key(s0, k)
                        implies devices_value_at(s1, k) == devices_value_at(s0, k) by {
                        let w = choose|w: int| 0 <= w < s0.len() && (#[trigger] s0[w]).0 == k;
                        lemma_devices_key_at(s0, w, k);
                        assert(s1[w] == s0[w]);
                        lemma_devices_key_at(s1, w, k);
                    }
                    assert forall|j: int| 0 <= j < s1.len() implies string_keys_unique(
                        (#[trigger] s1[j]).1,
                    ) by {
                        if j != i {
                            assert(s1[j] == s0[j]);
                        }
                    }
                }
            },
            None => {
                let mut h = DeviceHeaders::new();
                h.insert(name, value);
                self.devices.push((url.clone(), h));
                proof {
                    let s1 = self@;
                    assert(s1 =~= s0.push(s1[s1.len() - 1]));
                    assert(s1[s1.len() - 1].0 == url@);
                    assert(devices_keys_unique(s1)) by {
                        assert forall|p: int, q: int| 0 <= p < q < s1.len() implies (
                        #[trigger] s1[p]).0 !== (#[trigger] s1[q]).0 by {
                            if q == s1.len() - 1 {
                                assert(s1[p] == s0[p]);
                                if s0[p].0 == url@ {
                                    assert(devices_has_key(s0, url@));
                                }
                            } else {
                                assert(s1[p] == s0[p]);
                                assert(s1[q] == s0[q]);
                            }
                        }
                    }
                    lemma_devices_key_at(s1, s1.len() - 1, url@);
                    assert forall|k: Seq<char>| k !== url@ implies (devices_has_key(s1, k)
                        <==> devices_has_key(s0, k)) by {
                        if devices_has_key(s1, k) {
                            let w = choose|w: int|
                                0 <= w < s1.len() && (#[trigger] s1[w]).0 == k;
                            assert(s0[w].0 == k);
                        }
                        if devices_has_key(s0, k) {
                            let w = choose|w: int|
                                0 <= w < s0.len() && (#[trigger] s0[w]).0 == k;
                            assert(s1[w].0 == k);
                        }
                    }
                    assert forall|k: Seq<char>| k !== url@ && devices_has_key(s0, k)
                        implies devices_value_at(s1, k) == devices_value_at(s0, k) by {
                        let w = choose|w: int| 0 <= w < s0.len() && (#[trigger] s0[w]).0 == k;
                        lemma_devices_key_at(s0, w, k);
                        assert(s1[w] == s0[w]);
                        lemma_devices_key_at(s1, w, k);
                    }
                    assert forall|j: int| 0 <= j < s1.len() implies string_keys_unique(
                        (#[trigger] s1[j]).1,
                    ) by {
                        if j < s1.len() - 1 {
                            assert(s1[j] == s0[j]);
                        }
                    }
                }
            },
        }
    }

    /// An exact copy at the model level.
    pub fn clone_devices(&self) -> (r: WotDevices)
        ensures
            r@ == self@,
    {
        let mut ds: Vec<(String, DeviceHeaders)> = Vec::new();
        let mut i: usize = 0;
        while i < self.devices.len()
            invariant
                i <= self.devices@.len(),
                ds@.len() == i,
                forall|j: int|
                    0 <= j < i ==> (#[trigger] ds@[j]).0@ == self@[j].0 && ds@[j].1@
                        == self@[j].1,
            decreases self.devices.len() - i,
        {
            ds.push((self.devices[i].0.clone(), self.devices[i].1.clone_headers()));
            i = i + 1;
        }
        let r = WotDevices { devices: ds };
        proof {
            assert(r@ =~= self@);
        }
        r
    }
}

/// With unique device URLs, the witness position for URL `k` is the only
/// one, so the chosen index is that position.
proof fn lemma_devices_key_at(s: WotDevicesModel, i: int, k: Seq<char>)
    requires
        devices_keys_unique(s),
        0 <= i < s.len(),
        s[i].0 == k,
    ensures
        devices_has_key(s, k),
        devices_value_at(s, k) == s[i].1,
{
    assert(devices_has_key(s, k));
    let w = choose|w: int| 0 <= w < s.len() && (#[trigger] s[w]).0 == k;
    if w < i {
        assert(s[w].0 !== s[i].0);
    }
    if w > i {
        assert(s[i].0 !== s[w].0);
    }
}

/// With unique keys, the witness position for key `k` is the only one, so
/// the chosen index is that position.
pub proof fn lemma_string_key_at(s: Seq<(Seq<char>, Seq<char>)>, i: int, k: Seq<char>)
    requires
        string_keys_unique(s),
        0 <= i < s.len(),
        s[i].0 == k,
    ensures
        string_has_key(s, k),
        string_value_at(s, k) == s[i].1,
{
    assert(string_has_key(s, k));
    let w = choose|w: int| 0 <= w < s.len() && (#[trigger] s[w]).0 == k;
    if w < i {
        assert(s[w].0 !== s[i].0);
    }
    if w > i {
        assert(s[i].0 !== s[w].0);
    }
}

} // verus!
