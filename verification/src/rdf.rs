//! RDF database access: the connection record, SPARQL query construction,
//! and grouping the query's variable bindings into the device directory.
use vstd::prelude::*;

use crate::wot::{
    devices_has_key, devices_value_at, lemma_string_key_at, string_has_key, string_keys_unique,
    string_value_at, WotDevices,
};

verus! {

/// Errors surfaced to callers as plain text.
pub type GenericError = String;

/// Where the RDF database is reached.
#[derive(Debug)]
pub struct RdfDatabaseConnection {
    pub query_url: String,
}

impl View for RdfDatabaseConnection {
    type V = Seq<char>;

    open spec fn view(&self) -> Seq<char> {
        self.query_url@
    }
}

impl RdfDatabaseConnection {
    /// An exact copy at the model level.
    pub fn clone_connection(&self) -> (r: RdfDatabaseConnection)
        ensures
            r@ == self@,
    {
        RdfDatabaseConnection { query_url: self.query_url.clone() }
    }
}

/// The connection the process currently holds. The caller must know one
/// was configured: the contract does not admit reading an unconfigured
/// connection.
pub fn get_rdf_database_connection(state: &crate::state::State) -> (r: RdfDatabaseConnection)
    requires
        state@.rdf_database_connection is Some,
    ensures
        Some(r@) == state@.rdf_database_connection,
{
    match &state.rdf_database_connection {
        Some(c) => c.clone_connection(),
        None => {
            proof {
                assert(false);
            }
            RdfDatabaseConnection { query_url: String::new() }
        },
    }
}

/// Points the process at the RDF database answering queries at the given
/// URL.
pub fn update_rdf_database_connection(
    state: &mut crate::state::State,
    rdf_database_query_url: String,
)
    ensures
        final(state)@ == (crate::state::StateView {
            rdf_database_connection: Some(rdf_database_query_url@),
            ..old(state)@
        }),
{
    let rdf_database_connection = RdfDatabaseConnection { query_url: rdf_database_query_url };
    state.rdf_database_connection = Some(rdf_database_connection);
}

/// The graph prefixes every query is preceded by.
pub open spec fn rdf_prefixes() -> Seq<char> {
    "\n# Omnia\nPREFIX omnia: <http://rdf.omnia-iot.com#>\n# Third parties\nPREFIX rdf: <http://www.w3.org/1999/02/22-rdf-syntax-ns#>\nPREFIX saref: <https://saref.etsi.org/core/>\nPREFIX bot: <https://w3id.org/bot#>\nPREFIX http: <https://www.w3.org/2011/http#>\nPREFIX td: <https://www.w3.org/2019/wot/td#>\n# Definitions\nPREFIX urn: <urn:>\n"@
}

/// Prepends the RDF database graph prefixes:
/// - **omnia**: <http://rdf.omnia-iot.com#>
/// - **rdf**: <http://www.w3.org/1999/02/22-rdf-syntax-ns#>
/// - **saref**: <https://saref.etsi.org/core/>
/// - **bot**: <https://w3id.org/bot#>
/// - **http**: <https://www.w3.org/2011/http#>
/// - **td**: <https://www.w3.org/2019/wot/td#>
/// - **urn**: `<urn:>`
pub fn build_query(q: &str) -> (r: String)
    ensures
        r@ == rdf_prefixes() + q@,
{
    let mut query = String::from_str(
        "\n# Omnia\nPREFIX omnia: <http://rdf.omnia-iot.com#>\n# Third parties\nPREFIX rdf: <http://www.w3.org/1999/02/22-rdf-syntax-ns#>\nPREFIX saref: <https://saref.etsi.org/core/>\nPREFIX bot: <https://w3id.org/bot#>\nPREFIX http: <https://www.w3.org/2011/http#>\nPREFIX td: <https://www.w3.org/2019/wot/td#>\n# Definitions\nPREFIX urn: <urn:>\n",
    );
    query.append(q);
    query
}

/// The first half of the device-discovery query, up to the environment
/// urn.
pub open spec fn devices_query_head() -> Seq<char> {
    "\n        SELECT ?device ?headerName ?headerValue WHERE {\n            "@
}

/// The second half of the device-discovery query, after the environment
/// urn.
pub open spec fn devices_query_tail() -> Seq<char> {
    " bot:hasElement ?device .\n            ?device rdf:type saref:Device .\n            ?device omnia:requiresHeader ?header .\n            ?header http:fieldName ?headerName ;\n                    http:fieldValue ?headerValue .\n        }"@
}

/// Builds the device-discovery query for one environment: every device in
/// the environment together with the headers its requests require.
pub fn build_devices_query(environment_urn: &str) -> (r: String)
    ensures
        r@ == devices_query_head() + environment_urn@ + devices_query_tail(),
{
    let mut q = String::from_str(
        "\n        SELECT ?device ?headerName ?headerValue WHERE {\n            ",
    );
    q.append(environment_urn);
    q.append(
        " bot:hasElement ?device .\n            ?device rdf:type saref:Device .\n            ?device omnia:requiresHeader ?header .\n            ?header http:fieldName ?headerName ;\n                    http:fieldValue ?headerValue .\n        }",
    );
    q
}

/// Builds the full discovery query for one environment: the environment
/// identifier is validated and canonicalized into its urn form, spliced
/// into the device-discovery query, and the graph prefixes are prepended.
/// Fails exactly when the identifier is not a UUID.
pub fn devices_environment_query(environment_uid: &str) -> (r: Result<String, GenericError>)
    ensures
        match r {
            Ok(q) => crate::uuid::is_uuid_text(environment_uid@) && q@ == rdf_prefixes() + (
            devices_query_head() + (crate::uuid::urn_prefix() + crate::uuid::uuid_canon_of(
                environment_uid@,
            )) + devices_query_tail()),
            Err(_) => !crate::uuid::is_uuid_text(environment_uid@),
        },
{
    let urn = match crate::uuid::uuid_urn_of(environment_uid) {
        Ok(u) => u,
        Err(e) => {
            return Err(e);
        },
    };
    let q = build_devices_query(urn.as_str());
    Ok(build_query(q.as_str()))
}

/// One row of a SPARQL select result: each selected variable with the
/// value it is bound to.
#[derive(Debug)]
pub struct RdfBinding {
    vars: Vec<(String, String)>,
}

impl View for RdfBinding {
    type V = Seq<(Seq<char>, Seq<char>)>;

    closed spec fn view(&self) -> Seq<(Seq<char>, Seq<char>)> {
        Seq::new(self.vars@.len(), |i: int| (self.vars@[i].0@, self.vars@[i].1@))
    }
}

impl RdfBinding {
    /// Each variable is bound at most once.
    pub open spec fn wf(&self) -> bool {
        string_keys_unique(self@)
    }

    /// A row with no variables bound.
    pub fn new() -> (r: RdfBinding)
        ensures
            r@ =~= Seq::<(Seq<char>, Seq<char>)>::empty(),
    {
        RdfBinding { vars: Vec::new() }
    }

    /// Binds one more variable; the variable must be new to the row.
    pub fn bind(&mut self, var: String, value: String)
        requires
            !string_has_key(old(self)@, var@),
        ensures
            final(self)@ =~= old(self)@.push((var@, value@)),
    {
        self.vars.push((var, value));
        proof {
            assert(final(self)@ =~= old(self)@.push((var@, value@)));
        }
    }

    /// The value the row binds `var` to, if any.
    pub fn get(&self, var: &str) -> (r: Option<&String>)
        ensures
            match r {
                Some(v) => string_has_key(self@, var@) && exists|i: int|
                    0 <= i < self@.len() && #[trigger] self@[i] == (var@, v@),
                None => !string_has_key(self@, var@),
            },
    {
        let mut i: usize = 0;
        while i < self.vars.len()
            invariant
                i <= self.vars@.len(),
                self@.len() == self.vars@.len(),
                forall|j: int| 0 <= j < i ==> (#[trigger] self@[j]).0 !== var@,
            decreases self.vars.len() - i,
        {
            if crate::utils::str_eq(self.vars[i].0.as_str(), var) {
                proof {
                    assert(self@[i as int] == (var@, self.vars@[i as int].1@));
                }
                return Some(&self.vars[i].1);
            }
            i = i + 1;
        }
        proof {
            if string_has_key(self@, var@) {
                let w = choose|w: int| 0 <= w < self@.len() && (#[trigger] self@[w]).0 == var@;
            }
        }
        None
    }
}

/// Whether a row binds all three variables the device-discovery query
/// selects.
pub open spec fn binding_complete(b: Seq<(Seq<char>, Seq<char>)>) -> bool {
    &&& string_has_key(b, "device"@)
    &&& string_has_key(b, "headerName"@)
    &&& string_has_key(b, "headerValue"@)
}

/// The device URL a row speaks of.
pub open spec fn binding_device(b: Seq<(Seq<char>, Seq<char>)>) -> Seq<char> {
    string_value_at(b, "device"@)
}

/// The header name a row contributes.
pub open spec fn binding_header_name(b: Seq<(Seq<char>, Seq<char>)>) -> Seq<char> {
    string_value_at(b, "headerName"@)
}

/// The header value a row contributes.
pub open spec fn binding_header_value(b: Seq<(Seq<char>, Seq<char>)>) -> Seq<char> {
    string_value_at(b, "headerValue"@)
}

/// Ghost model of a list of rows.
pub open spec fn bindings_view(bs: Seq<RdfBinding>) -> Seq<Seq<(Seq<char>, Seq<char>)>> {
    bs.map(|i: int, b: RdfBinding| b@)
}

/// Whether a later row (before `n`) rebinds the same device's same header
/// as row `t` does.
pub open spec fn rebound_later(
    bv: Seq<Seq<(Seq<char>, Seq<char>)>>,
    t: int,
    n: int,
) -> bool {
    exists|u: int|
        t < u < n && binding_device(#[trigger] bv[u]) == binding_device(bv[t])
            && binding_header_name(bv[u]) == binding_header_name(bv[t])
}

/// Groups the rows of the device-discovery query result into the device
/// directory: the device URLs are exactly the distinct device values of
/// the rows, each device holds exactly the header names its rows bind, and
/// each header carries the value the last row for that device and name
/// bound. Fails exactly when some row does not bind all three variables.
pub fn parse_rdf_json_response(bindings: &Vec<RdfBinding>) -> (r: Result<WotDevices, GenericError>)
    requires
        forall|t: int| 0 <= t < bindings@.len() ==> (#[trigger] bindings@[t]).wf(),
    ensures
        ({
            let bv = bindings_view(bindings@);
            match r {
                Ok(w) => {
                    &&& w.wf()
                    &&& forall|t: int| 0 <= t < bv.len() ==> binding_complete(#[trigger] bv[t])
                    &&& forall|t: int|
                        0 <= t < bv.len() ==> devices_has_key(
                            w@,
                            binding_device(#[trigger] bv[t]),
                        ) && string_has_key(
                            devices_value_at(w@, binding_device(bv[t])),
                            binding_header_name(bv[t]),
                        )
                    &&& forall|t: int|
                        0 <= t < bv.len() && !rebound_later(bv, t, bv.len() as int)
                            ==> string_value_at(
                            devices_value_at(w@, binding_device(#[trigger] bv[t])),
                            binding_header_name(bv[t]),
                        ) == binding_header_value(bv[t])
                    &&& forall|k: Seq<char>|
                        #[trigger] devices_has_key(w@, k) ==> exists|t: int|
                            0 <= t < bv.len() && binding_device(#[trigger] bv[t]) == k
                    &&& forall|k: Seq<char>, n: Seq<char>|
                        devices_has_key(w@, k) && #[trigger] string_has_key(
                            devices_value_at(w@, k),
                            n,
                        ) ==> exists|t: int|
                            0 <= t < bv.len() && binding_device(#[trigger] bv[t]) == k
                                && binding_header_name(bv[t]) == n
                },
                Err(_) => exists|t: int|
                    0 <= t < bv.len() && !binding_complete(#[trigger] bv[t]),
            }
        }),
{
    let ghost bv = bindings_view(bindings@);
    let mut w = WotDevices::new();
    let mut i: usize = 0;
    while i < bindings.len()
        invariant
            i <= bindings@.len(),
            forall|t: int| 0 <= t < bindings@.len() ==> (#[trigger] bindings@[t]).wf(),
            bv == bindings_view(bindings@),
            bv.len() == bindings@.len(),
            w.wf(),
            forall|t: int| 0 <= t < i ==> binding_complete(#[trigger] bv[t]),
            forall|t: int|
                0 <= t < i ==> devices_has_key(w@, binding_device(#[trigger] bv[t]))
                    && string_has_key(
                    devices_value_at(w@, binding_device(bv[t])),
                    binding_header_name(bv[t]),
                ),
            forall|t: int|
                0 <= t < i && !rebound_later(bv, t, i as int) ==> string_value_at(
                    devices_value_at(w@, binding_device(#[trigger] bv[t])),
                    binding_header_name(bv[t]),
                ) == binding_header_value(bv[t]),
            forall|k: Seq<char>|
                #[trigger] devices_has_key(w@, k) ==> exists|t: int|
                    0 <= t < i && binding_device(#[trigger] bv[t]) == k,
            forall|k: Seq<char>, n: Seq<char>|
                devices_has_key(w@, k) && #[trigger] string_has_key(
                    devices_value_at(w@, k),
                    n,
                ) ==> exists|t: int|
                    0 <= t < i && binding_device(#[trigger] bv[t]) == k
                        && binding_header_name(bv[t]) == n,
        decreases bindings.len() - i,
    {
        let b = &bindings[i];
        proof {
            assert(bv[i as int] == b@);
        }
        let device_url = match b.get("device") {
            Some(v) => v.clone(),
            None => {
                return Err(String::from_str("missing variable in RDF binding"));
            },
        };
        let header_name = match b.get("headerName") {
            Some(v) => v.clone(),
            None => {
                return Err(String::from_str("missing variable in RDF binding"));
            },
        };
        let header_value = match b.get("headerValue") {
            Some(v) => v.clone(),
            None => {
                return Err(String::from_str("missing variable in RDF binding"));
            },
        };
        proof {
            assert(bindings@[i as int].wf());
            lemma_binding_values(b@, device_url@, header_name@, header_value@);
            assert(binding_device(bv[i as int]) == device_url@);
        }
        let ghost w0 = w@;
        w.add_header(&device_url, header_name, header_value);
        proof {
            let d = binding_device(bv[i as int]);
            let n = binding_header_name(bv[i as int]);
            let v = binding_header_value(bv[i as int]);
            assert(devices_has_key(w@, d));
            assert(string_has_key(devices_value_at(w@, d), n));
            assert(string_value_at(devices_value_at(w@, d), n) == v);
            assert forall|t: int|
                0 <= t < i + 1 && !rebound_later(bv, t, i + 1 as int) implies string_value_at(
                devices_value_at(w@, binding_device(#[trigger] bv[t])),
                binding_header_name(bv[t]),
            ) == binding_header_value(bv[t]) by {
                let dt = binding_device(bv[t]);
                let nt = binding_header_name(bv[t]);
                if t == i {
                } else {
                    assert(!rebound_later(bv, t, i as int)) by {
                        if rebound_later(bv, t, i as int) {
                            let u = choose|u: int|
                                t < u < i && binding_device(#[trigger] bv[u]) == binding_device(
                                    bv[t],
                                ) && binding_header_name(bv[u]) == binding_header_name(bv[t]);
                            assert(t < u < i + 1 && binding_device(bv[u]) == binding_device(bv[t])
                                && binding_header_name(bv[u]) == binding_header_name(bv[t]));
                        }
                    }
                    assert(!(dt == d && nt == n)) by {
                        if dt == d && nt == n {
                            assert(t < i < i + 1 && binding_device(bv[i as int])
                                == binding_device(bv[t]) && binding_header_name(bv[i as int])
                                == binding_header_name(bv[t]));
                            assert(rebound_later(bv, t, i + 1 as int));
                        }
                    }
                    if dt == d {
                        assert(string_value_at(devices_value_at(w0, dt), nt)
                            == binding_header_value(bv[t]));
                        assert(string_value_at(devices_value_at(w@, d), nt) == string_value_at(
                            devices_value_at(w0, d),
                            nt,
                        ));
                    } else {
                        assert(devices_has_key(w0, dt));
                        assert(devices_value_at(w@, dt) == devices_value_at(w0, dt));
                    }
                }
            }
            assert forall|k: Seq<char>| #[trigger] devices_has_key(w@, k) implies exists|t: int|
                0 <= t < i + 1 && binding_device(#[trigger] bv[t]) == k by {
                if k == d {
                    assert(0 <= i < i + 1 && binding_device(bv[i as int]) == k);
                } else {
                    assert(devices_has_key(w0, k));
                    let t0 = choose|t: int|
                        0 <= t < i && binding_device(#[trigger] bv[t]) == k;
                    assert(0 <= t0 < i + 1 && binding_device(bv[t0]) == k);
                }
            }
            assert forall|k: Seq<char>, n: Seq<char>|
                devices_has_key(w@, k) && #[trigger] string_has_key(
                    devices_value_at(w@, k),
                    n,
                ) implies exists|t: int|
                0 <= t < i + 1 && binding_device(#[trigger] bv[t]) == k
                    && binding_header_name(bv[t]) == n by {
                if k == d {
                    if n == binding_header_name(bv[i as int]) {
                        assert(0 <= i < i + 1 && binding_device(bv[i as int]) == k
                            && binding_header_name(bv[i as int]) == n);
                    } else {
                        let h0 = if devices_has_key(w0, d) {
                            devices_value_at(w0, d)
                        } else {
                            Seq::<(Seq<char>, Seq<char>)>::empty()
                        };
                        assert(string_has_key(h0, n));
                        assert(devices_has_key(w0, d));
                        let t0 = choose|t: int|
                            0 <= t < i && binding_device(#[trigger] bv[t]) == k
                                && binding_header_name(bv[t]) == n;
                        assert(0 <= t0 < i + 1 && binding_device(bv[t0]) == k
                            && binding_header_name(bv[t0]) == n);
                    }
                } else {
                    assert(devices_has_key(w0, k));
                    assert(devices_value_at(w@, k) == devices_value_at(w0, k));
                    let t0 = choose|t: int|
                        0 <= t < i && binding_device(#[trigger] bv[t]) == k
                            && binding_header_name(bv[t]) == n;
                    assert(0 <= t0 < i + 1 && binding_device(bv[t0]) == k
                        && binding_header_name(bv[t0]) == n);
                }
            }
            assert forall|t: int| 0 <= t < i + 1 implies devices_has_key(
                w@,
                binding_device(#[trigger] bv[t]),
            ) && string_has_key(
                devices_value_at(w@, binding_device(bv[t])),
                binding_header_name(bv[t]),
            ) by {
                let dt = binding_device(bv[t]);
                let nt = binding_header_name(bv[t]);
                if t == i {
                } else {
                    assert(devices_has_key(w0, dt) && string_has_key(
                        devices_value_at(w0, dt),
                        nt,
                    ));
                    if dt == d {
                        if nt == n {
                        } else {
                            assert(string_has_key(devices_value_at(w@, d), nt)
                                <==> string_has_key(devices_value_at(w0, d), nt));
                        }
                    } else {
                        assert(devices_value_at(w@, dt) == devices_value_at(w0, dt));
                    }
                }
            }
        }
        i = i + 1;
    }
    Ok(w)
}

/// A value fetched by key out of a row with unique keys is the value the
/// row binds that key to.
proof fn lemma_binding_values(
    b: Seq<(Seq<char>, Seq<char>)>,
    device: Seq<char>,
    name: Seq<char>,
    value: Seq<char>,
)
    requires
        string_keys_unique(b),
        exists|i: int| 0 <= i < b.len() && #[trigger] b[i] == ("device"@, device),
        exists|i: int| 0 <= i < b.len() && #[trigger] b[i] == ("headerName"@, name),
        exists|i: int| 0 <= i < b.len() && #[trigger] b[i] == ("headerValue"@, value),
    ensures
        binding_complete(b),
        binding_device(b) == device,
        binding_header_name(b) == name,
        binding_header_value(b) == value,
{
    let i = choose|i: int| 0 <= i < b.len() && #[trigger] b[i] == ("device"@, device);
    assert(b[i].0 == "device"@ && b[i].1 == device);
    lemma_string_key_at(b, i, "device"@);
    let j = choose|i: int| 0 <= i < b.len() && #[trigger] b[i] == ("headerName"@, name);
    assert(b[j].0 == "headerName"@ && b[j].1 == name);
    lemma_string_key_at(b, j, "headerName"@);
    let k = choose|i: int| 0 <= i < b.len() && #[trigger] b[i] == ("headerValue"@, value);
    assert(b[k].0 == "headerValue"@ && b[k].1 == value);
    lemma_string_key_at(b, k, "headerValue"@);
}

} // verus!
