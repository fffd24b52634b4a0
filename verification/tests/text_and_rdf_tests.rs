use rand::{Rng, SeedableRng};

use omnia_lighting_app_backend::rdf::{
    build_devices_query, build_query, devices_environment_query, parse_rdf_json_response,
    RdfBinding,
};
use omnia_lighting_app_backend::schedule::{build_command_body, build_request_headers};
use omnia_lighting_app_backend::utils::{get_hue_from_color, str_eq, u64_to_string};
use omnia_lighting_app_backend::uuid::{generate_uuid, uuid_urn_of};
use omnia_lighting_app_backend::wot::DeviceHeaders;

#[test]
fn hue_values_match_the_color_table() {
    assert_eq!(get_hue_from_color("red"), 254);
    assert_eq!(get_hue_from_color("green"), 85);
    assert_eq!(get_hue_from_color("blue"), 170);
    assert_eq!(get_hue_from_color("magenta"), 0);
    assert_eq!(get_hue_from_color(""), 0);
}

#[test]
fn decimal_rendering_is_exact() {
    assert_eq!(u64_to_string(0).as_str(), "0");
    assert_eq!(u64_to_string(7).as_str(), "7");
    assert_eq!(u64_to_string(10).as_str(), "10");
    assert_eq!(u64_to_string(500).as_str(), "500");
    assert_eq!(u64_to_string(15_000_000_000).as_str(), "15000000000");
    assert_eq!(u64_to_string(u64::MAX).as_str(), "18446744073709551615");
}

#[test]
fn string_equality_helper_agrees_with_std() {
    assert!(str_eq("abc", "abc"));
    assert!(!str_eq("abc", "abd"));
    assert!(!str_eq("abc", "ab"));
    assert!(str_eq("", ""));
    assert!(str_eq("caf\u{00e9}", "caf\u{00e9}"));
}

#[test]
fn generated_uuid_matches_the_seeded_stream() {
    // the generator must draw its bytes from the seeded ChaCha20 stream:
    // compute the expected value independently
    let seed = [7u8; 32];
    let mut rng = rand_chacha::ChaCha20Rng::from_seed(seed);
    let mut bytes: [u8; 16] = rng.gen();
    bytes[6] = (bytes[6] & 0x0f) | 0x40;
    bytes[8] = (bytes[8] & 0x3f) | 0x80;
    let expected = format!(
        "{:02x}{:02x}{:02x}{:02x}-{:02x}{:02x}-{:02x}{:02x}-{:02x}{:02x}-{:02x}{:02x}{:02x}{:02x}{:02x}{:02x}",
        bytes[0], bytes[1], bytes[2], bytes[3], bytes[4], bytes[5], bytes[6], bytes[7],
        bytes[8], bytes[9], bytes[10], bytes[11], bytes[12], bytes[13], bytes[14], bytes[15]
    );
    let got = generate_uuid(&seed);
    assert_eq!(got.as_str(), expected.as_str());
    // version and variant are fixed
    assert_eq!(&got[14..15], "4");
    // distinct seeds give distinct identifiers
    let other = generate_uuid(&[8u8; 32]);
    assert_ne!(got, other);
}

#[test]
fn uuid_urn_accepts_all_four_spellings() {
    let expected = "urn:uuid:550e8400-e29b-41d4-a716-446655440000";
    let urn = uuid_urn_of("550E8400-E29B-41D4-A716-446655440000").unwrap();
    assert_eq!(urn.as_str(), expected);
    let urn2 = uuid_urn_of("550e8400e29b41d4a716446655440000").unwrap();
    assert_eq!(urn2.as_str(), expected);
    let urn3 = uuid_urn_of("urn:uuid:550E8400-e29b-41d4-A716-446655440000").unwrap();
    assert_eq!(urn3.as_str(), expected);
    let urn4 = uuid_urn_of("{550e8400-e29b-41d4-a716-446655440000}").unwrap();
    assert_eq!(urn4.as_str(), expected);
    assert!(uuid_urn_of("not-a-uuid").is_err());
    assert!(uuid_urn_of("550e8400-e29b-41d4-a716-44665544000g").is_err());
    assert!(uuid_urn_of("550e8400e29b41d4a71644665544").is_err());
    assert!(uuid_urn_of("urn:uuld:550e8400-e29b-41d4-a716-446655440000").is_err());
    assert!(uuid_urn_of("(550e8400-e29b-41d4-a716-446655440000)").is_err());
}

#[test]
fn queries_carry_the_prefixes_and_the_urn() {
    let q = build_query("SELECT ?x WHERE { }");
    assert!(q.starts_with("\n# Omnia\nPREFIX omnia: <http://rdf.omnia-iot.com#>"));
    assert!(q.ends_with("SELECT ?x WHERE { }"));
    let dq = build_devices_query("urn:uuid:abc");
    assert!(dq.contains("urn:uuid:abc bot:hasElement ?device ."));
    let full = devices_environment_query("550e8400-e29b-41d4-a716-446655440000").unwrap();
    assert!(full.contains("PREFIX saref: <https://saref.etsi.org/core/>"));
    assert!(full.contains("urn:uuid:550e8400-e29b-41d4-a716-446655440000 bot:hasElement"));
    assert!(devices_environment_query("nope").is_err());
}

fn binding(device: &str, name: &str, value: &str) -> RdfBinding {
    let mut b = RdfBinding::new();
    b.bind(String::from("device"), String::from(device));
    b.bind(String::from("headerName"), String::from(name));
    b.bind(String::from("headerValue"), String::from(value));
    b
}

#[test]
fn rdf_bindings_group_into_the_device_directory() {
    let bindings = vec![
        binding("https://a", "Accept", "application/json"),
        binding("https://a", "X-Token", "t1"),
        binding("https://b", "Accept", "text/plain"),
        // a later row for the same device and header wins
        binding("https://a", "X-Token", "t2"),
    ];
    let devices = parse_rdf_json_response(&bindings).unwrap();
    assert_eq!(devices.len(), 2);
    let a = devices.get(&String::from("https://a")).unwrap();
    assert_eq!(a.get(&String::from("Accept")).unwrap().as_str(), "application/json");
    assert_eq!(a.get(&String::from("X-Token")).unwrap().as_str(), "t2");
    let b = devices.get(&String::from("https://b")).unwrap();
    assert_eq!(b.get(&String::from("Accept")).unwrap().as_str(), "text/plain");
    assert_eq!(a.len(), 2);
    assert_eq!(b.len(), 1);
}

#[test]
fn incomplete_rdf_bindings_are_rejected() {
    let mut incomplete = RdfBinding::new();
    incomplete.bind(String::from("device"), String::from("https://a"));
    let bindings = vec![incomplete];
    assert!(parse_rdf_json_response(&bindings).is_err());
    // an empty result set is fine: no devices
    let none: Vec<RdfBinding> = Vec::new();
    assert_eq!(parse_rdf_json_response(&none).unwrap().len(), 0);
}

#[test]
fn device_headers_overwrite_by_name() {
    let mut h = DeviceHeaders::new();
    h.insert(String::from("Accept"), String::from("a"));
    h.insert(String::from("Accept"), String::from("b"));
    h.insert(String::from("Other"), String::from("c"));
    assert_eq!(h.len(), 2);
    assert_eq!(h.get(&String::from("Accept")).unwrap().as_str(), "b");
    assert_eq!(h.get(&String::from("Other")).unwrap().as_str(), "c");
    assert!(h.get(&String::from("Missing")).is_none());
}

#[test]
fn request_headers_end_with_the_bearer_credential() {
    let mut h = DeviceHeaders::new();
    h.insert(String::from("Accept"), String::from("application/json"));
    let headers = build_request_headers(&h, "key-42");
    assert_eq!(headers.len(), 2);
    assert_eq!(headers[0].name.as_str(), "Accept");
    assert_eq!(headers[1].name.as_str(), "Authorization");
    assert_eq!(headers[1].value.as_str(), "Bearer key-42");
}

#[test]
fn rdf_connection_is_stored_and_read_back() {
    let mut state: omnia_lighting_app_backend::state::State = Default::default();
    omnia_lighting_app_backend::rdf::update_rdf_database_connection(
        &mut state,
        String::from("https://rdf.example/query"),
    );
    let conn = omnia_lighting_app_backend::rdf::get_rdf_database_connection(&state);
    assert_eq!(conn.query_url.as_str(), "https://rdf.example/query");
}

#[test]
fn command_body_splices_the_hue() {
    let body = build_command_body("red");
    let text = String::from_utf8(body).unwrap();
    assert!(text.contains("\"0\": 254,"));
    assert!(text.contains("\"id\": 6,"));
    let body_other = build_command_body("unknown");
    let text_other = String::from_utf8(body_other).unwrap();
    assert!(text_other.contains("\"0\": 0,"));
}
