use signet::certgate::{AnchorError, SignatureAlg, TrustAnchor, Verifier, VerifyError};
use signet::conn::parse_conn;
use signet::frame::{decode, encode, DecodeError, Frame};
use signet::registry::{Registry, RegistryError};
use signet::agent::{after_close, next_backoff, AfterClose, CLOSE_NORMAL, CLOSE_RESTART};
use signet::router::{route, ClosedSet, RouteError};
use signet::session::{Inbound, Session, SessionError};

const CA_PEM: &str = "\
-----BEGIN CERTIFICATE-----\n\
MIIBSjCB8aADAgECAhR0sj9KILlEV0YTddEhPkVsTnXlrDAKBggqhkjOPQQDAjAS\n\
MRAwDgYDVQQDDAdUZXN0IENBMCAXDTI0MDEwMTAwMDAwMFoYDzIwOTkwMTAxMDAw\n\
MDAwWjASMRAwDgYDVQQDDAdUZXN0IENBMFkwEwYHKoZIzj0CAQYIKoZIzj0DAQcD\n\
QgAE/cW/CQO1uCeBd7lfEwxMiCmKqSnKqY2aU8dNYP1pSJSA5zgKq//KQqCvBP6u\n\
RrfMpTzG97oRcwT+eiT8uoh/NqMjMCEwDwYDVR0TAQH/BAUwAwEB/zAOBgNVHQ8B\n\
Af8EBAMCAYYwCgYIKoZIzj0EAwIDSAAwRQIgXEVowP2Tq9QcbKDXmnWyblhBvhTf\n\
ZhFxq97N/OSlo/MCIQDHCprizASIQjgknUXU5MFPxU4zpv54H2X7XsMK3jW6mQ==\n\
-----END CERTIFICATE-----\n\
";

const GOOD_PEM: &str = "\
-----BEGIN CERTIFICATE-----\n\
MIIBZjCCAQugAwIBAgIUW0tKIyWoGITCvEBRaRlO+Bil4uQwCgYIKoZIzj0EAwIw\n\
EjEQMA4GA1UEAwwHVGVzdCBDQTAgFw0yNDAxMDEwMDAwMDBaGA8yMDk5MDEwMTAw\n\
MDAwMFowEDEOMAwGA1UEAwwFYWdlbnQwWTATBgcqhkjOPQIBBggqhkjOPQMBBwNC\n\
AASfkYu1gGRraynzcOY8nsluXLsGIO5b6MmHvlKYo4bIZ/HQWYTP5xy0XLjnbF5/\n\
gpLQoiAUYe6kvtAh5kAwVZ+Xoz8wPTAMBgNVHRMBAf8EAjAAMBMGA1UdJQQMMAoG\n\
CCsGAQUFBwMCMBgGA1UdEQQRMA+CDWFnZW50LmV4YW1wbGUwCgYIKoZIzj0EAwID\n\
SQAwRgIhAOBVE1Eg9FbEZlc9hHV008wUfvWS1ZC97uZ3cVUU51dwAiEAoMg5fCCa\n\
4IsZ3Y+4Wl+zDq+arG+HEVLgcQD9cdI4Ugc=\n\
-----END CERTIFICATE-----\n\
";

const EXPIRED_PEM: &str = "\
-----BEGIN CERTIFICATE-----\n\
MIIBaDCCAQ2gAwIBAgIUTx2XR2nxVXBbA1FBdDIIxhgKS9swCgYIKoZIzj0EAwIw\n\
EjEQMA4GA1UEAwwHVGVzdCBDQTAeFw0yMDAxMDEwMDAwMDBaFw0yMTAxMDEwMDAw\n\
MDBaMBQxEjAQBgNVBAMMCW9sZCBhZ2VudDBZMBMGByqGSM49AgEGCCqGSM49AwEH\n\
A0IABGdQOhethZX0jHBTSP2i7SOAxFVNK539iCe6ZZ6Lb4v5O1ktHYzO1uu8BKSa\n\
+47vuAp5neGZE3RlHLw1DbkN1AOjPzA9MAwGA1UdEwEB/wQCMAAwEwYDVR0lBAww\n\
CgYIKwYBBQUHAwIwGAYDVR0RBBEwD4INYWdlbnQuZXhhbXBsZTAKBggqhkjOPQQD\n\
AgNJADBGAiEA/YBEEEg89+xXGj7fnxyVj+X9bawWyRavSF+YorTG3XcCIQDExPkj\n\
7Uvj+xsYIL/jbS8ZbBWtOWAedbYA+CBkX7p/tA==\n\
-----END CERTIFICATE-----\n\
";

const FOREIGN_PEM: &str = "\
-----BEGIN CERTIFICATE-----\n\
MIIBaTCCAQ+gAwIBAgIUW0/rqmB2VB1LpIECDtndLi+GygwwCgYIKoZIzj0EAwIw\n\
EzERMA8GA1UEAwwIT3RoZXIgQ0EwIBcNMjQwMTAxMDAwMDAwWhgPMjA5OTAxMDEw\n\
MDAwMDBaMBMxETAPBgNVBAMMCHN0cmFuZ2VyMFkwEwYHKoZIzj0CAQYIKoZIzj0D\n\
AQcDQgAE+C5BFWWnjC0OUXEBi1XUm+0h55u0hjh++dXcvFl5lTYD1bOH1w4Yyl4U\n\
hC1VMkZGtCvXFpvZbU0psucsyMeezqM/MD0wDAYDVR0TAQH/BAIwADATBgNVHSUE\n\
DDAKBggrBgEFBQcDAjAYBgNVHREEETAPgg1hZ2VudC5leGFtcGxlMAoGCCqGSM49\n\
BAMCA0gAMEUCIQC4y98F9wxj9N6G3/Tjc/fauf7e8hq2gUnrskl8/VMK3wIgdxFU\n\
ASzhlBsMnzekA/QIAsvwitkpvOoff80BkjlFyaM=\n\
-----END CERTIFICATE-----\n\
";

/// 2026-01-01T00:00:00Z, inside the validity of the good certificate.
const NOW: u64 = 1767225600;

fn s(x: &str) -> String {
    x.to_string()
}

fn open(conn_id: &str, target: &str, port: u16) -> Frame {
    Frame::Open { conn_id: s(conn_id), target: s(target), port }
}

fn gate() -> Verifier {
    Verifier::new(TrustAnchor::from_pem(CA_PEM.as_bytes()).unwrap())
}

#[test]
fn encodes_each_variant_exactly() {
    assert_eq!(encode(&Frame::Register { id: s("abc") }), r#"{"type":"Register","id":"abc"}"#);
    assert_eq!(encode(&open("A:B:n", "B", 22)), r#"{"type":"Open","conn_id":"A:B:n","target":"B","port":22}"#);
    assert_eq!(
        encode(&Frame::Data { conn_id: s("A:B:n"), data: s("hi") }),
        r#"{"type":"Data","conn_id":"A:B:n","data":"hi"}"#
    );
    assert_eq!(encode(&Frame::Close { conn_id: s("A:B:n") }), r#"{"type":"Close","conn_id":"A:B:n"}"#);
}

#[test]
fn encodes_escapes_and_ports() {
    assert_eq!(
        encode(&Frame::Data { conn_id: s("q\"b\\"), data: s("a\nb\u{1f}") }),
        r#"{"type":"Data","conn_id":"q\"b\\","data":"a\u000ab\u001f"}"#
    );
    assert_eq!(encode(&open("", "", 0)), r#"{"type":"Open","conn_id":"","target":"","port":0}"#);
    assert_eq!(encode(&open("c", "t", 65535)), r#"{"type":"Open","conn_id":"c","target":"t","port":65535}"#);
}

#[test]
fn round_trip_every_variant() {
    let frames = vec![
        Frame::Register { id: s("-----BEGIN CERTIFICATE-----\nMIIB\n-----END CERTIFICATE-----\n") },
        Frame::Register { id: s("") },
        open("id1:id2:xyz", "id2", 22),
        open("x", "", 65535),
        open("", "t", 0),
        Frame::Data { conn_id: s("a:b:c"), data: s("bytes \u{0} \u{7} \" \\ \t é ✓ 🚀") },
        Frame::Data { conn_id: s(""), data: s("") },
        Frame::Close { conn_id: s("a:b:c") },
    ];
    for f in frames {
        let text = encode(&f);
        assert_eq!(decode(&text), Ok(f));
    }
}

#[test]
fn decodes_text_from_peer() {
    assert_eq!(
        decode(r#"{"type":"Open","conn_id":"A:B:n","target":"B","port":8080}"#),
        Ok(open("A:B:n", "B", 8080))
    );
    assert_eq!(decode(r#"{"type":"Register","id":"a\u0009b"}"#), Ok(Frame::Register { id: s("a\tb") }));
}

#[test]
fn rejects_malformed_text() {
    let bad = [
        "",
        "{}",
        "not json",
        r#"{"type":"Ping","id":"x"}"#,
        r#"{"type":"Register","id":"x"} "#,
        r#"{"type":"Register","id":"x"#,
        r#"{"type":"Open","conn_id":"c","target":"t","port":65536}"#,
        r#"{"type":"Open","conn_id":"c","target":"t","port":022}"#,
        r#"{"type":"Open","conn_id":"c","target":"t","port":}"#,
        r#"{"type":"Open","conn_id":"c","target":"t","port":-1}"#,
        r#"{"type":"Data","conn_id":"c","data":"bad \q escape"}"#,
        r#"{"type":"Close","conn_id":"raw	tab"}"#,
        r#"{"type":"Close","conn_id":"c","extra":1}"#,
    ];
    for text in bad {
        assert_eq!(decode(text), Err(DecodeError::Malformed), "accepted {:?}", text);
    }
}

#[test]
fn parses_conn_ids() {
    assert_eq!(parse_conn("id1:id2:xyz"), Some((s("id1"), s("id2"), s("xyz"))));
    assert_eq!(parse_conn("::"), Some((s(""), s(""), s(""))));
    assert_eq!(parse_conn("a:b"), None);
    assert_eq!(parse_conn("a:b:c:d"), None);
    assert_eq!(parse_conn(""), None);
    assert_eq!(parse_conn("a::b::c"), None);
}

#[test]
fn registry_insert_lookup_remove() {
    let mut reg: Registry<u32> = Registry::new();
    assert_eq!(reg.insert(s("a"), 1), Ok(()));
    assert_eq!(reg.insert(s("b"), 2), Ok(()));
    assert_eq!(reg.insert(s("a"), 3), Err(RegistryError::IdentityTaken));
    assert_eq!(reg.lookup(&s("a")), Some(&1));
    assert_eq!(reg.lookup(&s("b")), Some(&2));
    assert_eq!(reg.lookup(&s("c")), None);
    reg.remove(&s("a"));
    assert_eq!(reg.lookup(&s("a")), None);
    assert!(!reg.contains(&s("a")));
    reg.remove(&s("a"));
    assert_eq!(reg.lookup(&s("b")), Some(&2));
}

#[test]
fn routes_open_data_close_between_agents() {
    let mut reg: Registry<&str> = Registry::new();
    let mut closed = ClosedSet::new();
    reg.insert(s("A"), "sink A").unwrap();
    reg.insert(s("B"), "sink B").unwrap();
    let a = s("A");
    let b = s("B");
    assert_eq!(route(&reg, &mut closed, &a, open("A:B:n", "B", 7)), Ok((&"sink B", open("A:B:n", "", 7))));
    let d = Frame::Data { conn_id: s("A:B:n"), data: s("ping") };
    assert_eq!(route(&reg, &mut closed, &a, d.clone()), Ok((&"sink B", d)));
    let back = Frame::Data { conn_id: s("A:B:n"), data: s("pong") };
    assert_eq!(route(&reg, &mut closed, &b, back.clone()), Ok((&"sink A", back)));
    let c = Frame::Close { conn_id: s("A:B:n") };
    assert_eq!(route(&reg, &mut closed, &b, c.clone()), Ok((&"sink A", c.clone())));
    assert!(closed.contains(&s("A:B:n")));
    let late = Frame::Data { conn_id: s("A:B:n"), data: s("late") };
    assert_eq!(route(&reg, &mut closed, &a, late.clone()), Err(RouteError::ConnectionClosed));
    assert_eq!(route(&reg, &mut closed, &b, late), Err(RouteError::ConnectionClosed));
    assert_eq!(route(&reg, &mut closed, &a, c), Err(RouteError::ConnectionClosed));
    // another connection between the same agents is unaffected
    let other = Frame::Data { conn_id: s("A:B:m"), data: s("x") };
    assert_eq!(route(&reg, &mut closed, &a, other.clone()), Ok((&"sink B", other)));
}

#[test]
fn routing_miss_and_malformed_conn_id() {
    let mut reg: Registry<u8> = Registry::new();
    let mut closed = ClosedSet::new();
    reg.insert(s("A"), 1).unwrap();
    reg.insert(s("C"), 3).unwrap();
    let a = s("A");
    assert_eq!(route(&reg, &mut closed, &a, open("A:Z:n", "Z", 1)), Err(RouteError::RoutingMiss));
    assert_eq!(
        route(&reg, &mut closed, &a, Frame::Data { conn_id: s("A:Z:n"), data: s("x") }),
        Err(RouteError::RoutingMiss)
    );
    assert_eq!(route(&reg, &mut closed, &a, Frame::Close { conn_id: s("A:Z:n") }), Err(RouteError::RoutingMiss));
    assert!(!closed.contains(&s("A:Z:n")));
    assert_eq!(route(&reg, &mut closed, &a, Frame::Close { conn_id: s("A-Z") }), Err(RouteError::MalformedConnId));
    assert_eq!(
        route(&reg, &mut closed, &a, Frame::Data { conn_id: s("A:A:n:x"), data: s("") }),
        Err(RouteError::MalformedConnId)
    );
    assert_eq!(route(&reg, &mut closed, &a, Frame::Register { id: s("A") }), Err(RouteError::NotRoutable));
}

#[test]
fn outsider_cannot_use_a_connection() {
    let mut reg: Registry<u8> = Registry::new();
    let mut closed = ClosedSet::new();
    reg.insert(s("A"), 1).unwrap();
    reg.insert(s("B"), 2).unwrap();
    reg.insert(s("C"), 3).unwrap();
    let c = s("C");
    assert_eq!(
        route(&reg, &mut closed, &c, Frame::Data { conn_id: s("A:B:n"), data: s("x") }),
        Err(RouteError::NotParticipant)
    );
    assert_eq!(route(&reg, &mut closed, &c, Frame::Close { conn_id: s("A:B:n") }), Err(RouteError::NotParticipant));
    assert!(!closed.contains(&s("A:B:n")));
}

#[test]
fn closed_session_is_a_routing_miss() {
    let mut reg: Registry<u8> = Registry::new();
    let mut closed = ClosedSet::new();
    reg.insert(s("A"), 1).unwrap();
    reg.insert(s("B"), 2).unwrap();
    reg.remove(&s("B"));
    let a = s("A");
    assert_eq!(
        route(&reg, &mut closed, &a, Frame::Data { conn_id: s("A:B:n"), data: s("late") }),
        Err(RouteError::RoutingMiss)
    );
    assert_eq!(route(&reg, &mut closed, &a, open("A:B:n", "B", 1)), Err(RouteError::RoutingMiss));
}

#[test]
fn scenario_open_before_and_after_target_registers() {
    let mut reg: Registry<&str> = Registry::new();
    let mut closed = ClosedSet::new();
    reg.insert(s("id1"), "agent A").unwrap();
    let a = s("id1");
    let f = open("id1:id2:xyz", "id2", 22);
    assert_eq!(route(&reg, &mut closed, &a, f.clone()), Err(RouteError::RoutingMiss));
    reg.insert(s("id2"), "agent B").unwrap();
    assert_eq!(route(&reg, &mut closed, &a, f), Ok((&"agent B", open("id1:id2:xyz", "", 22))));
}

#[test]
fn register_as_fresh_and_taken_identity() {
    let mut reg: Registry<u8> = Registry::new();
    let mut a = Session::new();
    assert_eq!(a.register_as(&mut reg, s("id1"), 1), Ok(Frame::Register { id: s("id1") }));
    assert_eq!(a.identity(), Some(&s("id1")));
    assert_eq!(reg.lookup(&s("id1")), Some(&1));
    let mut b = Session::new();
    assert_eq!(b.register_as(&mut reg, s("id1"), 2), Err(SessionError::IdentityCollision));
    assert!(b.identity().is_none());
    assert!(!b.is_unauthenticated());
    assert_eq!(reg.lookup(&s("id1")), Some(&1));
}

#[test]
fn agent_close_decisions() {
    assert_eq!(after_close(Some(CLOSE_NORMAL)), AfterClose::Exit);
    assert_eq!(after_close(Some(CLOSE_RESTART)), AfterClose::Reconnect);
    assert_eq!(after_close(Some(1011)), AfterClose::Reconnect);
    assert_eq!(after_close(None), AfterClose::Reconnect);
    assert_eq!(next_backoff(0), 1);
    assert_eq!(next_backoff(1), 2);
    assert_eq!(next_backoff(16), 32);
    assert_eq!(next_backoff(30), 60);
    assert_eq!(next_backoff(60), 60);
}

#[test]
fn session_rejects_frames_before_register() {
    let session = Session::new();
    assert!(matches!(session.receive(open("a:b:c", "b", 1)), Inbound::Rejected));
    assert!(matches!(session.receive(Frame::Data { conn_id: s("a:b:c"), data: s("") }), Inbound::Rejected));
    assert!(matches!(session.receive(Frame::Close { conn_id: s("a:b:c") }), Inbound::Rejected));
    match session.receive(Frame::Register { id: s("pem") }) {
        Inbound::Authenticate(p) => assert_eq!(p, "pem"),
        _ => panic!("Register not passed to authentication"),
    }
}

#[test]
fn session_registers_with_valid_certificate() {
    let mut reg: Registry<u8> = Registry::new();
    let g = gate();
    let mut a = Session::new();
    let ack = a.authenticate(&mut reg, &g, GOOD_PEM.as_bytes(), NOW, 1).unwrap();
    let id = a.identity().unwrap().clone();
    assert_eq!(ack, Frame::Register { id: id.clone() });
    assert_eq!(id.len(), 36);
    assert!(!id.contains(':'));
    assert_eq!(reg.lookup(&id), Some(&1));
    assert!(matches!(a.receive(open("x:y:z", "y", 1)), Inbound::Route(_)));
    assert!(matches!(a.receive(Frame::Register { id: s("again") }), Inbound::Ignored));

    let mut b = Session::new();
    b.authenticate(&mut reg, &g, GOOD_PEM.as_bytes(), NOW, 2).unwrap();
    let id_b = b.identity().unwrap().clone();
    assert_ne!(id, id_b);

    a.close(&mut reg);
    assert_eq!(reg.lookup(&id), None);
    assert_eq!(reg.lookup(&id_b), Some(&2));
    assert!(a.identity().is_none());
    assert!(matches!(a.receive(open("x:y:z", "y", 1)), Inbound::Ignored));
}

#[test]
fn session_closes_on_bad_certificate() {
    let mut reg: Registry<u8> = Registry::new();
    let g = gate();
    let mut a = Session::new();
    assert_eq!(
        a.authenticate(&mut reg, &g, b"not a certificate", NOW, 1),
        Err(SessionError::Auth(VerifyError::MalformedCertificate))
    );
    assert!(!a.is_unauthenticated());
    assert!(a.identity().is_none());
    let mut b = Session::new();
    assert_eq!(
        b.authenticate(&mut reg, &g, FOREIGN_PEM.as_bytes(), NOW, 2),
        Err(SessionError::Auth(VerifyError::UntrustedCertificate))
    );
}

#[test]
fn cert_gate_accepts_and_rejects() {
    let g = gate();
    assert!(g.verify(GOOD_PEM.as_bytes(), NOW).is_ok());
    assert_eq!(g.verify(EXPIRED_PEM.as_bytes(), NOW), Err(VerifyError::UntrustedCertificate));
    assert_eq!(g.verify(FOREIGN_PEM.as_bytes(), NOW), Err(VerifyError::UntrustedCertificate));
    assert_eq!(g.verify(b"-----BEGIN CERTIFICATE-----\nAAAA\n-----END CERTIFICATE-----\n", NOW), Err(VerifyError::MalformedCertificate));
    assert_eq!(g.verify(b"garbage", NOW), Err(VerifyError::MalformedCertificate));
    // before the certificate's validity begins
    assert_eq!(g.verify(GOOD_PEM.as_bytes(), 1600000000), Err(VerifyError::UntrustedCertificate));
}

#[test]
fn cert_gate_honours_algorithm_list() {
    let anchor = TrustAnchor::from_pem(CA_PEM.as_bytes()).unwrap();
    let g = Verifier::with_algorithms(anchor, vec![SignatureAlg::Ed25519]);
    assert_eq!(g.verify(GOOD_PEM.as_bytes(), NOW), Err(VerifyError::UntrustedCertificate));
}

#[test]
fn trust_anchor_errors() {
    assert!(matches!(TrustAnchor::from_pem(b"nothing here"), Err(AnchorError::NotPem)));
    assert!(matches!(
        TrustAnchor::from_pem(b"-----BEGIN CERTIFICATE-----\nAAAA\n-----END CERTIFICATE-----\n"),
        Err(AnchorError::NotCertificate)
    ));
}

#[test]
fn decodes_other_json_escapes() {
    assert_eq!(
        decode(r#"{"type":"Register","id":"-----BEGIN CERTIFICATE-----\nMIIB\n-----END CERTIFICATE-----\n"}"#),
        Ok(Frame::Register { id: s("-----BEGIN CERTIFICATE-----\nMIIB\n-----END CERTIFICATE-----\n") })
    );
    assert_eq!(
        decode(r#"{"type":"Data","conn_id":"a:b:c","data":"\r\t\b\f\/\u001FAé\"\\"}"#),
        Ok(Frame::Data { conn_id: s("a:b:c"), data: s("\r\t\u{8}\u{c}/\u{1f}Aé\"\\") })
    );
    assert_eq!(decode(r#"{"type":"Close","conn_id":"\u0100"}"#), Err(DecodeError::Malformed));
    assert_eq!(decode(r#"{"type":"Close","conn_id":"\u00G0"}"#), Err(DecodeError::Malformed));
    // an escape cannot stand for the quotes and braces of the record itself
    assert_eq!(decode(r#"{"type":"Close","conn_id":"x\u0022}"#), Err(DecodeError::Malformed));
}
