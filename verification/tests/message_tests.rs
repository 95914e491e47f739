//! Messages, verbs, bodies, headers and error constructors on concrete values.

use bytes::Bytes;
use moo_transport::message::MooBody;
use moo_transport::{MooError, MooHeaders, MooMessage, MooVerb};
use std::str::FromStr;

fn object(pairs: &[(&str, serde_json::Value)]) -> serde_json::Value {
    let mut map = serde_json::Map::new();
    for (k, v) in pairs {
        map.insert(k.to_string(), v.clone());
    }
    serde_json::Value::Object(map)
}

#[test]
fn verb_text_and_back() {
    for (verb, t) in [
        (MooVerb::Request, "REQUEST"),
        (MooVerb::Continue, "CONTINUE"),
        (MooVerb::Complete, "COMPLETE"),
    ] {
        assert_eq!(verb.as_str(), t);
        assert_eq!(MooVerb::from_str(t).unwrap(), verb);
        assert_eq!(t.parse::<MooVerb>().unwrap(), verb);
    }
}

#[test]
fn verb_from_unknown_text() {
    match MooVerb::from_str("request") {
        Err(MooError::InvalidVerb(t)) => assert_eq!(t, "request"),
        other => panic!("unexpected {:?}", other),
    }
    assert!(matches!("".parse::<MooVerb>(), Err(MooError::InvalidVerb(_))));
}

#[test]
fn message_constructors() {
    let r = MooMessage::request("1".to_string(), "a/b".to_string());
    assert_eq!(r.verb, MooVerb::Request);
    assert_eq!(r.request_id, "1");
    assert_eq!(r.name, "a/b");
    assert_eq!(r.headers.len(), 0);
    assert!(r.body.is_none());
    assert_eq!(MooMessage::continue_msg("2".to_string(), "x".to_string()).verb, MooVerb::Continue);
    assert_eq!(MooMessage::complete("3".to_string(), "y".to_string()).verb, MooVerb::Complete);
    let n = MooMessage::new(MooVerb::Complete, "4".to_string(), "z".to_string());
    assert_eq!(n.verb, MooVerb::Complete);
    assert_eq!(n.request_id, "4");
}

#[test]
fn service_and_method_split_at_first_slash() {
    let m = MooMessage::request("1".to_string(), "com.roon.app/ping".to_string());
    assert_eq!(m.service_method(), Some(("com.roon.app", "ping")));
    assert_eq!(m.service(), Some("com.roon.app"));
    assert_eq!(m.method(), Some("ping"));

    let m = MooMessage::request("1".to_string(), "a/b/c".to_string());
    assert_eq!(m.service_method(), Some(("a", "b/c")));

    let m = MooMessage::request("1".to_string(), "/x".to_string());
    assert_eq!(m.service_method(), Some(("", "x")));

    let m = MooMessage::request("1".to_string(), "Success".to_string());
    assert_eq!(m.service_method(), None);
    assert_eq!(m.service(), None);
    assert_eq!(m.method(), None);
}

#[test]
fn headers_get_after_insert() {
    let mut h = MooHeaders::new();
    assert_eq!(h.get("A"), None);
    h.insert("A".to_string(), "1".to_string());
    h.insert("B".to_string(), "2".to_string());
    assert_eq!(h.get("A"), Some("1"));
    assert_eq!(h.get("B"), Some("2"));
    h.insert("A".to_string(), "3".to_string());
    assert_eq!(h.get("A"), Some("3"));
    assert_eq!(h.len(), 2);
    assert_eq!(h.entry(0), ("A", "3"));
    assert_eq!(h.entry(1), ("B", "2"));
    assert_eq!(h.get("a"), None);
}

#[test]
fn message_header_builder() {
    let m = MooMessage::complete("1".to_string(), "Done".to_string())
        .with_header("K".to_string(), "v".to_string())
        .with_header("K".to_string(), "w".to_string());
    assert_eq!(m.header("K"), Some("w"));
    assert_eq!(m.header("Missing"), None);
}

#[test]
fn json_body_accessors() {
    let v = object(&[("a", serde_json::Value::from(1))]);
    let m = MooMessage::complete("1".to_string(), "Done".to_string()).with_json_body(v.clone());
    assert_eq!(m.body_json().unwrap().unwrap(), &v);
    match m.body_binary() {
        Some(Err(MooError::WrongBodyType(t))) => assert_eq!(t, "expected binary, got JSON"),
        other => panic!("unexpected {:?}", other),
    }
    let body = m.body.as_ref().unwrap();
    assert_eq!(body.content_type(), "application/json");
    assert_eq!(body.len(), 7);
    assert!(!body.is_empty());
    assert_eq!(body.to_bytes().unwrap(), b"{\"a\":1}".to_vec());
}

#[test]
fn binary_body_accessors() {
    let data = Bytes::from_static(b"xyz");
    let m = MooMessage::request("1".to_string(), "r".to_string()).with_binary_body(data.clone());
    assert_eq!(m.body_binary().unwrap().unwrap(), &data);
    match m.body_json() {
        Some(Err(MooError::WrongBodyType(t))) => assert_eq!(t, "expected JSON, got binary"),
        other => panic!("unexpected {:?}", other),
    }
    let body = m.body.as_ref().unwrap();
    assert_eq!(body.content_type(), "application/octet-stream");
    assert_eq!(body.len(), 3);
    assert_eq!(body.to_bytes().unwrap(), b"xyz".to_vec());
    match body.as_json() {
        Err(MooError::WrongBodyType(t)) => assert_eq!(t, "expected JSON, got binary"),
        other => panic!("unexpected {:?}", other),
    }
    assert!(MooBody::Binary(Bytes::new()).is_empty());
    assert!(MooBody::Json(serde_json::Value::Null).as_binary().is_err());
}

#[test]
fn no_body_accessors() {
    let m = MooMessage::request("1".to_string(), "r".to_string());
    assert!(m.body_json().is_none());
    assert!(m.body_binary().is_none());
}

#[test]
fn error_constructors_carry_their_text() {
    assert!(matches!(MooError::protocol_violation("p"), MooError::ProtocolViolation(t) if t == "p"));
    assert!(matches!(MooError::invalid_header("h"), MooError::InvalidHeader(t) if t == "h"));
    assert!(matches!(MooError::missing_header("m"), MooError::MissingHeader(t) if t == "m"));
    assert!(matches!(MooError::wrong_body_type("w"), MooError::WrongBodyType(t) if t == "w"));
    assert!(matches!(MooError::handler_error("e"), MooError::HandlerError(t) if t == "e"));
    assert!(matches!(MooError::invalid_message("i"), MooError::InvalidMessage(t) if t == "i"));
}
