//! Parser and builder scenarios of the MOO wire format.

use bytes::Bytes;
use moo_transport::protocol::{MooMessageBuilder, MooParser};
use moo_transport::{MooError, MooVerb};

fn json_object(pairs: &[(&str, serde_json::Value)]) -> serde_json::Value {
    let mut map = serde_json::Map::new();
    for (k, v) in pairs {
        map.insert(k.to_string(), v.clone());
    }
    serde_json::Value::Object(map)
}

fn json_str(s: &str) -> serde_json::Value {
    serde_json::Value::String(s.to_string())
}

#[test]
fn test_parse_simple_request() {
    let mut parser = MooParser::new();
    let data = b"MOO/1 REQUEST com.example/test\nRequest-Id: 123\n\n";

    let result = parser.parse(data).unwrap();
    assert!(result.is_some());

    let msg = result.unwrap();
    assert_eq!(msg.verb, MooVerb::Request);
    assert_eq!(msg.name, "com.example/test");
    assert_eq!(msg.request_id, "123");
    assert!(msg.body.is_none());
}

#[test]
fn test_parse_with_json_body() {
    let mut parser = MooParser::new();
    let data = b"MOO/1 COMPLETE Success\nRequest-Id: 456\nContent-Type: application/json\nContent-Length: 13\n\n{\"foo\":\"bar\"}";

    let result = parser.parse(data).unwrap();
    assert!(result.is_some());

    let msg = result.unwrap();
    assert_eq!(msg.verb, MooVerb::Complete);
    assert_eq!(msg.name, "Success");
    assert!(msg.body.is_some());
}

#[test]
fn test_build_simple_request() {
    let builder = MooMessageBuilder::request("123".to_string(), "com.example/test".to_string());
    let bytes = builder.build().unwrap();
    let output = String::from_utf8(bytes).unwrap();

    assert!(output.starts_with("MOO/1 REQUEST com.example/test\n"));
    assert!(output.contains("Request-Id: 123\n"));
}

#[test]
fn test_build_with_json_body() {
    let builder = MooMessageBuilder::complete("456".to_string(), "Success".to_string())
        .body_json(json_object(&[("foo", json_str("bar"))]));

    let bytes = builder.build().unwrap();
    let output = String::from_utf8(bytes).unwrap();

    assert!(output.contains("Content-Type: application/json\n"));
    assert!(output.contains("Content-Length:"));
}

#[test]
fn test_parser_with_valid_messages() {
    let mut parser = MooParser::new();

    // Simple REQUEST without body
    let data = b"MOO/1 REQUEST com.example/test\nRequest-Id: 123\n\n";
    let msg = parser.parse(data).unwrap().unwrap();
    assert_eq!(msg.verb, MooVerb::Request);
    assert_eq!(msg.name, "com.example/test");
    assert_eq!(msg.request_id, "123");
    assert!(msg.body.is_none());

    // CONTINUE with JSON body
    let mut parser = MooParser::new();
    let data = b"MOO/1 CONTINUE Progress\nRequest-Id: 456\nContent-Type: application/json\nContent-Length: 13\n\n{\"foo\":\"bar\"}";
    let msg = parser.parse(data).unwrap().unwrap();
    assert_eq!(msg.verb, MooVerb::Continue);
    assert_eq!(msg.name, "Progress");
    assert!(msg.body.is_some());

    // COMPLETE with binary body
    let mut parser = MooParser::new();
    let binary_data = b"binary content";
    let mut data = Vec::new();
    data.extend_from_slice(b"MOO/1 COMPLETE Success\nRequest-Id: 789\nContent-Type: application/octet-stream\nContent-Length: 14\n\n");
    data.extend_from_slice(binary_data);
    let msg = parser.parse(&data).unwrap().unwrap();
    assert_eq!(msg.verb, MooVerb::Complete);
    assert!(msg.body.is_some());
}

#[test]
fn test_parser_with_invalid_messages() {
    // Missing Request-Id
    let mut parser = MooParser::new();
    let data = b"MOO/1 REQUEST com.example/test\n\n";
    let result = parser.parse(data);
    assert!(result.is_err());

    // Invalid protocol version
    let mut parser = MooParser::new();
    let data = b"MOO/2 REQUEST com.example/test\nRequest-Id: 123\n\n";
    let result = parser.parse(data);
    assert!(matches!(result, Err(MooError::VersionMismatch(_))));

    // Invalid verb
    let mut parser = MooParser::new();
    let data = b"MOO/1 INVALID com.example/test\nRequest-Id: 123\n\n";
    let result = parser.parse(data);
    assert!(matches!(result, Err(MooError::InvalidVerb(_))));

    // Content-Type without Content-Length
    let mut parser = MooParser::new();
    let data = b"MOO/1 REQUEST com.example/test\nRequest-Id: 123\nContent-Type: application/json\n\n";
    let result = parser.parse(data);
    assert!(result.is_err());
}

#[test]
fn test_message_builder() {
    // Build REQUEST with JSON body
    let builder = MooMessageBuilder::request("123".to_string(), "com.example/test".to_string())
        .body_json(json_object(&[("key", json_str("value"))]));
    let bytes = builder.build().unwrap();
    let output = String::from_utf8_lossy(&bytes);

    assert!(output.contains("MOO/1 REQUEST com.example/test"));
    assert!(output.contains("Request-Id: 123"));
    assert!(output.contains("Content-Type: application/json"));
    assert!(output.contains("Content-Length:"));

    // Build COMPLETE with binary body
    let binary_data = Bytes::from_static(b"test data");
    let builder = MooMessageBuilder::complete("456".to_string(), "Success".to_string())
        .body_binary(binary_data);
    let bytes = builder.build().unwrap();
    let output = String::from_utf8_lossy(&bytes[..50]); // Check headers only

    assert!(output.contains("MOO/1 COMPLETE Success"));
    assert!(output.contains("Request-Id: 456"));
}

#[test]
fn test_parser_partial_messages() {
    let mut parser = MooParser::new();

    // Send first part
    let result = parser.parse(b"MOO/1 REQUEST com.example/test\n").unwrap();
    assert!(result.is_none()); // Incomplete

    // Send second part
    let result = parser.parse(b"Request-Id: 123\n\n").unwrap();
    assert!(result.is_some()); // Now complete

    let msg = result.unwrap();
    assert_eq!(msg.verb, MooVerb::Request);
    assert_eq!(msg.request_id, "123");
}
