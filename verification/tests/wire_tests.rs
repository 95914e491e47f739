//! The wire format on concrete frames: exact bytes written, every error the
//! parser reports, and what a built frame reads back as.

use bytes::Bytes;
use moo_transport::message::MooBody;
use moo_transport::protocol::{write_frame, MooMessageBuilder, MooParser, MAX_MESSAGE_SIZE};
use moo_transport::{MooError, MooHeaders, MooMessage, MooVerb};

fn object(pairs: &[(&str, serde_json::Value)]) -> serde_json::Value {
    let mut map = serde_json::Map::new();
    for (k, v) in pairs {
        map.insert(k.to_string(), v.clone());
    }
    serde_json::Value::Object(map)
}

fn text(s: &str) -> serde_json::Value {
    serde_json::Value::String(s.to_string())
}

fn parse_one(data: &[u8]) -> Result<Option<MooMessage>, MooError> {
    let mut parser = MooParser::new();
    parser.parse(data)
}

fn protocol_violation(data: &[u8]) -> String {
    match parse_one(data) {
        Err(MooError::ProtocolViolation(m)) => m,
        other => panic!("expected a protocol violation, got {:?}", other),
    }
}

fn invalid_header(data: &[u8]) -> String {
    match parse_one(data) {
        Err(MooError::InvalidHeader(m)) => m,
        other => panic!("expected an invalid header, got {:?}", other),
    }
}

#[test]
fn build_json_body_exact_bytes() {
    let bytes = MooMessageBuilder::complete("456".to_string(), "Success".to_string())
        .body_json(object(&[("foo", text("bar"))]))
        .build()
        .unwrap();
    assert_eq!(
        bytes,
        b"MOO/1 COMPLETE Success\nRequest-Id: 456\nContent-Type: application/json\nContent-Length: 13\n\n{\"foo\":\"bar\"}"
            .to_vec()
    );
}

#[test]
fn build_without_body_exact_bytes() {
    let bytes = MooMessageBuilder::request("7".to_string(), "com.example/ping".to_string())
        .build()
        .unwrap();
    assert_eq!(bytes, b"MOO/1 REQUEST com.example/ping\nRequest-Id: 7\n\n".to_vec());
}

#[test]
fn build_headers_in_order_and_replaced_in_place() {
    let bytes = MooMessageBuilder::continue_msg("9".to_string(), "Changed".to_string())
        .header("Logging".to_string(), "quiet".to_string())
        .header("X-Zone".to_string(), "1".to_string())
        .header("Logging".to_string(), "loud".to_string())
        .build()
        .unwrap();
    assert_eq!(
        bytes,
        b"MOO/1 CONTINUE Changed\nRequest-Id: 9\nLogging: loud\nX-Zone: 1\n\n".to_vec()
    );
}

#[test]
fn build_binary_body_exact_bytes() {
    let bytes = MooMessageBuilder::complete("456".to_string(), "Success".to_string())
        .body_binary(Bytes::from_static(b"test data"))
        .build()
        .unwrap();
    assert_eq!(
        bytes,
        b"MOO/1 COMPLETE Success\nRequest-Id: 456\nContent-Type: application/octet-stream\nContent-Length: 9\n\ntest data"
            .to_vec()
    );
}

#[test]
fn build_empty_binary_body_has_no_body_headers() {
    let bytes = MooMessageBuilder::complete("1".to_string(), "Done".to_string())
        .body_binary(Bytes::new())
        .build()
        .unwrap();
    assert_eq!(bytes, b"MOO/1 COMPLETE Done\nRequest-Id: 1\n\n".to_vec());
}

#[test]
fn write_frame_with_given_body_bytes() {
    let mut headers = MooHeaders::new();
    headers.insert("A".to_string(), "b".to_string());
    let bytes = write_frame(
        MooVerb::Request,
        "svc/m",
        "12",
        &headers,
        Some(("text/plain", b"hello world")),
    );
    assert_eq!(
        bytes,
        b"MOO/1 REQUEST svc/m\nRequest-Id: 12\nA: b\nContent-Type: text/plain\nContent-Length: 11\n\nhello world"
            .to_vec()
    );
    let empty = write_frame(MooVerb::Request, "svc/m", "12", &headers, Some(("text/plain", b"")));
    assert_eq!(empty, b"MOO/1 REQUEST svc/m\nRequest-Id: 12\nA: b\n\n".to_vec());
}

#[test]
fn built_json_message_reads_back() {
    let value = object(&[("key", text("value")), ("n", serde_json::Value::from(3))]);
    let bytes = MooMessageBuilder::request("123".to_string(), "com.example/test".to_string())
        .header("X-Extra".to_string(), "yes".to_string())
        .body_json(value.clone())
        .build()
        .unwrap();
    let mut parser = MooParser::new();
    let msg = parser.parse(&bytes).unwrap().unwrap();
    assert_eq!(msg.verb, MooVerb::Request);
    assert_eq!(msg.name, "com.example/test");
    assert_eq!(msg.request_id, "123");
    assert_eq!(msg.header("X-Extra"), Some("yes"));
    assert_eq!(msg.headers.len(), 1);
    assert_eq!(msg.body_json().unwrap().unwrap(), &value);
    assert_eq!(parser.buffer_len(), 0);
}

#[test]
fn built_binary_message_reads_back() {
    let data = Bytes::from_static(b"\x00\x01\x02\n\n\xff");
    let bytes = MooMessageBuilder::continue_msg("5".to_string(), "Chunk".to_string())
        .body_binary(data.clone())
        .build()
        .unwrap();
    let msg = parse_one(&bytes).unwrap().unwrap();
    assert_eq!(msg.verb, MooVerb::Continue);
    assert_eq!(msg.body_binary().unwrap().unwrap(), &data);
}

#[test]
fn frame_fed_byte_by_byte_reads_once_whole() {
    let bytes = MooMessageBuilder::complete("77".to_string(), "Done".to_string())
        .body_binary(Bytes::from_static(b"abcdef"))
        .build()
        .unwrap();
    let mut parser = MooParser::new();
    for (i, b) in bytes.iter().enumerate() {
        let r = parser.parse(&[*b]).unwrap();
        if i + 1 < bytes.len() {
            assert!(r.is_none());
            assert_eq!(parser.buffer_len(), i + 1);
        } else {
            let msg = r.unwrap();
            assert_eq!(msg.request_id, "77");
            assert_eq!(msg.body_binary().unwrap().unwrap().as_ref(), b"abcdef");
        }
    }
    assert_eq!(parser.buffer_len(), 0);
}

#[test]
fn two_frames_in_one_read() {
    let mut data = MooMessageBuilder::continue_msg("1".to_string(), "A".to_string())
        .build()
        .unwrap();
    data.extend(
        MooMessageBuilder::complete("1".to_string(), "B".to_string())
            .build()
            .unwrap(),
    );
    let mut parser = MooParser::new();
    let first = parser.parse(&data).unwrap().unwrap();
    assert_eq!(first.name, "A");
    let second = parser.parse(&[]).unwrap().unwrap();
    assert_eq!(second.name, "B");
    assert!(parser.parse(&[]).unwrap().is_none());
}

#[test]
fn body_waits_for_all_its_bytes() {
    let mut parser = MooParser::new();
    let head = b"MOO/1 COMPLETE Success\nRequest-Id: 3\nContent-Type: application/octet-stream\nContent-Length: 4\n\nab";
    assert!(parser.parse(head).unwrap().is_none());
    assert_eq!(parser.buffer_len(), head.len());
    let msg = parser.parse(b"cdEXTRA").unwrap().unwrap();
    assert_eq!(msg.body_binary().unwrap().unwrap().as_ref(), b"abcd");
    assert_eq!(parser.buffer_len(), 5);
}

#[test]
fn clear_drops_buffered_bytes() {
    let mut parser = MooParser::default();
    assert!(parser.parse(b"MOO/1 REQUEST a\n").unwrap().is_none());
    assert_eq!(parser.buffer_len(), 16);
    parser.clear();
    assert_eq!(parser.buffer_len(), 0);
    let msg = parser.parse(b"MOO/1 REQUEST b\nRequest-Id: 2\n\n").unwrap().unwrap();
    assert_eq!(msg.name, "b");
}

#[test]
fn zero_content_length_has_no_body() {
    let msg = parse_one(
        b"MOO/1 COMPLETE Success\nRequest-Id: 1\nContent-Type: application/json\nContent-Length: 0\n\n",
    )
    .unwrap()
    .unwrap();
    assert!(msg.body.is_none());
}

#[test]
fn carriage_return_before_newline_is_dropped() {
    let msg = parse_one(b"MOO/1 REQUEST svc/m\r\nRequest-Id: 42\r\nX-A: b\n\n")
        .unwrap()
        .unwrap();
    assert_eq!(msg.name, "svc/m");
    assert_eq!(msg.request_id, "42");
    assert_eq!(msg.header("X-A"), Some("b"));
    // the last header line ends at the blank line: a `\r` there stays in it
    assert_eq!(
        protocol_violation(b"MOO/1 REQUEST svc/m\r\nRequest-Id: 42\r\n\n"),
        "Header contains carriage return or non-printable character"
    );
}

#[test]
fn repeated_header_keeps_last_value() {
    let msg = parse_one(b"MOO/1 REQUEST svc/m\nRequest-Id: 1\nRequest-Id: 2\nX: a\nX: b\n\n")
        .unwrap()
        .unwrap();
    assert_eq!(msg.request_id, "2");
    assert_eq!(msg.header("X"), Some("b"));
    assert_eq!(msg.header("Y"), None);
}

#[test]
fn error_empty_message() {
    assert_eq!(protocol_violation(b"\n\n"), "Empty message");
}

#[test]
fn error_invalid_first_line() {
    assert_eq!(
        protocol_violation(b"MOO/1 REQUEST\nRequest-Id: 1\n\n"),
        "Invalid first line: MOO/1 REQUEST"
    );
}

#[test]
fn error_name_with_whitespace() {
    assert_eq!(
        protocol_violation(b"MOO/1 REQUEST a b\nRequest-Id: 1\n\n"),
        "Name contains whitespace: a b"
    );
}

#[test]
fn error_version_mismatch() {
    match parse_one(b"MOO/2 REQUEST a\nRequest-Id: 1\n\n") {
        Err(MooError::VersionMismatch(v)) => assert_eq!(v, "MOO/2"),
        other => panic!("unexpected {:?}", other),
    }
}

#[test]
fn error_invalid_verb() {
    match parse_one(b"MOO/1 INVALID a\nRequest-Id: 1\n\n") {
        Err(MooError::InvalidVerb(v)) => assert_eq!(v, "INVALID"),
        other => panic!("unexpected {:?}", other),
    }
}

#[test]
fn error_non_printable_header() {
    assert_eq!(
        protocol_violation(b"MOO/1 REQUEST a\nRequest-Id: 1\nX: a\x01b\n\n"),
        "Header contains carriage return or non-printable character"
    );
    assert_eq!(
        protocol_violation(b"MOO/1 REQUEST a\nRequest-Id: 1\nX: a\rb\n\n"),
        "Header contains carriage return or non-printable character"
    );
    let msg = parse_one(b"MOO/1 REQUEST a\nRequest-Id: 1\nX: a\tb\n\n")
        .unwrap()
        .unwrap();
    assert_eq!(msg.header("X"), Some("a\tb"));
}

#[test]
fn error_header_without_separator() {
    assert_eq!(
        invalid_header(b"MOO/1 REQUEST a\nRequest-Id: 1\nNoSeparator\n\n"),
        "Invalid header format: NoSeparator"
    );
}

#[test]
fn error_header_name_with_space() {
    assert_eq!(
        invalid_header(b"MOO/1 REQUEST a\nBad Name: x\nRequest-Id: 1\n\n"),
        "Header name contains invalid characters: Bad Name"
    );
    assert_eq!(
        invalid_header(b"MOO/1 REQUEST a\nBad:Name: x\nRequest-Id: 1\n\n"),
        "Header name contains invalid characters: Bad:Name"
    );
}

#[test]
fn error_missing_request_id() {
    match parse_one(b"MOO/1 REQUEST a\nX: y\n\n") {
        Err(MooError::MissingHeader(h)) => assert_eq!(h, "Request-Id"),
        other => panic!("unexpected {:?}", other),
    }
}

#[test]
fn error_invalid_content_length() {
    match parse_one(b"MOO/1 REQUEST a\nRequest-Id: 1\nContent-Type: text/plain\nContent-Length: 1x\n\n") {
        Err(MooError::InvalidContentLength(v)) => assert_eq!(v, "1x"),
        other => panic!("unexpected {:?}", other),
    }
    match parse_one(b"MOO/1 REQUEST a\nRequest-Id: 1\nContent-Type: text/plain\nContent-Length: -1\n\n") {
        Err(MooError::InvalidContentLength(v)) => assert_eq!(v, "-1"),
        other => panic!("unexpected {:?}", other),
    }
}

#[test]
fn plus_sign_content_length_is_accepted() {
    let msg = parse_one(
        b"MOO/1 REQUEST a\nRequest-Id: 1\nContent-Type: text/plain\nContent-Length: +2\n\nhi",
    )
    .unwrap()
    .unwrap();
    assert_eq!(msg.body_binary().unwrap().unwrap().as_ref(), b"hi");
}

#[test]
fn error_content_length_without_type() {
    assert_eq!(
        protocol_violation(b"MOO/1 REQUEST a\nRequest-Id: 1\nContent-Length: 2\n\nhi"),
        "Content-Length present but Content-Type missing"
    );
}

#[test]
fn error_content_type_without_length() {
    assert_eq!(
        protocol_violation(b"MOO/1 REQUEST a\nRequest-Id: 1\nContent-Type: text/plain\n\n"),
        "Content-Type present but Content-Length missing"
    );
}

#[test]
fn error_header_text_not_utf8() {
    let m = protocol_violation(b"MOO/1 REQUEST a\xff\nRequest-Id: 1\n\n");
    assert!(m.starts_with("Invalid UTF-8 in headers: "));
}

#[test]
fn error_json_body_not_utf8() {
    let m = protocol_violation(
        b"MOO/1 REQUEST a\nRequest-Id: 1\nContent-Type: application/json\nContent-Length: 2\n\n\xff\xfe",
    );
    assert!(m.starts_with("Invalid UTF-8 in JSON body: "));
}

#[test]
fn error_json_body_not_json() {
    let mut parser = MooParser::new();
    let data = b"MOO/1 REQUEST a\nRequest-Id: 1\nContent-Type: application/json\nContent-Length: 3\n\n{x}";
    assert!(matches!(parser.parse(data), Err(MooError::Json(_))));
    assert_eq!(parser.buffer_len(), data.len());
}

#[test]
fn error_message_too_large() {
    let mut parser = MooParser::new();
    let big = vec![b'a'; MAX_MESSAGE_SIZE + 1];
    match parser.parse(&big) {
        Err(MooError::MessageTooLarge(n)) => assert_eq!(n, MAX_MESSAGE_SIZE + 1),
        other => panic!("unexpected {:?}", other.map(|m| m.is_some())),
    }
}

#[test]
fn a_full_buffer_within_the_limit_waits() {
    let mut parser = MooParser::new();
    let big = vec![b'a'; 1024];
    assert!(parser.parse(&big).unwrap().is_none());
    assert_eq!(parser.buffer_len(), 1024);
}

#[test]
fn json_body_value_is_read() {
    let msg = parse_one(
        b"MOO/1 COMPLETE Success\nRequest-Id: 456\nContent-Type: application/json\nContent-Length: 13\n\n{\"foo\":\"bar\"}",
    )
    .unwrap()
    .unwrap();
    match &msg.body {
        Some(MooBody::Json(v)) => assert_eq!(v, &object(&[("foo", text("bar"))])),
        other => panic!("unexpected {:?}", other),
    }
}

#[test]
fn crlf_blank_line_ends_the_header_lines() {
    let msg = parse_one(b"MOO/1 REQUEST a\r\nRequest-Id: 1\r\n\r\nX: y\n\n")
        .unwrap()
        .unwrap();
    assert_eq!(msg.request_id, "1");
    assert_eq!(msg.header("X"), None);
    assert_eq!(msg.headers.len(), 0);
}

#[test]
fn empty_name_is_accepted() {
    let msg = parse_one(b"MOO/1 REQUEST \nRequest-Id: 1\n\n").unwrap().unwrap();
    assert_eq!(msg.name, "");
    assert_eq!(msg.service_method(), None);
}

fn read_all(parser: &mut MooParser, chunk: &[u8], out: &mut Vec<String>) {
    let mut next = parser.parse(chunk).unwrap();
    while let Some(m) = next {
        out.push(format!("{} {} {}", m.verb.as_str(), m.request_id, m.name));
        next = parser.parse(&[]).unwrap();
    }
}

#[test]
fn any_split_of_a_stream_reads_as_the_whole() {
    let mut stream = Vec::new();
    stream.extend(
        MooMessageBuilder::request("1".to_string(), "a/b".to_string())
            .body_json(object(&[("k", text("v"))]))
            .build()
            .unwrap(),
    );
    stream.extend(
        MooMessageBuilder::continue_msg("1".to_string(), "P".to_string())
            .body_binary(Bytes::from_static(b"\n\nxyz"))
            .build()
            .unwrap(),
    );
    stream.extend(MooMessageBuilder::complete("1".to_string(), "Done".to_string()).build().unwrap());
    stream.extend(b"MOO/1 REQUEST partial\nRequ".to_vec());

    let mut whole_parser = MooParser::new();
    let mut whole = Vec::new();
    read_all(&mut whole_parser, &stream, &mut whole);
    assert_eq!(whole.len(), 3);

    for size in [1usize, 2, 3, 7, 13, 50] {
        let mut parser = MooParser::new();
        let mut got = Vec::new();
        for chunk in stream.chunks(size) {
            read_all(&mut parser, chunk, &mut got);
        }
        assert_eq!(got, whole);
        assert_eq!(parser.buffer_len(), whole_parser.buffer_len());
    }
}

#[test]
fn json_body_length_is_never_zero() {
    assert_eq!(MooBody::Json(serde_json::Value::Null).len(), 4);
    assert!(!MooBody::Json(serde_json::Value::from(0)).is_empty());
}
