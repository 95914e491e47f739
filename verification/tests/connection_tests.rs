//! Response streams and connection decisions, with two peers exchanging
//! frames in memory: each side's parser, routing, handlers and pending
//! requests are the library's; the "network" is a byte vector handed over.

use bytes::Bytes;
use moo_transport::connection::{response_frame, Incoming, RecvAction};
use moo_transport::{ConnectionState, MooError, MooMessage, MooParser, MooVerb, ResponseStreamState};
use std::collections::VecDeque;

type Handler = fn(&MooMessage) -> Vec<MooMessage>;
type Item = Result<MooMessage, MooError>;

fn object(pairs: &[(&str, serde_json::Value)]) -> serde_json::Value {
    let mut map = serde_json::Map::new();
    for (k, v) in pairs {
        map.insert(k.to_string(), v.clone());
    }
    serde_json::Value::Object(map)
}

fn text(s: &str) -> serde_json::Value {
    serde_json::Value::String(s.to_string())
}

/// One side of a connection: its state, its parser, and the queue of
/// responses that each of its requests has received.
struct Peer {
    state: ConnectionState<usize, Handler>,
    parser: MooParser,
    inbox: Vec<VecDeque<Item>>,
}

impl Peer {
    fn new() -> Peer {
        Peer { state: ConnectionState::new(), parser: MooParser::new(), inbox: Vec::new() }
    }

    /// Starts a request; gives back the queue its responses reach and the
    /// bytes to send.
    fn request(&mut self, name: &str, body: Option<serde_json::Value>) -> Result<(usize, Vec<u8>), MooError> {
        let slot = self.inbox.len();
        let (_, bytes) = self.state.begin_request(name.to_string(), body, slot)?;
        self.inbox.push(VecDeque::new());
        Ok((slot, bytes))
    }

    /// Takes in bytes from the other side; gives back the bytes it answers.
    fn receive(&mut self, data: &[u8]) -> Vec<u8> {
        let mut out = Vec::new();
        let mut next = self.parser.parse(data).unwrap();
        while let Some(msg) = next {
            match self.state.route(&msg) {
                Incoming::Dispatch(Some(handler)) => {
                    for response in handler(&msg) {
                        out.extend(response_frame(response).unwrap());
                    }
                }
                Incoming::Dispatch(None) => {}
                Incoming::Deliver(Some(slot)) => {
                    let slot = *slot;
                    self.inbox[slot].push_back(Ok(msg));
                }
                Incoming::Deliver(None) => {}
            }
            next = self.parser.parse(&[]).unwrap();
        }
        out
    }
}

/// What a response stream yields from the items its channel delivers; an
/// empty queue is a closed channel.
fn drain_stream(queue: &mut VecDeque<Item>) -> Vec<Item> {
    let mut stream = ResponseStreamState::new();
    let mut out = Vec::new();
    while !stream.is_completed() {
        match stream.on_receive(queue.pop_front()) {
            Some(item) => out.push(item),
            None => break,
        }
    }
    out
}

fn echo(req: &MooMessage) -> Vec<MooMessage> {
    let mut reply = MooMessage::complete(req.request_id.clone(), "Echo".to_string());
    if let Some(Ok(v)) = req.body_json() {
        reply = reply.with_json_body(v.clone());
    }
    vec![reply]
}

fn stream_three(req: &MooMessage) -> Vec<MooMessage> {
    let mut out = Vec::new();
    for i in 1..=3 {
        out.push(
            MooMessage::continue_msg(req.request_id.clone(), format!("Progress{}", i))
                .with_json_body(object(&[("step", serde_json::Value::from(i))])),
        );
    }
    out.push(
        MooMessage::complete(req.request_id.clone(), "Done".to_string())
            .with_json_body(object(&[("status", text("success"))])),
    );
    out
}

fn client_pong(req: &MooMessage) -> Vec<MooMessage> {
    vec![MooMessage::complete(req.request_id.clone(), "ClientPong".to_string())
        .with_json_body(object(&[("from", text("client"))]))]
}

fn server_pong(req: &MooMessage) -> Vec<MooMessage> {
    vec![MooMessage::complete(req.request_id.clone(), "ServerPong".to_string())
        .with_json_body(object(&[("from", text("server"))]))]
}

fn fallback(req: &MooMessage) -> Vec<MooMessage> {
    vec![MooMessage::complete(req.request_id.clone(), "Fallback".to_string())]
}

#[test]
fn test_response_stream_with_continue_and_complete() {
    let mut queue: VecDeque<Item> = VecDeque::new();
    queue.push_back(Ok(MooMessage::continue_msg("1".to_string(), "Progress".to_string())));
    queue.push_back(Ok(MooMessage::continue_msg("1".to_string(), "More Progress".to_string())));
    queue.push_back(Ok(MooMessage::complete("1".to_string(), "Success".to_string())));

    let messages: Vec<MooMessage> = drain_stream(&mut queue).into_iter().map(|r| r.unwrap()).collect();

    assert_eq!(messages.len(), 3);
    assert_eq!(messages[0].verb, MooVerb::Continue);
    assert_eq!(messages[1].verb, MooVerb::Continue);
    assert_eq!(messages[2].verb, MooVerb::Complete);
}

#[test]
fn test_response_stream_completes_after_complete() {
    let mut queue: VecDeque<Item> = VecDeque::new();
    queue.push_back(Ok(MooMessage::complete("1".to_string(), "Success".to_string())));
    queue.push_back(Ok(MooMessage::continue_msg("1".to_string(), "After Complete".to_string())));

    let messages: Vec<MooMessage> = drain_stream(&mut queue).into_iter().map(|r| r.unwrap()).collect();

    assert_eq!(messages.len(), 1);
    assert_eq!(messages[0].verb, MooVerb::Complete);
}

#[test]
fn test_response_stream_handles_errors() {
    let mut stream = ResponseStreamState::new();

    let result = stream.on_receive(Some(Err(MooError::ConnectionClosed)));
    assert!(result.is_some());
    assert!(result.unwrap().is_err());

    let after = Ok(MooMessage::continue_msg("1".to_string(), "After Error".to_string()));
    let result = stream.on_receive(Some(after));
    assert!(result.is_none());
    assert!(stream.is_completed());
}

#[test]
fn response_stream_ends_when_channel_closes() {
    let mut stream = ResponseStreamState::new();
    let first = stream.on_receive(Some(Ok(MooMessage::continue_msg("1".to_string(), "P".to_string()))));
    assert!(matches!(first, Some(Ok(_))));
    assert!(!stream.is_completed());
    assert!(matches!(stream.on_receive(None), Some(Err(MooError::ConnectionClosed))));
    assert!(stream.is_completed());
    assert!(stream.on_receive(None).is_none());
    let late = stream.on_receive(Some(Ok(MooMessage::complete("1".to_string(), "S".to_string()))));
    assert!(late.is_none());
}

#[test]
fn test_tcp_connection() {
    let mut client = Peer::new();
    let mut server = Peer::new();
    server.state.register_handler("test/echo".to_string(), echo);

    let (slot, bytes) = client.request("test/echo", Some(object(&[("test", text("data"))]))).unwrap();
    let answer = server.receive(&bytes);
    assert!(client.receive(&answer).is_empty());

    let responses = drain_stream(&mut client.inbox[slot]);
    let msg = responses[0].as_ref().unwrap();
    assert_eq!(msg.verb, MooVerb::Complete);
    assert_eq!(msg.name, "Echo");
    assert_eq!(msg.body_json().unwrap().unwrap(), &object(&[("test", text("data"))]));
}

#[test]
fn test_streaming_responses() {
    let mut client = Peer::new();
    let mut server = Peer::new();
    server.state.register_handler("test/stream".to_string(), stream_three);

    let (slot, bytes) = client.request("test/stream", None).unwrap();
    let answer = server.receive(&bytes);
    client.receive(&answer);

    let messages: Vec<MooMessage> = drain_stream(&mut client.inbox[slot]).into_iter().map(|r| r.unwrap()).collect();
    assert_eq!(messages.len(), 4);
    assert_eq!(messages[0].verb, MooVerb::Continue);
    assert_eq!(messages[1].verb, MooVerb::Continue);
    assert_eq!(messages[2].verb, MooVerb::Continue);
    assert_eq!(messages[3].verb, MooVerb::Complete);
    assert_eq!(messages[0].name, "Progress1");
    assert_eq!(messages[2].name, "Progress3");
    assert_eq!(messages[3].name, "Done");
}

#[test]
fn test_bidirectional_communication() {
    let mut client = Peer::new();
    let mut server = Peer::new();
    client.state.register_handler("client/ping".to_string(), client_pong);
    server.state.register_handler("server/ping".to_string(), server_pong);

    let (slot, bytes) = client.request("server/ping", None).unwrap();
    let answer = server.receive(&bytes);
    client.receive(&answer);
    let msg = drain_stream(&mut client.inbox[slot]).remove(0).unwrap();
    assert_eq!(msg.name, "ServerPong");

    let (slot, bytes) = server.request("client/ping", None).unwrap();
    let answer = client.receive(&bytes);
    server.receive(&answer);
    let msg = drain_stream(&mut server.inbox[slot]).remove(0).unwrap();
    assert_eq!(msg.name, "ClientPong");
}

#[test]
fn test_connection_lifecycle() {
    let mut state: ConnectionState<usize, Handler> = ConnectionState::new();
    assert!(state.is_connected());

    let (id, _) = state.begin_request("test".to_string(), None, 0).unwrap();
    assert_eq!(id, "1");

    state.disconnect();
    assert!(!state.is_connected());

    let result = state.begin_request("test".to_string(), None, 1);
    assert!(matches!(result, Err(MooError::ConnectionClosed)));
    assert!(state.pending_for("2").is_none());
    assert!(!state.is_connected());
}

#[test]
fn test_simple_echo() {
    let mut client = Peer::new();
    let mut server = Peer::new();
    server.state.register_handler("test/echo".to_string(), echo);

    let (slot, bytes) = client.request("test/echo", Some(object(&[("test", text("data"))]))).unwrap();
    let answer = server.receive(&bytes);
    client.receive(&answer);
    assert!(client.state.is_connected());
    assert!(server.state.is_connected());
    let msg = drain_stream(&mut client.inbox[slot]).remove(0).unwrap();
    assert_eq!(msg.name, "Echo");
}

#[test]
fn request_ids_count_from_one_and_differ() {
    let mut state: ConnectionState<(), Handler> = ConnectionState::new();
    assert_eq!(state.next_request_id(), "1");
    assert_eq!(state.next_request_id(), "2");
    let (a, _) = state.begin_request("x".to_string(), None, ()).unwrap();
    let (b, _) = state.begin_request("x".to_string(), None, ()).unwrap();
    assert_eq!(a, "3");
    assert_eq!(b, "4");
}

#[test]
fn begin_request_writes_the_frame() {
    let mut state: ConnectionState<u8, Handler> = ConnectionState::new();
    let (id, bytes) = state
        .begin_request("com.example/ping".to_string(), Some(object(&[("a", text("b"))])), 7)
        .unwrap();
    assert_eq!(id, "1");
    assert_eq!(
        bytes,
        b"MOO/1 REQUEST com.example/ping\nRequest-Id: 1\nContent-Type: application/json\nContent-Length: 9\n\n{\"a\":\"b\"}"
            .to_vec()
    );
    assert_eq!(state.pending_for("1"), Some(&7));
}

#[test]
fn raw_request_carries_its_content_type_header() {
    let mut state: ConnectionState<u8, Handler> = ConnectionState::new();
    let (id, bytes) = state
        .begin_raw_request("img/put".to_string(), Bytes::from_static(b"PNG"), "image/png".to_string(), 1)
        .unwrap();
    assert_eq!(id, "1");
    assert_eq!(
        bytes,
        b"MOO/1 REQUEST img/put\nRequest-Id: 1\nContent-Type: image/png\nContent-Type: application/octet-stream\nContent-Length: 3\n\nPNG"
            .to_vec()
    );
    assert_eq!(state.pending_for("1"), Some(&1));
}

#[test]
fn handler_lookup_falls_back_to_default() {
    let mut state: ConnectionState<u8, Handler> = ConnectionState::new();
    assert!(state.handler_for("a/b").is_none());
    state.register_handler("a/b".to_string(), echo);
    state.register_default_handler(fallback);
    let h = state.handler_for("a/b").unwrap();
    let req = MooMessage::request("9".to_string(), "a/b".to_string());
    assert_eq!(h(&req)[0].name, "Echo");
    let d = state.handler_for("other").unwrap();
    assert_eq!(d(&req)[0].name, "Fallback");
    state.register_handler("a/b".to_string(), server_pong);
    let h = state.handler_for("a/b").unwrap();
    assert_eq!(h(&req)[0].name, "ServerPong");
}

#[test]
fn routing_by_verb() {
    let mut state: ConnectionState<u8, Handler> = ConnectionState::new();
    state.register_handler("svc/x".to_string(), echo);
    state.add_pending("5".to_string(), 50);

    let req = MooMessage::request("5".to_string(), "svc/x".to_string());
    assert!(matches!(state.route(&req), Incoming::Dispatch(Some(_))));
    let other = MooMessage::request("5".to_string(), "svc/y".to_string());
    assert!(matches!(state.route(&other), Incoming::Dispatch(None)));
    let resp = MooMessage::continue_msg("5".to_string(), "P".to_string());
    assert!(matches!(state.route(&resp), Incoming::Deliver(Some(&50))));
    let unknown = MooMessage::complete("6".to_string(), "S".to_string());
    assert!(matches!(state.route(&unknown), Incoming::Deliver(None)));
}

#[test]
fn pending_requests_added_removed_and_drained() {
    let mut state: ConnectionState<&'static str, Handler> = ConnectionState::new();
    state.add_pending("1".to_string(), "one");
    state.add_pending("2".to_string(), "two");
    state.add_pending("3".to_string(), "three");
    state.add_pending("2".to_string(), "deux");
    assert_eq!(state.pending_for("2"), Some(&"deux"));
    assert_eq!(state.remove_pending("1"), Some("one"));
    assert_eq!(state.remove_pending("1"), None);
    assert_eq!(state.pending_for("1"), None);
    assert_eq!(state.drain_pending(), vec!["deux", "three"]);
    assert!(state.drain_pending().is_empty());
    assert_eq!(state.pending_for("3"), None);
}

#[test]
fn response_frame_sends_verb_id_name_and_body_only() {
    let msg = MooMessage::continue_msg("8".to_string(), "Tick".to_string())
        .with_header("Ignored".to_string(), "x".to_string())
        .with_binary_body(Bytes::from_static(b"ab"));
    let bytes = response_frame(msg).unwrap();
    assert_eq!(
        bytes,
        b"MOO/1 CONTINUE Tick\nRequest-Id: 8\nContent-Type: application/octet-stream\nContent-Length: 2\n\nab".to_vec()
    );
}

#[test]
fn receive_step_hands_over_every_whole_message() {
    let mut state: ConnectionState<u8, Handler> = ConnectionState::new();
    let mut parser = MooParser::new();
    let mut data = MooMessage::continue_msg("1".to_string(), "A".to_string());
    data = data.with_binary_body(Bytes::from_static(b"x"));
    let mut bytes = response_frame(data).unwrap();
    bytes.extend(response_frame(MooMessage::complete("1".to_string(), "B".to_string())).unwrap());
    bytes.extend(b"MOO/1 COMPLETE C\nRequest".to_vec());
    match state.on_recv(&mut parser, Ok(Some(bytes))) {
        RecvAction::Messages(ms) => {
            assert_eq!(ms.len(), 2);
            assert_eq!(ms[0].name, "A");
            assert_eq!(ms[1].name, "B");
        }
        RecvAction::Shutdown(_) => panic!("unexpected shutdown"),
    }
    assert_eq!(parser.buffer_len(), 24);
    match state.on_recv(&mut parser, Ok(Some(b"-Id: 1\n\n".to_vec()))) {
        RecvAction::Messages(ms) => {
            assert_eq!(ms.len(), 1);
            assert_eq!(ms[0].name, "C");
        }
        RecvAction::Shutdown(_) => panic!("unexpected shutdown"),
    }
    assert!(state.is_connected());
}

#[test]
fn receive_step_keeps_messages_read_before_a_bad_frame() {
    let mut state: ConnectionState<u8, Handler> = ConnectionState::new();
    let mut parser = MooParser::new();
    let mut bytes = response_frame(MooMessage::complete("1".to_string(), "A".to_string())).unwrap();
    bytes.extend(b"MOO/2 COMPLETE B\nRequest-Id: 1\n\n".to_vec());
    match state.on_recv(&mut parser, Ok(Some(bytes))) {
        RecvAction::Messages(ms) => assert_eq!(ms.len(), 1),
        RecvAction::Shutdown(_) => panic!("unexpected shutdown"),
    }
    assert!(state.is_connected());
    // the bad frame stays buffered; the next receive fails on it
    match state.on_recv(&mut parser, Ok(Some(Vec::new()))) {
        RecvAction::Shutdown(sinks) => assert!(sinks.is_empty()),
        RecvAction::Messages(_) => panic!("expected shutdown"),
    }
    assert!(!state.is_connected());
}

#[test]
fn receive_step_shuts_down_on_close_error_or_parse_error() {
    for event in [
        Ok(None),
        Err(MooError::Timeout),
        Ok(Some(b"MOO/1 BOGUS x\nRequest-Id: 1\n\n".to_vec())),
    ] {
        let mut state: ConnectionState<u8, Handler> = ConnectionState::new();
        state.add_pending("1".to_string(), 10);
        state.add_pending("2".to_string(), 20);
        let mut parser = MooParser::new();
        match state.on_recv(&mut parser, event) {
            RecvAction::Shutdown(sinks) => assert_eq!(sinks, vec![10, 20]),
            RecvAction::Messages(_) => panic!("expected shutdown"),
        }
        assert!(!state.is_connected());
        assert!(state.pending_for("1").is_none());
    }
}

#[test]
fn receive_steps_over_chunks_hand_over_the_stream_in_order() {
    let mut stream = Vec::new();
    for (i, name) in ["One", "Two", "Three"].iter().enumerate() {
        let msg = MooMessage::continue_msg(format!("{}", i + 1), name.to_string())
            .with_json_body(object(&[("i", serde_json::Value::from(i))]));
        stream.extend(response_frame(msg).unwrap());
    }
    for size in [1usize, 5, 17, 1000] {
        let mut state: ConnectionState<u8, Handler> = ConnectionState::new();
        let mut parser = MooParser::new();
        let mut names = Vec::new();
        for chunk in stream.chunks(size) {
            match state.on_recv(&mut parser, Ok(Some(chunk.to_vec()))) {
                RecvAction::Messages(ms) => names.extend(ms.into_iter().map(|m| m.name)),
                RecvAction::Shutdown(_) => panic!("unexpected shutdown"),
            }
        }
        assert_eq!(names, vec!["One", "Two", "Three"]);
        assert_eq!(parser.buffer_len(), 0);
    }
}
