use bytes::{BufMut, BytesMut};
use mini_raft::codec::{
    AppendEntries, AppendEntriesResponse, ClientRequest, ClientResponse, Codec, Hello, HelloClient,
    Message, RequestVote, RequestVoteResponse,
};
use mini_raft::message_pipeline::{MessagePipeline, MockMessagePipeline};
use mini_raft::server::{ClientId, LogCommand, LogEntry, NodeId};
use serde_json::Value;

fn object(fields: Vec<(&str, Value)>) -> Value {
    let mut map = serde_json::Map::new();
    for (name, value) in fields {
        map.insert(name.to_string(), value);
    }
    Value::Object(map)
}

fn command_to_json(command: &LogCommand) -> Value {
    match command {
        LogCommand::Put { key, value } => object(vec![(
            "Set",
            object(vec![
                ("key", Value::from(key.clone())),
                ("value", Value::from(value.clone())),
            ]),
        )]),
        LogCommand::Get { key } => {
            object(vec![("Get", object(vec![("key", Value::from(key.clone()))]))])
        }
        LogCommand::Delete { key } => {
            object(vec![("Delete", object(vec![("key", Value::from(key.clone()))]))])
        }
    }
}

fn entry_to_json(entry: &LogEntry) -> Value {
    object(vec![
        ("term", Value::from(entry.term)),
        ("command", command_to_json(&entry.command)),
        ("index", Value::from(entry.index)),
        ("client_id", Value::from(entry.client_id)),
        ("request_id", Value::from(entry.request_id)),
    ])
}

fn to_json(msg: &Message) -> Value {
    let body = match msg {
        Message::AppendEntriesType(m) => object(vec![
            ("term", Value::from(m.term)),
            ("leader_id", Value::from(m.leader_id.0)),
            ("prev_log_index", Value::from(m.prev_log_index)),
            ("prev_log_term", Value::from(m.prev_log_term)),
            ("entries", Value::from(m.entries.iter().map(entry_to_json).collect::<Vec<_>>())),
            ("leader_commit", Value::from(m.leader_commit)),
        ]),
        Message::AppendEntriesResponseType(m) => object(vec![
            ("term", Value::from(m.term)),
            ("success", Value::from(m.success)),
        ]),
        Message::RequestVoteType(m) => object(vec![
            ("term", Value::from(m.term)),
            ("candidate_id", Value::from(m.candidate_id.0)),
            ("last_log_index", Value::from(m.last_log_index)),
            ("last_log_term", Value::from(m.last_log_term)),
        ]),
        Message::RequestVoteResponseType(m) => object(vec![
            ("term", Value::from(m.term)),
            ("vote_granted", Value::from(m.vote_granted)),
        ]),
        Message::ClientRequestType(m) => object(vec![
            ("command", command_to_json(&m.command)),
            ("client_id", Value::from(m.client_id)),
            ("request_id", Value::from(m.request_id)),
        ]),
        Message::ClientResponseType(ClientResponse::SetSuccess { request_id }) => {
            object(vec![("SetSuccess", object(vec![("request_id", Value::from(*request_id))]))])
        }
        Message::ClientResponseType(other) => panic!("not used here: {:?}", other),
        Message::HelloType(m) => object(vec![("id", Value::from(m.id.0))]),
        Message::HelloClientType(m) => object(vec![("id", Value::from(m.id.0))]),
    };
    object(vec![(msg.message_type().as_str(), body)])
}

fn u(value: &Value, name: &str) -> u64 {
    value[name].as_u64().unwrap()
}

fn command_from_json(value: &Value) -> LogCommand {
    let (kind, body) = value.as_object().unwrap().iter().next().unwrap();
    let text = |name: &str| body[name].as_str().unwrap().to_string();
    match kind.as_str() {
        "Set" => LogCommand::Put { key: text("key"), value: text("value") },
        "Get" => LogCommand::Get { key: text("key") },
        "Delete" => LogCommand::Delete { key: text("key") },
        other => panic!("unknown command {other}"),
    }
}

fn entry_from_json(value: &Value) -> LogEntry {
    LogEntry {
        term: u(value, "term") as u32,
        command: command_from_json(&value["command"]),
        index: u(value, "index") as u32,
        client_id: u(value, "client_id") as u32,
        request_id: u(value, "request_id") as u32,
    }
}

fn from_json(value: &Value) -> Message {
    let (kind, body) = value.as_object().unwrap().iter().next().unwrap();
    match kind.as_str() {
        "AppendEntriesType" => Message::AppendEntriesType(AppendEntries {
            term: u(body, "term") as u32,
            leader_id: NodeId::new(u(body, "leader_id")),
            prev_log_index: body["prev_log_index"].as_i64().unwrap() as i32,
            prev_log_term: u(body, "prev_log_term") as u32,
            entries: body["entries"].as_array().unwrap().iter().map(entry_from_json).collect(),
            leader_commit: body["leader_commit"].as_i64().unwrap() as i32,
        }),
        "AppendEntriesResponseType" => Message::AppendEntriesResponseType(AppendEntriesResponse {
            term: u(body, "term") as u32,
            success: body["success"].as_bool().unwrap(),
        }),
        "RequestVoteType" => Message::RequestVoteType(RequestVote {
            term: u(body, "term") as u32,
            candidate_id: NodeId::new(u(body, "candidate_id")),
            last_log_index: body["last_log_index"].as_i64().unwrap() as i32,
            last_log_term: u(body, "last_log_term") as u32,
        }),
        "RequestVoteResponseType" => Message::RequestVoteResponseType(RequestVoteResponse {
            term: u(body, "term") as u32,
            vote_granted: body["vote_granted"].as_bool().unwrap(),
        }),
        "ClientRequestType" => Message::ClientRequestType(ClientRequest {
            command: command_from_json(&body["command"]),
            client_id: u(body, "client_id") as u32,
            request_id: u(body, "request_id") as u32,
        }),
        "ClientResponseType" => Message::ClientResponseType(ClientResponse::SetSuccess {
            request_id: u(&body["SetSuccess"], "request_id"),
        }),
        "HelloType" => Message::HelloType(Hello { id: NodeId::new(u(body, "id")) }),
        "HelloClientType" => {
            Message::HelloClientType(HelloClient { id: ClientId::new(u(body, "id") as u32) })
        }
        other => panic!("unknown message {other}"),
    }
}

fn encode(codec: &mut Codec, msg: &Message, dst: &mut BytesMut) {
    let payload = serde_json::to_vec(&to_json(msg)).unwrap();
    assert!(codec.has_room(payload.len(), dst));
    codec.encode(&payload, dst);
}

fn decode(codec: &mut Codec, src: &mut BytesMut) -> Option<Message> {
    let payload = codec.decode(src)?;
    let value: Value = serde_json::from_slice(&payload).unwrap();
    Some(from_json(&value))
}

fn roundtrip(msg: Message) -> Message {
    let mut codec = Codec::new();
    let mut buf = BytesMut::new();
    encode(&mut codec, &msg, &mut buf);

    // Length prefix must be big-endian payload len.
    assert!(buf.len() >= 4);
    let len = u32::from_be_bytes([buf[0], buf[1], buf[2], buf[3]]) as usize;
    assert_eq!(len, buf.len() - 4, "length prefix must match payload len");

    let decoded = decode(&mut codec, &mut buf).expect("frame");
    assert!(buf.is_empty(), "buffer fully consumed");
    decoded
}

fn assert_json_eq(sent: &Message, decoded: &Message) {
    assert_eq!(to_json(sent), to_json(decoded));
}

#[test]
fn codec_roundtrips_all_variants() {
    let msgs = vec![
        Message::AppendEntriesType(AppendEntries {
            term: 3,
            leader_id: NodeId::new(1),
            prev_log_index: 0,
            prev_log_term: 1,
            entries: vec![LogEntry {
                term: 3,
                command: LogCommand::Put { key: "k".into(), value: "v".into() },
                index: 1,
                client_id: 7,
                request_id: 9,
            }],
            leader_commit: 0,
        }),
        Message::AppendEntriesResponseType(AppendEntriesResponse { term: 3, success: true }),
        Message::RequestVoteType(RequestVote {
            term: 2,
            candidate_id: NodeId::new(2),
            last_log_index: 5,
            last_log_term: 2,
        }),
        Message::RequestVoteResponseType(RequestVoteResponse { term: 2, vote_granted: true }),
        Message::ClientRequestType(ClientRequest {
            command: LogCommand::Put { key: "foo".into(), value: "bar".into() },
            client_id: 42,
            request_id: 1,
        }),
        Message::ClientResponseType(ClientResponse::SetSuccess { request_id: 1 }),
        Message::HelloType(Hello { id: NodeId::new(1) }),
        Message::HelloClientType(HelloClient { id: ClientId::new(99) }),
    ];

    for m in msgs {
        let decoded = roundtrip(m.clone());
        assert_json_eq(&m, &decoded);
    }
}

#[test]
fn codec_handles_partial_and_multiple_frames() {
    let msg = Message::RequestVoteType(RequestVote {
        term: 1,
        candidate_id: NodeId::new(0),
        last_log_index: 0,
        last_log_term: 0,
    });
    let mut codec = Codec::new();
    let mut buf = BytesMut::new();
    encode(&mut codec, &msg, &mut buf);
    let full = buf.split_to(buf.len());

    // Partial feed: first half yields None.
    let mut partial = BytesMut::new();
    let half = full.len() / 2;
    partial.extend_from_slice(&full[..half]);
    assert!(decode(&mut codec, &mut partial).is_none());
    partial.extend_from_slice(&full[half..]);
    let out = decode(&mut codec, &mut partial).expect("frame");
    assert_json_eq(&msg, &out);

    // Two frames back-to-back decode independently.
    let mut two = BytesMut::new();
    encode(&mut codec, &msg, &mut two);
    encode(&mut codec, &msg, &mut two);
    let first = decode(&mut codec, &mut two).expect("first");
    let second = decode(&mut codec, &mut two).expect("second");
    assert_json_eq(&msg, &first);
    assert_json_eq(&msg, &second);
}

#[test]
fn frame_bytes_are_length_and_payload() {
    let mut codec = Codec::new();
    let mut buf = BytesMut::new();
    buf.put_u8(7);
    let payload = vec![5u8; 0x0102];
    codec.encode(&payload, &mut buf);
    assert_eq!(&buf[..5], &[7, 0, 0, 1, 2]);
    assert_eq!(&buf[5..], &payload[..]);
}

#[test]
fn every_proper_prefix_of_a_frame_waits() {
    let mut codec = Codec::new();
    let mut buf = BytesMut::new();
    codec.encode(b"hello", &mut buf);
    for cut in 0..buf.len() {
        let mut part = BytesMut::from(&buf[..cut]);
        assert!(codec.decode(&mut part).is_none());
        assert_eq!(&part[..], &buf[..cut]);
    }
    let payload = codec.decode(&mut buf).unwrap();
    assert_eq!(&payload[..], b"hello");
    assert!(buf.is_empty());
}

#[test]
fn a_long_announcement_makes_room() {
    let mut codec = Codec::new();
    let mut buf = BytesMut::new();
    buf.put_slice(&[0, 1, 0, 0, 9]);
    assert!(codec.decode(&mut buf).is_none());
    assert_eq!(&buf[..], &[0, 1, 0, 0, 9]);
    assert!(buf.capacity() >= 4 + 0x1_0000);
}

#[test]
fn empty_payload_is_a_frame() {
    let mut codec = Codec::new();
    let mut buf = BytesMut::new();
    codec.encode(b"", &mut buf);
    assert_eq!(&buf[..], &[0, 0, 0, 0]);
    assert!(codec.decode(&mut buf).unwrap().is_empty());
}

#[test]
fn room_ends_at_half_of_what_can_be_allocated() {
    let codec = Codec::new();
    let buf = BytesMut::new();
    assert!(codec.has_room(isize::MAX as usize / 2 - 4, &buf));
    assert!(!codec.has_room(isize::MAX as usize / 2 - 3, &buf));
    assert!(!codec.has_room(usize::MAX, &buf));
}

#[test]
fn message_types_are_variant_names() {
    let hello = Message::HelloType(Hello { id: NodeId::new(1) });
    assert_eq!(hello.message_type(), "HelloType");
    let pipeline = MockMessagePipeline::new(1u8, 2u8);
    assert_eq!((pipeline.tx, pipeline.rx), (1, 2));
    let heartbeat = pipeline.recv_mock_heartbeat();
    assert_eq!(heartbeat.message_type(), "AppendEntriesType");
    assert!(matches!(
        heartbeat,
        Message::AppendEntriesType(AppendEntries { term: 0, leader_commit: 0, .. })
    ));
    let pipeline = MessagePipeline::new(Codec::new(), 1u8, 2u8);
    assert_eq!((pipeline.tx, pipeline.rx), (1, 2));
}
