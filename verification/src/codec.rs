//! The messages that nodes and clients exchange, and their framing.

use crate::buffer::{
    be_bytes, buffer_advance, buffer_byte, buffer_len, buffer_limit, buffer_put_slice,
    buffer_put_u32, buffer_reserve, buffer_split_to, buffered,
};
use crate::server::{ClientId, LogCommand, LogEntry, NodeId};
use bytes::BytesMut;
use vstd::prelude::*;

verus! {

/// Everything that travels between nodes, and between nodes and clients.
#[derive(Debug, Clone)]
pub enum Message {
    AppendEntriesType(AppendEntries),
    AppendEntriesResponseType(AppendEntriesResponse),
    RequestVoteType(RequestVote),
    RequestVoteResponseType(RequestVoteResponse),
    ClientRequestType(ClientRequest),
    ClientResponseType(ClientResponse),
    HelloType(Hello),
    HelloClientType(HelloClient),
}

/// A leader's replication request. Without entries it is a heartbeat.
#[derive(Debug, Clone)]
pub struct AppendEntries {
    pub term: u32,
    pub leader_id: NodeId,
    pub prev_log_index: i32,
    pub prev_log_term: u32,
    pub entries: Vec<LogEntry>,
    pub leader_commit: i32,
}

/// A follower's answer to an [`AppendEntries`].
#[derive(Debug, Clone, Copy)]
pub struct AppendEntriesResponse {
    pub term: u32,
    pub success: bool,
}

/// A candidate's request for a vote.
#[derive(Debug, Clone, Copy)]
pub struct RequestVote {
    pub term: u32,
    pub candidate_id: NodeId,
    pub last_log_index: i32,
    pub last_log_term: u32,
}

/// The answer to a [`RequestVote`].
#[derive(Debug, Clone, Copy)]
pub struct RequestVoteResponse {
    pub term: u32,
    pub vote_granted: bool,
}

/// A command that a client wants to have replicated.
#[derive(Debug, Clone)]
pub struct ClientRequest {
    pub command: LogCommand,
    pub client_id: u32,
    pub request_id: u32,
}

/// The first message of a node on a new connection.
#[derive(Debug, Clone, Copy)]
pub struct Hello {
    pub id: NodeId,
}

/// The first message of a client on a new connection.
#[derive(Debug, Clone, Copy)]
pub struct HelloClient {
    pub id: ClientId,
}

/// The answer to a [`ClientRequest`].
#[derive(Debug, Clone)]
pub enum ClientResponse {
    GetSuccess { request_id: u64, value: Option<String> },
    SetSuccess { request_id: u64 },
    /// `existed` says whether the key was there and has been deleted.
    DeleteSuccess { request_id: u64, existed: bool },
    KeyNotFound { request_id: u64 },
    NotLeader { request_id: u64, leader_hint: Option<NodeId> },
    InternalError { request_id: u64, reason: String },
}

/// An [`AppendEntries`] with its entries as a sequence.
pub struct AppendEntriesView {
    pub term: u32,
    pub leader_id: NodeId,
    pub prev_log_index: i32,
    pub prev_log_term: u32,
    pub entries: Seq<LogEntry>,
    pub leader_commit: i32,
}

/// A [`Message`] with the entries of a replication request as a sequence.
pub enum MessageView {
    AppendEntries(AppendEntriesView),
    AppendEntriesResponse(AppendEntriesResponse),
    RequestVote(RequestVote),
    RequestVoteResponse(RequestVoteResponse),
    ClientRequest(ClientRequest),
    ClientResponse(ClientResponse),
    Hello(Hello),
    HelloClient(HelloClient),
}

impl View for AppendEntries {
    type V = AppendEntriesView;

    open spec fn view(&self) -> AppendEntriesView {
        AppendEntriesView {
            term: self.term,
            leader_id: self.leader_id,
            prev_log_index: self.prev_log_index,
            prev_log_term: self.prev_log_term,
            entries: self.entries@,
            leader_commit: self.leader_commit,
        }
    }
}

impl View for Message {
    type V = MessageView;

    open spec fn view(&self) -> MessageView {
        match *self {
            Message::AppendEntriesType(m) => MessageView::AppendEntries(m@),
            Message::AppendEntriesResponseType(m) => MessageView::AppendEntriesResponse(m),
            Message::RequestVoteType(m) => MessageView::RequestVote(m),
            Message::RequestVoteResponseType(m) => MessageView::RequestVoteResponse(m),
            Message::ClientRequestType(m) => MessageView::ClientRequest(m),
            Message::ClientResponseType(m) => MessageView::ClientResponse(m),
            Message::HelloType(m) => MessageView::Hello(m),
            Message::HelloClientType(m) => MessageView::HelloClient(m),
        }
    }
}

impl MessageView {
    /// The name of the message's variant.
    pub open spec fn variant_name(self) -> Seq<char> {
        match self {
            MessageView::AppendEntries(_) => "AppendEntriesType"@,
            MessageView::AppendEntriesResponse(_) => "AppendEntriesResponseType"@,
            MessageView::RequestVote(_) => "RequestVoteType"@,
            MessageView::RequestVoteResponse(_) => "RequestVoteResponseType"@,
            MessageView::ClientRequest(_) => "ClientRequestType"@,
            MessageView::ClientResponse(_) => "ClientResponseType"@,
            MessageView::Hello(_) => "HelloType"@,
            MessageView::HelloClient(_) => "HelloClientType"@,
        }
    }
}

impl Message {
    /// The name of the message's variant.
    pub fn message_type(&self) -> (name: String)
        ensures
            name@ == self@.variant_name(),
    {
        match self {
            Message::AppendEntriesType(_) => "AppendEntriesType".to_string(),
            Message::AppendEntriesResponseType(_) => "AppendEntriesResponseType".to_string(),
            Message::RequestVoteType(_) => "RequestVoteType".to_string(),
            Message::RequestVoteResponseType(_) => "RequestVoteResponseType".to_string(),
            Message::ClientRequestType(_) => "ClientRequestType".to_string(),
            Message::ClientResponseType(_) => "ClientResponseType".to_string(),
            Message::HelloType(_) => "HelloType".to_string(),
            Message::HelloClientType(_) => "HelloClientType".to_string(),
        }
    }
}

////////////////////////////////////////////////////////////////////////////////////////////////
// Framing
////////////////////////////////////////////////////////////////////////////////////////////////

/// Writes payloads as frames and finds frames in what has been received. A frame is the length
/// of the payload in four bytes, the most significant one first, and the payload.
#[derive(Clone, Copy, Debug)]
pub struct Codec;

/// The number of bytes of a frame before its payload.
pub const HEADER_LEN: usize = 4;

/// The frame of `payload`. Only the lowest 32 bits of the length fit into it.
pub open spec fn frame(payload: Seq<u8>) -> Seq<u8> {
    be_bytes((payload.len() % 0x1_0000_0000) as u32) + payload
}

/// The length of the payload that the first four of `bytes` announce.
pub open spec fn announced_len(bytes: Seq<u8>) -> int {
    bytes[0] * 0x100_0000 + bytes[1] * 0x1_0000 + bytes[2] * 0x100 + bytes[3]
}

/// `bytes` begin with a whole frame.
pub open spec fn has_frame(bytes: Seq<u8>) -> bool {
    HEADER_LEN <= bytes.len() && HEADER_LEN + announced_len(bytes) <= bytes.len()
}

/// The payload of the frame that `bytes` begin with.
pub open spec fn first_payload(bytes: Seq<u8>) -> Seq<u8> {
    bytes.subrange(HEADER_LEN as int, HEADER_LEN + announced_len(bytes))
}

/// What follows the frame that `bytes` begin with.
pub open spec fn after_first_frame(bytes: Seq<u8>) -> Seq<u8> {
    bytes.skip(HEADER_LEN + announced_len(bytes))
}

impl Codec {
    /// A codec. All are alike.
    pub fn new() -> (codec: Self)
        ensures
            codec == Codec,
    {
        Codec
    }

    /// Whether `dst` can take the frame of a payload of `len` bytes.
    pub fn has_room(&self, len: usize, dst: &BytesMut) -> (yes: bool)
        ensures
            yes == (buffered(*dst).len() + HEADER_LEN + len <= buffer_limit()),
    {
        let limit = isize::MAX as usize / 2;
        let held = buffer_len(dst);
        held <= limit && HEADER_LEN <= limit - held && len <= limit - held - HEADER_LEN
    }

    /// Appends the frame of `payload` to `dst`.
    pub fn encode(&mut self, payload: &[u8], dst: &mut BytesMut)
        requires
            buffered(*old(dst)).len() + HEADER_LEN + payload@.len() <= buffer_limit(),
        ensures
            *final(self) == *old(self),
            buffered(*final(dst)) == buffered(*old(dst)) + frame(payload@),
    {
        let len = payload.len() as u64;
        assert(len as u32 == len % 0x1_0000_0000) by (bit_vector);
        buffer_put_u32(dst, len as u32);
        buffer_put_slice(dst, payload);
        assert(buffered(*dst) =~= buffered(*old(dst)) + frame(payload@));
    }

    /// Takes the first frame out of `src` and returns its payload, or makes room for the rest of
    /// the frame where it has not been received in full.
    pub fn decode(&mut self, src: &mut BytesMut) -> (payload: Option<BytesMut>)
        ensures
            *final(self) == *old(self),
            match payload {
                Some(payload) => {
                    &&& has_frame(buffered(*old(src)))
                    &&& buffered(payload) == first_payload(buffered(*old(src)))
                    &&& buffered(*final(src)) == after_first_frame(buffered(*old(src)))
                },
                None => {
                    &&& !has_frame(buffered(*old(src)))
                    &&& buffered(*final(src)) == buffered(*old(src))
                },
            },
    {
        let held = buffer_len(src);
        if held < HEADER_LEN {
            return None;
        }
        let len = buffer_byte(src, 0) as u64 * 0x100_0000 + buffer_byte(src, 1) as u64 * 0x1_0000
            + buffer_byte(src, 2) as u64 * 0x100 + buffer_byte(src, 3) as u64;
        let frame_len = HEADER_LEN as u64 + len;
        if (held as u64) < frame_len {
            if frame_len <= isize::MAX as u64 / 2 {
                buffer_reserve(src, frame_len as usize - held);
            }
            return None;
        }
        let mut payload = buffer_split_to(src, frame_len as usize);
        buffer_advance(&mut payload, HEADER_LEN);
        assert(buffered(payload) =~= first_payload(buffered(*old(src))));
        Some(payload)
    }
}

/// A frame is four bytes and the payload. The four bytes, the most significant one first, are the
/// length of the payload; and what is received is read by them.
pub proof fn law_frame_is_length_and_payload(payload: Seq<u8>, bytes: Seq<u8>)
    requires
        payload.len() < 0x1_0000_0000,
    ensures
        frame(payload).len() == 4 + payload.len(),
        frame(payload)[0] * 0x100_0000 + frame(payload)[1] * 0x1_0000 + frame(payload)[2] * 0x100
            + frame(payload)[3] == payload.len(),
        frame(payload).skip(4) == payload,
        has_frame(bytes) <==> bytes.len() >= 4 && bytes.len() >= 4 + bytes[0] * 0x100_0000
            + bytes[1] * 0x1_0000 + bytes[2] * 0x100 + bytes[3],
        has_frame(bytes) ==> first_payload(bytes).len() == bytes[0] * 0x100_0000 + bytes[1]
            * 0x1_0000 + bytes[2] * 0x100 + bytes[3],
        has_frame(bytes) ==> bytes.take(4) + first_payload(bytes) + after_first_frame(bytes)
            == bytes,
{
    assert(payload.len() % 0x1_0000_0000 == payload.len());
    assert(frame(payload).skip(4) =~= payload);
    if has_frame(bytes) {
        assert(bytes.take(4) + first_payload(bytes) + after_first_frame(bytes) =~= bytes);
    }
}

/// Messages have the same name exactly if they are of the same variant.
pub proof fn law_names_tell_variants_apart(left: MessageView, right: MessageView)
    ensures
        left.variant_name() == right.variant_name() <==> {
            ||| left is AppendEntries && right is AppendEntries
            ||| left is AppendEntriesResponse && right is AppendEntriesResponse
            ||| left is RequestVote && right is RequestVote
            ||| left is RequestVoteResponse && right is RequestVoteResponse
            ||| left is ClientRequest && right is ClientRequest
            ||| left is ClientResponse && right is ClientResponse
            ||| left is Hello && right is Hello
            ||| left is HelloClient && right is HelloClient
        },
{
    reveal_strlit("AppendEntriesType");
    reveal_strlit("AppendEntriesResponseType");
    reveal_strlit("RequestVoteType");
    reveal_strlit("RequestVoteResponseType");
    reveal_strlit("ClientRequestType");
    reveal_strlit("ClientResponseType");
    reveal_strlit("HelloType");
    reveal_strlit("HelloClientType");
    assert("AppendEntriesType"@.len() == 17);
    assert("AppendEntriesResponseType"@.len() == 25);
    assert("RequestVoteType"@.len() == 15);
    assert("RequestVoteResponseType"@.len() == 23);
    assert("ClientRequestType"@.len() == 17);
    assert("ClientResponseType"@.len() == 18);
    assert("HelloType"@.len() == 9);
    assert("HelloClientType"@.len() == 15);
    assert("AppendEntriesType"@[0] != "ClientRequestType"@[0]);
    assert("RequestVoteType"@[0] != "HelloClientType"@[0]);
}

/// What is written is read: a frame at the front of what has been received gives its payload
/// back, and leaves exactly what follows it, whatever that is. The payload's length has to fit
/// into the four bytes that announce it.
pub proof fn law_encoded_frame_decodes(payload: Seq<u8>, rest: Seq<u8>)
    requires
        payload.len() < 0x1_0000_0000,
    ensures
        has_frame(frame(payload) + rest),
        first_payload(frame(payload) + rest) == payload,
        after_first_frame(frame(payload) + rest) == rest,
{
    let bytes = frame(payload) + rest;
    let n = payload.len() as u32;
    assert(payload.len() % 0x1_0000_0000 == payload.len());
    assert(announced_len(bytes) == n);
    assert(first_payload(bytes) =~= payload);
    assert(after_first_frame(bytes) =~= rest);
}

/// Frames that follow each other are read one after the other.
pub proof fn law_frames_decode_in_order(first: Seq<u8>, second: Seq<u8>, rest: Seq<u8>)
    requires
        first.len() < 0x1_0000_0000,
        second.len() < 0x1_0000_0000,
    ensures
        ({
            let bytes = frame(first) + frame(second) + rest;
            let remaining = after_first_frame(bytes);
            &&& has_frame(bytes) && first_payload(bytes) == first
            &&& has_frame(remaining) && first_payload(remaining) == second
            &&& after_first_frame(remaining) == rest
        }),
{
    assert(frame(first) + frame(second) + rest =~= frame(first) + (frame(second) + rest));
    law_encoded_frame_decodes(first, frame(second) + rest);
    law_encoded_frame_decodes(second, rest);
}

/// A frame that has not been received in full is not read.
pub proof fn law_partial_frame_waits(payload: Seq<u8>, received: int)
    requires
        payload.len() < 0x1_0000_0000,
        0 <= received < frame(payload).len(),
    ensures
        !has_frame(frame(payload).take(received)),
{
    let bytes = frame(payload).take(received);
    if bytes.len() >= HEADER_LEN {
        law_encoded_frame_decodes(payload, Seq::empty());
        assert(frame(payload) + Seq::<u8>::empty() =~= frame(payload));
        assert(announced_len(bytes) == announced_len(frame(payload)));
        assert(payload.len() % 0x1_0000_0000 == payload.len());
    }
}

} // verus!
