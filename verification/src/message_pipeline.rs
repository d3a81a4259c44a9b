//! A message channel in both directions, and one to test with.

use crate::codec::{AppendEntries, AppendEntriesView, Message, MessageView};
use crate::server::{LogEntry, NodeId};
use vstd::prelude::*;

verus! {

/// A codec with the two ends of a connection's channels.
pub struct MessagePipeline<C, T, R> {
    pub codec: C,
    pub tx: T,
    pub rx: R,
}

impl<C, T, R> MessagePipeline<C, T, R> {
    /// The codec and the two ends together.
    pub fn new(codec: C, tx: T, rx: R) -> (pipeline: Self)
        ensures
            pipeline == (MessagePipeline { codec, tx, rx }),
    {
        MessagePipeline { codec, tx, rx }
    }
}

/// The two ends of channels that stand for a connection.
pub struct MockMessagePipeline<T, R> {
    pub tx: T,
    pub rx: R,
}

impl<T, R> MockMessagePipeline<T, R> {
    /// The two ends together.
    pub fn new(tx: T, rx: R) -> (pipeline: Self)
        ensures
            pipeline == (MockMessagePipeline { tx, rx }),
    {
        MockMessagePipeline { tx, rx }
    }

    /// A heartbeat of the node 0 in the term 0.
    pub fn recv_mock_heartbeat(&self) -> (heartbeat: Message)
        ensures
            heartbeat@ == MessageView::AppendEntries(
                AppendEntriesView {
                    term: 0,
                    leader_id: NodeId(0),
                    prev_log_index: 0,
                    prev_log_term: 0,
                    entries: Seq::empty(),
                    leader_commit: 0,
                },
            ),
    {
        let entries: Vec<LogEntry> = Vec::new();
        assert(entries@ =~= Seq::<LogEntry>::empty());
        Message::AppendEntriesType(
            AppendEntries {
                term: 0,
                leader_id: NodeId::new(0),
                prev_log_index: 0,
                prev_log_term: 0,
                entries,
                leader_commit: 0,
            },
        )
    }
}

} // verus!
