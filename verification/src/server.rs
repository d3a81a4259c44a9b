//! A Raft node: the roles of follower, candidate and leader, and the replication of the log.

use crate::codec::{Message, MessageView};
use crate::config::ServerConfig;
use crate::model::ServerView;
use crate::state_machine::StateMachine;
use crate::timing::clock_now;
use tokio::time::Instant;
use vstd::prelude::*;

verus! {

////////////////////////////////////////////////////////////////////////////////////////////////
// Names, entries, envelopes
////////////////////////////////////////////////////////////////////////////////////////////////

/// Whom a message comes from.
#[derive(Clone, Debug, Copy, PartialEq, Eq, Structural)]
pub enum Id {
    Client(ClientId),
    Peer(NodeId),
}

/// The id of a node.
#[derive(Clone, Copy, PartialEq, PartialOrd, Debug, Eq, Hash, Structural)]
pub struct NodeId(pub u64);

impl NodeId {
    /// The node with the number `id`.
    pub fn new(id: u64) -> (node: Self)
        ensures
            node == NodeId(id),
    {
        NodeId(id)
    }

    /// The id as a place in an array.
    pub fn as_usize(&self) -> (place: usize)
        requires
            self.0 <= usize::MAX,
        ensures
            place == self.0,
    {
        self.0 as usize
    }
}

/// The id of a client.
#[derive(Clone, Copy, PartialEq, Debug, Eq, Hash, Structural)]
pub struct ClientId(pub u32);

impl ClientId {
    /// The client with the number `id`.
    pub fn new(id: u32) -> (client: Self)
        ensures
            client == ClientId(id),
    {
        ClientId(id)
    }
}

/// The role of a node.
#[derive(PartialEq, Eq, Debug, Clone, Copy, Structural)]
pub enum RaftState {
    Follower,
    Candidate,
    Leader,
}

/// A command to the state machine.
#[derive(Debug, PartialEq)]
pub enum LogCommand {
    Put { key: String, value: String },
    Get { key: String },
    Delete { key: String },
}

/// An entry of the replicated log.
#[derive(Debug, PartialEq)]
pub struct LogEntry {
    pub term: u32,
    pub command: LogCommand,
    pub index: u32,
    pub client_id: u32,
    pub request_id: u32,
}

impl Clone for LogCommand {
    fn clone(&self) -> (copy: Self)
        ensures
            copy == *self,
    {
        match self {
            LogCommand::Put { key, value } => LogCommand::Put {
                key: key.clone(),
                value: value.clone(),
            },
            LogCommand::Get { key } => LogCommand::Get { key: key.clone() },
            LogCommand::Delete { key } => LogCommand::Delete { key: key.clone() },
        }
    }
}

impl Clone for LogEntry {
    fn clone(&self) -> (copy: Self)
        ensures
            copy == *self,
    {
        LogEntry {
            term: self.term,
            command: self.command.clone(),
            index: self.index,
            client_id: self.client_id,
            request_id: self.request_id,
        }
    }
}

/// Whom a message goes to.
#[derive(Clone, Debug, Copy, PartialEq, Eq, Structural)]
pub enum Destination {
    Client(ClientId),
    Node(NodeId),
    Broadcast,
}

/// A message with its destination.
#[derive(Debug)]
pub struct Outgoing {
    pub dest: Destination,
    pub msg: Message,
}

/// A message with its sender.
#[derive(Clone, Debug)]
pub struct Incoming {
    pub from: Id,
    pub msg: Message,
}

/// An [`Outgoing`] in the model.
pub struct OutgoingView {
    pub dest: Destination,
    pub msg: MessageView,
}

/// An [`Incoming`] in the model.
pub struct IncomingView {
    pub from: Id,
    pub msg: MessageView,
}

impl View for Outgoing {
    type V = OutgoingView;

    open spec fn view(&self) -> OutgoingView {
        OutgoingView { dest: self.dest, msg: self.msg@ }
    }
}

impl View for Incoming {
    type V = IncomingView;

    open spec fn view(&self) -> IncomingView {
        IncomingView { from: self.from, msg: self.msg@ }
    }
}

/// What a node waits for.
#[derive(Debug)]
pub enum Event {
    /// A message has come in.
    Message(Incoming),
    /// No message will come in any more.
    ChannelClosed,
    /// The time that the node was to wait is over.
    Timeout,
}

/// An [`Event`] in the model.
pub enum EventView {
    Message(IncomingView),
    ChannelClosed,
    Timeout,
}

impl View for Event {
    type V = EventView;

    open spec fn view(&self) -> EventView {
        match *self {
            Event::Message(incoming) => EventView::Message(incoming@),
            Event::ChannelClosed => EventView::ChannelClosed,
            Event::Timeout => EventView::Timeout,
        }
    }
}

/// Why a message was not handled to the end.
#[derive(Debug, Clone, Copy, PartialEq, Eq, Structural)]
pub enum ServerError {
    /// The handler is for messages of another kind.
    UnexpectedMessage,
    /// The network takes no more messages.
    NetworkClosed,
}

/// The messages on their way from a node to the network, in the order in which they were sent.
#[derive(Debug)]
pub struct Outbox {
    pub queue: Vec<Outgoing>,
    pub open: bool,
}

impl View for Outbox {
    type V = Seq<OutgoingView>;

    open spec fn view(&self) -> Seq<OutgoingView> {
        self.queue@.map_values(|out: Outgoing| out@)
    }
}

impl Outbox {
    /// An empty outbox to a network that takes messages.
    pub fn new() -> (outbox: Self)
        ensures
            outbox@ == Seq::<OutgoingView>::empty(),
            outbox.open,
    {
        let outbox = Outbox { queue: Vec::new(), open: true };
        assert(outbox@ =~= Seq::<OutgoingView>::empty());
        outbox
    }

    /// Adds a message, unless the network is closed.
    pub fn send(&mut self, out: Outgoing) -> (result: Result<(), ServerError>)
        ensures
            final(self).open == old(self).open,
            old(self).open ==> final(self)@ == old(self)@.push(out@) && result == Ok::<
                (),
                ServerError,
            >(()),
            !old(self).open ==> final(self)@ == old(self)@ && result == Err::<(), ServerError>(
                ServerError::NetworkClosed,
            ),
    {
        if !self.open {
            return Err(ServerError::NetworkClosed);
        }
        let ghost sent = out@;
        self.queue.push(out);
        assert(self@ =~= old(self)@.push(sent));
        Ok(())
    }

    /// Takes all messages out.
    pub fn drain(&mut self) -> (messages: Vec<Outgoing>)
        ensures
            messages@ == old(self).queue@,
            final(self)@ == Seq::<OutgoingView>::empty(),
            final(self).open == old(self).open,
    {
        let mut messages: Vec<Outgoing> = Vec::new();
        messages.append(&mut self.queue);
        assert(messages@ =~= old(self).queue@);
        assert(self@ =~= Seq::<OutgoingView>::empty());
        messages
    }

    /// From now on the network takes no messages.
    pub fn close(&mut self)
        ensures
            final(self)@ == old(self)@,
            !final(self).open,
    {
        self.open = false;
    }
}

////////////////////////////////////////////////////////////////////////////////////////////////
// The node
////////////////////////////////////////////////////////////////////////////////////////////////

/// A Raft node.
pub struct Server<S> {
    pub id: NodeId,
    pub state: ServerState<S>,
    pub config: ServerConfig,
    pub to_network: Outbox,
    pub log: Vec<LogEntry>,
}

/// The part of a node's state that is not its log. Positions in the log start at 0; -1 stands
/// for none.
pub struct ServerState<S> {
    pub state: RaftState,
    pub state_machine: S,
    pub current_term: u32,
    pub voted_for: Option<NodeId>,
    pub commit_index: i32,
    pub last_applied: i32,
    /// By node id: the position from which a node is to be sent the log.
    pub next_index: Vec<u64>,
    /// By node id: the position up to which a node has confirmed the log.
    pub match_index: Vec<i32>,
    /// By node id: the last position that a node was sent.
    pub last_sent_index: Vec<i32>,
    pub last_heartbeat: Instant,
    pub votes_received: u32,
}

impl<S: StateMachine> View for Server<S> {
    type V = ServerView<S>;

    open spec fn view(&self) -> ServerView<S> {
        ServerView {
            id: self.id,
            config: self.config,
            role: self.state.state,
            state_machine: self.state.state_machine,
            current_term: self.state.current_term,
            voted_for: self.state.voted_for,
            commit_index: self.state.commit_index,
            last_applied: self.state.last_applied,
            next_index: self.state.next_index@,
            match_index: self.state.match_index@,
            last_sent_index: self.state.last_sent_index@,
            last_heartbeat: self.state.last_heartbeat,
            votes_received: self.state.votes_received,
            log: self.log@,
            outbox: self.to_network@,
            open: self.to_network.open,
        }
    }
}

impl<S: StateMachine> ServerState<S> {
    /// The state of a fresh follower. The arrays get one place more than there are peers, so
    /// that node ids may start at 0 or at 1.
    pub fn new(state_machine: S, num_peers: usize) -> (state: Self)
        requires
            (num_peers + 1) * 8 <= isize::MAX,
        ensures
            state.state == RaftState::Follower,
            state.state_machine == state_machine,
            state.current_term == 0,
            state.voted_for is None,
            state.commit_index == -1,
            state.last_applied == -1,
            state.next_index@ == Seq::new((num_peers + 1) as nat, |i: int| 0u64),
            state.match_index@ == Seq::new((num_peers + 1) as nat, |i: int| (-1) as i32),
            state.last_sent_index@ == Seq::new((num_peers + 1) as nat, |i: int| 0i32),
            state.votes_received == 0,
    {
        let size = num_peers + 1;
        ServerState {
            state: RaftState::Follower,
            state_machine,
            current_term: 0,
            voted_for: None,
            commit_index: -1,
            last_applied: -1,
            next_index: vec![0u64; size],
            match_index: vec![-1i32; size],
            last_sent_index: vec![0i32; size],
            last_heartbeat: clock_now(),
            votes_received: 0,
        }
    }
}

impl<S: StateMachine> Server<S> {
    /// A fresh follower with an empty log.
    pub fn new(id: NodeId, config: ServerConfig, state_machine: S) -> (server: Self)
        requires
            (config.total_nodes + 1) * 8 <= isize::MAX,
        ensures
            server@.wf(),
            server@ == ServerView::initial(
                id,
                config,
                state_machine,
                server.state.last_heartbeat,
            ),
    {
        let state = ServerState::new(state_machine, config.total_nodes as usize);
        let server = Server { id, state, config, to_network: Outbox::new(), log: Vec::new() };
        assert(server@.log =~= Seq::<LogEntry>::empty());
        server
    }

    /// Handles a message.
    pub fn recieve_rpc(&mut self, incoming: Incoming) -> (result: Result<(), ServerError>)
        requires
            old(self)@.wf(),
            old(self)@.accepts(incoming@),
        ensures
            final(self)@.wf(),
            old(self)@.handling(incoming@, final(self)@, result),
    {
        let from = incoming.from;
        match incoming.msg {
            Message::AppendEntriesType(msg) => self.handle_append_entries(
                Incoming { from, msg: Message::AppendEntriesType(msg) },
            ),
            Message::AppendEntriesResponseType(msg) => self.handle_append_entries_response(
                Incoming { from, msg: Message::AppendEntriesResponseType(msg) },
            ),
            Message::RequestVoteType(msg) => self.handle_request_vote_rpc(msg),
            Message::RequestVoteResponseType(msg) => {
                self.handle_request_vote_response_rpc(msg);
                Ok(())
            },
            Message::ClientRequestType(msg) => self.handle_client_request(msg),
            _ => Ok(()),
        }
    }

    /// Hands a message to the network.
    pub(crate) fn send(&mut self, dest: Destination, msg: Message) -> (result: Result<
        (),
        ServerError,
    >)
        ensures
            (final(self)@, result) == old(self)@.sending(OutgoingView { dest, msg: msg@ }),
    {
        self.to_network.send(Outgoing { dest, msg })
    }
}

} // verus!
