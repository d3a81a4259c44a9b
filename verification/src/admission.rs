//! Whether a node can handle a message: the conditions of the handlers, as functions to call.

use crate::codec::{
    AppendEntries, AppendEntriesResponse, ClientRequest, Message, RequestVote, RequestVoteResponse,
};
use crate::log::{merge_plan, mergeable};
use crate::server::{Event, Id, Incoming, LogCommand, LogEntry, NodeId, RaftState, Server};
use crate::state_machine::StateMachine;
use vstd::prelude::*;

verus! {

/// The longest log, as the positions of its entries are counted in an `i32`.
const MAX_LOG_LEN: usize = 0x7fff_ffff;

impl<S: StateMachine> Server<S> {
    /// Whether the node can handle `event`.
    pub fn accepts_event(&self, event: &Event) -> (yes: bool)
        requires
            self@.wf(),
        ensures
            yes == self@.accepts_event(event@),
    {
        match event {
            Event::Message(incoming) => self.accepts(incoming),
            _ => true,
        }
    }

    /// Whether the node can handle `incoming`.
    pub fn accepts(&self, incoming: &Incoming) -> (yes: bool)
        requires
            self@.wf(),
        ensures
            yes == self@.accepts(incoming@),
    {
        match &incoming.msg {
            Message::AppendEntriesType(msg) => self.accepts_entries(incoming.from, msg),
            Message::AppendEntriesResponseType(msg) => self.accepts_answer(incoming.from, msg),
            Message::RequestVoteType(msg) => self.accepts_vote_request(msg),
            Message::RequestVoteResponseType(msg) => self.accepts_vote(msg),
            Message::ClientRequestType(msg) => self.accepts_client_request(msg),
            _ => true,
        }
    }

    /// Whether a request for this node's vote can be decided.
    pub fn accepts_vote_request(&self, msg: &RequestVote) -> (yes: bool)
        ensures
            yes == self@.accepts_vote_request(*msg),
    {
        if msg.term < self.state.current_term {
            return true;
        }
        match self.state.voted_for {
            Some(voted_for) => voted_for != msg.candidate_id || self.log.len() > 0,
            None => true,
        }
    }

    /// Whether one more vote can be counted.
    pub fn accepts_vote(&self, msg: &RequestVoteResponse) -> (yes: bool)
        ensures
            yes == self@.accepts_vote(*msg),
    {
        msg.term > self.state.current_term || !msg.vote_granted || self.state.votes_received
            < u32::MAX
    }

    /// Whether the entries of a replication request can be taken in, where they are.
    pub fn accepts_entries(&self, from: Id, msg: &AppendEntries) -> (yes: bool)
        ensures
            yes == self@.accepts_entries(from, msg@),
    {
        if let Id::Client(_) = from {
            return true;
        }
        if msg.term < self.state.current_term || !self.prev_log_matches(msg) {
            return true;
        }
        if msg.term > self.state.current_term && self.state.state != RaftState::Follower {
            return true;
        }
        msg.entries.len() == 0 || can_merge(&self.log, &msg.entries)
    }

    /// Whether a client's request can be served, where it is.
    pub fn accepts_client_request(&self, msg: &ClientRequest) -> (yes: bool)
        requires
            self@.wf(),
        ensures
            yes == self@.accepts_client_request(*msg),
    {
        if self.state.state != RaftState::Leader {
            return true;
        }
        match msg.command {
            LogCommand::Put { .. } => self.accepts_command(),
            _ => true,
        }
    }

    /// Whether an entry can be appended and replicated.
    fn accepts_command(&self) -> (yes: bool)
        requires
            self@.wf(),
        ensures
            yes == self@.accepts_command(),
    {
        if self.log.len() >= MAX_LOG_LEN {
            return false;
        }
        let peers = self.config.peer_node_addresses();
        let ghost addresses = self.config.peer_addresses@;
        let mut k: usize = 0;
        while k < peers.len()
            invariant
                k <= peers.len(),
                self@.wf(),
                forall|i: int|
                    0 <= i < peers@.len() ==> addresses.contains_key((#[trigger] peers@[i]).0.0),
                addresses == self@.config.peer_addresses@,
                forall|i: int|
                    0 <= i < k && (#[trigger] peers@[i]).0 != self@.id
                        ==> self@.can_replicate_to(peers@[i].0),
            decreases peers.len() - k,
        {
            let peer = peers[k].0;
            if peer != self.id && !self.can_replicate_to(peer) {
                assert(addresses.contains_key(peers@[k as int].0.0) && NodeId(
                    peers@[k as int].0.0,
                ) != self@.id);
                return false;
            }
            k = k + 1;
        }
        assert forall|id: u64| #[trigger] addresses.contains_key(id) && NodeId(id)
            != self@.id implies self@.can_replicate_to(NodeId(id)) by {
            let i = choose|i: int|
                0 <= i < peers@.len() && peers@[i] == (NodeId(id), addresses[id]);
            assert(peers@[i].0 == NodeId(id));
        }
        true
    }

    /// Whether the next entry can be replicated to `peer`.
    fn can_replicate_to(&self, peer: NodeId) -> (yes: bool)
        requires
            self@.wf(),
        ensures
            yes == self@.can_replicate_to(peer),
    {
        peer.0 <= self.config.total_nodes as u64 && self.state.next_index[peer.as_usize()]
            <= self.log.len() as u64 + 1
    }

    /// Whether an answer to a replication request can be taken into account, where it is.
    pub fn accepts_answer(&self, from: Id, msg: &AppendEntriesResponse) -> (yes: bool)
        requires
            self@.wf(),
        ensures
            yes == self@.accepts_answer(from, *msg),
    {
        if self.state.state != RaftState::Leader || msg.term > self.state.current_term {
            return true;
        }
        let peer = match from {
            Id::Peer(peer) => peer,
            Id::Client(_) => {
                return true;
            },
        };
        if peer.0 > self.config.total_nodes as u64 {
            return false;
        }
        let i = peer.as_usize();
        if !msg.success {
            let next = self.state.next_index[i];
            let retry_index = if next > 0 {
                next - 1
            } else {
                0
            };
            return retry_index < self.log.len() as u64 && (!self.to_network.open
                || self.can_count_replicas());
        }
        proof {
            let confirmed = self@.confirmed_by(peer);
            assert(confirmed.can_count_replicas() == self@.can_count_replicas());
        }
        if !self.can_count_replicas() {
            return false;
        }
        if self.id.0 <= self.config.total_nodes as u64 {
            return true;
        }
        let mut match_index = self.state.match_index.clone();
        assert(match_index@ =~= self@.match_index);
        match_index[i] = self.state.last_sent_index[i];
        self.find_committable(&match_index).is_none()
    }

    /// Whether replicas can be counted for the positions beyond the commit index.
    fn can_count_replicas(&self) -> (yes: bool)
        requires
            self@.wf(),
        ensures
            yes == self@.can_count_replicas(),
    {
        if self.log.len() == 0 && self.state.commit_index < 0 {
            return false;
        }
        if self.config.total_nodes >= 2 {
            return true;
        }
        let mut n = (self.state.commit_index + 1) as usize;
        while n < self.log.len()
            invariant
                self@.wf(),
                self@.config.total_nodes < 2,
                self@.commit_index < n,
                forall|m: int|
                    self@.commit_index < m < n && m < self@.log.len() ==> (
                    #[trigger] self@.log[m]).term != self@.current_term,
            decreases self.log.len() - n,
        {
            if self.log[n].term == self.state.current_term {
                assert(self@.log[n as int].term == self@.current_term);
                return false;
            }
            n = n + 1;
        }
        true
    }
}

/// Whether `entries` can be merged into `log`.
fn can_merge(log: &Vec<LogEntry>, entries: &Vec<LogEntry>) -> (yes: bool)
    ensures
        yes == mergeable(log@, entries@),
{
    let mut kept = log.len();
    let mut missing: Vec<u32> = Vec::new();
    let mut i: usize = 0;
    while i < entries.len()
        invariant
            i <= entries.len(),
            kept <= log.len(),
            ({
                let plan = merge_plan(log@, entries@.take(i as int));
                &&& kept == plan.kept
                &&& missing@.len() == plan.missing.len()
                &&& missing@.len() <= i
                &&& forall|j: int|
                    0 <= j < missing@.len() ==> (#[trigger] missing@[j])
                        == plan.missing[j].index
            }),
        decreases entries.len() - i,
    {
        let entry = &entries[i];
        proof {
            let next = entries@.take(i + 1);
            assert(next.drop_last() =~= entries@.take(i as int));
            assert(next.last() == *entry);
        }
        let index = entry.index as usize;
        if index < kept {
            if log[index].term != entry.term {
                kept = index;
                missing.push(entry.index);
            }
        } else {
            missing.push(entry.index);
        }
        i = i + 1;
    }
    assert(entries@.take(i as int) =~= entries@);
    let ghost plan = merge_plan(log@, entries@);
    if kept > MAX_LOG_LEN || missing.len() > MAX_LOG_LEN - kept {
        return false;
    }
    let mut k: usize = 0;
    while k < missing.len()
        invariant
            k <= missing.len(),
            plan == merge_plan(log@, entries@),
            kept == plan.kept,
            kept + missing@.len() <= MAX_LOG_LEN,
            missing@.len() == plan.missing.len(),
            forall|j: int|
                0 <= j < missing@.len() ==> (#[trigger] missing@[j]) == plan.missing[j].index,
            forall|j: int|
                0 <= j < k ==> (#[trigger] plan.missing[j]).index <= plan.kept + j,
        decreases missing.len() - k,
    {
        if missing[k] as usize > kept + k {
            assert(plan.missing[k as int].index > plan.kept + k);
            return false;
        }
        k = k + 1;
    }
    true
}

} // verus!
