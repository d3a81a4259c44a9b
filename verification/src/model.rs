//! The mathematical model of a node: its state as one value, and for each event the states and
//! answers that the event may lead to.

use crate::codec::{
    AppendEntriesResponse, AppendEntriesView, ClientRequest, ClientResponse, MessageView,
    RequestVote, RequestVoteResponse,
};
use crate::config::{lists_peers, ServerConfig};
use crate::log::{agrees_at, merge_plan, merged, mergeable};
use crate::server::{
    ClientId, Destination, EventView, Id, IncomingView, LogCommand, LogEntry, NodeId, OutgoingView,
    RaftState, ServerError,
};
use crate::state_machine::{StateMachine, StateMachineError};
use tokio::time::Instant;
use vstd::math::{max, min};
use vstd::prelude::*;

verus! {

/// The state of a node.
pub struct ServerView<S> {
    pub id: NodeId,
    pub config: ServerConfig,
    pub role: RaftState,
    pub state_machine: S,
    pub current_term: u32,
    pub voted_for: Option<NodeId>,
    pub commit_index: i32,
    pub last_applied: i32,
    pub next_index: Seq<u64>,
    pub match_index: Seq<i32>,
    pub last_sent_index: Seq<i32>,
    pub last_heartbeat: Instant,
    pub votes_received: u32,
    pub log: Seq<LogEntry>,
    /// What the node has handed to the network and the network has not taken yet.
    pub outbox: Seq<OutgoingView>,
    /// Whether the network still takes messages.
    pub open: bool,
}

////////////////////////////////////////////////////////////////////////////////////////////////
// Applying entries to the state machine
////////////////////////////////////////////////////////////////////////////////////////////////

/// Applying `command` to `before` may leave `after` and return `result`. A lookup changes
/// nothing.
pub open spec fn command_applied<S: StateMachine>(
    before: S,
    command: LogCommand,
    after: S,
    result: Result<(), StateMachineError>,
) -> bool {
    match command {
        LogCommand::Put { key, value } => S::set_applied(before, key@, value@, after, result),
        LogCommand::Delete { key } => S::delete_applied(before, key@, after, result),
        LogCommand::Get { key } => after == before && result == Ok::<(), StateMachineError>(()),
    }
}

/// Applying the entries after position `from` up to and with position `upto`, each once, in the
/// order of the log and each with success, may lead from `before` to `after`.
pub open spec fn entries_applied<S: StateMachine>(
    log: Seq<LogEntry>,
    from: int,
    upto: int,
    before: S,
    after: S,
) -> bool
    decreases upto - from,
{
    if upto <= from {
        upto == from && after == before
    } else {
        exists|between: S|
            {
                &&& entries_applied(log, from, upto - 1, before, between)
                &&& #[trigger] command_applied(between, log[upto].command, after, Ok(()))
            }
    }
}

/// How far entries can be applied, from position `from` with `commit` committed: to the commit
/// index or the end of the log, and never backwards.
pub open spec fn apply_target(log: Seq<LogEntry>, from: int, commit: int) -> int {
    let end = if commit < log.len() {
        commit
    } else {
        log.len() - 1
    };
    if from < end {
        end
    } else {
        from
    }
}

/// Applying what is committed and not applied yet, from position `from`, may lead from `before`
/// to `after` with position `upto` the last one applied. Either everything was applied, or the
/// state machine refused the entry after `upto`, and what it then returned is returned.
pub open spec fn committed_applied<S: StateMachine>(
    log: Seq<LogEntry>,
    from: int,
    commit: int,
    before: S,
    upto: int,
    after: S,
    result: Result<(), StateMachineError>,
) -> bool {
    let target = apply_target(log, from, commit);
    match result {
        Ok(_) => upto == target && entries_applied(log, from, target, before, after),
        Err(_) => {
            &&& from <= upto < target
            &&& exists|between: S|
                {
                    &&& entries_applied(log, from, upto, before, between)
                    &&& #[trigger] command_applied(between, log[upto + 1].command, after, result)
                }
        },
    }
}

/// One attempt to apply what is left up to position `n`, from position `from`, may lead from
/// `before` to `after` with position `upto` the last one applied. Just before the command at `n`
/// the key that it deletes, if it deletes one, is looked up. `existed` says that the key was
/// there and has been deleted.
pub open spec fn attempt_applied<S: StateMachine>(
    log: Seq<LogEntry>,
    from: int,
    n: int,
    before: S,
    upto: int,
    after: S,
    existed: bool,
) -> bool {
    if from >= n {
        upto == from && after == before && !existed
    } else {
        exists|reached: int, between: S, earlier: Result<(), StateMachineError>|
            {
                &&& #[trigger] committed_applied(
                    log,
                    from,
                    n - 1,
                    before,
                    reached,
                    between,
                    earlier,
                )
                &&& match earlier {
                    Ok(_) => last_command_applied(log, n, between, upto, after, existed),
                    Err(_) => upto == reached && after == between && !existed,
                }
            }
    }
}

/// Applying the command at position `n`, with everything before it applied, may lead from
/// `before` to `after` with position `upto` the last one applied. `existed` says that the command
/// has deleted a key that a lookup on `before` found.
pub open spec fn last_command_applied<S: StateMachine>(
    log: Seq<LogEntry>,
    n: int,
    before: S,
    upto: int,
    after: S,
    existed: bool,
) -> bool {
    exists|found: Option<Seq<char>>, result: Result<(), StateMachineError>|
        {
            &&& #[trigger] key_looked_up(before, log[n].command, found)
            &&& #[trigger] command_applied(before, log[n].command, after, result)
            &&& upto == if result is Ok {
                n
            } else {
                n - 1
            }
            &&& existed == (found is Some && result is Ok)
        }
}

/// Looking up the key that `command` deletes may give `found`. Other commands delete none.
pub open spec fn key_looked_up<S: StateMachine>(
    machine: S,
    command: LogCommand,
    found: Option<Seq<char>>,
) -> bool {
    match command {
        LogCommand::Delete { key } => S::lookup_gives(machine, key@, found),
        _ => found is None,
    }
}

/// As many attempts as `rounds` to apply what is left up to position `n`, one after the other,
/// the failures of all of them ignored. `existed` says that one of them, of which there is no
/// more than one, has deleted at `n` a key that was there.
pub open spec fn attempts_applied<S: StateMachine>(
    log: Seq<LogEntry>,
    from: int,
    n: int,
    rounds: int,
    before: S,
    upto: int,
    after: S,
    existed: bool,
) -> bool
    decreases rounds,
{
    if rounds <= 1 {
        attempt_applied(log, from, n, before, upto, after, existed)
    } else {
        exists|mid: int, between: S, latest: bool|
            {
                &&& #[trigger] attempt_applied(log, mid, n, between, upto, after, latest)
                &&& latest ==> existed
                &&& attempts_applied(
                    log,
                    from,
                    n,
                    rounds - 1,
                    before,
                    mid,
                    between,
                    existed && !latest,
                )
            }
    }
}

////////////////////////////////////////////////////////////////////////////////////////////////
// Committing entries
////////////////////////////////////////////////////////////////////////////////////////////////

/// How many nodes have confirmed the log up to position `n`.
pub open spec fn replicas(match_index: Seq<i32>, n: int) -> nat {
    match_index.filter(|confirmed: i32| confirmed >= n).len()
}

/// Position `n` can become the commit index: it is beyond the present one, its entry is of the
/// present term, and enough nodes have confirmed it that with the leader they are a majority.
pub open spec fn committable(
    log: Seq<LogEntry>,
    match_index: Seq<i32>,
    term: u32,
    commit: int,
    total_nodes: u32,
    n: int,
) -> bool {
    &&& commit < n < log.len()
    &&& log[n].term == term
    &&& replicas(match_index, n) > total_nodes as int / 2 - 1
}

/// The first position from `n` on that can become the commit index.
pub open spec fn first_committable(
    log: Seq<LogEntry>,
    match_index: Seq<i32>,
    term: u32,
    commit: int,
    total_nodes: u32,
    n: int,
) -> Option<int>
    decreases log.len() - n,
{
    if n >= log.len() {
        None
    } else if committable(log, match_index, term, commit, total_nodes, n) {
        Some(n)
    } else {
        first_committable(log, match_index, term, commit, total_nodes, n + 1)
    }
}

////////////////////////////////////////////////////////////////////////////////////////////////
// The node
////////////////////////////////////////////////////////////////////////////////////////////////

impl<S: StateMachine> ServerView<S> {
    /// A fresh follower with an empty log.
    pub open spec fn initial(
        id: NodeId,
        config: ServerConfig,
        state_machine: S,
        now: Instant,
    ) -> Self {
        let places = (config.total_nodes + 1) as nat;
        ServerView {
            id,
            config,
            role: RaftState::Follower,
            state_machine,
            current_term: 0,
            voted_for: None,
            commit_index: (-1) as i32,
            last_applied: (-1) as i32,
            next_index: Seq::new(places, |i: int| 0u64),
            match_index: Seq::new(places, |i: int| (-1) as i32),
            last_sent_index: Seq::new(places, |i: int| 0i32),
            last_heartbeat: now,
            votes_received: 0,
            log: Seq::empty(),
            outbox: Seq::empty(),
            open: true,
        }
    }

    /// What holds of a node at all times. The three arrays have a place for each node id from 0
    /// to the number of nodes, and positions in the log can be counted in an `i32`.
    pub open spec fn wf(self) -> bool {
        let places = self.config.total_nodes + 1;
        &&& self.log.len() <= i32::MAX
        &&& self.next_index.len() == places
        &&& self.match_index.len() == places
        &&& self.last_sent_index.len() == places
        &&& forall|i: int| 0 <= i < places ==> (#[trigger] self.next_index[i]) <= i32::MAX
        &&& forall|i: int|
            0 <= i < places ==> 0 <= (#[trigger] self.last_sent_index[i]) < i32::MAX
        &&& -1 <= self.commit_index < i32::MAX
        &&& -1 <= self.last_applied < i32::MAX
    }

    /// Whether the arrays have a place for the node `id`.
    pub open spec fn has_place(self, id: NodeId) -> bool {
        id.0 <= self.config.total_nodes
    }

    /// Handing `out` to the network, which refuses it once it is closed.
    pub open spec fn sending(self, out: OutgoingView) -> (Self, Result<(), ServerError>) {
        if self.open {
            (ServerView { outbox: self.outbox.push(out), ..self }, Ok(()))
        } else {
            (self, Err(ServerError::NetworkClosed))
        }
    }

    /// The term of the last entry of the log, 0 where there is none.
    pub open spec fn last_term(self) -> u32 {
        if self.log.len() == 0 {
            0
        } else {
            self.log.last().term
        }
    }

    //////////////////////////////////////////////////////////////////////////////////////////
    // Elections

    /// The node at the start of an election: one term on, and its vote given to itself.
    pub open spec fn campaigning(self, now: Instant) -> Self {
        ServerView {
            current_term: (self.current_term + 1) as u32,
            last_heartbeat: now,
            voted_for: Some(self.id),
            ..self
        }
    }

    /// A candidate's request for votes.
    pub open spec fn vote_request(self) -> OutgoingView {
        OutgoingView {
            dest: Destination::Broadcast,
            msg: MessageView::RequestVote(
                RequestVote {
                    term: self.current_term,
                    candidate_id: self.id,
                    last_log_index: if self.log.len() == 0 {
                        0
                    } else {
                        (self.log.len() - 1) as i32
                    },
                    last_log_term: self.last_term(),
                },
            ),
        }
    }

    /// Whether the node answers `msg` with its vote. It does not where the candidate's term is
    /// behind. A node that has voted only repeats its vote, and only for a candidate whose log
    /// ends in the same term and no earlier.
    pub open spec fn grants(self, msg: RequestVote) -> bool {
        &&& msg.term >= self.current_term
        &&& match self.voted_for {
            Some(voted_for) => {
                &&& voted_for == msg.candidate_id
                &&& msg.last_log_index >= self.log.last().index as i32
                &&& msg.last_log_term == self.log.last().term
            },
            None => true,
        }
    }

    /// A node that is asked again by the candidate that it voted for compares the ends of the
    /// logs, so it has to have a log.
    pub open spec fn accepts_vote_request(self, msg: RequestVote) -> bool {
        msg.term >= self.current_term && self.voted_for == Some(msg.candidate_id)
            ==> self.log.len() > 0
    }

    /// The node's answer to a request for its vote.
    pub open spec fn answering_vote_request(self, msg: RequestVote) -> (
        Self,
        Result<(), ServerError>,
    ) {
        self.sending(
            OutgoingView {
                dest: Destination::Node(msg.candidate_id),
                msg: MessageView::RequestVoteResponse(
                    RequestVoteResponse {
                        term: self.current_term,
                        vote_granted: self.grants(msg),
                    },
                ),
            },
        )
    }

    /// The node after it has learnt of a higher term from an answer.
    pub open spec fn stepped_down(self, term: u32) -> Self {
        ServerView {
            current_term: term,
            role: RaftState::Follower,
            voted_for: None,
            votes_received: 0,
            ..self
        }
    }

    /// How many votes make a leader.
    pub open spec fn majority(self) -> int {
        self.config.total_nodes as int / 2 + 1
    }

    /// One more vote can be counted.
    pub open spec fn accepts_vote(self, msg: RequestVoteResponse) -> bool {
        msg.term <= self.current_term && msg.vote_granted ==> self.votes_received < u32::MAX
    }

    /// The node after the answer to a request for votes.
    pub open spec fn counting_vote(self, msg: RequestVoteResponse) -> Self {
        if msg.term > self.current_term {
            self.stepped_down(msg.term)
        } else if msg.vote_granted {
            let votes = (self.votes_received + 1) as u32;
            ServerView {
                votes_received: votes,
                role: if votes >= self.majority() {
                    RaftState::Leader
                } else {
                    self.role
                },
                ..self
            }
        } else {
            self
        }
    }

    //////////////////////////////////////////////////////////////////////////////////////////
    // Commitment

    /// The commit index after the news that `leader_commit` is committed, which reaches no
    /// further than the log.
    pub open spec fn commit_index_after(self, leader_commit: i32) -> i32 {
        if leader_commit > self.commit_index && self.log.len() > 0 {
            if leader_commit < self.log.len() {
                leader_commit
            } else {
                (self.log.len() - 1) as i32
            }
        } else {
            self.commit_index
        }
    }

    /// Taking note of `leader_commit` and applying what is committed may lead to `after` and
    /// return `result`. Only the commit index, the position applied and the state machine change.
    pub open spec fn applying(
        self,
        leader_commit: i32,
        after: Self,
        result: Result<(), StateMachineError>,
    ) -> bool {
        let commit = self.commit_index_after(leader_commit);
        &&& after == ServerView {
            commit_index: commit,
            last_applied: after.last_applied,
            state_machine: after.state_machine,
            ..self
        }
        &&& committed_applied(
            self.log,
            self.last_applied as int,
            commit as int,
            self.state_machine,
            after.last_applied as int,
            after.state_machine,
            result,
        )
    }

    //////////////////////////////////////////////////////////////////////////////////////////
    // Following

    /// An answer to the replication request of the node `leader`.
    pub open spec fn replication_answer(self, leader: NodeId, success: bool) -> OutgoingView {
        OutgoingView {
            dest: Destination::Node(leader),
            msg: MessageView::AppendEntriesResponse(
                AppendEntriesResponse { term: self.current_term, success },
            ),
        }
    }

    /// The node refuses a replication request: its term is behind, or the logs do not agree where
    /// it starts.
    pub open spec fn refuses(self, msg: AppendEntriesView) -> bool {
        msg.term < self.current_term || !agrees_at(self.log, msg.prev_log_index, msg.prev_log_term)
    }

    /// A replication request of a higher term makes the node give up being a candidate or a
    /// leader, and the request itself is dropped.
    pub open spec fn abdicates(self, msg: AppendEntriesView) -> bool {
        msg.term > self.current_term && self.role != RaftState::Follower
    }

    /// The node with the term of a request that is not behind. A higher one makes it a follower.
    pub open spec fn adopting_term(self, term: u32) -> Self {
        if term > self.current_term {
            ServerView { current_term: term, role: RaftState::Follower, ..self }
        } else {
            self
        }
    }

    /// Up to which position the node applies its log on a replication request that it takes in,
    /// before it takes in the entries. A heartbeat tells of the leader's commit index. With
    /// entries, news of a commit counts as far as the last of them, and as far as the log is kept;
    /// what the node knew to be committed counts in any case.
    pub open spec fn due(self, msg: AppendEntriesView) -> int {
        if msg.entries.len() == 0 {
            self.commit_index_after(msg.leader_commit) as int
        } else if msg.leader_commit > self.commit_index {
            let kept = merge_plan(self.log, msg.entries).kept;
            max(
                self.commit_index as int,
                min(msg.leader_commit as int, min(kept - 1, msg.entries.last().index as int)),
            )
        } else {
            self.commit_index as int
        }
    }

    /// The node with the entries of a replication request merged into its log, and with the
    /// leader's commit index as far as the last of these entries.
    pub open spec fn extended(self, msg: AppendEntriesView) -> Self {
        let last = msg.entries.last().index as i32;
        ServerView {
            log: merged(self.log, msg.entries),
            commit_index: if msg.leader_commit > self.commit_index {
                if msg.leader_commit < last {
                    msg.leader_commit
                } else {
                    last
                }
            } else {
                self.commit_index
            },
            ..self
        }
    }

    /// Where the entries of a replication request are taken in, they can be.
    pub open spec fn accepts_entries(self, from: Id, msg: AppendEntriesView) -> bool {
        from is Peer && !self.refuses(msg) && !self.abdicates(msg) && msg.entries.len() > 0
            ==> mergeable(self.log, msg.entries)
    }

    /// A replication request from `from` may lead to `after` and return `result`. One from a
    /// client is ignored; a heartbeat is taken note of and not answered.
    pub open spec fn following(
        self,
        from: Id,
        msg: AppendEntriesView,
        after: Self,
        result: Result<(), ServerError>,
    ) -> bool {
        match from {
            Id::Client(_) => after == self && result == Ok::<(), ServerError>(()),
            Id::Peer(leader) => if self.refuses(msg) {
                (after, result) == self.sending(self.replication_answer(leader, false))
            } else if self.abdicates(msg) {
                after == self.adopting_term(msg.term) && result == Ok::<(), ServerError>(())
            } else {
                let adopted = self.adopting_term(msg.term);
                let applied = ServerView {
                    commit_index: if msg.entries.len() == 0 {
                        adopted.commit_index_after(msg.leader_commit)
                    } else {
                        adopted.commit_index
                    },
                    last_applied: after.last_applied,
                    state_machine: after.state_machine,
                    ..adopted
                };
                &&& exists|outcome: Result<(), StateMachineError>| #[trigger]
                    committed_applied(
                        adopted.log,
                        adopted.last_applied as int,
                        adopted.due(msg),
                        adopted.state_machine,
                        after.last_applied as int,
                        after.state_machine,
                        outcome,
                    )
                &&& if msg.entries.len() == 0 {
                    after == applied && result == Ok::<(), ServerError>(())
                } else {
                    let extended = applied.extended(msg);
                    (after, result) == extended.sending(extended.replication_answer(leader, true))
                }
            },
        }
    }

    //////////////////////////////////////////////////////////////////////////////////////////
    // Leading

    /// A heartbeat.
    pub open spec fn heartbeat(self) -> OutgoingView {
        OutgoingView {
            dest: Destination::Broadcast,
            msg: MessageView::AppendEntries(
                AppendEntriesView {
                    term: self.current_term,
                    leader_id: self.id,
                    prev_log_index: (self.log.len() - 1) as i32,
                    prev_log_term: self.last_term(),
                    entries: Seq::empty(),
                    leader_commit: self.commit_index,
                },
            ),
        }
    }

    /// The position after the last one applied.
    pub open spec fn first_unapplied(self) -> u64 {
        if self.last_applied < 0 {
            0
        } else {
            (self.last_applied + 1) as u64
        }
    }

    /// Entering the leader's role may lead to `after`: what is committed has been applied, a
    /// heartbeat has been sent, and every node is taken to have what has been applied here.
    pub open spec fn starting_to_lead(self, after: Self) -> bool {
        let applied = ServerView {
            last_applied: after.last_applied,
            state_machine: after.state_machine,
            ..self
        };
        &&& self.settling(applied)
        &&& after == ServerView {
            outbox: applied.outbox.push(applied.heartbeat()),
            next_index: Seq::new(
                (self.config.total_nodes + 1) as nat,
                |i: int| applied.first_unapplied(),
            ),
            ..applied
        }
    }

    /// The entry that a leader makes of a client's command to set `key` to `value`.
    pub open spec fn new_entry(
        self,
        key: String,
        value: String,
        client_id: u32,
        request_id: u32,
    ) -> LogEntry {
        LogEntry {
            term: self.current_term,
            command: LogCommand::Put { key, value },
            index: self.log.len() as u32,
            client_id,
            request_id,
        }
    }

    /// The replication request for the single `entry` on account of the node `peer`.
    pub open spec fn replication_of(self, entry: LogEntry, peer: NodeId) -> OutgoingView {
        let next = self.next_index[peer.0 as int];
        OutgoingView {
            dest: Destination::Broadcast,
            msg: MessageView::AppendEntries(
                AppendEntriesView {
                    term: self.current_term,
                    leader_id: self.id,
                    prev_log_index: (next - 1) as i32,
                    prev_log_term: if next == 0 {
                        0
                    } else {
                        self.log[next - 1].term
                    },
                    entries: seq![entry],
                    leader_commit: self.commit_index,
                },
            ),
        }
    }

    /// The node that has noted that the log was sent to `peer` up to its end.
    pub open spec fn noting_sent(self, peer: NodeId) -> Self {
        ServerView {
            last_sent_index: self.last_sent_index.update(
                peer.0 as int,
                (self.log.len() - 1) as i32,
            ),
            ..self
        }
    }

    /// One replication request for each of `peers` other than the node itself, in the order of
    /// `peers`, up to the first that the network refuses.
    pub open spec fn replicating(self, entry: LogEntry, peers: Seq<(NodeId, String)>) -> (
        Self,
        Result<(), ServerError>,
    )
        decreases peers.len(),
    {
        if peers.len() == 0 {
            (self, Ok(()))
        } else {
            let (so_far, result) = self.replicating(entry, peers.drop_last());
            let peer = peers.last().0;
            if result is Err || peer == self.id {
                (so_far, result)
            } else {
                so_far.noting_sent(peer).sending(so_far.replication_of(entry, peer))
            }
        }
    }

    /// The arrays have a place for the node `peer`, and the log reaches to what `peer` is to be
    /// sent next, counting one entry that is still to be appended.
    pub open spec fn can_replicate_to(self, peer: NodeId) -> bool {
        &&& self.has_place(peer)
        &&& self.next_index[peer.0 as int] <= self.log.len() + 1
    }

    /// Whether the node can append an entry and replicate it.
    pub open spec fn accepts_command(self) -> bool {
        &&& self.log.len() < i32::MAX
        &&& forall|id: u64| #[trigger]
            self.config.peer_addresses@.contains_key(id) && NodeId(id) != self.id
                ==> self.can_replicate_to(NodeId(id))
    }

    /// Setting `key` to `value` for a client, with the peers taken in the order of `peers`.
    pub open spec fn setting(
        self,
        key: String,
        value: String,
        client_id: u32,
        request_id: u32,
        peers: Seq<(NodeId, String)>,
    ) -> (Self, Result<(), ServerError>) {
        let entry = self.new_entry(key, value, client_id, request_id);
        ServerView { log: self.log.push(entry), ..self }.replicating(entry, peers)
    }

    /// A client's command to set `key` to `value` may lead to `after` and return `result`. In
    /// which order the peers are taken is open.
    pub open spec fn setting_in_some_order(
        self,
        key: String,
        value: String,
        client_id: u32,
        request_id: u32,
        after: Self,
        result: Result<(), ServerError>,
    ) -> bool {
        exists|peers: Seq<(NodeId, String)>|
            {
                &&& lists_peers(self.config.peer_addresses@, peers)
                &&& (after, result) == #[trigger] self.setting(
                    key,
                    value,
                    client_id,
                    request_id,
                    peers,
                )
            }
    }

    /// Where a client's request makes the node append an entry, it can.
    pub open spec fn accepts_client_request(self, msg: ClientRequest) -> bool {
        self.role == RaftState::Leader && msg.command is Put ==> self.accepts_command()
    }

    /// A client's request may lead to `after` and return `result`. Only a leader serves it, and
    /// only if it sets a key.
    pub open spec fn serving(
        self,
        msg: ClientRequest,
        after: Self,
        result: Result<(), ServerError>,
    ) -> bool {
        match msg.command {
            LogCommand::Put { key, value } if self.role == RaftState::Leader => {
                self.setting_in_some_order(
                    key,
                    value,
                    msg.client_id,
                    msg.request_id,
                    after,
                    result,
                )
            },
            _ => after == self && result == Ok::<(), ServerError>(()),
        }
    }

    /// The node after `peer` has confirmed what it was last sent.
    pub open spec fn confirmed_by(self, peer: NodeId) -> Self {
        let i = peer.0 as int;
        ServerView {
            match_index: self.match_index.update(i, self.last_sent_index[i]),
            next_index: self.next_index.update(i, (self.last_sent_index[i] + 1) as u64),
            ..self
        }
    }

    /// The position from which the log is sent again to a `peer` that has refused: one before the
    /// last attempt.
    pub open spec fn retry_index(self, peer: NodeId) -> int {
        let next = self.next_index[peer.0 as int];
        if next > 0 {
            next - 1
        } else {
            0
        }
    }

    /// The log from the position noted for `peer` on, as a replication request to that node.
    pub open spec fn retransmission(self, peer: NodeId) -> OutgoingView {
        let next = self.next_index[peer.0 as int];
        OutgoingView {
            dest: Destination::Node(peer),
            msg: MessageView::AppendEntries(
                AppendEntriesView {
                    term: self.current_term,
                    leader_id: self.id,
                    prev_log_index: next as i32,
                    prev_log_term: self.log[next as int].term,
                    entries: self.log.skip(next as int),
                    leader_commit: self.commit_index,
                },
            ),
        }
    }

    /// The node that goes one position back for `peer`, sends the log from there to its end, and
    /// notes that.
    pub open spec fn retrying(self, peer: NodeId) -> (Self, Result<(), ServerError>) {
        let back = ServerView {
            next_index: self.next_index.update(peer.0 as int, self.retry_index(peer) as u64),
            ..self
        };
        back.noting_sent(peer).sending(back.retransmission(peer))
    }

    /// The position that becomes the commit index, if one does.
    pub open spec fn commit_target(self) -> Option<int> {
        first_committable(
            self.log,
            self.match_index,
            self.current_term,
            self.commit_index as int,
            self.config.total_nodes,
            self.commit_index + 1,
        )
    }

    /// The count of replicas for some position beyond the commit index makes sense: there are at
    /// least two nodes, or no such position holds an entry of the present term; and the log is
    /// not looked into where it is empty.
    pub open spec fn can_count_replicas(self) -> bool {
        &&& self.log.len() > 0 || self.commit_index >= 0
        &&& self.config.total_nodes >= 2 || forall|n: int|
            self.commit_index < n < self.log.len() ==> (#[trigger] self.log[n]).term
                != self.current_term
    }

    /// The answer to the client whose command stands at position `n`. If the command deletes a
    /// key, `existed` says whether the key was there and has been deleted.
    pub open spec fn client_answer(self, n: int, existed: bool) -> Option<OutgoingView> {
        let entry = self.log[n];
        let request_id = entry.request_id as u64;
        let dest = Destination::Client(ClientId(entry.client_id));
        match entry.command {
            LogCommand::Put { .. } => Some(
                OutgoingView {
                    dest,
                    msg: MessageView::ClientResponse(ClientResponse::SetSuccess { request_id }),
                },
            ),
            LogCommand::Delete { .. } => Some(
                OutgoingView {
                    dest,
                    msg: MessageView::ClientResponse(
                        ClientResponse::DeleteSuccess { request_id, existed },
                    ),
                },
            ),
            LogCommand::Get { .. } => None,
        }
    }

    /// After position `n` has been committed the node tries to apply what is committed as often
    /// as there are positions to apply, takes all of it to be applied, and answers the client
    /// whose command stands at `n`. That may lead to `after` and return `result`. A client whose
    /// command deletes a key is told whether the key was there when everything before `n` had
    /// been applied, and has been deleted.
    pub open spec fn completing(
        self,
        n: int,
        after: Self,
        result: Result<(), ServerError>,
    ) -> bool {
        let completed = ServerView {
            last_applied: n as i32,
            match_index: self.match_index.update(self.id.0 as int, n as i32),
            state_machine: after.state_machine,
            ..self
        };
        exists|upto: int, existed: bool|
            {
                &&& #[trigger] attempts_applied(
                    self.log,
                    self.last_applied as int,
                    n,
                    n - self.last_applied,
                    self.state_machine,
                    upto,
                    after.state_machine,
                    existed,
                )
                &&& match completed.client_answer(n, existed) {
                    Some(out) => (after, result) == completed.sending(out),
                    None => after == completed && result == Ok::<(), ServerError>(()),
                }
            }
    }

    /// What follows the bookkeeping on an answer: position by position the node looks for one to
    /// commit, and where the answer was positive and there is one, it completes it.
    pub open spec fn committing(
        self,
        success: bool,
        after: Self,
        result: Result<(), ServerError>,
    ) -> bool {
        match self.commit_target() {
            None => after == self && result == Ok::<(), ServerError>(()),
            Some(n) => {
                let committed = ServerView { commit_index: n as i32, ..self };
                if success {
                    committed.completing(n, after, result)
                } else {
                    after == committed && result == Ok::<(), ServerError>(())
                }
            },
        }
    }

    /// Where a leader takes an answer into account, it can: it has a place for the peer, its log
    /// reaches to what has to be sent again, and if it goes on to commit, it can count replicas
    /// and has a place for itself.
    pub open spec fn accepts_answer(self, from: Id, msg: AppendEntriesResponse) -> bool {
        self.role == RaftState::Leader && msg.term <= self.current_term ==> match from {
            Id::Client(_) => true,
            Id::Peer(peer) => {
                &&& self.has_place(peer)
                &&& if msg.success {
                    let confirmed = self.confirmed_by(peer);
                    &&& confirmed.can_count_replicas()
                    &&& confirmed.commit_target() is Some ==> self.has_place(self.id)
                } else {
                    &&& self.retry_index(peer) < self.log.len()
                    &&& self.open ==> self.can_count_replicas()
                }
            },
        }
    }

    /// An answer to a replication request may lead to `after` and return `result`. Only a leader
    /// takes it into account, and only if it comes from a node; an answer with a higher term
    /// makes it step down.
    pub open spec fn tracking(
        self,
        from: Id,
        msg: AppendEntriesResponse,
        after: Self,
        result: Result<(), ServerError>,
    ) -> bool {
        if self.role != RaftState::Leader {
            after == self && result == Ok::<(), ServerError>(())
        } else if msg.term > self.current_term {
            after == self.stepped_down(msg.term) && result == Ok::<(), ServerError>(())
        } else {
            match from {
                Id::Client(_) => after == self && result == Ok::<(), ServerError>(()),
                Id::Peer(peer) => if msg.success {
                    self.confirmed_by(peer).committing(true, after, result)
                } else {
                    let (retried, sent) = self.retrying(peer);
                    if sent is Err {
                        after == retried && result == sent
                    } else {
                        retried.committing(false, after, result)
                    }
                },
            }
        }
    }

    //////////////////////////////////////////////////////////////////////////////////////////
    // Messages

    /// The node can handle `incoming`.
    pub open spec fn accepts(self, incoming: IncomingView) -> bool {
        match incoming.msg {
            MessageView::AppendEntries(msg) => self.accepts_entries(incoming.from, msg),
            MessageView::AppendEntriesResponse(msg) => self.accepts_answer(incoming.from, msg),
            MessageView::RequestVote(msg) => self.accepts_vote_request(msg),
            MessageView::RequestVoteResponse(msg) => self.accepts_vote(msg),
            MessageView::ClientRequest(msg) => self.accepts_client_request(msg),
            _ => true,
        }
    }

    /// Handling `incoming` may lead to `after` and return `result`. Messages that are meant for
    /// clients or for the start of a connection are ignored.
    pub open spec fn handling(
        self,
        incoming: IncomingView,
        after: Self,
        result: Result<(), ServerError>,
    ) -> bool {
        match incoming.msg {
            MessageView::AppendEntries(msg) => self.following(incoming.from, msg, after, result),
            MessageView::AppendEntriesResponse(msg) => {
                self.tracking(incoming.from, msg, after, result)
            },
            MessageView::RequestVote(msg) => {
                (after, result) == self.answering_vote_request(msg)
            },
            MessageView::RequestVoteResponse(msg) => {
                after == self.counting_vote(msg) && result == Ok::<(), ServerError>(())
            },
            MessageView::ClientRequest(msg) => self.serving(msg, after, result),
            _ => after == self && result == Ok::<(), ServerError>(()),
        }
    }

    /// Handling `incoming` may lead to `after`, whatever is returned.
    pub open spec fn handling_somehow(self, incoming: IncomingView, after: Self) -> bool {
        exists|result: Result<(), ServerError>| #[trigger] self.handling(incoming, after, result)
    }

    //////////////////////////////////////////////////////////////////////////////////////////
    // Roles

    /// If `event` is a message, the node can handle it.
    pub open spec fn accepts_event(self, event: EventView) -> bool {
        event matches EventView::Message(incoming) ==> self.accepts(incoming)
    }

    /// What an event does to a node as such. The roles differ in what an elapsed timer does.
    pub open spec fn hearing(self, event: EventView, elapsed: Self, after: Self) -> bool {
        match event {
            EventView::Message(incoming) => self.handling_somehow(incoming, after),
            EventView::ChannelClosed => after == self,
            EventView::Timeout => after == elapsed,
        }
    }

    /// Entering a role may lead to `after`: what is committed has been applied, as far as the
    /// state machine took it.
    pub open spec fn settling(self, after: Self) -> bool {
        exists|outcome: Result<(), StateMachineError>| #[trigger]
            self.applying(self.commit_index, after, outcome)
    }

    /// The node can take up its role: a candidate has a next term to stand in, and a leader has a
    /// network to send its heartbeat to.
    pub open spec fn can_enter_role(self) -> bool {
        match self.role {
            RaftState::Follower => true,
            RaftState::Candidate => self.current_term < u32::MAX,
            RaftState::Leader => self.open,
        }
    }

    /// Taking up its role may lead to `after`.
    pub open spec fn entering_role(self, after: Self) -> bool {
        match self.role {
            RaftState::Follower => self.settling(after),
            RaftState::Candidate => {
                let standing = self.campaigning(after.last_heartbeat);
                after == standing.sending(standing.vote_request()).0
            },
            RaftState::Leader => self.starting_to_lead(after),
        }
    }

    /// How long the node waits in its role before anything has happened there, in nanoseconds.
    pub open spec fn first_wait(self) -> int {
        match self.role {
            RaftState::Leader => self.config.heartbeat_interval * 1_000_000,
            _ => self.config.election_timeout * 1_000_000,
        }
    }

    /// The node after it has waited in vain: a follower stands for election, a leader sends a
    /// heartbeat.
    pub open spec fn having_waited(self) -> Self {
        match self.role {
            RaftState::Follower => ServerView { role: RaftState::Candidate, ..self },
            RaftState::Candidate => self,
            RaftState::Leader => ServerView {
                outbox: self.outbox.push(self.heartbeat()),
                ..self
            },
        }
    }

    /// Whether the node has to take up a role once an event has led it to `heard`. A follower
    /// always does, and starts its wait anew.
    pub open spec fn leaves_role(self, event: EventView, heard: Self) -> bool {
        match self.role {
            RaftState::Follower => true,
            RaftState::Candidate => !(event is Timeout) && heard.role != RaftState::Candidate,
            RaftState::Leader => heard.role != RaftState::Leader,
        }
    }

    /// An event may lead to `after`, and to `leaves` on whether the node has to take up a role.
    /// A candidate that stays one asks for votes again.
    pub open spec fn taking_turn(self, event: EventView, after: Self, leaves: bool) -> bool {
        exists|heard: Self|
            {
                &&& #[trigger] self.hearing(event, self.having_waited(), heard)
                &&& leaves == self.leaves_role(event, heard)
                &&& after == if self.role == RaftState::Candidate && !leaves {
                    heard.sending(heard.vote_request()).0
                } else {
                    heard
                }
            }
    }
}

} // verus!
