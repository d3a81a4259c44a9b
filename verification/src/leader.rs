//! Leading: replicating clients' commands and committing what a majority has.

use crate::codec::{
    AppendEntries, AppendEntriesResponse, ClientRequest, ClientResponse, Message, MessageView,
};
use crate::model::{
    attempt_applied, attempts_applied, first_committable, key_looked_up, last_command_applied,
    replicas, ServerView,
};
use crate::server::{
    ClientId, Destination, Event, Id, Incoming, LogCommand, LogEntry, NodeId, RaftState,
    Server, ServerError,
};
use crate::state_machine::StateMachine;
use vstd::prelude::*;

verus! {

impl<S: StateMachine> Server<S> {
    /// What a leader does first: it applies what is committed, sends a heartbeat, and takes every
    /// node to have what has been applied here. The network has to be open.
    pub fn leader_start(&mut self)
        requires
            old(self)@.wf(),
            old(self)@.open,
        ensures
            final(self)@.wf(),
            old(self)@.starting_to_lead(final(self)@),
    {
        let commit_index = self.state.commit_index;
        let _ = self.apply_latest_commited_logs(commit_index);
        let ghost applied = self@;
        self.send_heartbeat();
        let places = self.state.next_index.len();
        let next: u64 = if self.state.last_applied < 0 {
            0
        } else {
            self.state.last_applied as u64 + 1
        };
        let mut i: usize = 0;
        while i < places
            invariant
                i <= places,
                applied.wf(),
                places == applied.next_index.len(),
                next == applied.first_unapplied(),
                self.state.next_index@.len() == places,
                forall|j: int| 0 <= j < i ==> (#[trigger] self.state.next_index@[j]) == next,
                self@ == (ServerView {
                    outbox: applied.outbox.push(applied.heartbeat()),
                    next_index: self.state.next_index@,
                    ..applied
                }),
            decreases places - i,
        {
            self.state.next_index[i] = next;
            i = i + 1;
        }
        assert(self.state.next_index@ =~= Seq::new(
            places as nat,
            |j: int| applied.first_unapplied(),
        ));
    }

    /// What a leader does when it has waited: it handles the message that came in, or sends the
    /// next heartbeat, for which the network has to be open. Returns whether it has stopped being
    /// the leader.
    pub fn leader_event(&mut self, event: Event) -> (done: bool)
        requires
            old(self)@.wf(),
            old(self)@.accepts_event(event@),
            event is Timeout && old(self)@.role == RaftState::Leader ==> old(self)@.open,
        ensures
            final(self)@.wf(),
            old(self)@.hearing(
                event@,
                if old(self)@.role == RaftState::Leader {
                    ServerView {
                        outbox: old(self)@.outbox.push(old(self)@.heartbeat()),
                        ..old(self)@
                    }
                } else {
                    old(self)@
                },
                final(self)@,
            ),
            done == (final(self)@.role != RaftState::Leader),
    {
        match event {
            Event::Message(incoming) => {
                let _ = self.recieve_rpc(incoming);
            },
            Event::ChannelClosed => {},
            Event::Timeout => {
                if self.state.state == RaftState::Leader {
                    self.send_heartbeat();
                }
            },
        }
        self.state.state != RaftState::Leader
    }

    /// Sends a heartbeat to all nodes. The network has to be open.
    pub fn send_heartbeat(&mut self)
        requires
            old(self)@.wf(),
            old(self)@.open,
        ensures
            final(self)@ == (ServerView {
                outbox: old(self)@.outbox.push(old(self)@.heartbeat()),
                ..old(self)@
            }),
    {
        let entries: Vec<LogEntry> = Vec::new();
        assert(entries@ =~= Seq::<LogEntry>::empty());
        let prev_log_term: u32 = if self.log.len() == 0 {
            0
        } else {
            self.log[self.log.len() - 1].term
        };
        let msg = Message::AppendEntriesType(
            AppendEntries {
                term: self.state.current_term,
                leader_id: self.id,
                prev_log_index: self.log.len() as i32 - 1,
                prev_log_term,
                entries,
                leader_commit: self.state.commit_index,
            },
        );
        let _ = self.send(Destination::Broadcast, msg);
    }

    //////////////////////////////////////////////////////////////////////////////////////////
    // Clients

    /// Handles a client's request. Only a leader serves it, and only if it sets a key.
    pub fn handle_client_request(&mut self, msg: ClientRequest) -> (result: Result<
        (),
        ServerError,
    >)
        requires
            old(self)@.wf(),
            old(self)@.accepts_client_request(msg),
        ensures
            final(self)@.wf(),
            old(self)@.serving(msg, final(self)@, result),
    {
        if self.state.state != RaftState::Leader {
            return Ok(());
        }
        match msg.command {
            LogCommand::Put { key, value } => self.handle_set_command(
                key,
                value,
                msg.client_id,
                msg.request_id,
            ),
            _ => Ok(()),
        }
    }

    /// Appends a client's command to the log and replicates it to the peers, in whatever order
    /// the configuration lists them.
    pub fn handle_set_command(
        &mut self,
        key: String,
        value: String,
        client_id: u32,
        request_id: u32,
    ) -> (result: Result<(), ServerError>)
        requires
            old(self)@.wf(),
            old(self)@.accepts_command(),
        ensures
            final(self)@.wf(),
            old(self)@.setting_in_some_order(
                key,
                value,
                client_id,
                request_id,
                final(self)@,
                result,
            ),
    {
        let peers = self.config.peer_node_addresses();
        assert forall|i: int| 0 <= i < peers@.len() && (#[trigger] peers@[i]).0 != self.id implies
            self@.can_replicate_to(peers@[i].0) by {
            assert(self.config.peer_addresses@.contains_key(peers@[i].0.0));
            assert(NodeId(peers@[i].0.0) == peers@[i].0);
        }
        self.set_in_order(key, value, client_id, request_id, &peers)
    }

    /// Appends a client's command to the log and replicates it to `peers`, in that order.
    pub fn set_in_order(
        &mut self,
        key: String,
        value: String,
        client_id: u32,
        request_id: u32,
        peers: &Vec<(NodeId, String)>,
    ) -> (result: Result<(), ServerError>)
        requires
            old(self)@.wf(),
            old(self)@.log.len() < i32::MAX,
            forall|i: int|
                0 <= i < peers@.len() && (#[trigger] peers@[i]).0 != old(self)@.id ==> old(
                    self,
                )@.can_replicate_to(peers@[i].0),
        ensures
            final(self)@.wf(),
            (final(self)@, result) == old(self)@.setting(
                key,
                value,
                client_id,
                request_id,
                peers@,
            ),
    {
        let entry = LogEntry {
            term: self.state.current_term,
            command: LogCommand::Put { key, value },
            index: self.log.len() as u32,
            client_id,
            request_id,
        };
        self.log.push(entry.clone());
        let ghost appended = self@;
        let mut k: usize = 0;
        while k < peers.len()
            invariant
                k <= peers.len(),
                entry == old(self)@.new_entry(key, value, client_id, request_id),
                appended == (ServerView { log: old(self)@.log.push(entry), ..old(self)@ }),
                appended.wf(),
                appended.log.len() > 0,
                forall|i: int|
                    0 <= i < peers@.len() && (#[trigger] peers@[i]).0 != appended.id
                        ==> appended.has_place(peers@[i].0)
                        && appended.next_index[peers@[i].0.0 as int] <= appended.log.len(),
                self@.wf(),
                self@ == (ServerView {
                    last_sent_index: self@.last_sent_index,
                    outbox: self@.outbox,
                    ..appended
                }),
                (self@, Ok::<(), ServerError>(())) == appended.replicating(
                    entry,
                    peers@.take(k as int),
                ),
            decreases peers.len() - k,
        {
            let peer = peers[k].0;
            proof {
                assert(peers@.take(k + 1).drop_last() =~= peers@.take(k as int));
                assert(peers@.take(k + 1).last() == peers@[k as int]);
            }
            if peer != self.id {
                let sent = self.replicate_entry(&entry, peer);
                if sent.is_err() {
                    proof {
                        lemma_replication_stops(appended, entry, peers@, k + 1, self@, sent);
                    }
                    return sent;
                }
            }
            k = k + 1;
        }
        assert(peers@.take(peers.len() as int) =~= peers@);
        Ok(())
    }

    /// Sends the replication request for the single `entry`, the last one of the log, on account
    /// of the node `peer`.
    fn replicate_entry(&mut self, entry: &LogEntry, peer: NodeId) -> (result: Result<
        (),
        ServerError,
    >)
        requires
            old(self)@.wf(),
            old(self)@.log.len() > 0,
            old(self)@.has_place(peer),
            old(self)@.next_index[peer.0 as int] <= old(self)@.log.len(),
        ensures
            final(self)@.wf(),
            (final(self)@, result) == old(self)@.noting_sent(peer).sending(
                old(self)@.replication_of(*entry, peer),
            ),
    {
        let i = peer.as_usize();
        let next = self.state.next_index[i];
        let prev_log_index: i32 = if next == 0 {
            -1
        } else {
            next as i32 - 1
        };
        let prev_log_term: u32 = if prev_log_index == -1 {
            0
        } else {
            self.log[prev_log_index as usize].term
        };
        self.state.last_sent_index[i] = self.log.len() as i32 - 1;
        let entries: Vec<LogEntry> = vec![entry.clone()];
        assert(entries@ =~= seq![*entry]);
        let msg = Message::AppendEntriesType(
            AppendEntries {
                term: self.state.current_term,
                leader_id: self.id,
                prev_log_index,
                prev_log_term,
                entries,
                leader_commit: self.state.commit_index,
            },
        );
        self.send(Destination::Broadcast, msg)
    }

    //////////////////////////////////////////////////////////////////////////////////////////
    // Followers

    /// Handles a node's answer to a replication request. A message of another kind is ignored.
    pub fn handle_append_entries_response(&mut self, incoming: Incoming) -> (result: Result<
        (),
        ServerError,
    >)
        requires
            old(self)@.wf(),
            incoming.msg@ matches MessageView::AppendEntriesResponse(msg) ==> old(
                self,
            )@.accepts_answer(incoming.from, msg),
        ensures
            final(self)@.wf(),
            match incoming.msg@ {
                MessageView::AppendEntriesResponse(msg) => old(self)@.tracking(
                    incoming.from,
                    msg,
                    final(self)@,
                    result,
                ),
                _ => final(self)@ == old(self)@ && result == Ok::<(), ServerError>(()),
            },
    {
        let msg = match incoming.msg {
            Message::AppendEntriesResponseType(msg) => msg,
            _ => {
                return Ok(());
            },
        };
        if self.state.state != RaftState::Leader {
            return Ok(());
        }
        if msg.term > self.state.current_term {
            self.become_follower(msg.term);
            return Ok(());
        }
        let peer = match incoming.from {
            Id::Peer(node_id) => node_id,
            Id::Client(_) => {
                return Ok(());
            },
        };
        if msg.success {
            self.record_replication(peer);
        } else {
            self.retry_replication(peer)?;
        }
        let commit_index_updated = self.advance_commit_index();
        if msg.success && commit_index_updated {
            return self.complete_commit();
        }
        Ok(())
    }

    /// Notes that `peer` has everything that it was last sent.
    fn record_replication(&mut self, peer: NodeId)
        requires
            old(self)@.wf(),
            old(self)@.has_place(peer),
        ensures
            final(self)@.wf(),
            final(self)@ == old(self)@.confirmed_by(peer),
    {
        let i = peer.as_usize();
        let confirmed = self.state.last_sent_index[i];
        self.state.match_index[i] = confirmed;
        self.state.next_index[i] = confirmed as u64 + 1;
    }

    /// Goes one position back for `peer`, sends it the log from there, and notes that.
    fn retry_replication(&mut self, peer: NodeId) -> (result: Result<(), ServerError>)
        requires
            old(self)@.wf(),
            old(self)@.has_place(peer),
            old(self)@.retry_index(peer) < old(self)@.log.len(),
        ensures
            final(self)@.wf(),
            (final(self)@, result) == old(self)@.retrying(peer),
    {
        let i = peer.as_usize();
        let next = if self.state.next_index[i] > 0 {
            self.state.next_index[i] - 1
        } else {
            0
        };
        self.state.next_index[i] = next;
        self.state.last_sent_index[i] = self.log.len() as i32 - 1;
        let msg = Message::AppendEntriesType(
            AppendEntries {
                term: self.state.current_term,
                leader_id: self.id,
                prev_log_index: next as i32,
                prev_log_term: self.log[next as usize].term,
                entries: self.log_from(next as usize),
                leader_commit: self.state.commit_index,
            },
        );
        self.send(Destination::Node(peer), msg)
    }

    /// The entries from position `start` on.
    fn log_from(&self, start: usize) -> (entries: Vec<LogEntry>)
        requires
            start <= self.log@.len(),
        ensures
            entries@ == self.log@.skip(start as int),
    {
        let mut entries: Vec<LogEntry> = Vec::new();
        let mut k = start;
        while k < self.log.len()
            invariant
                start <= k <= self.log@.len(),
                entries@ == self.log@.subrange(start as int, k as int),
            decreases self.log.len() - k,
        {
            entries.push(self.log[k].clone());
            k = k + 1;
            assert(entries@ =~= self.log@.subrange(start as int, k as int));
        }
        assert(entries@ =~= self.log@.skip(start as int));
        entries
    }

    /// Moves the commit index to the first position beyond it that a majority has and that holds
    /// an entry of the present term. Returns whether there is one.
    fn advance_commit_index(&mut self) -> (advanced: bool)
        requires
            old(self)@.wf(),
            old(self)@.can_count_replicas(),
        ensures
            final(self)@.wf(),
            match old(self)@.commit_target() {
                Some(n) => {
                    &&& advanced
                    &&& old(self)@.commit_index < n < old(self)@.log.len()
                    &&& final(self)@ == (ServerView { commit_index: n as i32, ..old(self)@ })
                },
                None => !advanced && final(self)@ == old(self)@,
            },
    {
        match self.find_committable(&self.state.match_index) {
            Some(n) => {
                self.state.commit_index = n;
                true
            },
            None => false,
        }
    }

    /// The position that would become the commit index if the nodes had confirmed `match_index`.
    pub(crate) fn find_committable(&self, match_index: &Vec<i32>) -> (found: Option<i32>)
        requires
            self@.wf(),
            self@.can_count_replicas(),
        ensures
            ({
                let target = (ServerView { match_index: match_index@, ..self@ }).commit_target();
                match found {
                    Some(n) => target == Some(n as int) && self@.commit_index < n
                        < self@.log.len(),
                    None => target is None,
                }
            }),
    {
        let last_log_index = if self.log.len() == 0 {
            0
        } else {
            self.log.len() as i32 - 1
        };
        let ghost asked = ServerView { match_index: match_index@, ..self@ };
        let mut n = self.state.commit_index + 1;
        while n <= last_log_index
            invariant
                self@.wf(),
                self@.can_count_replicas(),
                self@.commit_index < n,
                last_log_index == if self@.log.len() == 0 {
                    0
                } else {
                    self@.log.len() - 1
                },
                asked == (ServerView { match_index: match_index@, ..self@ }),
                asked.commit_target() == first_committable(
                    asked.log,
                    asked.match_index,
                    asked.current_term,
                    asked.commit_index as int,
                    asked.config.total_nodes,
                    n as int,
                ),
            decreases last_log_index + 1 - n,
        {
            if self.log[n as usize].term == self.state.current_term {
                assert(self@.log[n as int].term == self@.current_term);
                let match_count = count_replicas(match_index, n);
                if match_count as u64 > (self.config.total_nodes / 2 - 1) as u64 {
                    return Some(n);
                }
            }
            n = n + 1;
        }
        None
    }

    /// After the commit index has moved: tries to apply what is committed as often as there are
    /// positions to apply, takes all of it to be applied, and answers the client whose command
    /// stands at the commit index.
    fn complete_commit(&mut self) -> (result: Result<(), ServerError>)
        requires
            old(self)@.wf(),
            0 <= old(self)@.commit_index < old(self)@.log.len(),
            old(self)@.has_place(old(self)@.id),
        ensures
            final(self)@.wf(),
            old(self)@.completing(old(self)@.commit_index as int, final(self)@, result),
    {
        let commit_index = self.state.commit_index;
        let ghost log = self.log@;
        let ghost from = self.state.last_applied as int;
        let ghost before = self.state.state_machine;
        let owed = commit_index - self.state.last_applied;
        let mut existed = self.attempt_up_to(commit_index);
        let mut rounds: i32 = 1;
        while rounds < owed
            invariant
                self@.wf(),
                0 <= commit_index < self@.log.len(),
                log == old(self)@.log,
                from == old(self)@.last_applied,
                before == old(self)@.state_machine,
                owed == commit_index - from,
                1 <= rounds,
                rounds == 1 || rounds <= owed,
                existed ==> self.state.last_applied >= commit_index,
                self@ == (ServerView {
                    last_applied: self@.last_applied,
                    state_machine: self@.state_machine,
                    ..old(self)@
                }),
                attempts_applied(
                    log,
                    from,
                    commit_index as int,
                    rounds as int,
                    before,
                    self.state.last_applied as int,
                    self.state.state_machine,
                    existed,
                ),
            decreases owed - rounds,
        {
            let latest = self.attempt_up_to(commit_index);
            existed = existed || latest;
            rounds = rounds + 1;
        }
        assert(attempts_applied(
            log,
            from,
            commit_index as int,
            commit_index - from,
            before,
            self.state.last_applied as int,
            self.state.state_machine,
            existed,
        ));
        self.state.last_applied = commit_index;
        let place = self.id.as_usize();
        self.state.match_index[place] = commit_index;
        let client_id = self.log[commit_index as usize].client_id;
        let request_id = self.log[commit_index as usize].request_id as u64;
        let response = match &self.log[commit_index as usize].command {
            LogCommand::Put { .. } => ClientResponse::SetSuccess { request_id },
            LogCommand::Delete { .. } => ClientResponse::DeleteSuccess { request_id, existed },
            LogCommand::Get { .. } => {
                return Ok(());
            },
        };
        self.send(
            Destination::Client(ClientId::new(client_id)),
            Message::ClientResponseType(response),
        )
    }

    /// One attempt to apply what is left up to position `n`. Returns whether the command at `n`
    /// has deleted a key that was there.
    fn attempt_up_to(&mut self, n: i32) -> (existed: bool)
        requires
            old(self)@.wf(),
            0 <= n < old(self)@.log.len(),
        ensures
            final(self)@.wf(),
            final(self)@ == (ServerView {
                last_applied: final(self)@.last_applied,
                state_machine: final(self)@.state_machine,
                ..old(self)@
            }),
            attempt_applied(
                old(self)@.log,
                old(self)@.last_applied as int,
                n as int,
                old(self)@.state_machine,
                final(self)@.last_applied as int,
                final(self)@.state_machine,
                existed,
            ),
    {
        if self.state.last_applied >= n {
            return false;
        }
        if self.apply_up_to(n - 1).is_err() {
            return false;
        }
        let ghost between = self.state.state_machine;
        let found = match &self.log[n as usize].command {
            LogCommand::Delete { key } => self.state.state_machine.get_value(key.clone()),
            _ => None,
        };
        let ghost seen = match &found {
            Some(value) => Some(value@),
            None => None,
        };
        assert(key_looked_up(between, self.log@[n as int].command, seen));
        let result = self.apply_command_at(n);
        if result.is_ok() {
            self.state.last_applied = n;
        }
        let existed = found.is_some() && result.is_ok();
        assert(last_command_applied(
            self.log@,
            n as int,
            between,
            self.state.last_applied as int,
            self.state.state_machine,
            existed,
        ));
        existed
    }
}

/// How many nodes have confirmed the log up to position `n`.
fn count_replicas(match_index: &Vec<i32>, n: i32) -> (count: usize)
    ensures
        count == replicas(match_index@, n as int),
{
    let ghost reached = |confirmed: i32| confirmed >= n as int;
    let mut count: usize = 0;
    let mut i: usize = 0;
    while i < match_index.len()
        invariant
            i <= match_index.len(),
            count <= i,
            reached == (|confirmed: i32| confirmed >= n as int),
            count == match_index@.take(i as int).filter(reached).len(),
        decreases match_index.len() - i,
    {
        proof {
            let next = match_index@.take(i + 1);
            assert(next.drop_last() =~= match_index@.take(i as int));
            assert(next.last() == match_index@[i as int]);
            reveal(Seq::filter);
        }
        if match_index[i] >= n {
            count = count + 1;
        }
        i = i + 1;
    }
    assert(match_index@.take(i as int) =~= match_index@);
    count
}

/// Once the network has refused a replication request, the rest of the peers changes nothing.
proof fn lemma_replication_stops<S: StateMachine>(
    server: ServerView<S>,
    entry: LogEntry,
    peers: Seq<(NodeId, String)>,
    k: int,
    after: ServerView<S>,
    result: Result<(), ServerError>,
)
    requires
        0 <= k <= peers.len(),
        server.replicating(entry, peers.take(k)) == (after, result),
        result is Err,
    ensures
        server.replicating(entry, peers) == (after, result),
    decreases peers.len() - k,
{
    if k < peers.len() {
        assert(peers.take(k + 1).drop_last() =~= peers.take(k));
        lemma_replication_stops(server, entry, peers, k + 1, after, result);
    } else {
        assert(peers.take(k) =~= peers);
    }
}

} // verus!
