use mini_raft::codec::{
    AppendEntries, AppendEntriesResponse, ClientRequest, ClientResponse, Message, RequestVote,
    RequestVoteResponse,
};
use mini_raft::config::ServerConfig;
use mini_raft::server::{
    ClientId, Destination, Event, Id, Incoming, LogCommand, LogEntry, NodeId, Outgoing, RaftState,
    Server, ServerError, ServerState,
};
use mini_raft::state_machine::{SimpleStateMachine, StateMachine, StateMachineError};
use std::collections::{HashMap, VecDeque};
use std::time::Duration;

/// A node with what it has been sent and what it has sent.
struct Node<S: StateMachine> {
    server: Server<S>,
    inbox: VecDeque<Incoming>,
    outbox: VecDeque<Outgoing>,
}

impl<S: StateMachine> Node<S> {
    fn collect(&mut self) {
        self.outbox.extend(self.server.to_network.drain());
    }

    /// The next message, or the end of the wait where there is none.
    fn event(&mut self) -> Event {
        let event = match self.inbox.pop_front() {
            Some(incoming) => Event::Message(incoming),
            None => Event::Timeout,
        };
        assert!(self.server.accepts_event(&event));
        event
    }

    fn follower(&mut self) {
        self.server.follower_start();
        let event = self.event();
        self.server.follower_event(event);
        self.collect();
    }

    fn candidate(&mut self) {
        let mut timeout = self.server.candidate_start();
        loop {
            self.server.send_request_vote_rpc_to_peers();
            self.collect();
            let event = self.event();
            let (done, next) = self.server.candidate_event(event, timeout);
            self.collect();
            if done {
                break;
            }
            timeout = next;
        }
    }

    fn leader(&mut self) {
        self.server.leader_start();
        self.collect();
        loop {
            let event = self.event();
            let done = self.server.leader_event(event);
            self.collect();
            if done {
                break;
            }
        }
    }

    fn receive(&mut self, from: Id, msg: Message) -> Result<(), ServerError> {
        let incoming = Incoming { from, msg };
        assert!(self.server.accepts(&incoming));
        let result = self.server.recieve_rpc(incoming);
        self.collect();
        result
    }

    fn answer(&mut self) -> AppendEntriesResponse {
        match self.outbox.pop_front().unwrap().msg {
            Message::AppendEntriesResponseType(response) => response,
            other => panic!("Expected AppendEntriesResponseType, got {:?}", other),
        }
    }
}

fn config() -> ServerConfig {
    let mut peer_addresses = HashMap::new();
    for id in 0..4u64 {
        peer_addresses.insert(id, "localhost:8080".to_string());
    }
    ServerConfig {
        election_timeout: 200,
        heartbeat_interval: 50,
        address: "localhost:8080".to_string(),
        total_nodes: 5,
        peer_addresses,
        node_id: 0,
        client_listener_address: "127.0.0.1:8080".to_string(),
        peer_listener_address: "127.0.0.1:9001".to_string(),
    }
}

fn node_with<S: StateMachine>(state_machine: S) -> Node<S> {
    Node {
        server: Server::new(NodeId::new(0), config(), state_machine),
        inbox: VecDeque::new(),
        outbox: VecDeque::new(),
    }
}

fn node() -> Node<SimpleStateMachine> {
    node_with(SimpleStateMachine::new())
}

fn peer(id: u64) -> Id {
    Id::Peer(NodeId::new(id))
}

fn set(key: &str, value: &str) -> LogCommand {
    LogCommand::Put { key: key.to_string(), value: value.to_string() }
}

fn entry(term: u32, index: u32) -> LogEntry {
    LogEntry { term, command: set("key", "value"), index, client_id: 67, request_id: 67 }
}

fn append(
    term: u32,
    prev_log_index: i32,
    prev_log_term: u32,
    entries: Vec<LogEntry>,
    leader_commit: i32,
) -> Message {
    Message::AppendEntriesType(AppendEntries {
        term,
        leader_id: NodeId::new(1),
        prev_log_index,
        prev_log_term,
        entries,
        leader_commit,
    })
}

/// A heartbeat of the node `leader` in the term `term`.
fn heartbeat(leader: u64, term: u32) -> Message {
    Message::AppendEntriesType(AppendEntries {
        term,
        leader_id: NodeId::new(leader),
        prev_log_index: 0,
        prev_log_term: 1,
        entries: vec![],
        leader_commit: 0,
    })
}

fn answer(term: u32, success: bool) -> Message {
    Message::AppendEntriesResponseType(AppendEntriesResponse { term, success })
}

fn request(request_id: u32, client_id: u32, command: LogCommand) -> Message {
    Message::ClientRequestType(ClientRequest { command, client_id, request_id })
}

fn populate_follower_log(node: &mut Node<SimpleStateMachine>) {
    node.inbox.push_back(Incoming { from: peer(67), msg: append(1, 0, 0, vec![entry(1, 0)], 0) });
}

fn simulate_follower_becomes_leader<S: StateMachine>(node: &mut Node<S>) {
    // no message during the election timeout
    node.follower();

    let majority = node.server.config.total_nodes / 2 + 1;
    for _ in 0..majority {
        node.inbox.push_back(Incoming {
            from: peer(67),
            msg: Message::RequestVoteResponseType(RequestVoteResponse {
                term: node.server.state.current_term,
                vote_granted: true,
            }),
        });
    }
    node.candidate();

    // the requests for votes, one before each answer
    for _ in 0..majority {
        let out = node.outbox.pop_front().unwrap();
        assert!(matches!(out.msg, Message::RequestVoteType(_)));
    }
}

#[test]
fn test_follower_timeout_triggers_candidate() {
    let mut node = node();
    node.follower();
    assert_eq!(node.server.state.state, RaftState::Candidate);
}

#[test]
fn test_leader_heartbeat_prevents_follower_timeout() {
    let mut node = node();
    node.inbox.push_back(Incoming { from: peer(67), msg: append(1, 0, 0, vec![], 0) });
    node.follower();
    assert_eq!(node.server.state.state, RaftState::Follower);
}

#[test]
fn test_follower_rejects_incosistent_log_append_entries() {
    let mut node = node();
    populate_follower_log(&mut node);
    node.follower();
    assert!(matches!(node.answer().success, true));

    node.inbox.push_back(Incoming { from: peer(67), msg: append(1, 1, 0, vec![entry(1, 0)], 0) });
    node.follower();
    assert!(matches!(node.answer().success, false));
}

#[test]
fn test_follower_accepts_valid_append_entries() {
    let mut node = node();
    populate_follower_log(&mut node);
    node.follower();
    assert!(matches!(node.answer().success, true));

    let first_log_entry = entry(1, 1);
    let second_log_entry = entry(1, 2);
    node.inbox.push_back(Incoming {
        from: peer(67),
        msg: append(1, 0, 1, vec![first_log_entry.clone(), second_log_entry.clone()], 0),
    });
    node.follower();
    assert!(matches!(node.answer().success, true));

    assert_eq!(node.server.log.get(1).unwrap(), &first_log_entry);
    assert_eq!(node.server.log.get(2).unwrap(), &second_log_entry);
}

#[test]
fn test_follower_grants_vote_to_valid_candidate() {
    let mut node = node();
    populate_follower_log(&mut node);
    node.follower();
    assert!(matches!(node.answer().success, true));

    node.inbox.push_back(Incoming {
        from: peer(67),
        msg: Message::RequestVoteType(RequestVote {
            term: 2,
            candidate_id: NodeId::new(2),
            last_log_index: 0,
            last_log_term: 1,
        }),
    });
    node.follower();

    let Message::RequestVoteResponseType(vote_response) = node.outbox.pop_front().unwrap().msg
    else {
        panic!("Expected RequestVoteResponseType");
    };
    assert!(vote_response.vote_granted);
}

#[test]
fn test_new_candidate_sends_request_vote_rpc_to_peers() {
    let mut node = node();
    populate_follower_log(&mut node);
    node.follower();
    let _ = node.outbox.pop_front().unwrap();

    // ends the candidate's loop
    let term = node.server.state.current_term;
    node.inbox.push_back(Incoming { from: peer(99), msg: heartbeat(1, term) });
    node.candidate();

    let request_vote_msg = node.outbox.pop_front().unwrap();
    let Message::RequestVoteType(req) = request_vote_msg.msg else {
        panic!("Expected RequestVoteType")
    };
    assert_eq!(req.term, node.server.state.current_term);
    assert_eq!(req.candidate_id, node.server.id);
    assert_eq!(req.last_log_index, node.server.log.len() as i32 - 1);
    assert_eq!(req.last_log_term, node.server.log[node.server.log.len() - 1].term);
}

#[test]
fn test_candidate_reverts_to_follower_on_higher_term() {
    let mut node = node();
    node.follower();

    let term = node.server.state.current_term + 2;
    node.inbox.push_back(Incoming { from: peer(99), msg: heartbeat(1, term) });
    node.candidate();

    assert_eq!(node.server.state.state, RaftState::Follower);
}

#[test]
fn test_candidate_becomes_leader_on_majority_votes() {
    let mut node = node();
    simulate_follower_becomes_leader(&mut node);
    assert_eq!(node.server.state.state, RaftState::Leader);
}

#[test]
fn test_leader_becomes_follower_on_higher_term() {
    let mut node = node();
    simulate_follower_becomes_leader(&mut node);

    let term = node.server.state.current_term + 1;
    node.inbox.push_back(Incoming { from: peer(67), msg: heartbeat(1, term) });
    node.leader();

    assert_eq!(node.server.state.state, RaftState::Follower);
}

#[test]
fn test_leader_sends_periodic_heartbeats() {
    let mut node = node();
    simulate_follower_becomes_leader(&mut node);

    // three heartbeat intervals, then the news of another leader
    node.server.leader_start();
    node.collect();
    for _ in 0..3 {
        assert!(!node.server.leader_event(Event::Timeout));
        node.collect();
    }
    let term = node.server.state.current_term + 1;
    let higher_term_msg = Incoming { from: peer(67), msg: heartbeat(4, term) };
    assert!(node.server.leader_event(Event::Message(higher_term_msg)));

    for _ in 0..2 {
        let response = node.outbox.pop_front().unwrap();
        let Message::AppendEntriesType(append_entries) = response.msg else {
            panic!("Expected heartbeat message got {:?}", response.msg);
        };
        assert_eq!(append_entries.entries.len(), 0);
    }
    assert_eq!(node.outbox.len(), 2);
}

#[test]
fn test_leader_commits_on_quorom_majority() {
    let mut node = node();
    simulate_follower_becomes_leader(&mut node);

    let term = node.server.state.current_term;
    for (from, msg) in [
        (peer(67), request(67, 6, set("key", "value"))),
        (peer(1), answer(term, true)),
        (peer(2), answer(term, true)),
        (peer(3), answer(term, true)),
        (peer(8), heartbeat(4, term + 1)),
    ] {
        node.inbox.push_back(Incoming { from, msg });
    }
    node.leader();
    assert_eq!(node.server.state.commit_index, 0);
}

#[test]
fn test_leader_retries_on_log_incosistency() {
    let mut node = node();
    simulate_follower_becomes_leader(&mut node);

    let term = node.server.state.current_term;
    for (from, msg) in [
        (peer(67), request(67, 6, set("key", "value"))),
        (peer(1), answer(term, true)),
        (peer(2), answer(term, true)),
        (peer(67), heartbeat(4, term + 1)),
    ] {
        node.inbox.push_back(Incoming { from, msg });
    }
    node.leader();
    assert_eq!(node.server.state.commit_index, 0);

    // leader again
    node.server.state.state = RaftState::Leader;
    node.outbox.clear();

    let term = node.server.state.current_term;
    for (from, msg) in [
        (peer(69), request(69, 7, set("key2", "value2"))),
        (peer(1), answer(term, true)),
        (peer(2), answer(term, true)),
        (peer(3), answer(term, false)),
        (peer(3), answer(term, true)),
        (peer(67), heartbeat(4, term + 1)),
    ] {
        node.inbox.push_back(Incoming { from, msg });
    }
    node.leader();
    assert_eq!(node.server.state.commit_index, 1);

    // node 3 was sent the log from one position earlier
    let resent = node
        .outbox
        .iter()
        .find(|out| out.dest == Destination::Node(NodeId::new(3)))
        .unwrap();
    let Message::AppendEntriesType(resent) = &resent.msg else {
        panic!("Expected AppendEntriesType, got {:?}", resent.msg);
    };
    assert_eq!(resent.prev_log_index, 0);
    assert_eq!(resent.entries, node.server.log);
}

#[test]
fn test_leader_does_not_commit_log_from_previous_term() {
    let mut node = node();
    simulate_follower_becomes_leader(&mut node);

    node.server.state.current_term += 1;
    node.server.state.commit_index = 1;

    let term = node.server.state.current_term;
    node.inbox.push_back(Incoming { from: peer(3), msg: answer(term - 1, true) });
    node.inbox.push_back(Incoming { from: peer(67), msg: heartbeat(1, term + 1) });
    node.leader();

    assert_eq!(node.server.state.commit_index, 1);
}

////////////////////////////////////////////////////////////////////////////////////////////////

#[test]
fn fresh_state_has_a_place_more_than_peers() {
    let state = ServerState::new(SimpleStateMachine::new(), 5);
    assert_eq!(state.next_index, vec![0; 6]);
    assert_eq!(state.match_index, vec![-1; 6]);
    assert_eq!(state.last_sent_index, vec![0; 6]);
    assert_eq!(state.state, RaftState::Follower);
    assert_eq!((state.commit_index, state.last_applied), (-1, -1));
    assert_eq!((state.current_term, state.votes_received), (0, 0));
    assert!(state.voted_for.is_none());
}

#[test]
fn node_ids_are_places() {
    assert_eq!(NodeId::new(3).as_usize(), 3);
    assert!(NodeId::new(3) < NodeId::new(4));
    assert_eq!(ClientId::new(9), ClientId(9));
}

#[test]
fn stale_leader_is_refused_with_own_term() {
    let mut node = node();
    node.server.state.current_term = 4;
    assert!(node.receive(peer(2), append(3, 0, 0, vec![entry(3, 0)], 0)).is_ok());
    let out = node.outbox.pop_front().unwrap();
    assert_eq!(out.dest, Destination::Node(NodeId::new(2)));
    let Message::AppendEntriesResponseType(response) = out.msg else {
        panic!("Expected AppendEntriesResponseType");
    };
    assert_eq!((response.term, response.success), (4, false));
    assert!(node.server.log.is_empty());
    assert_eq!(node.server.state.current_term, 4);
}

#[test]
fn negative_start_is_refused_by_a_log_with_entries() {
    let mut node = node();
    node.server.log.push(entry(1, 0));
    assert!(node.receive(peer(2), append(1, -1, 0, vec![entry(1, 1)], 0)).is_ok());
    assert!(!node.answer().success);
    assert_eq!(node.server.log.len(), 1);
}

#[test]
fn handlers_tell_messages_of_another_kind() {
    let mut node = node();
    let vote = || {
        Message::RequestVoteResponseType(RequestVoteResponse { term: 0, vote_granted: true })
    };
    let result = node.server.handle_append_entries(Incoming { from: peer(1), msg: vote() });
    assert_eq!(result, Err(ServerError::UnexpectedMessage));
    let result =
        node.server.handle_append_entries_response(Incoming { from: peer(1), msg: vote() });
    assert_eq!(result, Ok(()));
    assert_eq!(node.server.state.votes_received, 0);
}

#[test]
fn replication_requests_of_clients_are_ignored() {
    let mut node = node();
    let from = Id::Client(ClientId::new(1));
    assert!(node.receive(from, append(9, 0, 0, vec![entry(9, 0)], 0)).is_ok());
    assert!(node.outbox.is_empty());
    assert!(node.server.log.is_empty());
    assert_eq!(node.server.state.current_term, 0);
}

#[test]
fn conflicting_suffix_is_replaced() {
    let mut node = node();
    node.server.log = vec![entry(1, 0), entry(1, 1), entry(1, 2), entry(1, 3)];
    node.server.state.current_term = 2;
    let new = vec![entry(1, 1), entry(2, 2)];
    assert!(node.receive(peer(2), append(2, 0, 1, new, -1)).is_ok());
    assert!(node.answer().success);
    assert_eq!(node.server.log, vec![entry(1, 0), entry(1, 1), entry(2, 2)]);
}

#[test]
fn entries_that_are_present_change_nothing() {
    let mut node = node();
    let log = vec![entry(1, 0), entry(1, 1), entry(1, 2)];
    node.server.log = log.clone();
    assert!(node.receive(peer(2), append(1, 0, 1, vec![entry(1, 0), entry(1, 1)], -1)).is_ok());
    assert!(node.answer().success);
    assert_eq!(node.server.log, log);
    // and again
    assert!(node.receive(peer(2), append(1, 0, 1, vec![entry(1, 0), entry(1, 1)], -1)).is_ok());
    assert_eq!(node.server.log, log);
}

#[test]
fn a_gap_after_the_log_is_not_accepted() {
    let node = node();
    let incoming = Incoming { from: peer(2), msg: append(1, 0, 0, vec![entry(1, 1)], 0) };
    assert!(!node.server.accepts(&incoming));
    let incoming = Incoming { from: peer(2), msg: append(1, 0, 0, vec![entry(1, 0)], 0) };
    assert!(node.server.accepts(&incoming));
}

#[test]
fn follower_commits_up_to_the_last_new_entry() {
    let mut node = node();
    let entries = vec![entry(1, 0), entry(1, 1)];
    assert!(node.receive(peer(2), append(1, 0, 0, entries, 7)).is_ok());
    assert_eq!(node.server.state.commit_index, 1);
    assert_eq!(node.server.state.last_applied, -1);
    // applied with the next message
    assert!(node.receive(peer(2), append(1, 1, 1, vec![], 7)).is_ok());
    assert_eq!(node.server.state.last_applied, 1);
    assert_eq!(
        node.server.state.state_machine.get_value("key".to_string()),
        Some("value".to_string())
    );
}

#[test]
fn committed_entries_are_applied_in_order() {
    let mut node = node();
    let command = |index: u32, command: LogCommand| LogEntry {
        term: 1,
        command,
        index,
        client_id: 1,
        request_id: index,
    };
    node.server.log = vec![
        command(0, set("a", "1")),
        command(1, set("b", "1")),
        command(2, LogCommand::Get { key: "a".to_string() }),
        command(3, set("a", "2")),
        command(4, LogCommand::Delete { key: "b".to_string() }),
        command(5, set("c", "1")),
    ];
    assert!(node.server.apply_latest_commited_logs(4).is_ok());
    assert_eq!((node.server.state.commit_index, node.server.state.last_applied), (4, 4));
    let store = &node.server.state.state_machine;
    assert_eq!(store.get_value("a".to_string()), Some("2".to_string()));
    assert_eq!(store.get_value("b".to_string()), None);
    assert_eq!(store.get_value("c".to_string()), None);
    // clamped to the end of the log
    assert!(node.server.apply_latest_commited_logs(40).is_ok());
    assert_eq!((node.server.state.commit_index, node.server.state.last_applied), (5, 5));
}

/// A state machine that refuses a key a number of times.
struct Reluctant {
    refusals: u32,
    taken: Vec<String>,
}

impl StateMachine for Reluctant {
    fn apply_log(&mut self, key: String, _value: String) -> Result<(), StateMachineError> {
        if key == "bad" && self.refusals > 0 {
            self.refusals -= 1;
            return Err(StateMachineError { reason: "not yet".to_string() });
        }
        self.taken.push(key);
        Ok(())
    }

    fn get_value(&self, _key: String) -> Option<String> {
        None
    }

    fn delete_key(&mut self, _key: String) -> Result<(), StateMachineError> {
        Err(StateMachineError { reason: "never".to_string() })
    }
}

#[test]
fn a_refused_command_stops_the_application() {
    let mut node = node_with(Reluctant { refusals: 1, taken: vec![] });
    let mut bad = entry(1, 1);
    bad.command = set("bad", "x");
    node.server.log = vec![entry(1, 0), bad, entry(1, 2)];
    let refused = node.server.apply_latest_commited_logs(2);
    assert_eq!(refused.unwrap_err().reason, "not yet");
    assert_eq!(node.server.state.last_applied, 0);
    assert_eq!(node.server.state.commit_index, 2);
    assert!(node.server.apply_latest_commited_logs(2).is_ok());
    assert_eq!(node.server.state.last_applied, 2);
    assert_eq!(node.server.state.state_machine.taken, vec!["key", "bad", "key"]);
}

#[test]
fn a_leader_tries_as_often_as_there_are_entries() {
    let mut node = node_with(Reluctant { refusals: 1, taken: vec![] });
    simulate_follower_becomes_leader(&mut node);
    node.server.leader_start();
    node.collect();
    assert!(node.receive(peer(9), request(1, 6, set("key", "v"))).is_ok());
    assert!(node.receive(peer(9), request(2, 6, set("bad", "v"))).is_ok());
    node.server.state.match_index = vec![-1, 1, 1, -1, -1, -1];
    node.server.state.commit_index = 0;
    node.outbox.clear();
    assert!(node.receive(peer(1), answer(1, true)).is_ok());
    assert_eq!((node.server.state.commit_index, node.server.state.last_applied), (1, 1));
    assert_eq!(node.server.state.state_machine.taken, vec!["key", "bad"]);
    assert_eq!(node.server.state.match_index[0], 1);
}

#[test]
fn client_is_told_of_the_commit() {
    let mut node = node();
    simulate_follower_becomes_leader(&mut node);
    node.server.leader_start();
    node.collect();
    assert!(node.receive(peer(67), request(67, 6, set("key", "value"))).is_ok());
    assert_eq!(node.server.log[0].term, 1);
    assert_eq!((node.server.log[0].client_id, node.server.log[0].request_id), (6, 67));
    // one request on account of each peer, and one heartbeat before them
    assert_eq!(node.outbox.len(), 4);
    for out in node.outbox.iter().skip(1) {
        assert_eq!(out.dest, Destination::Broadcast);
        let Message::AppendEntriesType(msg) = &out.msg else {
            panic!("Expected AppendEntriesType");
        };
        assert_eq!((msg.prev_log_index, msg.prev_log_term, msg.leader_commit), (-1, 0, -1));
        assert_eq!(msg.entries, node.server.log);
    }
    assert_eq!(node.server.state.last_sent_index, vec![0; 6]);
    node.outbox.clear();

    assert!(node.receive(peer(1), answer(1, true)).is_ok());
    assert_eq!(node.server.state.commit_index, -1);
    assert_eq!(node.server.state.match_index[1], 0);
    assert_eq!(node.server.state.next_index[1], 1);
    assert!(node.outbox.is_empty());

    assert!(node.receive(peer(2), answer(1, true)).is_ok());
    assert_eq!((node.server.state.commit_index, node.server.state.last_applied), (0, 0));
    let out = node.outbox.pop_front().unwrap();
    assert_eq!(out.dest, Destination::Client(ClientId::new(6)));
    assert!(matches!(
        out.msg,
        Message::ClientResponseType(ClientResponse::SetSuccess { request_id: 67 })
    ));
    assert_eq!(
        node.server.state.state_machine.get_value("key".to_string()),
        Some("value".to_string())
    );
}

/// A leader whose log ends in `command` once two nodes have confirmed all of it, and what it has
/// told the client.
fn after_commit(
    earlier: Vec<LogCommand>,
    command: LogCommand,
) -> (Node<SimpleStateMachine>, Option<Message>) {
    let mut node = node();
    simulate_follower_becomes_leader(&mut node);
    node.server.leader_start();
    node.collect();
    node.outbox.clear();
    for (i, command) in earlier.into_iter().chain([command]).enumerate() {
        let request_id = 8 + i as u32;
        node.server.log.push(LogEntry {
            term: 0,
            command,
            index: i as u32,
            client_id: 3,
            request_id,
        });
    }
    let last = node.server.log.len() as i32 - 1;
    // only the last entry is of the present term, so all of them are committed at once
    node.server.log[last as usize].term = 1;
    node.server.state.last_sent_index = vec![last; 6];
    assert!(node.receive(peer(1), answer(1, true)).is_ok());
    assert!(node.outbox.is_empty());
    assert!(node.receive(peer(2), answer(1, true)).is_ok());
    assert_eq!((node.server.state.commit_index, node.server.state.last_applied), (last, last));
    let told = node.outbox.pop_front().map(|out| {
        assert_eq!(out.dest, Destination::Client(ClientId::new(3)));
        out.msg
    });
    (node, told)
}

fn delete(key: &str) -> LogCommand {
    LogCommand::Delete { key: key.to_string() }
}

#[test]
fn deletion_of_an_absent_key_is_told() {
    for (earlier, request_id) in [
        (vec![], 8),
        (vec![set("other", "value")], 9),
        (vec![set("key", "value"), delete("key")], 10),
    ] {
        let (node, told) = after_commit(earlier, delete("key"));
        match told {
            Some(Message::ClientResponseType(ClientResponse::DeleteSuccess {
                request_id: id,
                existed,
            })) => assert_eq!((id, existed), (request_id, false)),
            other => panic!("unexpected {:?}", other),
        }
        assert_eq!(node.server.state.state_machine.get_value("key".to_string()), None);
    }
}

#[test]
fn deletion_of_a_present_key_is_told() {
    let (node, told) = after_commit(vec![set("key", "value"), set("b", "c")], delete("key"));
    assert!(matches!(
        told,
        Some(Message::ClientResponseType(ClientResponse::DeleteSuccess {
            request_id: 10,
            existed: true
        }))
    ));
    assert_eq!(node.server.state.state_machine.get_value("key".to_string()), None);
    assert_eq!(
        node.server.state.state_machine.get_value("b".to_string()),
        Some("c".to_string())
    );
}

#[test]
fn a_committed_lookup_is_not_answered() {
    let (_, told) = after_commit(vec![], LogCommand::Get { key: "key".to_string() });
    assert!(told.is_none());
}

#[test]
fn a_refused_deletion_deletes_nothing() {
    let mut node = node_with(Reluctant { refusals: 0, taken: vec![] });
    simulate_follower_becomes_leader(&mut node);
    node.server.leader_start();
    node.collect();
    node.outbox.clear();
    node.server.log = vec![entry(1, 0)];
    node.server.log[0].command = delete("key");
    node.server.state.match_index = vec![-1, 0, -1, -1, -1, -1];
    assert!(node.receive(peer(2), answer(1, true)).is_ok());
    assert!(matches!(
        node.outbox.pop_front().unwrap().msg,
        Message::ClientResponseType(ClientResponse::DeleteSuccess { existed: false, .. })
    ));
}

#[test]
fn a_retry_notes_what_it_sent() {
    let mut node = node();
    simulate_follower_becomes_leader(&mut node);
    node.server.log = vec![entry(0, 0), entry(0, 1), entry(1, 2)];
    node.server.state.next_index = vec![3; 6];
    assert_eq!(node.server.state.last_sent_index[1], 0);
    assert!(node.receive(peer(1), answer(1, false)).is_ok());
    assert_eq!(node.server.state.last_sent_index, vec![0, 2, 0, 0, 0, 0]);
    assert_eq!(node.server.state.next_index[1], 2);
    // the success that follows confirms all of the log
    assert!(node.receive(peer(1), answer(1, true)).is_ok());
    assert_eq!(node.server.state.match_index[1], 2);
    assert_eq!(node.server.state.next_index[1], 3);
}

#[test]
fn commit_index_stops_at_the_last_new_entry() {
    let mut node = node();
    node.server.log = vec![entry(1, 0), entry(1, 1), entry(1, 2)];
    node.server.state.current_term = 1;
    assert!(node.receive(peer(2), append(1, 0, 1, vec![entry(1, 1)], 2)).is_ok());
    assert!(node.answer().success);
    assert_eq!(node.server.state.commit_index, 1);
    // without news of a commit it stays
    assert!(node.receive(peer(2), append(1, 0, 1, vec![entry(1, 1)], 1)).is_ok());
    assert_eq!(node.server.state.commit_index, 1);
    // and the leader's may come first
    node.server.state.commit_index = -1;
    assert!(node.receive(peer(2), append(1, 0, 1, vec![entry(1, 1)], 0)).is_ok());
    assert_eq!(node.server.state.commit_index, 0);
}

#[test]
fn entries_that_are_replaced_are_not_applied() {
    let mut node = node();
    let mut old = entry(1, 1);
    old.command = set("old", "value");
    node.server.log = vec![entry(1, 0), old];
    node.server.state.current_term = 1;
    let mut new = entry(2, 1);
    new.command = set("new", "value");
    assert!(node.receive(peer(2), append(2, 0, 1, vec![new.clone()], 1)).is_ok());
    // the entry that stays is applied, the one that is replaced is not
    assert_eq!((node.server.state.commit_index, node.server.state.last_applied), (1, 0));
    let store = &node.server.state.state_machine;
    assert_eq!(store.get_value("key".to_string()), Some("value".to_string()));
    assert_eq!(store.get_value("old".to_string()), None);
    node.server.follower_start();
    assert_eq!(node.server.state.last_applied, 1);
    let store = &node.server.state.state_machine;
    assert_eq!(store.get_value("old".to_string()), None);
    assert_eq!(store.get_value("new".to_string()), Some("value".to_string()));
}

#[test]
fn what_stays_in_the_log_is_applied_before_the_merge() {
    for role in [RaftState::Follower, RaftState::Candidate, RaftState::Leader] {
        let mut node = node();
        node.server.state.state = role;
        node.server.state.current_term = 1;
        let mut second = entry(1, 1);
        second.command = set("second", "value");
        node.server.log = vec![entry(1, 0), second];
        assert!(node.receive(peer(2), append(1, 1, 1, vec![entry(1, 2)], 1)).is_ok());
        assert!(node.answer().success);
        assert_eq!((node.server.state.commit_index, node.server.state.last_applied), (1, 1));
        let store = &node.server.state.state_machine;
        assert_eq!(store.get_value("key".to_string()), Some("value".to_string()));
        assert_eq!(store.get_value("second".to_string()), Some("value".to_string()));
        assert_eq!(node.server.log.len(), 3);
    }
}

#[test]
fn news_of_a_commit_counts_up_to_the_last_new_entry() {
    let mut node = node();
    node.server.state.current_term = 1;
    node.server.log = vec![entry(1, 0), entry(1, 1), entry(1, 2)];
    assert!(node.receive(peer(2), append(1, 0, 1, vec![entry(1, 1)], 9)).is_ok());
    assert_eq!((node.server.state.commit_index, node.server.state.last_applied), (1, 1));
    // what was known to be committed is applied in any case
    node.server.state.commit_index = 2;
    assert!(node.receive(peer(2), append(1, 0, 1, vec![entry(1, 0)], 1)).is_ok());
    assert_eq!((node.server.state.commit_index, node.server.state.last_applied), (2, 2));
}

#[test]
fn merging_again_keeps_the_log() {
    let mut node = node();
    node.server.log = vec![entry(1, 0), entry(1, 1), entry(1, 2)];
    let msg = AppendEntries {
        term: 2,
        leader_id: NodeId::new(1),
        prev_log_index: 0,
        prev_log_term: 1,
        entries: vec![entry(1, 1), entry(2, 2), entry(2, 3)],
        leader_commit: -1,
    };
    for _ in 0..3 {
        node.server.delete_conflicting_and_append_new_entries(&msg);
        assert_eq!(node.server.log, vec![entry(1, 0), entry(1, 1), entry(2, 2), entry(2, 3)]);
    }
}

#[test]
fn only_setting_is_served_and_only_by_a_leader() {
    let mut node = node();
    assert!(node.receive(peer(9), request(1, 1, set("a", "b"))).is_ok());
    assert!(node.server.log.is_empty());
    simulate_follower_becomes_leader(&mut node);
    assert!(node.receive(peer(9), request(1, 1, LogCommand::Get { key: "a".into() })).is_ok());
    assert!(node.receive(peer(9), request(1, 1, LogCommand::Delete { key: "a".into() })).is_ok());
    assert!(node.server.log.is_empty());
    assert!(node.receive(peer(9), request(1, 1, set("a", "b"))).is_ok());
    assert_eq!(node.server.log.len(), 1);
}

#[test]
fn peers_are_taken_in_the_given_order() {
    let mut node = node();
    simulate_follower_becomes_leader(&mut node);
    node.server.leader_start();
    node.collect();
    node.outbox.clear();
    node.server.log.push(entry(1, 0));
    node.server.state.next_index = vec![0, 1, 0, 1, 0, 0];
    let peers: Vec<(NodeId, String)> =
        [3, 0, 2].iter().map(|id| (NodeId::new(*id), String::new())).collect();
    let result = node.server.set_in_order("a".into(), "b".into(), 1, 2, &peers);
    assert_eq!(result, Ok(()));
    node.collect();
    let starts: Vec<(i32, u32)> = node
        .outbox
        .iter()
        .map(|out| match &out.msg {
            Message::AppendEntriesType(msg) => (msg.prev_log_index, msg.prev_log_term),
            other => panic!("unexpected {:?}", other),
        })
        .collect();
    assert_eq!(starts, vec![(0, 1), (-1, 0)]);
    assert_eq!(node.server.state.last_sent_index, vec![0, 0, 1, 1, 0, 0]);
}

#[test]
fn closed_network_stops_the_handlers() {
    let mut node = node();
    simulate_follower_becomes_leader(&mut node);
    node.server.leader_start();
    node.collect();
    node.outbox.clear();
    node.server.to_network.close();
    let closed = Err(ServerError::NetworkClosed);
    assert_eq!(node.receive(peer(9), request(1, 1, set("a", "b"))), closed);
    assert_eq!(node.server.log.len(), 1);
    node.server.state.next_index[1] = 1;
    assert_eq!(node.receive(peer(1), answer(1, false)), closed);
    assert_eq!(node.server.state.next_index[1], 0);
    assert_eq!(node.receive(peer(1), append(0, 0, 0, vec![], 0)), closed);
    let vote = RequestVote {
        term: 0,
        candidate_id: NodeId::new(1),
        last_log_index: 0,
        last_log_term: 0,
    };
    assert_eq!(node.receive(peer(1), Message::RequestVoteType(vote)), closed);
    assert!(node.outbox.is_empty());
}

fn vote(node: &mut Node<SimpleStateMachine>, term: u32, candidate: u64, last: (i32, u32)) -> bool {
    let msg = Message::RequestVoteType(RequestVote {
        term,
        candidate_id: NodeId::new(candidate),
        last_log_index: last.0,
        last_log_term: last.1,
    });
    assert!(node.receive(peer(candidate), msg).is_ok());
    let out = node.outbox.pop_front().unwrap();
    assert_eq!(out.dest, Destination::Node(NodeId::new(candidate)));
    match out.msg {
        Message::RequestVoteResponseType(response) => {
            assert_eq!(response.term, node.server.state.current_term);
            response.vote_granted
        }
        other => panic!("Expected RequestVoteResponseType, got {:?}", other),
    }
}

#[test]
fn votes_go_to_the_one_voted_for() {
    let mut node = node();
    node.server.state.current_term = 2;
    assert!(!vote(&mut node, 1, 4, (0, 0)));
    assert!(vote(&mut node, 2, 4, (0, 0)));
    node.server.log.push(entry(1, 0));
    node.server.log.push(entry(2, 1));
    node.server.state.voted_for = Some(NodeId::new(3));
    assert!(!vote(&mut node, 3, 4, (1, 2)));
    assert!(vote(&mut node, 3, 3, (1, 2)));
    assert!(vote(&mut node, 3, 3, (5, 2)));
    assert!(!vote(&mut node, 3, 3, (0, 2)));
    assert!(!vote(&mut node, 3, 3, (1, 3)));
}

#[test]
fn a_vote_that_cannot_be_decided_is_not_accepted() {
    let mut node = node();
    node.server.state.voted_for = Some(NodeId::new(3));
    let msg = RequestVote {
        term: 0,
        candidate_id: NodeId::new(3),
        last_log_index: 0,
        last_log_term: 0,
    };
    let incoming = Incoming { from: peer(3), msg: Message::RequestVoteType(msg) };
    assert!(!node.server.accepts(&incoming));
    node.server.log.push(entry(0, 0));
    assert!(node.server.accepts(&incoming));
}

#[test]
fn majority_of_votes_makes_a_leader() {
    let mut node = node();
    node.server.state.state = RaftState::Candidate;
    let yes = RequestVoteResponse { term: 0, vote_granted: true };
    let no = RequestVoteResponse { term: 0, vote_granted: false };
    node.server.handle_request_vote_response_rpc(yes);
    node.server.handle_request_vote_response_rpc(no);
    node.server.handle_request_vote_response_rpc(yes);
    assert_eq!(node.server.state.state, RaftState::Candidate);
    node.server.handle_request_vote_response_rpc(yes);
    assert_eq!(node.server.state.state, RaftState::Leader);
    assert_eq!(node.server.state.votes_received, 3);
    node.server.handle_request_vote_response_rpc(RequestVoteResponse {
        term: 6,
        vote_granted: false,
    });
    assert_eq!(node.server.state.state, RaftState::Follower);
    assert_eq!((node.server.state.current_term, node.server.state.votes_received), (6, 0));
    assert!(node.server.state.voted_for.is_none());
}

#[test]
fn a_leader_steps_down_on_the_answer_of_a_higher_term() {
    let mut node = node();
    simulate_follower_becomes_leader(&mut node);
    assert!(node.receive(peer(1), answer(5, false)).is_ok());
    assert_eq!(node.server.state.state, RaftState::Follower);
    assert_eq!(node.server.state.current_term, 5);
    // and then takes no more answers into account
    assert!(node.receive(peer(1), answer(5, true)).is_ok());
    assert_eq!(node.server.state.match_index, vec![-1; 6]);
}

#[test]
fn answers_that_cannot_be_placed_are_not_accepted() {
    let mut node = node();
    simulate_follower_becomes_leader(&mut node);
    node.server.log.push(entry(1, 0));
    let accepts = |node: &Node<SimpleStateMachine>, id: u64, success: bool| {
        node.server.accepts(&Incoming { from: peer(id), msg: answer(1, success) })
    };
    assert!(accepts(&node, 5, true));
    assert!(!accepts(&node, 6, true));
    assert!(accepts(&node, 1, false));
    node.server.state.next_index[1] = 2;
    assert!(!accepts(&node, 1, false));
    node.server.log.clear();
    node.server.state.next_index[1] = 0;
    assert!(!accepts(&node, 1, true));
    // a node without a place for itself can take answers in as long as they commit nothing
    node.server.log.push(entry(1, 0));
    node.server.id = NodeId::new(40);
    assert!(accepts(&node, 1, true));
    node.server.state.match_index[2] = 0;
    assert!(!accepts(&node, 1, true));
}

#[test]
fn the_first_position_with_a_majority_is_committed() {
    let mut node = node();
    simulate_follower_becomes_leader(&mut node);
    node.server.log = vec![entry(0, 0), entry(1, 1), entry(1, 2)];
    node.server.state.match_index = vec![-1, 2, 2, 2, -1, -1];
    node.server.state.last_sent_index[4] = 2;
    assert!(node.receive(peer(4), answer(1, true)).is_ok());
    // not the entry of an earlier term, and not the last one
    assert_eq!(node.server.state.commit_index, 1);
    assert_eq!(node.server.state.last_applied, 1);
}

#[test]
fn refusal_commits_but_does_not_complete() {
    let mut node = node();
    simulate_follower_becomes_leader(&mut node);
    node.server.log = vec![entry(1, 0)];
    node.server.state.match_index = vec![-1, 0, 0, -1, -1, -1];
    assert!(node.receive(peer(3), answer(1, false)).is_ok());
    assert_eq!((node.server.state.commit_index, node.server.state.last_applied), (0, -1));
    assert_eq!(node.outbox.len(), 1);
}

#[test]
fn starting_to_lead_resets_the_next_positions() {
    let mut node = node();
    node.server.log = vec![entry(1, 0), entry(1, 1)];
    node.server.state.commit_index = 0;
    node.server.state.state = RaftState::Leader;
    node.server.leader_start();
    node.collect();
    assert_eq!(node.server.state.last_applied, 0);
    assert_eq!(node.server.state.next_index, vec![1; 6]);
    let Message::AppendEntriesType(heartbeat) = node.outbox.pop_front().unwrap().msg else {
        panic!("Expected AppendEntriesType");
    };
    assert_eq!((heartbeat.prev_log_index, heartbeat.prev_log_term), (1, 1));
    assert_eq!(heartbeat.leader_commit, 0);
    assert!(heartbeat.entries.is_empty());
}

#[test]
fn closed_channel_changes_nothing() {
    let mut node = node();
    node.server.follower_event(Event::ChannelClosed);
    assert_eq!(node.server.state.state, RaftState::Follower);
    node.server.state.state = RaftState::Candidate;
    let timeout = Duration::from_millis(200);
    let (done, next) = node.server.candidate_event(Event::ChannelClosed, timeout);
    assert_eq!((done, next), (false, timeout));
    node.server.state.state = RaftState::Leader;
    assert!(!node.server.leader_event(Event::ChannelClosed));
}

#[test]
fn candidates_wait_a_little_longer_each_time() {
    let mut node = node();
    node.server.state.state = RaftState::Candidate;
    let before = node.server.state.last_heartbeat;
    let mut timeout = node.server.candidate_start();
    assert!(node.server.state.last_heartbeat >= before);
    assert_eq!(timeout, Duration::from_millis(200));
    assert_eq!(node.server.state.voted_for, Some(NodeId::new(0)));
    let mut grown = Duration::ZERO;
    for _ in 0..200 {
        assert!(mini_raft::candidate::can_extend(timeout));
        let (done, next) = node.server.candidate_event(Event::Timeout, timeout);
        assert!(!done);
        assert!(next >= timeout && next - timeout < Duration::from_micros(500));
        assert_eq!((next - timeout).as_nanos() % 1_000, 0);
        grown += next - timeout;
        timeout = next;
    }
    // the jitter is not always zero
    assert!(grown > Duration::ZERO);
    assert!(!mini_raft::candidate::can_extend(Duration::MAX));
    assert_eq!(
        mini_raft::candidate::extend_timeout(Duration::from_millis(2), 7),
        Duration::from_micros(2007)
    );
}
