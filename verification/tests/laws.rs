use mini_raft::codec::{
    AppendEntries, AppendEntriesResponse, ClientRequest, ClientResponse, Message, RequestVote,
    RequestVoteResponse,
};
use mini_raft::config::ServerConfig;
use mini_raft::server::{
    ClientId, Destination, Id, Incoming, LogCommand, LogEntry, NodeId, Outgoing, RaftState, Server,
    ServerError,
};
use mini_raft::state_machine::{SimpleStateMachine, StateMachine};
use std::collections::HashMap;

type Node = Server<SimpleStateMachine>;

fn node(id: u64, total_nodes: u32) -> Node {
    let mut peer_addresses = HashMap::new();
    for peer in 0..total_nodes as u64 {
        peer_addresses.insert(peer, String::new());
    }
    let config = ServerConfig {
        election_timeout: 150,
        heartbeat_interval: 50,
        address: String::new(),
        total_nodes,
        peer_addresses,
        node_id: id,
        client_listener_address: String::new(),
        peer_listener_address: String::new(),
    };
    Server::new(NodeId::new(id), config, SimpleStateMachine::new())
}

fn set(key: &str, value: &str) -> LogCommand {
    LogCommand::Put { key: key.to_string(), value: value.to_string() }
}

fn delete(key: &str) -> LogCommand {
    LogCommand::Delete { key: key.to_string() }
}

fn entry(term: u32, index: u32, command: LogCommand) -> LogEntry {
    LogEntry { term, command, index, client_id: 5, request_id: index + 100 }
}

/// A log with entries of the given terms.
fn log(terms: &[u32]) -> Vec<LogEntry> {
    terms
        .iter()
        .enumerate()
        .map(|(i, term)| entry(*term, i as u32, set(&format!("key{i}"), &format!("{term}"))))
        .collect()
}

fn terms(log: &[LogEntry]) -> Vec<u32> {
    log.iter().map(|entry| entry.term).collect()
}

fn receive(node: &mut Node, from: u64, msg: Message) -> Result<(), ServerError> {
    let incoming = Incoming { from: Id::Peer(NodeId::new(from)), msg };
    assert!(node.accepts(&incoming));
    node.recieve_rpc(incoming)
}

fn append(term: u32, prev: (i32, u32), entries: Vec<LogEntry>, leader_commit: i32) -> Message {
    Message::AppendEntriesType(AppendEntries {
        term,
        leader_id: NodeId::new(0),
        prev_log_index: prev.0,
        prev_log_term: prev.1,
        entries,
        leader_commit,
    })
}

fn answer(term: u32, success: bool) -> Message {
    Message::AppendEntriesResponseType(AppendEntriesResponse { term, success })
}

fn vote(term: u32, vote_granted: bool) -> Message {
    Message::RequestVoteResponseType(RequestVoteResponse { term, vote_granted })
}

fn request(command: LogCommand, request_id: u32) -> Message {
    Message::ClientRequestType(ClientRequest { command, client_id: 5, request_id })
}

fn value(node: &Node, key: &str) -> Option<String> {
    node.state.state_machine.get_value(key.to_string())
}

#[test]
fn a_store_gives_back_what_was_set() {
    let mut store = SimpleStateMachine::new();
    let get = |store: &SimpleStateMachine, key: &str| store.get_value(key.to_string());
    assert_eq!(get(&store, "a"), None);
    assert!(store.apply_log("a".into(), "1".into()).is_ok());
    assert!(store.apply_log("b".into(), "2".into()).is_ok());
    assert!(store.apply_log("a".into(), "3".into()).is_ok());
    assert_eq!(get(&store, "a"), Some("3".to_string()));
    assert_eq!(get(&store, "b"), Some("2".to_string()));
    assert!(store.delete_key("a".into()).is_ok());
    assert!(store.delete_key("never".into()).is_ok());
    assert_eq!(get(&store, "a"), None);
    assert_eq!(get(&store, "b"), Some("2".to_string()));
}

#[test]
fn merging_keeps_what_agrees_and_replaces_the_rest() {
    // the follower's log, the leader's entries from position 1 on, and the outcome
    let cases: [(&[u32], &[u32], &[u32]); 6] = [
        (&[1, 1, 1], &[1, 1], &[1, 1, 1]),
        (&[1, 1, 1, 1], &[1], &[1, 1, 1, 1]),
        (&[1, 1, 1, 1], &[1, 2], &[1, 1, 2]),
        (&[1, 1, 1, 1], &[2], &[1, 2]),
        (&[1, 1], &[1, 1, 2], &[1, 1, 1, 2]),
        (&[1], &[3, 3], &[1, 3, 3]),
    ];
    for (mine, theirs, outcome) in cases {
        let mut follower = node(1, 3);
        follower.log = log(mine);
        let mut leader_terms = vec![1];
        leader_terms.extend_from_slice(theirs);
        let entries: Vec<LogEntry> = log(&leader_terms).split_off(1);
        // twice, the second time without effect
        for _ in 0..2 {
            assert!(receive(&mut follower, 0, append(3, (0, 1), entries.clone(), -1)).is_ok());
            assert_eq!(terms(&follower.log), outcome);
            for (i, entry) in follower.log.iter().enumerate() {
                assert_eq!(entry.index, i as u32);
            }
        }
    }
}

#[test]
fn terms_only_grow() {
    let mut server = node(1, 3);
    server.state.current_term = 5;
    for msg in [
        append(4, (0, 0), vec![], 0),
        answer(4, true),
        vote(4, false),
        Message::RequestVoteType(RequestVote {
            term: 9,
            candidate_id: NodeId::new(2),
            last_log_index: 0,
            last_log_term: 0,
        }),
    ] {
        assert!(receive(&mut server, 0, msg).is_ok());
        assert_eq!(server.state.current_term, 5);
    }
    assert!(receive(&mut server, 0, append(6, (0, 0), vec![], 0)).is_ok());
    assert_eq!(server.state.current_term, 6);
    assert!(receive(&mut server, 0, vote(8, true)).is_ok());
    assert_eq!(server.state.current_term, 8);
}

#[test]
fn a_higher_term_makes_a_follower_of_every_role() {
    for role in [RaftState::Candidate, RaftState::Leader] {
        for msg in [append(2, (0, 0), log(&[2]), 0), vote(2, true)] {
            let mut server = node(1, 3);
            server.state.state = role;
            assert!(receive(&mut server, 0, msg).is_ok());
            assert_eq!(server.state.state, RaftState::Follower);
            assert_eq!(server.state.current_term, 2);
            // the request that made it step down is dropped
            assert!(server.log.is_empty());
            assert!(server.to_network.queue.is_empty());
        }
    }
}

#[test]
fn a_candidate_of_the_same_term_stays_one() {
    let mut server = node(1, 3);
    server.state.state = RaftState::Candidate;
    server.state.current_term = 2;
    assert!(receive(&mut server, 0, append(2, (0, 0), log(&[2]), 0)).is_ok());
    assert_eq!(server.state.state, RaftState::Candidate);
    assert_eq!(terms(&server.log), vec![2]);
}

#[test]
fn majorities_of_votes_and_replicas() {
    for (total, needed) in [(2u32, 2), (3, 2), (4, 3), (5, 3)] {
        let mut server = node(0, total);
        server.state.state = RaftState::Candidate;
        for votes in 1..=needed {
            assert_eq!(server.state.state, RaftState::Candidate);
            assert!(receive(&mut server, 1, vote(0, true)).is_ok());
            assert_eq!(server.state.votes_received, votes);
        }
        assert_eq!(server.state.state, RaftState::Leader);

        // with the leader itself
        server.log = log(&[0]);
        for peer in 1..needed as u64 {
            assert_eq!(server.state.commit_index, -1);
            assert!(receive(&mut server, peer, answer(0, true)).is_ok());
        }
        assert_eq!(server.state.commit_index, 0);
    }
}

#[test]
fn commit_index_of_a_follower() {
    let mut server = node(1, 3);
    server.log = log(&[1, 1, 1]);
    server.state.current_term = 1;
    for (leader_commit, expected) in [(0, 0), (-1, 0), (1, 1), (0, 1), (9, 2), (2, 2)] {
        assert!(receive(&mut server, 0, append(1, (2, 1), vec![], leader_commit)).is_ok());
        assert_eq!(server.state.commit_index, expected);
        assert_eq!(server.state.last_applied, expected);
    }
    // news from beyond the log, with entries that end early
    assert!(receive(&mut server, 0, append(1, (0, 1), log(&[1]), 9)).is_ok());
    assert_eq!(server.state.commit_index, 0);
}

#[test]
fn a_leader_only_appends() {
    let mut server = node(0, 3);
    server.state.state = RaftState::Leader;
    server.state.current_term = 3;
    server.log = log(&[1, 2]);
    server.state.next_index = vec![2; 4];
    server.state.last_sent_index = vec![1; 4];
    let before = server.log.clone();
    assert!(receive(&mut server, 1, request(set("k", "v"), 7)).is_ok());
    assert!(receive(&mut server, 1, answer(3, false)).is_ok());
    assert!(receive(&mut server, 2, append(2, (0, 1), log(&[2]), 0)).is_ok());
    assert!(receive(&mut server, 2, append(9, (0, 1), vec![entry(9, 0, set("x", "y"))], 0)).is_ok());
    assert_eq!(server.state.state, RaftState::Follower);
    assert_eq!(&server.log[..2], &before[..]);
    assert_eq!(
        server.log[2],
        LogEntry { term: 3, command: set("k", "v"), index: 2, client_id: 5, request_id: 7 }
    );
    assert_eq!(server.log.len(), 3);
}

#[test]
fn nothing_is_applied_before_it_is_committed() {
    let mut server = node(1, 3);
    let entries = log(&[1, 1, 1]);
    assert!(receive(&mut server, 0, append(1, (-1, 0), entries, -1)).is_ok());
    assert_eq!((server.state.commit_index, server.state.last_applied), (-1, -1));
    assert_eq!(value(&server, "key0"), None);
    assert!(receive(&mut server, 0, append(1, (2, 1), vec![], 1)).is_ok());
    assert_eq!((server.state.commit_index, server.state.last_applied), (1, 1));
    assert_eq!(value(&server, "key1"), Some("1".to_string()));
    assert_eq!(value(&server, "key2"), None);
}

#[test]
fn retransmission_brings_logs_in_line() {
    let mut leader = node(0, 3);
    leader.state.state = RaftState::Leader;
    leader.state.current_term = 4;
    leader.log = log(&[1, 1, 4, 4]);
    leader.state.next_index = vec![4; 4];
    let mut follower = node(1, 3);
    follower.state.current_term = 3;
    follower.log = log(&[1, 1, 2, 3, 3]);

    // refusals take the leader back until the follower agrees
    let mut rounds = 0;
    loop {
        assert!(receive(&mut leader, 1, answer(3, false)).is_ok());
        let sent: Outgoing = leader.to_network.drain().remove(0);
        assert_eq!(sent.dest, Destination::Node(NodeId::new(1)));
        assert!(receive(&mut follower, 0, sent.msg).is_ok());
        rounds += 1;
        match follower.to_network.drain().remove(0).msg {
            Message::AppendEntriesResponseType(response) if response.success => break,
            _ => assert!(rounds < 10),
        }
    }
    assert_eq!(rounds, 3);
    assert_eq!(follower.log, leader.log);
    assert_eq!(follower.state.current_term, 4);
}

#[test]
fn equal_logs_give_equal_stores() {
    let commands = vec![set("a", "1"), set("b", "2"), delete("a"), set("c", "3"), set("b", "4")];
    let log: Vec<LogEntry> =
        commands.into_iter().enumerate().map(|(i, c)| entry(1, i as u32, c)).collect();
    let mut stepwise = node(1, 3);
    stepwise.log = log.clone();
    for commit in 0..5 {
        assert!(stepwise.apply_latest_commited_logs(commit).is_ok());
    }
    let mut at_once = node(2, 3);
    at_once.log = log;
    assert!(at_once.apply_latest_commited_logs(4).is_ok());
    for key in ["a", "b", "c", "d"] {
        assert_eq!(value(&stepwise, key), value(&at_once, key));
    }
    assert_eq!(value(&at_once, "a"), None);
    assert_eq!(value(&at_once, "b"), Some("4".to_string()));
}

#[test]
fn a_replicated_command_reaches_a_follower() {
    let mut leader = node(0, 2);
    leader.state.state = RaftState::Leader;
    leader.state.current_term = 1;
    leader.leader_start();
    leader.to_network.drain();
    let mut follower = node(1, 2);

    assert!(receive(&mut leader, 9, request(set("foo", "bar"), 7)).is_ok());
    let sent = leader.to_network.drain().remove(0);
    assert!(receive(&mut follower, 0, sent.msg).is_ok());
    let confirmed = follower.to_network.drain().remove(0);
    assert!(receive(&mut leader, 1, confirmed.msg).is_ok());
    let told = leader.to_network.drain().remove(0);
    assert_eq!(told.dest, Destination::Client(ClientId::new(5)));
    assert!(matches!(
        told.msg,
        Message::ClientResponseType(ClientResponse::SetSuccess { request_id: 7 })
    ));
    assert_eq!(value(&leader, "foo"), Some("bar".to_string()));
    assert_eq!(value(&follower, "foo"), None);

    leader.send_heartbeat();
    let heartbeat = leader.to_network.drain().remove(0);
    assert!(receive(&mut follower, 0, heartbeat.msg).is_ok());
    assert!(follower.to_network.queue.is_empty());
    assert_eq!(value(&follower, "foo"), Some("bar".to_string()));
    assert_eq!(follower.log, leader.log);
}
