use mini_raft::codec::Message;
use mini_raft::config::ServerConfig;
use mini_raft::server::{Destination, Event, NodeId, RaftState, Server};
use mini_raft::state_machine::SimpleStateMachine;
use std::collections::HashMap;
use std::time::Duration;

fn test_config(node_id: u64, election_timeout_ms: u64) -> ServerConfig {
    ServerConfig {
        election_timeout: election_timeout_ms,
        heartbeat_interval: 50,
        address: "127.0.0.1".to_string(),
        total_nodes: 3,
        peer_addresses: HashMap::new(),
        node_id,
        client_listener_address: "127.0.0.1:0".to_string(),
        peer_listener_address: "127.0.0.1:0".to_string(),
    }
}

/// Single node with no peers must time out as follower and broadcast RequestVote.
#[test]
fn single_node_times_out_and_requests_votes() {
    let mut server =
        Server::new(NodeId::new(0), test_config(0, 150), SimpleStateMachine::new());
    let wait = server.enter_role();
    assert_eq!(wait, Duration::from_millis(150));
    let (leaves, _) = server.take_turn(Event::Timeout, wait);
    assert!(leaves);
    assert_eq!(server.state.state, RaftState::Candidate);
    assert_eq!(server.enter_role(), Duration::from_millis(150));

    let mut sent = server.to_network.drain();
    assert_eq!(sent.len(), 1);
    let outgoing = sent.remove(0);
    assert_eq!(outgoing.dest, Destination::Broadcast);
    match outgoing.msg {
        Message::RequestVoteType(req) => {
            assert_eq!(req.candidate_id, NodeId::new(0));
            assert!(req.term >= 1);
        }
        other => panic!("expected RequestVote, got {:?}", other.message_type()),
    }
}

#[test]
fn a_candidate_without_answers_asks_again() {
    let mut server =
        Server::new(NodeId::new(0), test_config(0, 150), SimpleStateMachine::new());
    server.follower_event(Event::Timeout);
    let mut wait = server.candidate_start();
    for round in 1..4 {
        server.send_request_vote_rpc_to_peers();
        assert_eq!(server.to_network.queue.len(), round);
        let (done, next) = server.candidate_event(Event::Timeout, wait);
        assert!(!done);
        wait = next;
    }
    assert_eq!(server.state.current_term, 1);
    assert_eq!(server.state.state, RaftState::Candidate);
}

#[test]
fn the_last_term_has_no_successor() {
    let mut server =
        Server::new(NodeId::new(0), test_config(0, 150), SimpleStateMachine::new());
    server.state.current_term = u32::MAX - 1;
    let now = server.state.last_heartbeat;
    server.candidate_start_at(now);
    assert_eq!(server.state.current_term, u32::MAX);
    assert_eq!(server.state.last_heartbeat, now);
}

#[test]
fn roles_that_cannot_be_taken_up() {
    let mut server =
        Server::new(NodeId::new(0), test_config(0, 150), SimpleStateMachine::new());
    assert!(server.can_enter_role());
    server.state.state = RaftState::Candidate;
    assert!(server.can_enter_role());
    server.state.current_term = u32::MAX;
    assert!(!server.can_enter_role());
    server.state.state = RaftState::Leader;
    assert!(server.can_enter_role());
    let wait = server.enter_role();
    assert_eq!(wait, Duration::from_millis(50));
    assert!(server.can_take_turn(&Event::Timeout, wait));
    server.to_network.close();
    assert!(!server.can_enter_role());
    assert!(!server.can_take_turn(&Event::Timeout, wait));
    assert!(server.can_take_turn(&Event::ChannelClosed, wait));
    server.state.state = RaftState::Candidate;
    assert!(server.can_take_turn(&Event::Timeout, wait));
    assert!(!server.can_take_turn(&Event::Timeout, Duration::MAX));
}

#[test]
fn a_leader_goes_on_with_heartbeats() {
    let mut server =
        Server::new(NodeId::new(0), test_config(0, 150), SimpleStateMachine::new());
    server.state.state = RaftState::Leader;
    let wait = server.enter_role();
    for sent in 1..4 {
        assert_eq!(server.to_network.queue.len(), sent);
        assert_eq!(server.take_turn(Event::Timeout, wait), (false, wait));
    }
    server.state.state = RaftState::Candidate;
    let sent = server.to_network.queue.len();
    // a candidate that hears that nothing will come any more asks for votes all the same
    assert_eq!(server.take_turn(Event::ChannelClosed, wait), (false, wait));
    assert_eq!(server.to_network.queue.len(), sent + 1);
}
