use mini_raft::config::{
    config_stem, fallback_config_path, resolve_config_path, ServerConfig, DEFAULT_ELECTION_TIMEOUT,
    DEFAULT_HEARTBEAT_INTERVAL,
};
use mini_raft::server::NodeId;
use std::collections::HashMap;
use std::time::Duration;

fn args(list: &[&str]) -> Vec<String> {
    list.iter().map(|arg| arg.to_string()).collect()
}

#[test]
fn ending_is_stripped_once() {
    assert_eq!(config_stem("config"), "config");
    assert_eq!(config_stem("config-node1.toml"), "config-node1");
    assert_eq!(config_stem("a.toml.toml"), "a.toml");
    assert_eq!(config_stem(".toml"), "");
    assert_eq!(config_stem("config.tom"), "config.tom");
    assert_eq!(config_stem(""), "");
    // with and without the ending
    assert_eq!(config_stem("dir/node.toml"), config_stem("dir/node"));
}

#[test]
fn command_line_comes_before_the_environment() {
    let env = || Some("env".to_string());
    assert_eq!(resolve_config_path(&args(&["raft", "--config", "a"]), env()), "a");
    assert_eq!(resolve_config_path(&args(&["raft", "--config=b"]), env()), "b");
    assert_eq!(resolve_config_path(&args(&["raft", "--config=b", "--config", "a"]), None), "b");
    assert_eq!(resolve_config_path(&args(&["raft", "--config", "--config=b"]), None), "--config=b");
    assert_eq!(resolve_config_path(&args(&["raft", "--config="]), env()), "");
    assert_eq!(resolve_config_path(&args(&["raft", "--config"]), env()), "env");
    assert_eq!(resolve_config_path(&args(&["raft", "--configure=c"]), None), "config");
    assert_eq!(resolve_config_path(&args(&[]), env()), "env");
    assert_eq!(resolve_config_path(&args(&[]), None), "config");
    assert_eq!(fallback_config_path(env()), "env");
    assert_eq!(fallback_config_path(None), "config");
}

#[test]
fn config_is_read_in_milliseconds() {
    assert_eq!((DEFAULT_ELECTION_TIMEOUT, DEFAULT_HEARTBEAT_INTERVAL), (500, 200));
    let mut peer_addresses = HashMap::new();
    for id in 1..4u64 {
        peer_addresses.insert(id, format!("host{id}"));
    }
    let config = ServerConfig {
        election_timeout: 1_500,
        heartbeat_interval: u64::MAX,
        address: String::new(),
        total_nodes: 3,
        peer_addresses,
        node_id: 2,
        client_listener_address: String::new(),
        peer_listener_address: String::new(),
    };
    assert_eq!(config.election_timeout_duration(), Duration::new(1, 500_000_000));
    assert_eq!(config.heartbeat_interval_duration(), Duration::from_millis(u64::MAX));
    assert_eq!(config.node_id(), NodeId::new(2));
    let mut peers = config.peer_node_addresses();
    peers.sort_by_key(|peer| peer.0 .0);
    let expected: Vec<(NodeId, String)> =
        (1..4u64).map(|id| (NodeId::new(id), format!("host{id}"))).collect();
    assert_eq!(peers, expected);
}
