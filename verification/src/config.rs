//! The configuration of a node.

use crate::server::NodeId;
use crate::timing::duration_nanos;
use std::collections::HashMap;
use std::time::Duration;
use vstd::prelude::*;
use vstd::std_specs::iter::IteratorSpec;

verus! {

/// Who a node is, where it listens, who its peers are, and how long it waits.
#[derive(Debug, Clone)]
pub struct ServerConfig {
    /// How long a follower waits for a message, in milliseconds.
    pub election_timeout: u64,
    /// How long a leader waits between heartbeats, in milliseconds.
    pub heartbeat_interval: u64,
    pub address: String,
    pub total_nodes: u32,
    pub peer_addresses: HashMap<u64, String>,
    pub node_id: u64,
    pub client_listener_address: String,
    pub peer_listener_address: String,
}

/// `peers` holds each entry of `addresses` once, in some order.
pub open spec fn lists_peers(addresses: Map<u64, String>, peers: Seq<(NodeId, String)>) -> bool {
    &&& peers.len() == addresses.len()
    &&& forall|i: int|
        0 <= i < peers.len() ==> addresses.contains_key((#[trigger] peers[i]).0.0)
            && addresses[peers[i].0.0] == peers[i].1
    &&& forall|i: int, j: int|
        0 <= i < j < peers.len() ==> (#[trigger] peers[i]).0 != (#[trigger] peers[j]).0
    &&& forall|id: u64| #[trigger]
        addresses.contains_key(id) ==> peers.contains((NodeId(id), addresses[id]))
}

impl ServerConfig {
    /// How long a follower waits for a message before it stands for election.
    pub fn election_timeout_duration(&self) -> (duration: Duration)
        ensures
            duration_nanos(duration) == self.election_timeout * 1_000_000,
    {
        Duration::from_millis(self.election_timeout)
    }

    /// How long a leader waits between heartbeats.
    pub fn heartbeat_interval_duration(&self) -> (duration: Duration)
        ensures
            duration_nanos(duration) == self.heartbeat_interval * 1_000_000,
    {
        Duration::from_millis(self.heartbeat_interval)
    }

    /// The peers' addresses by the peers' ids, in no particular order.
    pub fn peer_node_addresses(&self) -> (peers: Vec<(NodeId, String)>)
        ensures
            lists_peers(self.peer_addresses@, peers@),
    {
        broadcast use vstd::std_specs::hash::group_hash_axioms;

        let mut peers: Vec<(NodeId, String)> = Vec::new();
        let entries = self.peer_addresses.iter();
        let ghost listed = entries.remaining();
        for entry in it: entries
            invariant
                it.seq() == listed,
                peers@.len() == it.index(),
                forall|i: int|
                    0 <= i < peers@.len() ==> (#[trigger] peers@[i]) == (
                        NodeId(*listed[i].0),
                        *listed[i].1,
                    ),
        {
            peers.push((NodeId::new(*entry.0), entry.1.clone()));
        }
        proof {
            let addresses = self.peer_addresses@;
            assert forall|i: int| 0 <= i < peers@.len() implies addresses.contains_key(
                (#[trigger] peers@[i]).0.0,
            ) && addresses[peers@[i].0.0] == peers@[i].1 by {
                assert(addresses.contains_key(*listed[i].0));
            }
            assert forall|i: int, j: int| 0 <= i < j < peers@.len() implies (
            #[trigger] peers@[i]).0 != (#[trigger] peers@[j]).0 by {
                if peers@[i].0 == peers@[j].0 {
                    assert(listed[i] == listed[j]);
                }
            }
            assert forall|id: u64| #[trigger] addresses.contains_key(id) implies peers@.contains(
                (NodeId(id), addresses[id]),
            ) by {
                let i = choose|i: int|
                    0 <= i < listed.len() && listed[i] == (&id, &addresses[id]);
                assert(peers@[i] == (NodeId(id), addresses[id]));
            }
        }
        peers
    }

    /// This node's id.
    pub fn node_id(&self) -> (id: NodeId)
        ensures
            id == NodeId(self.node_id),
    {
        NodeId::new(self.node_id)
    }
}

////////////////////////////////////////////////////////////////////////////////////////////////
// Where the configuration is found
////////////////////////////////////////////////////////////////////////////////////////////////

/// The election timeout of a configuration that gives none, in milliseconds.
pub const DEFAULT_ELECTION_TIMEOUT: u64 = 500;

/// The heartbeat interval of a configuration that gives none, in milliseconds.
pub const DEFAULT_HEARTBEAT_INTERVAL: u64 = 200;

/// `str::strip_suffix`: the text before `suffix`, where the text ends in it.
#[verifier::external_body]
fn strip_suffix<'a>(text: &'a str, suffix: &str) -> (rest: Option<&'a str>)
    ensures
        match rest {
            Some(rest) => text@ == rest@ + suffix@,
            None => !suffix@.is_suffix_of(text@),
        },
{
    text.strip_suffix(suffix)
}

/// `str::strip_prefix`: the text behind `prefix`, where the text begins with it.
#[verifier::external_body]
fn strip_prefix<'a>(text: &'a str, prefix: &str) -> (rest: Option<&'a str>)
    ensures
        match rest {
            Some(rest) => text@ == prefix@ + rest@,
            None => !prefix@.is_prefix_of(text@),
        },
{
    text.strip_prefix(prefix)
}

/// The path of a configuration file without the ending that marks its format.
pub open spec fn stem(path: Seq<char>) -> Seq<char> {
    if ".toml"@.is_suffix_of(path) {
        path.take(path.len() - ".toml"@.len())
    } else {
        path
    }
}

/// The path of a configuration file without the ending that marks its format.
pub fn config_stem(path: &str) -> (name: String)
    ensures
        name@ == stem(path@),
{
    match strip_suffix(path, ".toml") {
        Some(name) => {
            assert(path@.subrange(path@.len() - ".toml"@.len(), path@.len() as int)
                =~= ".toml"@);
            assert(name@ =~= stem(path@));
            name.to_string()
        },
        None => path.to_string(),
    }
}

/// A configuration is found by its name with and without the ending.
pub proof fn law_ending_is_optional(name: Seq<char>)
    requires
        !".toml"@.is_suffix_of(name),
    ensures
        stem(name + ".toml"@) == name,
        stem(name) == name,
{
    let path = name + ".toml"@;
    assert(path.subrange(path.len() - ".toml"@.len(), path.len() as int) =~= ".toml"@);
    assert(stem(path) =~= name);
}

/// The ending is stripped once, whatever stands before it.
pub proof fn law_ending_is_stripped_once(name: Seq<char>)
    ensures
        stem(name + ".toml"@) == name,
        stem(name + ".toml"@ + ".toml"@) == name + ".toml"@,
        stem(name) == name || stem(name) + ".toml"@ == name,
{
    let path = name + ".toml"@;
    assert(path.subrange(path.len() - ".toml"@.len(), path.len() as int) =~= ".toml"@);
    assert(stem(path) =~= name);
    let longer = path + ".toml"@;
    assert(longer.subrange(longer.len() - ".toml"@.len(), longer.len() as int) =~= ".toml"@);
    assert(stem(longer) =~= path);
    if ".toml"@.is_suffix_of(name) {
        assert(stem(name) + ".toml"@ =~= name);
    }
}

/// The path of the configuration where the command line does not name one: what the environment
/// names, or else `config`.
pub open spec fn fallback_path(variable: Option<Seq<char>>) -> Seq<char> {
    match variable {
        Some(path) => path,
        None => "config"@,
    }
}

/// The path of the configuration where the command line does not name one. `variable` is what
/// the environment names, if it does.
pub fn fallback_config_path(variable: Option<String>) -> (path: String)
    ensures
        path@ == fallback_path(
            match variable {
                Some(path) => Some(path@),
                None => None,
            },
        ),
{
    match variable {
        Some(path) => path,
        None => "config".to_string(),
    }
}

/// The path that the arguments from the one at `i` on name: the argument after `--config`, or
/// what follows `--config=` in the same argument. The first of these counts.
pub open spec fn path_in_args(args: Seq<String>, i: int) -> Option<Seq<char>>
    decreases args.len() - i,
{
    if i >= args.len() {
        None
    } else if args[i]@ == "--config"@ && i + 1 < args.len() {
        Some(args[i + 1]@)
    } else if "--config="@.is_prefix_of(args[i]@) {
        Some(args[i]@.skip("--config="@.len() as int))
    } else {
        path_in_args(args, i + 1)
    }
}

/// The path of the configuration: what the command line names, or else what the environment
/// names, or else `config`.
pub fn resolve_config_path(args: &Vec<String>, variable: Option<String>) -> (path: String)
    ensures
        path@ == match path_in_args(args@, 0) {
            Some(path) => path,
            None => fallback_path(
                match variable {
                    Some(path) => Some(path@),
                    None => None,
                },
            ),
        },
{
    let flag = "--config".to_string();
    let mut i: usize = 0;
    while i < args.len()
        invariant
            i <= args.len(),
            flag@ == "--config"@,
            path_in_args(args@, 0) == path_in_args(args@, i as int),
        decreases args.len() - i,
    {
        if args[i] == flag && i + 1 < args.len() {
            return args[i + 1].clone();
        }
        if let Some(rest) = strip_prefix(args[i].as_str(), "--config=") {
            proof {
                let arg = args@[i as int]@;
                assert(arg.take("--config="@.len() as int) =~= "--config="@);
                assert(arg.skip("--config="@.len() as int) =~= rest@);
                reveal_strlit("--config");
                reveal_strlit("--config=");
            }
            return rest.to_string();
        }
        i = i + 1;
    }
    fallback_config_path(variable)
}

/// The first argument that names a path names the path: with `--config` the argument after it,
/// and with `--config=` what follows in the same argument. Without such an argument none is named.
pub proof fn law_first_flag_names_path(args: Seq<String>, k: int, path: Seq<char>)
    requires
        0 <= k <= args.len(),
        forall|i: int|
            0 <= i < k ==> (#[trigger] args[i])@ != "--config"@ && !"--config="@.is_prefix_of(
                args[i]@,
            ),
    ensures
        k == args.len() ==> path_in_args(args, 0) is None,
        k + 1 < args.len() && args[k]@ == "--config"@ ==> path_in_args(args, 0) == Some(
            args[k + 1]@,
        ),
        k < args.len() && args[k]@ == "--config="@ + path ==> path_in_args(args, 0) == Some(path),
{
    lemma_flagless_args_are_skipped(args, 0, k);
    if k < args.len() && args[k]@ == "--config="@ + path {
        reveal_strlit("--config");
        reveal_strlit("--config=");
        assert(args[k]@.take("--config="@.len() as int) =~= "--config="@);
        assert(args[k]@.skip("--config="@.len() as int) =~= path);
        assert(args[k]@.len() >= "--config="@.len());
    }
}

/// Arguments that name no path are passed over.
proof fn lemma_flagless_args_are_skipped(args: Seq<String>, i: int, k: int)
    requires
        0 <= i <= k <= args.len(),
        forall|m: int|
            i <= m < k ==> (#[trigger] args[m])@ != "--config"@ && !"--config="@.is_prefix_of(
                args[m]@,
            ),
    ensures
        path_in_args(args, i) == path_in_args(args, k),
    decreases k - i,
{
    if i < k {
        assert(args[i]@ != "--config"@);
        lemma_flagless_args_are_skipped(args, i + 1, k);
    }
}

/// What the environment names comes before the default.
pub proof fn law_environment_comes_before_default(path: Seq<char>)
    ensures
        fallback_path(Some(path)) == path,
        fallback_path(None) == "config"@,
{
}

} // verus!
