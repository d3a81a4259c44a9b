//! Connections: who is on the other end, whom a message goes to, and whom to dial.

use crate::codec::{Codec, Hello, Message, MessageView};
use crate::server::{Destination, Id, NodeId};
use std::collections::HashMap;
use vstd::prelude::*;
use vstd::std_specs::iter::IteratorSpec;

verus! {

/// How long the other end of a new connection has to say who it is, in seconds.
pub const HANDSHAKE_TIMEOUT_SECS: u64 = 5;

////////////////////////////////////////////////////////////////////////////////////////////////
// Who is connected
////////////////////////////////////////////////////////////////////////////////////////////////

/// The connections by who is on the other end. `T` is the way to send on a connection.
pub struct ConnectionRegistry<T> {
    pub peer_registry: HashMap<u64, T>,
    pub client_registry: HashMap<u32, T>,
}

impl<T> View for ConnectionRegistry<T> {
    type V = Map<Id, T>;

    /// All connections.
    open spec fn view(&self) -> Map<Id, T> {
        Map::new(
            |id: Id|
                match id {
                    Id::Peer(node) => self.peer_registry@.contains_key(node.0),
                    Id::Client(client) => self.client_registry@.contains_key(client.0),
                },
            |id: Id|
                match id {
                    Id::Peer(node) => self.peer_registry@[node.0],
                    Id::Client(client) => self.client_registry@[client.0],
                },
        )
    }
}

impl<T> ConnectionRegistry<T> {
    /// A registry without connections.
    pub fn new() -> (registry: Self)
        ensures
            registry@ == Map::<Id, T>::empty(),
    {
        let registry = ConnectionRegistry {
            peer_registry: HashMap::new(),
            client_registry: HashMap::new(),
        };
        assert(registry@ =~= Map::<Id, T>::empty());
        registry
    }

    /// Notes the connection to `id`, in place of an earlier one.
    pub fn register(&mut self, id: Id, tx: T)
        ensures
            final(self)@ == old(self)@.insert(id, tx),
    {
        broadcast use vstd::std_specs::hash::group_hash_axioms;

        match id {
            Id::Client(client) => {
                self.client_registry.insert(client.0, tx);
            },
            Id::Peer(node) => {
                self.peer_registry.insert(node.0, tx);
            },
        }
        assert(self@ =~= old(self)@.insert(id, tx));
    }

    /// The connection to `id`.
    pub fn lookup(&self, id: Id) -> (tx: Option<&T>)
        ensures
            tx == if self@.contains_key(id) {
                Some(&self@[id])
            } else {
                None
            },
    {
        broadcast use vstd::std_specs::hash::group_hash_axioms;

        match id {
            Id::Client(client) => self.client_registry.get(&client.0),
            Id::Peer(node) => self.peer_registry.get(&node.0),
        }
    }

    /// The connected nodes, each once, in no particular order.
    pub fn peers(&self) -> (nodes: Vec<NodeId>)
        ensures
            nodes@.no_duplicates(),
            forall|node: NodeId| #[trigger]
                nodes@.contains(node) <==> self@.contains_key(Id::Peer(node)),
    {
        broadcast use vstd::std_specs::hash::group_hash_axioms;

        let mut nodes: Vec<NodeId> = Vec::new();
        let keys = self.peer_registry.keys();
        let ghost listed = keys.remaining();
        for key in it: keys
            invariant
                it.seq() == listed,
                nodes@.len() == it.index(),
                forall|i: int|
                    0 <= i < nodes@.len() ==> (#[trigger] nodes@[i]) == NodeId(*listed[i]),
        {
            nodes.push(NodeId::new(*key));
        }
        proof {
            assert forall|i: int, j: int| 0 <= i < nodes@.len() && 0 <= j < nodes@.len() && i
                != j implies nodes@[i] != nodes@[j] by {
                assert(listed[i] != listed[j]);
            }
            assert forall|node: NodeId| #[trigger]
                nodes@.contains(node) <==> self@.contains_key(Id::Peer(node)) by {
                if nodes@.contains(node) {
                    let i = choose|i: int| 0 <= i < nodes@.len() && nodes@[i] == node;
                    assert(listed.unref()[i] == node.0);
                    assert(listed.unref().contains(node.0));
                    assert(listed.unref().to_set().contains(node.0));
                }
                if self@.contains_key(Id::Peer(node)) {
                    assert(listed.unref().to_set().contains(node.0));
                    let i = choose|i: int|
                        0 <= i < listed.unref().len() && listed.unref()[i] == node.0;
                    assert(nodes@[i] == node);
                }
            }
        }
        nodes
    }
}

////////////////////////////////////////////////////////////////////////////////////////////////
// The network side of a node
////////////////////////////////////////////////////////////////////////////////////////////////

/// What came of waiting for the first message on a new connection.
#[derive(Debug)]
pub enum HandshakeReply {
    /// A message.
    Received(Message),
    /// Bytes that are no message.
    Undecodable,
    /// The end of the connection.
    Closed,
    /// Nothing in time.
    TimedOut,
}

/// Why a new connection was not taken up.
#[derive(Debug, Clone, Copy, PartialEq, Eq, Structural)]
pub enum HandshakeError {
    Undecodable,
    TimedOut,
    UnexpectedMessage,
}

/// Who the other end of a new connection is, by its first message: a node, a client, nobody
/// where it just hung up, or an error.
pub open spec fn identified(reply: HandshakeReply) -> Result<Option<Id>, HandshakeError> {
    match reply {
        HandshakeReply::Received(msg) => match msg {
            Message::HelloType(hello) => Ok(Some(Id::Peer(hello.id))),
            Message::HelloClientType(hello) => Ok(Some(Id::Client(hello.id))),
            _ => Err(HandshakeError::UnexpectedMessage),
        },
        HandshakeReply::Undecodable => Err(HandshakeError::Undecodable),
        HandshakeReply::Closed => Ok(None),
        HandshakeReply::TimedOut => Err(HandshakeError::TimedOut),
    }
}

/// `ids` are those that a message to `dest` goes to, given the connections: the one that is
/// named, or each connected node once.
pub open spec fn goes_to<T>(connections: Map<Id, T>, dest: Destination, ids: Seq<Id>) -> bool {
    match dest {
        Destination::Node(node) => ids == seq![Id::Peer(node)],
        Destination::Client(client) => ids == seq![Id::Client(client)],
        Destination::Broadcast => {
            &&& ids.no_duplicates()
            &&& forall|id: Id| #[trigger]
                ids.contains(id) <==> id is Peer && connections.contains_key(id)
        },
    }
}

/// The network side of a node.
pub struct NetworkManager<T> {
    pub connections_map: ConnectionRegistry<T>,
    pub codec: Codec,
    pub id: NodeId,
}

impl<T> NetworkManager<T> {
    /// The network side of the node `id`, without connections.
    pub fn new(codec: Codec, id: NodeId) -> (manager: Self)
        ensures
            manager.connections_map@ == Map::<Id, T>::empty(),
            manager.codec == codec,
            manager.id == id,
    {
        NetworkManager { connections_map: ConnectionRegistry::new(), codec, id }
    }

    /// Those that a message to `dest` goes to.
    pub fn recipients(&self, dest: Destination) -> (ids: Vec<Id>)
        ensures
            goes_to(self.connections_map@, dest, ids@),
    {
        match dest {
            Destination::Node(node) => {
                let ids = vec![Id::Peer(node)];
                assert(ids@ =~= seq![Id::Peer(node)]);
                ids
            },
            Destination::Client(client) => {
                let ids = vec![Id::Client(client)];
                assert(ids@ =~= seq![Id::Client(client)]);
                ids
            },
            Destination::Broadcast => {
                let nodes = self.connections_map.peers();
                let mut ids: Vec<Id> = Vec::new();
                let mut i: usize = 0;
                while i < nodes.len()
                    invariant
                        i <= nodes.len(),
                        ids@.len() == i,
                        forall|j: int|
                            0 <= j < ids@.len() ==> (#[trigger] ids@[j]) == Id::Peer(nodes@[j]),
                    decreases nodes.len() - i,
                {
                    ids.push(Id::Peer(nodes[i]));
                    i = i + 1;
                }
                proof {
                    assert forall|id: Id| #[trigger] ids@.contains(id) <==> id is Peer
                        && self.connections_map@.contains_key(id) by {
                        if ids@.contains(id) {
                            let j = choose|j: int| 0 <= j < ids@.len() && ids@[j] == id;
                            assert(nodes@.contains(nodes@[j]));
                        }
                        if id is Peer && self.connections_map@.contains_key(id) {
                            assert(nodes@.contains(id->Peer_0));
                            let j = choose|j: int|
                                0 <= j < nodes@.len() && nodes@[j] == id->Peer_0;
                            assert(ids@[j] == id);
                        }
                    }
                }
                ids
            },
        }
    }

    /// The way to send to `id`, if there is a connection.
    pub fn dispatch_msg(&self, id: Id) -> (tx: Option<&T>)
        ensures
            tx == if self.connections_map@.contains_key(id) {
                Some(&self.connections_map@[id])
            } else {
                None
            },
    {
        self.connections_map.lookup(id)
    }

    /// The first message of this node on a new connection.
    pub fn greeting(&self) -> (hello: Message)
        ensures
            hello@ == MessageView::Hello(Hello { id: self.id }),
    {
        Message::HelloType(Hello { id: self.id })
    }

    /// Who the other end of a new connection is.
    pub fn complete_handshake(&self, reply: HandshakeReply) -> (id: Result<
        Option<Id>,
        HandshakeError,
    >)
        ensures
            id == identified(reply),
    {
        match reply {
            HandshakeReply::Received(msg) => match msg {
                Message::HelloType(hello) => Ok(Some(Id::Peer(hello.id))),
                Message::HelloClientType(hello) => Ok(Some(Id::Client(hello.id))),
                _ => Err(HandshakeError::UnexpectedMessage),
            },
            HandshakeReply::Undecodable => Err(HandshakeError::Undecodable),
            HandshakeReply::Closed => Ok(None),
            HandshakeReply::TimedOut => Err(HandshakeError::TimedOut),
        }
    }

    /// Notes the connection to `id`.
    pub fn register(&mut self, id: Id, tx: T)
        ensures
            final(self).connections_map@ == old(self).connections_map@.insert(id, tx),
            final(self).codec == old(self).codec,
            final(self).id == old(self).id,
    {
        self.connections_map.register(id, tx);
    }
}

/// Between two nodes it is the one with the lower id that dials.
pub open spec fn dials(node: NodeId, peer: NodeId) -> bool {
    peer.0 > node.0
}

/// Those of `peer_addresses` that the node `current_node_id` dials, in the same order.
pub fn peers_to_dial(peer_addresses: Vec<(NodeId, String)>, current_node_id: NodeId) -> (chosen:
    Vec<(NodeId, String)>)
    ensures
        chosen@ == peer_addresses@.filter(
            |peer: (NodeId, String)| dials(current_node_id, peer.0),
        ),
{
    let ghost wanted = |peer: (NodeId, String)| dials(current_node_id, peer.0);
    let mut chosen: Vec<(NodeId, String)> = Vec::new();
    let mut i: usize = 0;
    assert(peer_addresses@.take(0).filter(wanted) =~= Seq::empty()) by {
        reveal(Seq::filter);
    }
    while i < peer_addresses.len()
        invariant
            i <= peer_addresses.len(),
            wanted == (|peer: (NodeId, String)| dials(current_node_id, peer.0)),
            chosen@ == peer_addresses@.take(i as int).filter(wanted),
        decreases peer_addresses.len() - i,
    {
        proof {
            let next = peer_addresses@.take(i + 1);
            assert(next.drop_last() =~= peer_addresses@.take(i as int));
            assert(next.last() == peer_addresses@[i as int]);
            reveal(Seq::filter);
        }
        let peer = peer_addresses[i].0;
        if peer.0 > current_node_id.0 {
            chosen.push((peer, peer_addresses[i].1.clone()));
        }
        i = i + 1;
    }
    assert(peer_addresses@.take(i as int) =~= peer_addresses@);
    chosen
}

/// A node dials those with higher ids than its own: a list of one is dialled or left.
pub proof fn law_lower_id_dials(node: NodeId, peer: NodeId, address: String)
    ensures
        dials(node, peer) <==> node.0 < peer.0,
        seq![(peer, address)].filter(|listed: (NodeId, String)| dials(node, listed.0)).len() == (
        if node.0 < peer.0 {
            1nat
        } else {
            0
        }),
{
    reveal_with_fuel(Seq::filter, 2);
    let list = seq![(peer, address)];
    assert(list.drop_last() =~= Seq::empty());
    assert(list.last() == (peer, address));
}

/// A greeting tells who greets, a node by its node id and a client by its client id. Whoever
/// hangs up is nobody, and everything else is an error of its own.
pub proof fn law_greeting_identifies(reply: HandshakeReply)
    ensures
        reply matches HandshakeReply::Received(Message::HelloType(hello)) ==> identified(reply)
            == Ok::<Option<Id>, HandshakeError>(Some(Id::Peer(hello.id))),
        reply matches HandshakeReply::Received(Message::HelloClientType(hello)) ==> identified(
            reply,
        ) == Ok::<Option<Id>, HandshakeError>(Some(Id::Client(hello.id))),
        reply matches HandshakeReply::Received(msg) ==> (identified(reply) == Err::<
            Option<Id>,
            HandshakeError,
        >(HandshakeError::UnexpectedMessage) <==> !(msg is HelloType || msg is HelloClientType)),
        reply is Closed <==> identified(reply) == Ok::<Option<Id>, HandshakeError>(None),
        reply is TimedOut <==> identified(reply) == Err::<Option<Id>, HandshakeError>(
            HandshakeError::TimedOut,
        ),
        reply is Undecodable <==> identified(reply) == Err::<Option<Id>, HandshakeError>(
            HandshakeError::Undecodable,
        ),
{
}

/// A message to a node or to a client goes to that one alone, connected or not. A broadcast goes
/// once to every connected node, and to no client.
pub proof fn law_messages_go_where_addressed<T>(
    connections: Map<Id, T>,
    dest: Destination,
    ids: Seq<Id>,
)
    requires
        goes_to(connections, dest, ids),
    ensures
        dest matches Destination::Node(node) ==> ids.len() == 1 && ids[0] == Id::Peer(node),
        dest matches Destination::Client(client) ==> ids.len() == 1 && ids[0] == Id::Client(client),
        dest is Broadcast ==> {
            &&& forall|i: int|
                0 <= i < ids.len() ==> (#[trigger] ids[i]) is Peer && connections.contains_key(
                    ids[i],
                )
            &&& forall|i: int, j: int|
                0 <= i < j < ids.len() ==> #[trigger] ids[i] != #[trigger] ids[j]
            &&& forall|node: NodeId|
                connections.contains_key(Id::Peer(node)) ==> #[trigger] ids.contains(
                    Id::Peer(node),
                )
        },
{
    if dest is Broadcast {
        assert forall|i: int| 0 <= i < ids.len() implies (#[trigger] ids[i]) is Peer
            && connections.contains_key(ids[i]) by {
            assert(ids.contains(ids[i]));
        }
    }
}

/// Of two different nodes exactly one dials the other.
pub proof fn law_one_of_two_dials(left: NodeId, right: NodeId)
    requires
        left != right,
    ensures
        dials(left, right) <==> !dials(right, left),
{
}

/// Once a connection is noted, messages to its other end go there, whatever else is connected;
/// and the ways to all others are as before.
pub proof fn law_registered_connection_is_used<T>(
    connections: Map<Id, T>,
    id: Id,
    tx: T,
    other: Id,
    ids: Seq<Id>,
)
    requires
        goes_to(connections.insert(id, tx), Destination::Broadcast, ids),
    ensures
        connections.insert(id, tx).contains_key(id),
        connections.insert(id, tx)[id] == tx,
        id is Peer ==> ids.contains(id),
        other != id ==> {
            &&& connections.insert(id, tx).contains_key(other) == connections.contains_key(other)
            &&& connections.contains_key(other) ==> connections.insert(id, tx)[other]
                == connections[other]
        },
{
}

} // verus!
