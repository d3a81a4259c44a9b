//! What holds of a node across its operations.

use crate::codec::{
    AppendEntriesResponse, AppendEntriesView, ClientRequest, ClientResponse, MessageView,
    RequestVote, RequestVoteResponse,
};
use crate::config::lists_peers;
use crate::log::{
    agrees_at, agrees_on, aligned, consecutive, law_divergent_suffix_is_replaced,
    law_merge_is_idempotent, law_merge_keeps_front, law_merged_log_agrees_with_leader,
    lemma_merged_len, lemma_plan_bounds, merge_plan, mergeable, merged,
};
use crate::model::{
    apply_target, attempt_applied, attempts_applied, command_applied, committable,
    committed_applied, entries_applied, first_committable, last_command_applied, replicas,
    ServerView,
};
use crate::server::{
    ClientId, Destination, Id, IncomingView, LogCommand, LogEntry, NodeId,
    OutgoingView, RaftState, ServerError,
};
use crate::state_machine::{SimpleStateMachine, StateMachine, StateMachineError};
use tokio::time::Instant;
use vstd::math::min;
use vstd::prelude::*;
use vstd::set_lib::{lemma_len_subset, lemma_set_intersect_union_lens};

verus! {

////////////////////////////////////////////////////////////////////////////////////////////////
// What replication and commitment leave alone
////////////////////////////////////////////////////////////////////////////////////////////////

/// Replicating an entry touches the outbox and the notes on what was sent, nothing else.
pub proof fn lemma_replicating_frame<S: StateMachine>(
    server: ServerView<S>,
    entry: LogEntry,
    peers: Seq<(NodeId, String)>,
)
    ensures
        ({
            let after = server.replicating(entry, peers).0;
            &&& after == ServerView {
                last_sent_index: after.last_sent_index,
                outbox: after.outbox,
                ..server
            }
            &&& server.outbox.is_prefix_of(after.outbox)
        }),
    decreases peers.len(),
{
    if peers.len() > 0 {
        lemma_replicating_frame(server, entry, peers.drop_last());
    }
}

/// A client's command appends an entry, and otherwise touches the outbox and the notes on what was
/// sent, nothing else.
proof fn lemma_setting_frame<S: StateMachine>(
    server: ServerView<S>,
    key: String,
    value: String,
    client_id: u32,
    request_id: u32,
    after: ServerView<S>,
    result: Result<(), ServerError>,
)
    requires
        server.setting_in_some_order(key, value, client_id, request_id, after, result),
    ensures
        after == (ServerView {
            log: server.log.push(server.new_entry(key, value, client_id, request_id)),
            last_sent_index: after.last_sent_index,
            outbox: after.outbox,
            ..server
        }),
        server.outbox.is_prefix_of(after.outbox),
{
    let peers = choose|peers: Seq<(NodeId, String)>|
        lists_peers(server.config.peer_addresses@, peers) && (after, result) == server.setting(
            key,
            value,
            client_id,
            request_id,
            peers,
        );
    let entry = server.new_entry(key, value, client_id, request_id);
    lemma_replicating_frame(
        ServerView { log: server.log.push(entry), ..server },
        entry,
        peers,
    );
}

/// Committing touches the commit index, what was applied, the state machine, the notes on what is
/// confirmed, and the outbox, nothing else.
pub proof fn lemma_committing_frame<S: StateMachine>(
    server: ServerView<S>,
    success: bool,
    after: ServerView<S>,
    result: Result<(), ServerError>,
)
    requires
        server.committing(success, after, result),
    ensures
        after == (ServerView {
            commit_index: after.commit_index,
            last_applied: after.last_applied,
            state_machine: after.state_machine,
            match_index: after.match_index,
            outbox: after.outbox,
            ..server
        }),
        match server.commit_target() {
            Some(n) => after.commit_index == n as i32,
            None => after.commit_index == server.commit_index,
        },
{
}

/// The first position that can become the commit index is one, and none before it is.
pub proof fn lemma_first_committable(
    log: Seq<LogEntry>,
    match_index: Seq<i32>,
    term: u32,
    commit: int,
    total_nodes: u32,
    from: int,
)
    ensures
        match first_committable(log, match_index, term, commit, total_nodes, from) {
            Some(n) => {
                &&& from <= n
                &&& committable(log, match_index, term, commit, total_nodes, n)
                &&& forall|m: int|
                    from <= m < n ==> !committable(log, match_index, term, commit, total_nodes, m)
            },
            None => forall|m: int|
                from <= m ==> !committable(log, match_index, term, commit, total_nodes, m),
        },
    decreases log.len() - from,
{
    if from < log.len() && !committable(log, match_index, term, commit, total_nodes, from) {
        lemma_first_committable(log, match_index, term, commit, total_nodes, from + 1);
    }
}

////////////////////////////////////////////////////////////////////////////////////////////////
// Terms
////////////////////////////////////////////////////////////////////////////////////////////////

/// No message takes a node back to an earlier term.
pub proof fn law_term_never_decreases<S: StateMachine>(
    server: ServerView<S>,
    incoming: IncomingView,
    after: ServerView<S>,
    result: Result<(), ServerError>,
)
    requires
        server.handling(incoming, after, result),
    ensures
        after.current_term >= server.current_term,
        after.id == server.id,
        after.config == server.config,
        after.open == server.open,
{
    match incoming.msg {
        MessageView::ClientRequest(msg) => {
            if let LogCommand::Put { key, value } = msg.command {
                if server.role == RaftState::Leader {
                    lemma_setting_frame(
                        server,
                        key,
                        value,
                        msg.client_id,
                        msg.request_id,
                        after,
                        result,
                    );
                }
            }
        },
        MessageView::AppendEntriesResponse(msg) => {
            if let Id::Peer(peer) = incoming.from {
                if server.role == RaftState::Leader && msg.term <= server.current_term {
                    if msg.success {
                        lemma_committing_frame(server.confirmed_by(peer), true, after, result);
                    } else if server.retrying(peer).1 is Ok {
                        lemma_committing_frame(server.retrying(peer).0, false, after, result);
                    }
                }
            }
        },
        _ => {},
    }
}

/// A candidate stands in a term of its own: the next one, in which it has voted for itself, and
/// which its requests for votes carry.
pub proof fn law_candidate_enters_next_term<S: StateMachine>(server: ServerView<S>, now: Instant)
    requires
        server.current_term < u32::MAX,
    ensures
        server.campaigning(now).current_term == server.current_term + 1,
        server.campaigning(now).voted_for == Some(server.id),
        server.campaigning(now).vote_request().msg matches MessageView::RequestVote(request)
            && request.term == server.current_term + 1 && request.candidate_id == server.id,
{
}

/// A higher term makes a follower: of whoever takes in a replication request with it, of whoever
/// gets it in the answer to a request for votes, and of a leader that gets it in the answer to a
/// replication request.
pub proof fn law_higher_term_makes_follower<S: StateMachine>(
    server: ServerView<S>,
    incoming: IncomingView,
    after: ServerView<S>,
    result: Result<(), ServerError>,
    term: u32,
)
    requires
        server.handling(incoming, after, result),
        term > server.current_term,
        match incoming.msg {
            MessageView::AppendEntries(msg) => msg.term == term && incoming.from is Peer
                && !server.refuses(msg),
            MessageView::RequestVoteResponse(msg) => msg.term == term,
            MessageView::AppendEntriesResponse(msg) => msg.term == term && server.role
                == RaftState::Leader,
            _ => false,
        },
    ensures
        after.role == RaftState::Follower,
        after.current_term == term,
{
}

////////////////////////////////////////////////////////////////////////////////////////////////
// Requests that are refused, and requests that are not
////////////////////////////////////////////////////////////////////////////////////////////////

/// A replication request whose term is behind, or that starts where the logs do not agree, is
/// answered with the node's own term and a refusal. Nothing else happens.
pub proof fn law_refused_replication_changes_nothing<S: StateMachine>(
    server: ServerView<S>,
    leader: NodeId,
    msg: AppendEntriesView,
    after: ServerView<S>,
    result: Result<(), ServerError>,
)
    requires
        server.open,
        server.handling(
            IncomingView { from: Id::Peer(leader), msg: MessageView::AppendEntries(msg) },
            after,
            result,
        ),
        msg.term < server.current_term || !agrees_at(
            server.log,
            msg.prev_log_index,
            msg.prev_log_term,
        ),
    ensures
        result is Ok,
        after == (ServerView { outbox: after.outbox, ..server }),
        after.outbox == server.outbox.push(
            OutgoingView {
                dest: Destination::Node(leader),
                msg: MessageView::AppendEntriesResponse(
                    AppendEntriesResponse { term: server.current_term, success: false },
                ),
            },
        ),
{
}

/// A follower that takes in entries tells the leader so, in the leader's term, and its log is the
/// merge of what it had and what it got.
pub proof fn law_accepted_replication_is_confirmed<S: StateMachine>(
    server: ServerView<S>,
    leader: NodeId,
    msg: AppendEntriesView,
    after: ServerView<S>,
    result: Result<(), ServerError>,
)
    requires
        server.open,
        server.role == RaftState::Follower,
        server.handling(
            IncomingView { from: Id::Peer(leader), msg: MessageView::AppendEntries(msg) },
            after,
            result,
        ),
        msg.term >= server.current_term,
        agrees_at(server.log, msg.prev_log_index, msg.prev_log_term),
        msg.entries.len() > 0,
    ensures
        result is Ok,
        after.role == RaftState::Follower,
        after.log == merged(server.log, msg.entries),
        after.outbox == server.outbox.push(
            OutgoingView {
                dest: Destination::Node(leader),
                msg: MessageView::AppendEntriesResponse(
                    AppendEntriesResponse { term: msg.term, success: true },
                ),
            },
        ),
{
}

/// A heartbeat changes no log and is not answered, unless it is refused.
pub proof fn law_heartbeat_is_silent<S: StateMachine>(
    server: ServerView<S>,
    from: Id,
    msg: AppendEntriesView,
    after: ServerView<S>,
    result: Result<(), ServerError>,
)
    requires
        server.handling(
            IncomingView { from, msg: MessageView::AppendEntries(msg) },
            after,
            result,
        ),
        msg.entries.len() == 0,
    ensures
        after.log == server.log,
        !server.refuses(msg) ==> after.outbox == server.outbox && result is Ok,
{
}

/// A request for a vote is answered to the candidate with the node's own term, and changes
/// nothing else. A node that has not voted grants its vote to every candidate whose term is not
/// behind; one that has voted never grants it to another.
pub proof fn law_vote_request_is_answered<S: StateMachine>(
    server: ServerView<S>,
    from: Id,
    msg: RequestVote,
    after: ServerView<S>,
    result: Result<(), ServerError>,
)
    requires
        server.open,
        server.handling(IncomingView { from, msg: MessageView::RequestVote(msg) }, after, result),
    ensures
        result is Ok,
        after == (ServerView { outbox: after.outbox, ..server }),
        after.outbox.drop_last() == server.outbox,
        after.outbox.last().dest == Destination::Node(msg.candidate_id),
        after.outbox.last().msg matches MessageView::RequestVoteResponse(answer)
            && answer.term == server.current_term && {
            &&& answer.vote_granted ==> msg.term >= server.current_term
            &&& server.voted_for is None && msg.term >= server.current_term ==> answer.vote_granted
            &&& server.voted_for is Some && server.voted_for != Some(msg.candidate_id)
                ==> !answer.vote_granted
        },
{
    assert(after.outbox.drop_last() =~= server.outbox);
}

////////////////////////////////////////////////////////////////////////////////////////////////
// Majorities
////////////////////////////////////////////////////////////////////////////////////////////////

/// Only a majority of votes makes a leader, and a majority always does.
pub proof fn law_leader_needs_majority<S: StateMachine>(
    server: ServerView<S>,
    msg: RequestVoteResponse,
)
    requires
        server.accepts_vote(msg),
        server.role != RaftState::Leader,
    ensures
        server.counting_vote(msg).role == RaftState::Leader <==> {
            &&& msg.term <= server.current_term
            &&& msg.vote_granted
            &&& 2 * (server.votes_received + 1) > server.config.total_nodes
        },
        server.counting_vote(msg).role == RaftState::Leader ==> 2 * server.counting_vote(
            msg,
        ).votes_received > server.config.total_nodes,
{
}

/// Two majorities of the same nodes have a node in common.
pub proof fn law_majorities_overlap<S: StateMachine>(
    server: ServerView<S>,
    nodes: Set<NodeId>,
    left: Set<NodeId>,
    right: Set<NodeId>,
)
    requires
        nodes.finite(),
        nodes.len() == server.config.total_nodes,
        left.subset_of(nodes),
        right.subset_of(nodes),
        left.len() >= server.majority(),
        right.len() >= server.majority(),
    ensures
        exists|node: NodeId| left.contains(node) && right.contains(node),
{
    lemma_len_subset(left, nodes);
    lemma_len_subset(right, nodes);
    lemma_len_subset(left + right, nodes);
    lemma_set_intersect_union_lens(left, right);
    let common = left.intersect(right);
    assert(common.len() > 0);
    let node = common.choose();
    assert(common.contains(node));
}

/// A leader moves its commit index only forwards, only to an entry of its own term, and only if
/// the nodes that have confirmed the log up to there are a majority with the leader itself. It
/// stops at the first such position.
pub proof fn law_commit_needs_majority<S: StateMachine>(
    server: ServerView<S>,
    from: Id,
    msg: AppendEntriesResponse,
    after: ServerView<S>,
    result: Result<(), ServerError>,
)
    requires
        server.wf(),
        server.handling(
            IncomingView { from, msg: MessageView::AppendEntriesResponse(msg) },
            after,
            result,
        ),
    ensures
        after.log == server.log,
        after.commit_index >= server.commit_index,
        after.commit_index != server.commit_index ==> {
            let n = after.commit_index as int;
            let confirmed = if msg.success && from is Peer {
                server.confirmed_by(from->Peer_0).match_index
            } else {
                server.match_index
            };
            &&& server.role == RaftState::Leader
            &&& n < server.log.len()
            &&& server.log[n].term == server.current_term
            &&& 2 * (replicas(confirmed, n) + 1) > server.config.total_nodes
            &&& forall|m: int|
                server.commit_index < m < n ==> !#[trigger] committable(
                    server.log,
                    confirmed,
                    server.current_term,
                    server.commit_index as int,
                    server.config.total_nodes,
                    m,
                )
        },
{
    if server.role == RaftState::Leader && msg.term <= server.current_term {
        if let Id::Peer(peer) = from {
            let noted = if msg.success {
                server.confirmed_by(peer)
            } else {
                server.retrying(peer).0
            };
            if msg.success || server.retrying(peer).1 is Ok {
                lemma_committing_frame(noted, msg.success, after, result);
                lemma_first_committable(
                    noted.log,
                    noted.match_index,
                    noted.current_term,
                    noted.commit_index as int,
                    noted.config.total_nodes,
                    noted.commit_index + 1,
                );
            }
        }
    }
}

/// A replication request moves a node's commit index only forwards. Left out are a heartbeat to a
/// node whose commit index lies beyond its log, and a request with news of a commit but with
/// entries that end before the node's commit index.
pub proof fn law_follower_commit_never_decreases<S: StateMachine>(
    server: ServerView<S>,
    from: Id,
    msg: AppendEntriesView,
    after: ServerView<S>,
    result: Result<(), ServerError>,
)
    requires
        server.wf(),
        server.handling(
            IncomingView { from, msg: MessageView::AppendEntries(msg) },
            after,
            result,
        ),
        from is Peer && !server.refuses(msg) && !server.abdicates(msg) && msg.leader_commit
            > server.commit_index ==> {
            &&& msg.entries.len() == 0 && server.log.len() > 0 ==> server.commit_index
                < server.log.len()
            &&& msg.entries.len() > 0 ==> msg.entries.last().index as i32 >= server.commit_index
        },
    ensures
        after.commit_index >= server.commit_index,
{
}

/// How far a message can make a node apply its log. Beyond what the node knew to be committed, a
/// replication request goes no further than the leader's commit index, than the last of its
/// entries, and than the log is left alone by it. A leader that gets an answer goes as far as its
/// new commit index, and its log stays as it is.
pub proof fn law_message_applies_only_committed<S: StateMachine>(
    server: ServerView<S>,
    incoming: IncomingView,
    after: ServerView<S>,
    result: Result<(), ServerError>,
)
    requires
        server.wf(),
        server.accepts(incoming),
        server.handling(incoming, after, result),
        after.last_applied > server.last_applied,
    ensures
        match incoming.msg {
            MessageView::AppendEntries(msg) => after.last_applied <= server.commit_index || {
                &&& after.last_applied <= msg.leader_commit
                &&& msg.entries.len() > 0 ==> after.last_applied <= msg.entries.last().index
                &&& after.last_applied <= after.commit_index
                &&& after.last_applied < server.log.len()
                &&& after.last_applied < after.log.len()
                &&& after.log.take(after.last_applied + 1) == server.log.take(
                    after.last_applied + 1,
                )
            },
            MessageView::AppendEntriesResponse(_) => {
                &&& after.last_applied == after.commit_index
                &&& after.log == server.log
            },
            _ => false,
        },
{
    match incoming.msg {
        MessageView::ClientRequest(msg) => {
            if let LogCommand::Put { key, value } = msg.command {
                if server.role == RaftState::Leader {
                    lemma_setting_frame(
                        server,
                        key,
                        value,
                        msg.client_id,
                        msg.request_id,
                        after,
                        result,
                    );
                }
            }
        },
        MessageView::AppendEntries(msg) => {
            if msg.entries.len() > 0 && mergeable(server.log, msg.entries) {
                lemma_merged_len(server.log, msg.entries);
                law_merge_keeps_front(server.log, msg.entries);
                let kept = merge_plan(server.log, msg.entries).kept;
                let stays = merged(server.log, msg.entries);
                let end = after.last_applied + 1;
                if 0 <= end <= kept {
                    assert(stays.take(end) =~= stays.take(kept).take(end));
                    assert(server.log.take(end) =~= server.log.take(kept).take(end));
                }
            }
        },
        _ => {},
    }
}

/// The commit index after entries have been taken in: news of a commit moves it to the leader's
/// commit index or to the last of the entries, whichever comes first, and anything else leaves it
/// alone.
pub proof fn law_commit_follows_last_new_entry<S: StateMachine>(
    server: ServerView<S>,
    leader: NodeId,
    msg: AppendEntriesView,
    after: ServerView<S>,
    result: Result<(), ServerError>,
)
    requires
        server.wf(),
        server.accepts_entries(Id::Peer(leader), msg),
        server.handling(
            IncomingView { from: Id::Peer(leader), msg: MessageView::AppendEntries(msg) },
            after,
            result,
        ),
        !server.refuses(msg),
        !server.abdicates(msg),
        msg.entries.len() > 0,
    ensures
        after.commit_index == if msg.leader_commit <= server.commit_index {
            server.commit_index as int
        } else if msg.leader_commit < msg.entries.last().index {
            msg.leader_commit as int
        } else {
            msg.entries.last().index as int
        },
{
    lemma_merged_len(server.log, msg.entries);
}

////////////////////////////////////////////////////////////////////////////////////////////////
// The leader's log
////////////////////////////////////////////////////////////////////////////////////////////////

/// A client's request never removes or changes an entry. Where it adds one, that is the command
/// in the leader's term, at the position that it carries, and on behalf of the client.
pub proof fn law_client_request_only_appends<S: StateMachine>(
    server: ServerView<S>,
    from: Id,
    msg: ClientRequest,
    after: ServerView<S>,
    result: Result<(), ServerError>,
)
    requires
        server.wf(),
        server.accepts_client_request(msg),
        server.handling(IncomingView { from, msg: MessageView::ClientRequest(msg) }, after, result),
    ensures
        if server.role == RaftState::Leader && msg.command is Put {
            &&& after.log.drop_last() == server.log
            &&& after.log.last() == LogEntry {
                term: server.current_term,
                command: msg.command,
                index: server.log.len() as u32,
                client_id: msg.client_id,
                request_id: msg.request_id,
            }
            &&& aligned(server.log) ==> aligned(after.log)
            &&& after.commit_index == server.commit_index
            &&& after.state_machine == server.state_machine
        } else {
            after == server && result is Ok
        },
{
    if let LogCommand::Put { key, value } = msg.command {
        if server.role == RaftState::Leader {
            lemma_setting_frame(server, key, value, msg.client_id, msg.request_id, after, result);
            assert(after.log.drop_last() =~= server.log);
            if aligned(server.log) {
                assert forall|i: int| 0 <= i < after.log.len() implies (
                #[trigger] after.log[i]).index == i by {
                    if i < server.log.len() {
                        assert(after.log[i] == server.log[i]);
                    }
                }
            }
        }
    }
}

/// A leader never removes or changes an entry of its log. Left out is a leader that takes in a
/// replication request of its own term, which it treats as a follower does.
pub proof fn law_leader_only_appends<S: StateMachine>(
    server: ServerView<S>,
    incoming: IncomingView,
    after: ServerView<S>,
    result: Result<(), ServerError>,
)
    requires
        server.role == RaftState::Leader,
        server.handling(incoming, after, result),
        !(incoming.msg matches MessageView::AppendEntries(msg) && incoming.from is Peer && msg.term
            == server.current_term && !server.refuses(msg) && msg.entries.len() > 0),
    ensures
        server.log.is_prefix_of(after.log),
{
    match incoming.msg {
        MessageView::ClientRequest(msg) => {
            if let LogCommand::Put { key, value } = msg.command {
                lemma_setting_frame(
                    server,
                    key,
                    value,
                    msg.client_id,
                    msg.request_id,
                    after,
                    result,
                );
                assert(after.log.take(server.log.len() as int) =~= server.log);
            }
        },
        MessageView::AppendEntriesResponse(msg) => {
            if let Id::Peer(peer) = incoming.from {
                if msg.term <= server.current_term {
                    if msg.success {
                        lemma_committing_frame(server.confirmed_by(peer), true, after, result);
                    } else if server.retrying(peer).1 is Ok {
                        lemma_committing_frame(server.retrying(peer).0, false, after, result);
                    }
                }
            }
        },
        _ => {},
    }
    assert(server.log.take(server.log.len() as int) =~= server.log);
}

/// A retransmission that a follower takes in brings its log in line with the leader's: if their
/// logs agree up to where it starts, they agree as far as the leader's log goes.
pub proof fn law_accepted_retransmission_aligns_follower<L: StateMachine, F: StateMachine>(
    leader: ServerView<L>,
    peer: NodeId,
    follower: ServerView<F>,
    msg: AppendEntriesView,
    after: ServerView<F>,
    result: Result<(), ServerError>,
)
    requires
        leader.wf(),
        leader.has_place(peer),
        leader.next_index[peer.0 as int] < leader.log.len(),
        aligned(leader.log),
        leader.retransmission(peer).msg == MessageView::AppendEntries(msg),
        follower.role == RaftState::Follower,
        follower.handling(
            IncomingView { from: Id::Peer(leader.id), msg: MessageView::AppendEntries(msg) },
            after,
            result,
        ),
        !follower.refuses(msg),
        agrees_on(follower.log, leader.log, 0, leader.next_index[peer.0 as int] as int),
    ensures
        agrees_on(after.log, leader.log, 0, leader.log.len() as int),
{
    let next = leader.next_index[peer.0 as int] as int;
    assert forall|i: int| 0 <= i < msg.entries.len() implies (#[trigger] msg.entries[i]).index
        == next + i by {
        assert(msg.entries[i] == leader.log[next + i]);
    }
    law_merged_log_agrees_with_leader(follower.log, msg.entries, next);
    assert forall|i: int| 0 <= i < leader.log.len() implies (#[trigger] leader.log[i]).term
        == after.log[i].term by {
        if i < next {
            assert(after.log.take(next)[i] == follower.log.take(next)[i]);
        } else {
            assert(msg.entries[i - next] == leader.log[i]);
        }
    }
}

/// To take in the same replication request again neither repeats nor removes entries.
pub proof fn law_repeated_request_keeps_log<S: StateMachine>(
    server: ServerView<S>,
    from: Id,
    msg: AppendEntriesView,
    start: int,
    once: ServerView<S>,
    first_result: Result<(), ServerError>,
    twice: ServerView<S>,
    second_result: Result<(), ServerError>,
)
    requires
        0 <= start <= server.log.len(),
        consecutive(msg.entries, start),
        !server.abdicates(msg),
        server.handling(
            IncomingView { from, msg: MessageView::AppendEntries(msg) },
            once,
            first_result,
        ),
        once.handling(
            IncomingView { from, msg: MessageView::AppendEntries(msg) },
            twice,
            second_result,
        ),
    ensures
        twice.log == once.log,
{
    law_merge_is_idempotent(server.log, msg.entries, start);
}

/// A leader that is refused notes that it has sent the log again to its end, so a success after
/// that confirms all of the log. The node is taken not to be the leader itself.
pub proof fn law_success_after_retry_confirms_log<S: StateMachine>(
    server: ServerView<S>,
    peer: NodeId,
    refusal: AppendEntriesResponse,
    retried: ServerView<S>,
    first_result: Result<(), ServerError>,
    success: AppendEntriesResponse,
    after: ServerView<S>,
    second_result: Result<(), ServerError>,
)
    requires
        server.wf(),
        server.role == RaftState::Leader,
        server.accepts_answer(Id::Peer(peer), refusal),
        peer != server.id,
        !refusal.success,
        refusal.term <= server.current_term,
        server.handling(
            IncomingView {
                from: Id::Peer(peer),
                msg: MessageView::AppendEntriesResponse(refusal),
            },
            retried,
            first_result,
        ),
        success.success,
        success.term <= server.current_term,
        retried.accepts_answer(Id::Peer(peer), success),
        retried.handling(
            IncomingView {
                from: Id::Peer(peer),
                msg: MessageView::AppendEntriesResponse(success),
            },
            after,
            second_result,
        ),
    ensures
        retried.last_sent_index[peer.0 as int] == server.log.len() - 1,
        after.log == server.log,
        after.match_index[peer.0 as int] == server.log.len() - 1,
        after.next_index[peer.0 as int] == server.log.len(),
{
    if server.retrying(peer).1 is Ok {
        lemma_committing_frame(server.retrying(peer).0, false, retried, first_result);
    }
    lemma_committing_frame(retried.confirmed_by(peer), true, after, second_result);
}

////////////////////////////////////////////////////////////////////////////////////////////////
// The key-value store as the state machine
////////////////////////////////////////////////////////////////////////////////////////////////

/// What a store holds after `command`.
pub open spec fn command_effect(
    store: Map<Seq<char>, Seq<char>>,
    command: LogCommand,
) -> Map<Seq<char>, Seq<char>> {
    match command {
        LogCommand::Put { key, value } => store.insert(key@, value@),
        LogCommand::Delete { key } => store.remove(key@),
        LogCommand::Get { .. } => store,
    }
}

/// `command` deletes a key that `store` holds.
pub open spec fn deletes_present(store: Map<Seq<char>, Seq<char>>, command: LogCommand) -> bool {
    command matches LogCommand::Delete { key } && store.contains_key(key@)
}

/// What a store holds after the commands after position `from` up to and with position `upto`.
pub open spec fn replay(
    store: Map<Seq<char>, Seq<char>>,
    log: Seq<LogEntry>,
    from: int,
    upto: int,
) -> Map<Seq<char>, Seq<char>>
    decreases upto - from,
{
    if upto <= from {
        store
    } else {
        command_effect(replay(store, log, from, upto - 1), log[upto].command)
    }
}

/// The store after a stretch of the log is the stretch replayed in order.
pub proof fn law_store_replays_log(
    log: Seq<LogEntry>,
    from: int,
    upto: int,
    before: SimpleStateMachine,
    after: SimpleStateMachine,
)
    requires
        entries_applied(log, from, upto, before, after),
    ensures
        after@ == replay(before@, log, from, upto),
    decreases upto - from,
{
    if upto > from {
        let between = choose|between: SimpleStateMachine|
            entries_applied(log, from, upto - 1, before, between) && command_applied(
                between,
                log[upto].command,
                after,
                Ok(()),
            );
        law_store_replays_log(log, from, upto - 1, before, between);
    }
}

/// The store takes every command, so whatever is committed and in the log gets applied.
pub proof fn law_store_applies_all_committed(
    log: Seq<LogEntry>,
    from: int,
    commit: int,
    before: SimpleStateMachine,
    upto: int,
    after: SimpleStateMachine,
    result: Result<(), StateMachineError>,
)
    requires
        committed_applied(log, from, commit, before, upto, after, result),
    ensures
        result is Ok,
        upto == apply_target(log, from, commit),
        after@ == replay(before@, log, from, upto),
{
    if result is Ok {
        law_store_replays_log(log, from, upto, before, after);
    }
}

/// Nodes whose logs agree up to a position, and that have applied their logs up to there from
/// the same store, hold the same store.
pub proof fn law_equal_logs_give_equal_stores(
    store: Map<Seq<char>, Seq<char>>,
    left: Seq<LogEntry>,
    right: Seq<LogEntry>,
    from: int,
    upto: int,
)
    requires
        -1 <= from,
        upto < left.len(),
        upto < right.len(),
        forall|i: int| from < i <= upto ==> (#[trigger] left[i]).command == right[i].command,
    ensures
        replay(store, left, from, upto) == replay(store, right, from, upto),
    decreases upto - from,
{
    if upto > from {
        law_equal_logs_give_equal_stores(store, left, right, from, upto - 1);
        assert(left[upto].command == right[upto].command);
    }
}

/// To apply a log in two stretches is to apply it in one.
pub proof fn law_replay_composes(
    store: Map<Seq<char>, Seq<char>>,
    log: Seq<LogEntry>,
    from: int,
    mid: int,
    upto: int,
)
    requires
        from <= mid <= upto,
    ensures
        replay(replay(store, log, from, mid), log, mid, upto) == replay(store, log, from, upto),
    decreases upto - mid,
{
    if upto > mid {
        law_replay_composes(store, log, from, mid, upto - 1);
    }
}

/// The store takes every command, so one attempt does all there is to do, and the lookup before
/// the last command sees the log replayed up to there.
proof fn lemma_attempt_on_store(
    log: Seq<LogEntry>,
    from: int,
    n: int,
    before: SimpleStateMachine,
    upto: int,
    after: SimpleStateMachine,
    existed: bool,
)
    requires
        n < log.len(),
        attempt_applied(log, from, n, before, upto, after, existed),
    ensures
        upto == apply_target(log, from, n),
        after@ == replay(before@, log, from, upto),
        existed == (from < n && deletes_present(replay(before@, log, from, n - 1), log[n].command)),
{
    if from < n {
        let (reached, between, earlier) = choose|
            reached: int,
            between: SimpleStateMachine,
            earlier: Result<(), StateMachineError>,
        |
            #[trigger] committed_applied(log, from, n - 1, before, reached, between, earlier)
                && match earlier {
                Ok(_) => last_command_applied(log, n, between, upto, after, existed),
                Err(_) => upto == reached && after == between && !existed,
            };
        law_store_applies_all_committed(log, from, n - 1, before, reached, between, earlier);
    }
}

/// However often a node tries, the store ends as after one attempt, and so does what is known of
/// a deleted key.
proof fn lemma_attempts_on_store(
    log: Seq<LogEntry>,
    from: int,
    n: int,
    rounds: int,
    before: SimpleStateMachine,
    upto: int,
    after: SimpleStateMachine,
    existed: bool,
)
    requires
        n < log.len(),
        attempts_applied(log, from, n, rounds, before, upto, after, existed),
    ensures
        upto == apply_target(log, from, n),
        after@ == replay(before@, log, from, upto),
        existed == (from < n && deletes_present(replay(before@, log, from, n - 1), log[n].command)),
    decreases rounds,
{
    if rounds <= 1 {
        lemma_attempt_on_store(log, from, n, before, upto, after, existed);
    } else {
        let (mid, between, latest) = choose|mid: int, between: SimpleStateMachine, latest: bool|
            #[trigger] attempt_applied(log, mid, n, between, upto, after, latest) && (latest
                ==> existed) && attempts_applied(
                log,
                from,
                n,
                rounds - 1,
                before,
                mid,
                between,
                existed && !latest,
            );
        lemma_attempts_on_store(
            log,
            from,
            n,
            rounds - 1,
            before,
            mid,
            between,
            existed && !latest,
        );
        lemma_attempt_on_store(log, mid, n, between, upto, after, latest);
    }
}

/// What a positive answer that makes the leader commit does to a leader with a store.
proof fn lemma_commit_on_store(
    server: ServerView<SimpleStateMachine>,
    peer: NodeId,
    msg: AppendEntriesResponse,
    after: ServerView<SimpleStateMachine>,
    result: Result<(), ServerError>,
)
    requires
        server.wf(),
        server.handling(
            IncomingView { from: Id::Peer(peer), msg: MessageView::AppendEntriesResponse(msg) },
            after,
            result,
        ),
        msg.success,
        after.commit_index > server.commit_index,
        server.last_applied < after.commit_index,
    ensures
        ({
            let n = after.commit_index as int;
            let earlier = replay(
                server.state_machine@,
                server.log,
                server.last_applied as int,
                n - 1,
            );
            &&& 0 <= n < server.log.len()
            &&& after.last_applied == n
            &&& after.state_machine@ == command_effect(earlier, server.log[n].command)
            &&& match server.client_answer(n, deletes_present(earlier, server.log[n].command)) {
                Some(out) => {
                    &&& after.outbox == server.sending(out).0.outbox
                    &&& result == server.sending(out).1
                },
                None => after.outbox == server.outbox && result is Ok,
            }
        }),
{
    law_commit_needs_majority(server, Id::Peer(peer), msg, after, result);
    let confirmed = server.confirmed_by(peer);
    lemma_committing_frame(confirmed, true, after, result);
    lemma_first_committable(
        confirmed.log,
        confirmed.match_index,
        confirmed.current_term,
        confirmed.commit_index as int,
        confirmed.config.total_nodes,
        confirmed.commit_index + 1,
    );
    let n = after.commit_index as int;
    let committed = ServerView { commit_index: n as i32, ..confirmed };
    assert(committed.completing(n, after, result));
    let completed = ServerView {
        last_applied: n as i32,
        match_index: committed.match_index.update(committed.id.0 as int, n as i32),
        state_machine: after.state_machine,
        ..committed
    };
    let (upto, existed) = choose|upto: int, existed: bool|
        #[trigger] attempts_applied(
            committed.log,
            committed.last_applied as int,
            n,
            n - committed.last_applied,
            committed.state_machine,
            upto,
            after.state_machine,
            existed,
        ) && match completed.client_answer(n, existed) {
            Some(out) => (after, result) == completed.sending(out),
            None => after == completed && result == Ok::<(), ServerError>(()),
        };
    lemma_attempts_on_store(
        server.log,
        server.last_applied as int,
        n,
        n - server.last_applied,
        server.state_machine,
        upto,
        after.state_machine,
        existed,
    );
}

/// What a client is told is so: when a positive answer makes the leader commit the entry that
/// sets `key` to `value`, the leader's store holds `value` under `key`, everything before it in
/// the log has been applied before it, and the client is told of the success. The entry is taken
/// not to have been applied before.
pub proof fn law_acknowledged_set_is_stored(
    server: ServerView<SimpleStateMachine>,
    peer: NodeId,
    msg: AppendEntriesResponse,
    after: ServerView<SimpleStateMachine>,
    result: Result<(), ServerError>,
    key: String,
    value: String,
)
    requires
        server.wf(),
        server.open,
        server.handling(
            IncomingView { from: Id::Peer(peer), msg: MessageView::AppendEntriesResponse(msg) },
            after,
            result,
        ),
        msg.success,
        after.commit_index > server.commit_index,
        server.last_applied < after.commit_index,
        server.log[after.commit_index as int].command == (LogCommand::Put { key, value }),
    ensures
        ({
            let n = after.commit_index as int;
            let entry = server.log[n];
            &&& result is Ok
            &&& after.last_applied == n
            &&& after.state_machine@ == replay(
                server.state_machine@,
                server.log,
                server.last_applied as int,
                n,
            )
            &&& after.state_machine@.contains_key(key@)
            &&& after.state_machine@[key@] == value@
            &&& after.outbox == server.outbox.push(
                OutgoingView {
                    dest: Destination::Client(ClientId(entry.client_id)),
                    msg: MessageView::ClientResponse(
                        ClientResponse::SetSuccess { request_id: entry.request_id as u64 },
                    ),
                },
            )
        }),
{
    lemma_commit_on_store(server, peer, msg, after, result);
}

/// What a client is told of a deletion is so: when a positive answer makes the leader commit the
/// entry that deletes `key`, the client is told whether the leader's store held the key once
/// everything before the entry had been applied, and the store does not hold it any more. The
/// entry is taken not to have been applied before.
pub proof fn law_acknowledged_delete_tells_existence(
    server: ServerView<SimpleStateMachine>,
    peer: NodeId,
    msg: AppendEntriesResponse,
    after: ServerView<SimpleStateMachine>,
    result: Result<(), ServerError>,
    key: String,
)
    requires
        server.wf(),
        server.open,
        server.handling(
            IncomingView { from: Id::Peer(peer), msg: MessageView::AppendEntriesResponse(msg) },
            after,
            result,
        ),
        msg.success,
        after.commit_index > server.commit_index,
        server.last_applied < after.commit_index,
        server.log[after.commit_index as int].command == (LogCommand::Delete { key }),
    ensures
        ({
            let n = after.commit_index as int;
            let entry = server.log[n];
            let earlier = replay(
                server.state_machine@,
                server.log,
                server.last_applied as int,
                n - 1,
            );
            &&& result is Ok
            &&& after.last_applied == n
            &&& after.state_machine@ == earlier.remove(key@)
            &&& after.outbox == server.outbox.push(
                OutgoingView {
                    dest: Destination::Client(ClientId(entry.client_id)),
                    msg: MessageView::ClientResponse(
                        ClientResponse::DeleteSuccess {
                            request_id: entry.request_id as u64,
                            existed: earlier.contains_key(key@),
                        },
                    ),
                },
            )
        }),
{
    lemma_commit_on_store(server, peer, msg, after, result);
}

/// A follower that takes in a replication request ends up with its log replayed, each entry once,
/// up to the position that is due, if the log reaches it: what it knew to be committed, the
/// leader's commit index with a heartbeat, and with entries the leader's commit index as far as
/// the last of them and as far as the log is kept.
pub proof fn law_follower_applies_commits(
    server: ServerView<SimpleStateMachine>,
    leader: NodeId,
    msg: AppendEntriesView,
    after: ServerView<SimpleStateMachine>,
    result: Result<(), ServerError>,
)
    requires
        server.wf(),
        server.role == RaftState::Follower,
        server.handling(
            IncomingView { from: Id::Peer(leader), msg: MessageView::AppendEntries(msg) },
            after,
            result,
        ),
        !server.refuses(msg),
    ensures
        after.last_applied >= server.last_applied,
        after.state_machine@ == replay(
            server.state_machine@,
            server.log,
            server.last_applied as int,
            after.last_applied as int,
        ),
        server.commit_index < server.log.len() ==> after.last_applied >= server.commit_index,
        msg.entries.len() == 0 && server.commit_index < msg.leader_commit < server.log.len()
            ==> after.last_applied >= msg.leader_commit,
        msg.entries.len() > 0 && msg.leader_commit > server.commit_index ==> {
            let kept = merge_plan(server.log, msg.entries).kept;
            let last = msg.entries.last().index as int;
            after.last_applied >= min(msg.leader_commit as int, min(kept - 1, last))
        },
{
    let adopted = server.adopting_term(msg.term);
    let outcome = choose|outcome: Result<(), StateMachineError>|
        committed_applied(
            adopted.log,
            adopted.last_applied as int,
            adopted.due(msg),
            adopted.state_machine,
            after.last_applied as int,
            after.state_machine,
            outcome,
        );
    law_store_applies_all_committed(
        server.log,
        server.last_applied as int,
        adopted.due(msg),
        server.state_machine,
        after.last_applied as int,
        after.state_machine,
        outcome,
    );
    lemma_plan_bounds(server.log, msg.entries);
}

/// What a leader replicates reaches its followers. A follower with the leader's log takes in the
/// request for the leader's new entry, and confirms it. Once it then hears a heartbeat of the
/// leader with the entry committed, its log is the leader's, all of it has been applied in order,
/// and its store holds `value` under `key`.
pub proof fn law_replicated_set_reaches_follower<L: StateMachine>(
    leader: ServerView<L>,
    peer: NodeId,
    key: String,
    value: String,
    client_id: u32,
    request_id: u32,
    follower: ServerView<SimpleStateMachine>,
    replicated: ServerView<SimpleStateMachine>,
    committed: ServerView<L>,
    after: ServerView<SimpleStateMachine>,
    first_result: Result<(), ServerError>,
    second_result: Result<(), ServerError>,
)
    requires
        leader.log.len() < i32::MAX,
        leader.has_place(peer),
        leader.next_index.len() == leader.config.total_nodes + 1,
        leader.next_index[peer.0 as int] == leader.log.len(),
        follower.wf(),
        follower.open,
        follower.role == RaftState::Follower,
        follower.current_term <= leader.current_term,
        follower.log == leader.log,
        follower.last_applied < leader.log.len(),
        ({
            let entry = leader.new_entry(key, value, client_id, request_id);
            let appended = ServerView { log: leader.log.push(entry), ..leader };
            &&& follower.handling(
                IncomingView {
                    from: Id::Peer(leader.id),
                    msg: appended.replication_of(entry, peer).msg,
                },
                replicated,
                first_result,
            )
            &&& committed.log == appended.log
        }),
        committed.current_term == leader.current_term,
        committed.commit_index == leader.log.len(),
        replicated.handling(
            IncomingView { from: Id::Peer(leader.id), msg: committed.heartbeat().msg },
            after,
            second_result,
        ),
    ensures
        first_result is Ok,
        replicated.outbox == follower.outbox.push(
            OutgoingView {
                dest: Destination::Node(leader.id),
                msg: MessageView::AppendEntriesResponse(
                    AppendEntriesResponse { term: leader.current_term, success: true },
                ),
            },
        ),
        second_result is Ok,
        after.log == committed.log,
        after.last_applied == leader.log.len(),
        after.state_machine@ == replay(
            follower.state_machine@,
            committed.log,
            follower.last_applied as int,
            leader.log.len() as int,
        ),
        after.state_machine@.contains_key(key@),
        after.state_machine@[key@] == value@,
{
    let n = leader.log.len() as int;
    let entry = leader.new_entry(key, value, client_id, request_id);
    let appended = ServerView { log: leader.log.push(entry), ..leader };
    let request = appended.replication_of(entry, peer).msg->AppendEntries_0;
    assert(request.entries =~= seq![entry]);
    if n > 0 {
        assert(appended.log[n - 1] == leader.log[n - 1]);
    }
    assert(!follower.refuses(request));
    law_divergent_suffix_is_replaced(follower.log, request.entries, n, 0);
    assert(follower.log.take(n) + request.entries.skip(0) =~= appended.log);
    law_follower_applies_commits(follower, leader.id, request, replicated, first_result);
    let heartbeat = committed.heartbeat().msg->AppendEntries_0;
    assert(committed.log.last() == entry);
    assert(!replicated.refuses(heartbeat));
    law_follower_applies_commits(replicated, leader.id, heartbeat, after, second_result);
    let mid = replicated.last_applied as int;
    law_equal_logs_give_equal_stores(
        follower.state_machine@,
        follower.log,
        committed.log,
        follower.last_applied as int,
        mid,
    );
    law_replay_composes(
        follower.state_machine@,
        committed.log,
        follower.last_applied as int,
        mid,
        n,
    );
}

} // verus!
