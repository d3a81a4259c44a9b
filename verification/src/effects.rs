//! What each event does to a node, told by the fields of the node and of the message alone.

use crate::codec::{
    AppendEntriesResponse, AppendEntriesView, ClientRequest, ClientResponse, MessageView,
    RequestVote, RequestVoteResponse,
};
use crate::config::{lists_peers, ServerConfig};
use crate::laws::{
    law_store_applies_all_committed, lemma_committing_frame, lemma_first_committable,
    lemma_replicating_frame, replay,
};
use crate::log::{
    consecutive, law_divergent_suffix_is_replaced, law_gapless_entries_are_mergeable,
    law_present_entries_change_nothing, lemma_agrees_or_diverges, lemma_merged_len,
    lemma_plan_bounds, merge_plan, merged,
};
use crate::model::{
    attempts_applied, command_applied, committable, committed_applied, entries_applied, replicas,
    ServerView,
};
use crate::server::{
    ClientId, Destination, EventView, Id, IncomingView, LogCommand, LogEntry, NodeId, OutgoingView,
    RaftState, ServerError,
};
use crate::state_machine::{SimpleStateMachine, StateMachine, StateMachineError};
use tokio::time::Instant;
use vstd::prelude::*;

verus! {

////////////////////////////////////////////////////////////////////////////////////////////////
// Replication requests
////////////////////////////////////////////////////////////////////////////////////////////////

/// The answer to a replication request of the node `leader`.
pub open spec fn answer_to(leader: NodeId, term: u32, success: bool) -> OutgoingView {
    OutgoingView {
        dest: Destination::Node(leader),
        msg: MessageView::AppendEntriesResponse(AppendEntriesResponse { term, success }),
    }
}

/// The request is not behind in its term; and the log is empty, or has at the position where the
/// request starts an entry of exactly the term that the request names.
pub open spec fn fits<S>(server: ServerView<S>, msg: AppendEntriesView) -> bool {
    &&& msg.term >= server.current_term
    &&& server.log.len() == 0 || {
        &&& 0 <= msg.prev_log_index < server.log.len()
        &&& server.log[msg.prev_log_index as int].term == msg.prev_log_term
    }
}

/// The request ends a candidacy or a leadership.
pub open spec fn dethrones<S>(server: ServerView<S>, msg: AppendEntriesView) -> bool {
    msg.term > server.current_term && server.role != RaftState::Follower
}

/// What a node answers a replication request. One that does not fit is refused in the node's own
/// term, and nothing else happens. One with entries that is taken in is confirmed in the
/// request's term. A heartbeat that fits, and a request that ends a candidacy or a leadership,
/// get no answer.
pub proof fn law_request_is_answered<S: StateMachine>(
    server: ServerView<S>,
    leader: NodeId,
    msg: AppendEntriesView,
    after: ServerView<S>,
    result: Result<(), ServerError>,
)
    requires
        server.handling(
            IncomingView { from: Id::Peer(leader), msg: MessageView::AppendEntries(msg) },
            after,
            result,
        ),
    ensures
        !fits(server, msg) ==> after == (ServerView { outbox: after.outbox, ..server }),
        ({
            let answer = if !fits(server, msg) {
                Some(answer_to(leader, server.current_term, false))
            } else if dethrones(server, msg) || msg.entries.len() == 0 {
                None
            } else {
                Some(answer_to(leader, msg.term, true))
            };
            match answer {
                Some(out) if server.open => after.outbox == server.outbox.push(out) && result is Ok,
                Some(out) => after.outbox == server.outbox && result == Err::<(), ServerError>(
                    ServerError::NetworkClosed,
                ),
                None => after.outbox == server.outbox && result is Ok,
            }
        }),
{
}

/// A node with a log that confirms a replication request has an entry where the request starts,
/// and the entry's term is the one that the request names. An entry there of any other term,
/// earlier or later, makes the node refuse and leaves its log alone.
pub proof fn law_confirmed_request_matches_log<S: StateMachine>(
    server: ServerView<S>,
    leader: NodeId,
    msg: AppendEntriesView,
    after: ServerView<S>,
    result: Result<(), ServerError>,
    term: u32,
    success: bool,
)
    requires
        server.log.len() > 0,
        server.handling(
            IncomingView { from: Id::Peer(leader), msg: MessageView::AppendEntries(msg) },
            after,
            result,
        ),
        after.outbox == server.outbox.push(answer_to(leader, term, success)),
    ensures
        success ==> {
            &&& 0 <= msg.prev_log_index < server.log.len()
            &&& server.log[msg.prev_log_index as int].term == msg.prev_log_term
            &&& msg.term >= server.current_term
            &&& term == msg.term
        },
        !success ==> after.log == server.log && term == server.current_term,
        !(0 <= msg.prev_log_index < server.log.len()) ==> !success,
        0 <= msg.prev_log_index < server.log.len() && server.log[msg.prev_log_index as int].term
            != msg.prev_log_term ==> !success,
{
    assert(after.outbox.last() == answer_to(leader, term, success));
    assert(after.outbox.len() == server.outbox.len() + 1);
}

/// What a replication request that fits does to the term and to the role, and what it leaves
/// alone: votes, and all bookkeeping of a leader. One that ends a candidacy or a leadership does
/// nothing else.
pub proof fn law_request_is_adopted<S: StateMachine>(
    server: ServerView<S>,
    leader: NodeId,
    msg: AppendEntriesView,
    after: ServerView<S>,
    result: Result<(), ServerError>,
)
    requires
        server.handling(
            IncomingView { from: Id::Peer(leader), msg: MessageView::AppendEntries(msg) },
            after,
            result,
        ),
        fits(server, msg),
    ensures
        after == (ServerView {
            current_term: msg.term,
            role: if msg.term > server.current_term {
                RaftState::Follower
            } else {
                server.role
            },
            commit_index: after.commit_index,
            last_applied: after.last_applied,
            state_machine: after.state_machine,
            log: after.log,
            outbox: after.outbox,
            ..server
        }),
        dethrones(server, msg) ==> {
            &&& after.commit_index == server.commit_index
            &&& after.last_applied == server.last_applied
            &&& after.state_machine == server.state_machine
            &&& after.log == server.log
        },
{
}

/// The commit index after a replication request that is taken in. News of a commit counts as far
/// as the log goes with a heartbeat, and as far as the last of the entries with entries. Anything
/// else leaves the commit index alone.
pub proof fn law_request_moves_commit_index<S: StateMachine>(
    server: ServerView<S>,
    leader: NodeId,
    msg: AppendEntriesView,
    after: ServerView<S>,
    result: Result<(), ServerError>,
)
    requires
        server.wf(),
        server.accepts(
            IncomingView { from: Id::Peer(leader), msg: MessageView::AppendEntries(msg) },
        ),
        server.handling(
            IncomingView { from: Id::Peer(leader), msg: MessageView::AppendEntries(msg) },
            after,
            result,
        ),
        fits(server, msg),
        !dethrones(server, msg),
    ensures
        ({
            let end = if msg.entries.len() == 0 {
                server.log.len() - 1
            } else {
                msg.entries.last().index as int
            };
            after.commit_index == if msg.leader_commit <= server.commit_index || end < 0 {
                server.commit_index as int
            } else if msg.leader_commit <= end {
                msg.leader_commit as int
            } else {
                end
            }
        }),
        after.commit_index <= server.commit_index || after.commit_index <= msg.leader_commit,
{
    if msg.entries.len() > 0 {
        lemma_merged_len(server.log, msg.entries);
    }
}

/// The log after a replication request that is taken in. A heartbeat leaves it alone. Entries
/// that follow each other and do not begin beyond its end are found in it afterwards, by their
/// terms, each at its own position. What stands before the first of them, and before the first
/// that the log disagreed on, is as it was. If the log disagreed on one, or ended before one, it
/// goes on with the request's entries from there and ends with the last of them; otherwise it is
/// as it was.
pub proof fn law_request_replaces_from_first_conflict<S: StateMachine>(
    server: ServerView<S>,
    leader: NodeId,
    msg: AppendEntriesView,
    start: int,
    after: ServerView<S>,
    result: Result<(), ServerError>,
)
    requires
        server.handling(
            IncomingView { from: Id::Peer(leader), msg: MessageView::AppendEntries(msg) },
            after,
            result,
        ),
        fits(server, msg),
        !dethrones(server, msg),
        0 <= start <= server.log.len(),
        forall|i: int|
            0 <= i < msg.entries.len() ==> (#[trigger] msg.entries[i]).index == start + i,
    ensures
        msg.entries.len() == 0 ==> after.log == server.log,
        forall|i: int|
            0 <= i < msg.entries.len() ==> start + i < after.log.len() && (
            #[trigger] msg.entries[i]).term == after.log[start + i].term,
        after.log.take(start) == server.log.take(start),
        (forall|i: int|
            0 <= i < msg.entries.len() ==> start + i < server.log.len() && (
            #[trigger] msg.entries[i]).term == server.log[start + i].term) ==> after.log
            == server.log,
        forall|c: int|
            #![trigger msg.entries[c]]
            0 <= c < msg.entries.len() && (forall|i: int|
                0 <= i < c ==> start + i < server.log.len() && (#[trigger] msg.entries[i]).term
                    == server.log[start + i].term) && !(start + c < server.log.len()
                && msg.entries[c].term == server.log[start + c].term) ==> after.log
                == server.log.take(start + c) + msg.entries.skip(c),
{
    if msg.entries.len() > 0 {
        assert(after.log == merged(server.log, msg.entries));
        let count = lemma_agrees_or_diverges(server.log, msg.entries, start);
        if count == msg.entries.len() {
            law_present_entries_change_nothing(server.log, msg.entries, start);
        } else {
            law_divergent_suffix_is_replaced(server.log, msg.entries, start, count);
            assert forall|i: int| 0 <= i < msg.entries.len() implies start + i < after.log.len()
                && (#[trigger] msg.entries[i]).term == after.log[start + i].term by {
                if i < count {
                    assert(after.log[start + i] == server.log[start + i]);
                } else {
                    assert(after.log[start + i] == msg.entries.skip(count)[i - count]);
                }
            }
            assert(after.log.take(start) =~= server.log.take(start));
            assert(!(start + count < server.log.len() && msg.entries[count].term
                == server.log[start + count].term));
        }
        assert forall|c: int|
            #![trigger msg.entries[c]]
            0 <= c < msg.entries.len() && (forall|i: int|
                0 <= i < c ==> start + i < server.log.len() && (#[trigger] msg.entries[i]).term
                    == server.log[start + i].term) && !(start + c < server.log.len()
                && msg.entries[c].term == server.log[start + c].term) implies after.log
            == server.log.take(start + c) + msg.entries.skip(c) by {
            if count < msg.entries.len() {
                assert(!(start + count < server.log.len() && msg.entries[count].term
                    == server.log[start + count].term));
            }
            assert(c == count);
        }
    }
}

/// What a replication request makes a store-backed node apply. A heartbeat: everything up to the
/// commit index that it leaves. A request with entries that follow each other: what was known to
/// be committed; and beyond that exactly the positions that the leader has committed, that do not
/// lie behind the last of the entries, and up to which the log has no conflict with the entries.
pub proof fn law_request_applies_what_is_due(
    server: ServerView<SimpleStateMachine>,
    leader: NodeId,
    msg: AppendEntriesView,
    start: int,
    after: ServerView<SimpleStateMachine>,
    result: Result<(), ServerError>,
    position: int,
)
    requires
        server.wf(),
        server.handling(
            IncomingView { from: Id::Peer(leader), msg: MessageView::AppendEntries(msg) },
            after,
            result,
        ),
        fits(server, msg),
        !dethrones(server, msg),
        0 <= start <= server.log.len(),
        forall|i: int|
            0 <= i < msg.entries.len() ==> (#[trigger] msg.entries[i]).index == start + i,
        server.last_applied < position < server.log.len(),
    ensures
        position <= after.last_applied <==> {
            ||| position <= server.commit_index
            ||| {
                &&& server.commit_index < position <= msg.leader_commit
                &&& msg.entries.len() > 0 ==> position <= msg.entries.last().index
                &&& forall|i: int|
                    0 <= i < msg.entries.len() && start + i <= position ==> (
                    #[trigger] msg.entries[i]).term == server.log[start + i].term
            }
        },
        after.state_machine@ == replay(
            server.state_machine@,
            server.log,
            server.last_applied as int,
            after.last_applied as int,
        ),
        after.last_applied >= server.last_applied,
        after.last_applied < server.log.len(),
{
    let adopted = server.adopting_term(msg.term);
    let outcome = choose|outcome: Result<(), StateMachineError>|
        committed_applied(
            adopted.log,
            adopted.last_applied as int,
            adopted.due(msg),
            adopted.state_machine,
            after.last_applied as int,
            after.state_machine,
            outcome,
        );
    law_store_applies_all_committed(
        server.log,
        server.last_applied as int,
        adopted.due(msg),
        server.state_machine,
        after.last_applied as int,
        after.state_machine,
        outcome,
    );
    if msg.entries.len() > 0 {
        lemma_plan_bounds(server.log, msg.entries);
        let kept = merge_plan(server.log, msg.entries).kept;
        let count = lemma_agrees_or_diverges(server.log, msg.entries, start);
        assert(msg.entries.last() == msg.entries[msg.entries.len() - 1]);
        lemma_kept(server.log, msg.entries, start, count);
        if count < msg.entries.len() {
            assert(kept == start + count);
            if start + count <= position {
                assert(msg.entries[count].term != server.log[start + count].term);
            }
        }
    }
}

/// How much of a log is kept by entries that follow each other.
proof fn lemma_kept(log: Seq<LogEntry>, entries: Seq<LogEntry>, start: int, count: int)
    requires
        0 <= start <= log.len(),
        consecutive(entries, start),
        0 <= count <= entries.len(),
        start + count <= log.len(),
        forall|i: int| 0 <= i < count ==> (#[trigger] entries[i]).term == log[start + i].term,
        count < entries.len() && start + count < log.len() ==> entries[count].term
            != log[start + count].term,
    ensures
        merge_plan(log, entries).kept == if count < entries.len() {
            start + count
        } else {
            log.len() as int
        },
    decreases entries.len(),
{
    if entries.len() > 0 {
        let front = entries.drop_last();
        assert forall|i: int| 0 <= i < front.len() implies (#[trigger] front[i]).index == start
            + i by {
            assert(front[i] == entries[i]);
        }
        assert(entries.last() == entries[entries.len() - 1]);
        let shorter = if count < front.len() {
            count
        } else {
            front.len() as int
        };
        assert forall|i: int| 0 <= i < shorter implies (#[trigger] front[i]).term
            == log[start + i].term by {
            assert(front[i] == entries[i]);
        }
        if count < front.len() {
            assert(front[count] == entries[count]);
        }
        lemma_kept(log, front, start, shorter);
    }
}

/// A replication request that comes from a client changes nothing.
pub proof fn law_request_of_client_is_ignored<S: StateMachine>(
    server: ServerView<S>,
    client: ClientId,
    msg: AppendEntriesView,
    after: ServerView<S>,
    result: Result<(), ServerError>,
)
    requires
        server.handling(
            IncomingView { from: Id::Client(client), msg: MessageView::AppendEntries(msg) },
            after,
            result,
        ),
    ensures
        after == server,
        result is Ok,
{
}

////////////////////////////////////////////////////////////////////////////////////////////////
// Elections
////////////////////////////////////////////////////////////////////////////////////////////////

/// `out` asks all nodes for their votes, in the node's term and name, and tells the position and
/// the term of the last entry of the node's log, or 0 and 0 where the log is empty.
pub open spec fn asks_for_votes<S>(server: ServerView<S>, out: OutgoingView) -> bool {
    &&& out.dest == Destination::Broadcast
    &&& out.msg matches MessageView::RequestVote(request) && {
        &&& request.term == server.current_term
        &&& request.candidate_id == server.id
        &&& server.log.len() > 0 ==> {
            &&& request.last_log_index == server.log.len() - 1
            &&& request.last_log_term == server.log[server.log.len() - 1].term
        }
        &&& server.log.len() == 0 ==> request.last_log_index == 0 && request.last_log_term == 0
    }
}

/// The request for votes goes to all nodes, in the node's term and name, and tells the position
/// and the term of the last entry of its log, or 0 and 0 where the log is empty.
pub proof fn law_vote_request_tells_end_of_log<S: StateMachine>(server: ServerView<S>)
    requires
        server.wf(),
    ensures
        server.vote_request().dest == Destination::Broadcast,
        server.vote_request().msg matches MessageView::RequestVote(request) && {
            &&& request.term == server.current_term
            &&& request.candidate_id == server.id
            &&& server.log.len() > 0 ==> {
                &&& request.last_log_index == server.log.len() - 1
                &&& request.last_log_term == server.log[server.log.len() - 1].term
            }
            &&& server.log.len() == 0 ==> request.last_log_index == 0 && request.last_log_term == 0
        },
        asks_for_votes(server, server.vote_request()),
{
}

/// To stand for election is to go on to the next term, to vote for oneself and to take the time.
/// Nothing else changes.
pub proof fn law_standing_changes_term_and_vote<S: StateMachine>(
    server: ServerView<S>,
    now: Instant,
)
    requires
        server.current_term < u32::MAX,
    ensures
        server.campaigning(now) == (ServerView {
            current_term: server.campaigning(now).current_term,
            voted_for: Some(server.id),
            last_heartbeat: now,
            ..server
        }),
        server.campaigning(now).current_term == server.current_term + 1,
{
}

/// Exactly when a vote is granted: the candidate's term is not behind, and the node has either
/// not voted, or voted for this candidate, whose log then has to end in the same term and no
/// earlier. The answer goes to the candidate and carries the node's own term. Nothing else
/// changes.
pub proof fn law_vote_is_granted_exactly_when_due<S: StateMachine>(
    server: ServerView<S>,
    from: Id,
    msg: RequestVote,
    after: ServerView<S>,
    result: Result<(), ServerError>,
)
    requires
        server.handling(IncomingView { from, msg: MessageView::RequestVote(msg) }, after, result),
    ensures
        after == (ServerView { outbox: after.outbox, ..server }),
        !server.open ==> after.outbox == server.outbox && result == Err::<(), ServerError>(
            ServerError::NetworkClosed,
        ),
        server.open ==> result is Ok && after.outbox == server.outbox.push(
            OutgoingView {
                dest: Destination::Node(msg.candidate_id),
                msg: MessageView::RequestVoteResponse(
                    RequestVoteResponse {
                        term: server.current_term,
                        vote_granted: msg.term >= server.current_term && (server.voted_for is None
                            || (server.voted_for == Some(msg.candidate_id) && msg.last_log_index
                            >= server.log[server.log.len() - 1].index as i32 && msg.last_log_term
                            == server.log[server.log.len() - 1].term)),
                    },
                ),
            },
        ),
{
}

/// What the answer to a request for votes does. A higher term makes a follower of the node, with
/// its vote free again and no votes counted. A vote is counted, and makes the node the leader
/// once more than half of all nodes have voted for it. A refusal does nothing.
pub proof fn law_vote_is_counted<S: StateMachine>(
    server: ServerView<S>,
    from: Id,
    msg: RequestVoteResponse,
    after: ServerView<S>,
    result: Result<(), ServerError>,
)
    requires
        server.accepts(IncomingView { from, msg: MessageView::RequestVoteResponse(msg) }),
        server.handling(
            IncomingView { from, msg: MessageView::RequestVoteResponse(msg) },
            after,
            result,
        ),
    ensures
        result is Ok,
        msg.term > server.current_term ==> after == (ServerView {
            current_term: msg.term,
            role: RaftState::Follower,
            voted_for: None,
            votes_received: 0,
            ..server
        }),
        msg.term <= server.current_term && !msg.vote_granted ==> after == server,
        msg.term <= server.current_term && msg.vote_granted ==> {
            &&& after == (ServerView {
                votes_received: after.votes_received,
                role: after.role,
                ..server
            })
            &&& after.votes_received == server.votes_received + 1
            &&& after.role == if 2 * (server.votes_received + 1) > server.config.total_nodes {
                RaftState::Leader
            } else {
                server.role
            }
        },
{
}

/// A node that learns of a higher term from an answer is a follower in that term with its vote
/// free again, and grants it to the next candidate whose term is not behind. An answer to a
/// request for votes does this to every node, one to a replication request to a leader.
pub proof fn law_stepping_down_frees_vote<S: StateMachine>(
    server: ServerView<S>,
    incoming: IncomingView,
    after: ServerView<S>,
    result: Result<(), ServerError>,
    term: u32,
    from: Id,
    request: RequestVote,
    answered: ServerView<S>,
    answer_result: Result<(), ServerError>,
)
    requires
        server.handling(incoming, after, result),
        term > server.current_term,
        match incoming.msg {
            MessageView::RequestVoteResponse(msg) => msg.term == term,
            MessageView::AppendEntriesResponse(msg) => msg.term == term && server.role
                == RaftState::Leader,
            _ => false,
        },
        after.open,
        request.term >= term,
        after.handling(
            IncomingView { from, msg: MessageView::RequestVote(request) },
            answered,
            answer_result,
        ),
    ensures
        after == (ServerView {
            current_term: term,
            role: RaftState::Follower,
            voted_for: None,
            votes_received: 0,
            ..server
        }),
        answered.outbox == after.outbox.push(
            OutgoingView {
                dest: Destination::Node(request.candidate_id),
                msg: MessageView::RequestVoteResponse(
                    RequestVoteResponse { term, vote_granted: true },
                ),
            },
        ),
{
}

////////////////////////////////////////////////////////////////////////////////////////////////
// Answers to replication requests
////////////////////////////////////////////////////////////////////////////////////////////////

/// The places of those that have confirmed the log up to position `n`.
pub open spec fn holders(match_index: Seq<i32>, n: int) -> Set<int> {
    Set::new(|i: int| 0 <= i < match_index.len() && match_index[i] >= n)
}

/// To count those that have confirmed a position is to count their places.
pub proof fn law_replicas_are_holders(match_index: Seq<i32>, n: int)
    ensures
        holders(match_index, n).finite(),
        replicas(match_index, n) == holders(match_index, n).len(),
    decreases match_index.len(),
{
    reveal(Seq::filter);
    let reached = |confirmed: i32| confirmed >= n;
    if match_index.len() == 0 {
        assert(holders(match_index, n) =~= Set::empty());
    } else {
        let front = match_index.drop_last();
        let last = match_index.len() - 1;
        law_replicas_are_holders(front, n);
        assert(front.filter(reached).len() == replicas(front, n));
        if match_index[last] >= n {
            assert(holders(match_index, n) =~= holders(front, n).insert(last));
            assert(!holders(front, n).contains(last));
        } else {
            assert(holders(match_index, n) =~= holders(front, n));
        }
    }
}

/// More nodes than half of all, with the leader itself, have confirmed position `n`.
pub open spec fn enough(match_index: Seq<i32>, n: int, total_nodes: u32) -> bool {
    holders(match_index, n).len() > total_nodes as int / 2 - 1
}

/// A leader takes the answer of the node `peer` in its own term into account.
pub open spec fn heeds<S>(server: ServerView<S>, msg: AppendEntriesResponse) -> bool {
    server.role == RaftState::Leader && msg.term <= server.current_term
}

/// When a leader's commit index moves, it moves forwards, to an entry of the leader's term; and
/// the places whose confirmed position is no earlier, once the answer has been noted, are more
/// than half the number of nodes less one. It moves to the first such position, and it moves
/// wherever there is one.
pub proof fn law_commit_counts_confirmed_places<S: StateMachine>(
    server: ServerView<S>,
    peer: NodeId,
    msg: AppendEntriesResponse,
    after: ServerView<S>,
    result: Result<(), ServerError>,
)
    requires
        server.wf(),
        server.accepts(
            IncomingView { from: Id::Peer(peer), msg: MessageView::AppendEntriesResponse(msg) },
        ),
        server.handling(
            IncomingView { from: Id::Peer(peer), msg: MessageView::AppendEntriesResponse(msg) },
            after,
            result,
        ),
    ensures
        ({
            let noted = if msg.success {
                server.match_index.update(peer.0 as int, server.last_sent_index[peer.0 as int])
            } else {
                server.match_index
            };
            let n = after.commit_index as int;
            &&& n != server.commit_index ==> {
                &&& heeds(server, msg)
                &&& server.commit_index < n < server.log.len()
                &&& server.log[n].term == server.current_term
                &&& Set::new(|i: int| 0 <= i < noted.len() && noted[i] >= n).len()
                    > server.config.total_nodes as int / 2 - 1
                &&& forall|m: int|
                    server.commit_index < m < n && (#[trigger] server.log[m]).term
                        == server.current_term ==> !enough(noted, m, server.config.total_nodes)
            }
            &&& n == server.commit_index && heeds(server, msg) && (msg.success || server.open)
                ==> forall|m: int|
                server.commit_index < m < server.log.len() && (#[trigger] server.log[m]).term
                    == server.current_term ==> !enough(noted, m, server.config.total_nodes)
        }),
{
    if heeds(server, msg) && (msg.success || server.open) {
        let noted = if msg.success {
            server.confirmed_by(peer)
        } else {
            server.retrying(peer).0
        };
        lemma_committing_frame(noted, msg.success, after, result);
        lemma_first_committable(
            noted.log,
            noted.match_index,
            noted.current_term,
            noted.commit_index as int,
            noted.config.total_nodes,
            noted.commit_index + 1,
        );
        let n = after.commit_index as int;
        law_replicas_are_holders(noted.match_index, n);
        assert(holders(noted.match_index, n) =~= Set::new(
            |i: int| 0 <= i < noted.match_index.len() && noted.match_index[i] >= n,
        ));
        assert forall|m: int|
            server.commit_index < m < server.log.len() && (#[trigger] server.log[m]).term
                == server.current_term && (n == server.commit_index || m
                < n) implies !enough(noted.match_index, m, server.config.total_nodes) by {
            law_replicas_are_holders(noted.match_index, m);
            assert(!committable(
                noted.log,
                noted.match_index,
                noted.current_term,
                noted.commit_index as int,
                noted.config.total_nodes,
                m,
            ));
        }
    }
}

/// What a leader notes of an answer, and what it leaves alone. A success confirms for the node
/// that sent it what it was last sent, and the node is to be sent what follows. A refusal takes
/// the node one position back, and is answered with the log from there to its end, which is noted
/// as sent. Nothing is noted of other nodes, but that a leader that completes a commit has
/// confirmed it itself.
pub proof fn law_answer_is_noted<S: StateMachine>(
    server: ServerView<S>,
    peer: NodeId,
    msg: AppendEntriesResponse,
    after: ServerView<S>,
    result: Result<(), ServerError>,
)
    requires
        server.wf(),
        server.accepts(
            IncomingView { from: Id::Peer(peer), msg: MessageView::AppendEntriesResponse(msg) },
        ),
        server.handling(
            IncomingView { from: Id::Peer(peer), msg: MessageView::AppendEntriesResponse(msg) },
            after,
            result,
        ),
        heeds(server, msg),
    ensures
        ({
            let p = peer.0 as int;
            let back = if server.next_index[p] > 0 {
                server.next_index[p] - 1
            } else {
                0
            };
            &&& after == ServerView {
                commit_index: after.commit_index,
                last_applied: after.last_applied,
                state_machine: after.state_machine,
                next_index: after.next_index,
                match_index: after.match_index,
                last_sent_index: after.last_sent_index,
                outbox: after.outbox,
                ..server
            }
            &&& after.next_index.len() == server.next_index.len()
            &&& after.match_index.len() == server.match_index.len()
            &&& after.last_sent_index.len() == server.last_sent_index.len()
            &&& forall|i: int|
                0 <= i <= server.config.total_nodes && i != p ==> {
                    &&& after.next_index[i] == server.next_index[i]
                    &&& after.last_sent_index[i] == server.last_sent_index[i]
                }
            &&& forall|i: int|
                0 <= i <= server.config.total_nodes && i != p && i != server.id.0
                    ==> after.match_index[i] == server.match_index[i]
            &&& msg.success ==> {
                &&& after.next_index[p] == server.last_sent_index[p] + 1
                &&& after.last_sent_index[p] == server.last_sent_index[p]
                &&& peer != server.id ==> after.match_index[p] == server.last_sent_index[p]
            }
            &&& !msg.success ==> {
                &&& after.next_index[p] == back
                &&& after.last_sent_index[p] == server.log.len() - 1
                &&& after.match_index == server.match_index
                &&& after.last_applied == server.last_applied
                &&& after.state_machine == server.state_machine
                &&& server.open ==> {
                    &&& result is Ok
                    &&& after.outbox.len() == server.outbox.len() + 1
                    &&& after.outbox.drop_last() == server.outbox
                    &&& after.outbox.last().dest == Destination::Node(peer)
                    &&& after.outbox.last().msg matches MessageView::AppendEntries(sent) && {
                        &&& sent.term == server.current_term
                        &&& sent.leader_id == server.id
                        &&& sent.prev_log_index == back
                        &&& sent.prev_log_term == server.log[back as int].term
                        &&& sent.entries == server.log.skip(back as int)
                        &&& sent.leader_commit == server.commit_index
                    }
                }
                &&& !server.open ==> {
                    &&& result == Err::<(), ServerError>(ServerError::NetworkClosed)
                    &&& after.outbox == server.outbox
                    &&& after.commit_index == server.commit_index
                }
            }
        }),
{
    if msg.success {
        lemma_committing_frame(server.confirmed_by(peer), true, after, result);
    } else {
        let retried = server.retrying(peer).0;
        if server.open {
            lemma_committing_frame(retried, false, after, result);
            assert(after.outbox.drop_last() =~= server.outbox);
        }
    }
}

/// What follows a success for the client and for the leader itself. Where the commit index does
/// not move, nothing is applied and nobody is told. Where it moves, everything up to there is
/// taken to be applied, the leader has confirmed it itself, and the client whose command stands
/// there is told, unless the command is a lookup.
pub proof fn law_client_is_told_of_commit<S: StateMachine>(
    server: ServerView<S>,
    peer: NodeId,
    msg: AppendEntriesResponse,
    after: ServerView<S>,
    result: Result<(), ServerError>,
)
    requires
        server.wf(),
        server.accepts(
            IncomingView { from: Id::Peer(peer), msg: MessageView::AppendEntriesResponse(msg) },
        ),
        server.handling(
            IncomingView { from: Id::Peer(peer), msg: MessageView::AppendEntriesResponse(msg) },
            after,
            result,
        ),
        heeds(server, msg),
        msg.success,
    ensures
        after.commit_index == server.commit_index ==> {
            &&& after.last_applied == server.last_applied
            &&& after.state_machine == server.state_machine
            &&& after.outbox == server.outbox
            &&& after.match_index == server.match_index.update(
                peer.0 as int,
                server.last_sent_index[peer.0 as int],
            )
            &&& result is Ok
        },
        after.commit_index != server.commit_index ==> {
            let n = after.commit_index as int;
            let entry = server.log[n];
            let dest = Destination::Client(ClientId(entry.client_id));
            &&& after.last_applied == n
            &&& after.match_index[server.id.0 as int] == n
            &&& server.last_applied >= n ==> after.state_machine == server.state_machine
            &&& server.open ==> result is Ok && match entry.command {
                LogCommand::Put { .. } => after.outbox == server.outbox.push(
                    OutgoingView {
                        dest,
                        msg: MessageView::ClientResponse(
                            ClientResponse::SetSuccess { request_id: entry.request_id as u64 },
                        ),
                    },
                ),
                LogCommand::Delete { .. } => exists|existed: bool|
                    after.outbox == #[trigger] server.outbox.push(
                        OutgoingView {
                            dest,
                            msg: MessageView::ClientResponse(
                                ClientResponse::DeleteSuccess {
                                    request_id: entry.request_id as u64,
                                    existed,
                                },
                            ),
                        },
                    ),
                LogCommand::Get { .. } => after.outbox == server.outbox,
            }
            &&& !server.open ==> after.outbox == server.outbox && (entry.command is Get
                <==> result is Ok)
        },
{
    let confirmed = server.confirmed_by(peer);
    lemma_committing_frame(confirmed, true, after, result);
    lemma_first_committable(
        confirmed.log,
        confirmed.match_index,
        confirmed.current_term,
        confirmed.commit_index as int,
        confirmed.config.total_nodes,
        confirmed.commit_index + 1,
    );
    if after.commit_index != server.commit_index {
        let n = after.commit_index as int;
        let committed = ServerView { commit_index: n as i32, ..confirmed };
        assert(committed.completing(n, after, result));
        let completed = ServerView {
            last_applied: n as i32,
            match_index: committed.match_index.update(committed.id.0 as int, n as i32),
            state_machine: after.state_machine,
            ..committed
        };
        let (upto, existed) = choose|upto: int, existed: bool|
            #[trigger] attempts_applied(
                committed.log,
                committed.last_applied as int,
                n,
                n - committed.last_applied,
                committed.state_machine,
                upto,
                after.state_machine,
                existed,
            ) && match completed.client_answer(n, existed) {
                Some(out) => (after, result) == completed.sending(out),
                None => after == completed && result == Ok::<(), ServerError>(()),
            };
        let told = OutgoingView {
            dest: Destination::Client(ClientId(server.log[n].client_id)),
            msg: MessageView::ClientResponse(
                ClientResponse::DeleteSuccess {
                    request_id: server.log[n].request_id as u64,
                    existed,
                },
            ),
        };
        if server.open && server.log[n].command is Delete {
            assert(after.outbox == server.outbox.push(told));
        }
    }
}

/// Who takes no account of an answer to a replication request: a node that does not lead, and a
/// leader that gets it from a client. A leader that gets it with a higher term steps down, and
/// its vote is free again.
pub proof fn law_answer_out_of_place<S: StateMachine>(
    server: ServerView<S>,
    from: Id,
    msg: AppendEntriesResponse,
    after: ServerView<S>,
    result: Result<(), ServerError>,
)
    requires
        server.handling(
            IncomingView { from, msg: MessageView::AppendEntriesResponse(msg) },
            after,
            result,
        ),
    ensures
        server.role != RaftState::Leader || (from is Client && msg.term <= server.current_term)
            ==> after == server && result is Ok,
        server.role == RaftState::Leader && msg.term > server.current_term ==> result is Ok
            && after == (ServerView {
            current_term: msg.term,
            role: RaftState::Follower,
            voted_for: None,
            votes_received: 0,
            ..server
        }),
{
}

////////////////////////////////////////////////////////////////////////////////////////////////
// Clients
////////////////////////////////////////////////////////////////////////////////////////////////

/// `out` replicates the single `entry` on account of a node that is to be sent the log from
/// position `next` on.
pub open spec fn replicates<S>(
    server: ServerView<S>,
    entry: LogEntry,
    next: int,
    out: OutgoingView,
) -> bool {
    &&& out.dest == Destination::Broadcast
    &&& out.msg matches MessageView::AppendEntries(sent) && {
        &&& sent.term == server.current_term
        &&& sent.leader_id == server.id
        &&& sent.prev_log_index == next - 1
        &&& next == 0 ==> sent.prev_log_term == 0
        &&& next > 0 ==> sent.prev_log_term == server.log.push(entry)[next - 1].term
        &&& sent.entries == seq![entry]
        &&& sent.leader_commit == server.commit_index
    }
}

/// The id of a peer other than the node itself.
pub open spec fn is_other_peer<S>(server: ServerView<S>, id: u64) -> bool {
    server.config.peer_addresses@.contains_key(id) && id != server.id.0
}

/// `out` replicates the single `entry` on account of a peer other than the node itself.
pub open spec fn replicates_for_some_peer<S>(
    server: ServerView<S>,
    entry: LogEntry,
    out: OutgoingView,
) -> bool {
    exists|id: u64|
        #![trigger is_other_peer(server, id)]
        is_other_peer(server, id) && replicates(
            server,
            entry,
            server.next_index[id as int] as int,
            out,
        )
}

/// The entry that a leader makes of a client's request.
pub open spec fn entry_for<S>(server: ServerView<S>, msg: ClientRequest) -> LogEntry {
    LogEntry {
        term: server.current_term,
        command: msg.command,
        index: server.log.len() as u32,
        client_id: msg.client_id,
        request_id: msg.request_id,
    }
}

/// What a leader does with a command that sets a key. It appends the command, in its own term and
/// at its own position, and notes for each peer other than itself, and for no other node, that
/// the log has been sent to its end. But for what it sends, nothing else changes.
pub proof fn law_set_is_appended_and_noted<S: StateMachine>(
    server: ServerView<S>,
    from: Id,
    msg: ClientRequest,
    after: ServerView<S>,
    result: Result<(), ServerError>,
)
    requires
        server.wf(),
        server.open,
        server.role == RaftState::Leader,
        msg.command is Put,
        server.accepts(IncomingView { from, msg: MessageView::ClientRequest(msg) }),
        server.handling(IncomingView { from, msg: MessageView::ClientRequest(msg) }, after, result),
    ensures
        result is Ok,
        after == (ServerView {
            log: server.log.push(
                LogEntry {
                    term: server.current_term,
                    command: msg.command,
                    index: server.log.len() as u32,
                    client_id: msg.client_id,
                    request_id: msg.request_id,
                },
            ),
            last_sent_index: after.last_sent_index,
            outbox: after.outbox,
            ..server
        }),
        after.last_sent_index.len() == server.last_sent_index.len(),
        forall|id: u64|
            id <= server.config.total_nodes ==> #[trigger] after.last_sent_index[id as int]
                == if server.config.peer_addresses@.contains_key(id) && id != server.id.0 {
                server.log.len() as int
            } else {
                server.last_sent_index[id as int] as int
            },
{
    let others = lemma_set_in_detail(server, from, msg, after, result);
    assert forall|id: u64| id <= server.config.total_nodes implies #[trigger]
        after.last_sent_index[id as int] == if server.config.peer_addresses@.contains_key(id) && id
        != server.id.0 {
        server.log.len() as int
    } else {
        server.last_sent_index[id as int] as int
    } by {
        assert(others.to_set().contains(id) == is_other_peer(server, id));
    }
}

/// A leader sends a command that sets a key once for each peer other than itself, and for nobody
/// else, from where that peer is to be sent the log.
pub proof fn law_set_is_sent_once_per_peer<S: StateMachine>(
    server: ServerView<S>,
    from: Id,
    msg: ClientRequest,
    after: ServerView<S>,
    result: Result<(), ServerError>,
)
    requires
        server.wf(),
        server.open,
        server.role == RaftState::Leader,
        msg.command is Put,
        server.accepts(IncomingView { from, msg: MessageView::ClientRequest(msg) }),
        server.handling(IncomingView { from, msg: MessageView::ClientRequest(msg) }, after, result),
    ensures
        after.outbox.len() == server.outbox.len() + server.config.peer_addresses@.dom().remove(
            server.id.0,
        ).len(),
        after.outbox.take(server.outbox.len() as int) == server.outbox,
        forall|j: int|
            #![trigger after.outbox[j]]
            server.outbox.len() <= j < after.outbox.len() ==> replicates_for_some_peer(
                server,
                entry_for(server, msg),
                after.outbox[j],
            ),
        forall|id: u64|
            #![trigger is_other_peer(server, id)]
            is_other_peer(server, id) ==> exists|j: int|
                #![trigger after.outbox[j]]
                server.outbox.len() <= j < after.outbox.len() && replicates(
                    server,
                    entry_for(server, msg),
                    server.next_index[id as int] as int,
                    after.outbox[j],
                ),
{
    let others = lemma_set_in_detail(server, from, msg, after, result);
    let old_len = server.outbox.len() as int;
    assert(after.outbox.take(old_len) =~= server.outbox);
    assert forall|j: int|
        #![trigger after.outbox[j]]
        old_len <= j < after.outbox.len() implies replicates_for_some_peer(
        server,
        entry_for(server, msg),
        after.outbox[j],
    ) by {
        let k = j - old_len;
        assert(others.to_set().contains(others[k]));
        assert(is_other_peer(server, others[k]));
        assert(after.outbox[old_len + k] == after.outbox[j]);
    }
    assert forall|id: u64|
        #![trigger is_other_peer(server, id)]
        is_other_peer(server, id) implies exists|j: int|
        #![trigger after.outbox[j]]
        old_len <= j < after.outbox.len() && replicates(
            server,
            entry_for(server, msg),
            server.next_index[id as int] as int,
            after.outbox[j],
        ) by {
        assert(others.to_set().contains(id));
        let k = choose|k: int| 0 <= k < others.len() && others[k] == id;
        assert(replicates(
            server,
            entry_for(server, msg),
            server.next_index[id as int] as int,
            after.outbox[old_len + k],
        ));
    }
}

/// What a command that sets a key does, with the peers in the order in which they were taken.
proof fn lemma_set_in_detail<S: StateMachine>(
    server: ServerView<S>,
    from: Id,
    msg: ClientRequest,
    after: ServerView<S>,
    result: Result<(), ServerError>,
) -> (others: Seq<u64>)
    requires
        server.wf(),
        server.open,
        server.role == RaftState::Leader,
        msg.command is Put,
        server.accepts(IncomingView { from, msg: MessageView::ClientRequest(msg) }),
        server.handling(IncomingView { from, msg: MessageView::ClientRequest(msg) }, after, result),
    ensures
        others.to_set() == server.config.peer_addresses@.dom().remove(server.id.0),
        others.len() == others.to_set().len(),
        forall|id: u64|
            others.to_set().contains(id) <==> #[trigger] is_other_peer(server, id),
        result is Ok,
        after == (ServerView {
            log: server.log.push(entry_for(server, msg)),
            last_sent_index: after.last_sent_index,
            outbox: after.outbox,
            ..server
        }),
        after.outbox.len() == server.outbox.len() + others.len(),
        forall|j: int|
            0 <= j < server.outbox.len() ==> after.outbox[j] == server.outbox[j],
        forall|j: int|
            0 <= j < others.len() ==> replicates(
                server,
                entry_for(server, msg),
                server.next_index[others[j] as int] as int,
                #[trigger] after.outbox[server.outbox.len() + j],
            ),
        after.last_sent_index.len() == server.last_sent_index.len(),
        forall|id: u64|
            id <= server.config.total_nodes ==> #[trigger] after.last_sent_index[id as int]
                == if others.to_set().contains(id) {
                server.log.len() as int
            } else {
                server.last_sent_index[id as int] as int
            },
{
    let key = msg.command->Put_key;
    let value = msg.command->Put_value;
    let peers = choose|peers: Seq<(NodeId, String)>|
        lists_peers(server.config.peer_addresses@, peers) && (after, result) == server.setting(
            key,
            value,
            msg.client_id,
            msg.request_id,
            peers,
        );
    let addresses = server.config.peer_addresses@;
    let entry = entry_for(server, msg);
    assert(entry == server.new_entry(key, value, msg.client_id, msg.request_id));
    let appended = ServerView { log: server.log.push(entry), ..server };
    assert forall|i: int| 0 <= i < peers.len() && (#[trigger] peers[i]).0 != server.id implies
        appended.has_place(peers[i].0) by {
        assert(addresses.contains_key(peers[i].0.0));
        assert(NodeId(peers[i].0.0) == peers[i].0);
        assert(server.can_replicate_to(peers[i].0));
    }
    lemma_replicating_frame(appended, entry, peers);
    lemma_replicating_sends(appended, entry, peers);
    let others = other_ids(appended.id, peers);
    lemma_other_ids(appended.id, peers);
    assert forall|id: u64| others.contains(id) <==> #[trigger] is_other_peer(server, id) by {
        if is_other_peer(server, id) {
            let k = choose|k: int| 0 <= k < peers.len() && peers[k] == (NodeId(id), addresses[id]);
            assert(peers[k].0.0 == id);
        }
    }
    assert forall|id: u64| #[trigger]
        others.to_set().contains(id) <==> addresses.dom().remove(server.id.0).contains(id) by {
        assert(others.contains(id) <==> is_other_peer(server, id));
    }
    assert(others.to_set() =~= addresses.dom().remove(server.id.0));
    lemma_other_ids_distinct(appended.id, peers);
    others.unique_seq_to_set();
    assert forall|j: int| 0 <= j < others.len() implies replicates(
        server,
        entry,
        server.next_index[others[j] as int] as int,
        #[trigger] after.outbox[server.outbox.len() + j],
    ) by {
        assert(others.contains(others[j]));
        assert(is_other_peer(server, others[j]));
        assert(server.can_replicate_to(NodeId(others[j])));
    }
    others
}

/// The ids in `peers` other than `own`, in order.
spec fn other_ids(own: NodeId, peers: Seq<(NodeId, String)>) -> Seq<u64>
    decreases peers.len(),
{
    if peers.len() == 0 {
        Seq::empty()
    } else if peers.last().0 == own {
        other_ids(own, peers.drop_last())
    } else {
        other_ids(own, peers.drop_last()).push(peers.last().0.0)
    }
}

/// Those are the ids of the list other than `own`.
proof fn lemma_other_ids(own: NodeId, peers: Seq<(NodeId, String)>)
    ensures
        forall|id: u64| #[trigger]
            other_ids(own, peers).contains(id) ==> id != own.0 && exists|k: int|
                0 <= k < peers.len() && (#[trigger] peers[k]).0.0 == id,
        forall|k: int|
            0 <= k < peers.len() && (#[trigger] peers[k]).0 != own ==> other_ids(
                own,
                peers,
            ).contains(peers[k].0.0),
    decreases peers.len(),
{
    if peers.len() > 0 {
        let front = peers.drop_last();
        let last = peers.last();
        let ids = other_ids(own, peers);
        let earlier = other_ids(own, front);
        lemma_other_ids(own, front);
        assert forall|id: u64| #[trigger] ids.contains(id) implies id != own.0 && exists|k: int|
            0 <= k < peers.len() && (#[trigger] peers[k]).0.0 == id by {
            let j = choose|j: int| 0 <= j < ids.len() && ids[j] == id;
            if j < earlier.len() {
                assert(earlier[j] == id);
                assert(earlier.contains(id));
                let k = choose|k: int| 0 <= k < front.len() && (#[trigger] front[k]).0.0 == id;
                assert(peers[k].0.0 == id);
            } else {
                assert(peers[peers.len() - 1].0.0 == id);
            }
        }
        assert forall|k: int| 0 <= k < peers.len() && (#[trigger] peers[k]).0 != own implies
            ids.contains(peers[k].0.0) by {
            if k < front.len() {
                assert(front[k] == peers[k]);
                let j = choose|j: int| 0 <= j < earlier.len() && earlier[j] == peers[k].0.0;
                assert(ids[j] == peers[k].0.0);
            } else {
                assert(ids[ids.len() - 1] == peers[k].0.0);
            }
        }
    }
}

/// A list without repetitions gives ids without repetitions.
proof fn lemma_other_ids_distinct(own: NodeId, peers: Seq<(NodeId, String)>)
    requires
        forall|i: int, j: int|
            0 <= i < j < peers.len() ==> (#[trigger] peers[i]).0 != (#[trigger] peers[j]).0,
    ensures
        other_ids(own, peers).no_duplicates(),
    decreases peers.len(),
{
    if peers.len() > 0 {
        let front = peers.drop_last();
        let earlier = other_ids(own, front);
        lemma_other_ids_distinct(own, front);
        lemma_other_ids(own, front);
        if earlier.contains(peers.last().0.0) {
            let k = choose|k: int|
                0 <= k < front.len() && (#[trigger] front[k]).0.0 == peers.last().0.0;
            assert(peers[k].0 == peers[peers.len() - 1].0);
        }
    }
}

/// What replicating the last entry of the log sends and notes, peer by peer.
proof fn lemma_replicating_sends<S: StateMachine>(
    server: ServerView<S>,
    entry: LogEntry,
    peers: Seq<(NodeId, String)>,
)
    requires
        server.open,
        server.wf(),
        forall|i: int|
            0 <= i < peers.len() && (#[trigger] peers[i]).0 != server.id ==> server.has_place(
                peers[i].0,
            ),
    ensures
        ({
            let (after, result) = server.replicating(entry, peers);
            let ids = other_ids(server.id, peers);
            &&& result is Ok
            &&& after.outbox.len() == server.outbox.len() + ids.len()
            &&& forall|j: int|
                0 <= j < server.outbox.len() ==> after.outbox[j] == server.outbox[j]
            &&& forall|j: int|
                0 <= j < ids.len() ==> #[trigger] after.outbox[server.outbox.len() + j]
                    == server.replication_of(entry, NodeId(ids[j]))
            &&& after.last_sent_index.len() == server.last_sent_index.len()
            &&& forall|id: u64|
                id <= server.config.total_nodes ==> #[trigger] after.last_sent_index[id as int]
                    == if ids.contains(id) {
                    (server.log.len() - 1) as i32
                } else {
                    server.last_sent_index[id as int]
                }
        }),
    decreases peers.len(),
{
    if peers.len() > 0 {
        let front = peers.drop_last();
        assert forall|i: int| 0 <= i < front.len() && (#[trigger] front[i]).0 != server.id implies
            server.has_place(front[i].0) by {
            assert(front[i] == peers[i]);
        }
        lemma_replicating_sends(server, entry, front);
        lemma_replicating_frame(server, entry, front);
        let (so_far, _) = server.replicating(entry, front);
        let (after, _) = server.replicating(entry, peers);
        let peer = peers.last().0;
        assert(peers[peers.len() - 1].0 == peer);
        if peer != server.id {
            let earlier = other_ids(server.id, front);
            let ids = other_ids(server.id, peers);
            assert(NodeId(peer.0) == peer);
            let old_len = server.outbox.len();
            assert forall|j: int| 0 <= j < ids.len() implies #[trigger] after.outbox[old_len + j]
                == server.replication_of(entry, NodeId(ids[j])) by {
                if j < earlier.len() {
                    assert(so_far.outbox[server.outbox.len() + j] == server.replication_of(
                        entry,
                        NodeId(earlier[j]),
                    ));
                }
            }
            assert forall|id: u64| id <= server.config.total_nodes implies #[trigger]
                after.last_sent_index[id as int] == if ids.contains(id) {
                (server.log.len() - 1) as i32
            } else {
                server.last_sent_index[id as int]
            } by {
                if earlier.contains(id) {
                    let j = choose|j: int| 0 <= j < earlier.len() && earlier[j] == id;
                    assert(ids[j] == id);
                }
                if id == peer.0 {
                    assert(ids[ids.len() - 1] == id);
                }
                if ids.contains(id) && id != peer.0 {
                    let j = choose|j: int| 0 <= j < ids.len() && ids[j] == id;
                    assert(earlier[j] == id);
                }
                assert(so_far.last_sent_index[id as int] == if earlier.contains(id) {
                    (server.log.len() - 1) as i32
                } else {
                    server.last_sent_index[id as int]
                });
            }
        }
    }
}

/// The requests for a new entry are sent in the order of the list of peers: the one at each place
/// of the list is sent from where that peer is to be sent the log. The list is taken not to name
/// the node itself.
pub proof fn law_requests_follow_list_of_peers<S: StateMachine>(
    server: ServerView<S>,
    msg: ClientRequest,
    key: String,
    value: String,
    peers: Seq<(NodeId, String)>,
    k: int,
)
    requires
        server.wf(),
        server.open,
        server.log.len() < i32::MAX,
        msg.command == (LogCommand::Put { key, value }),
        forall|i: int|
            0 <= i < peers.len() ==> (#[trigger] peers[i]).0 != server.id && peers[i].0.0
                <= server.config.total_nodes && server.next_index[peers[i].0.0 as int]
                <= server.log.len() + 1,
        0 <= k < peers.len(),
    ensures
        ({
            let (after, result) = server.setting(key, value, msg.client_id, msg.request_id, peers);
            &&& result is Ok
            &&& after.outbox.len() == server.outbox.len() + peers.len()
            &&& replicates(
                server,
                entry_for(server, msg),
                server.next_index[peers[k].0.0 as int] as int,
                after.outbox[server.outbox.len() + k],
            )
        }),
{
    let entry = entry_for(server, msg);
    let appended = ServerView { log: server.log.push(entry), ..server };
    assert forall|i: int| 0 <= i < peers.len() && (#[trigger] peers[i]).0 != server.id implies
        appended.has_place(peers[i].0) by {}
    lemma_replicating_sends(appended, entry, peers);
    lemma_other_ids_are_all(server.id, peers);
    assert(other_ids(server.id, peers)[k] == peers[k].0.0);
    assert(peers[k].0.0 <= server.config.total_nodes);
}

/// A list that does not name `own` is taken whole.
proof fn lemma_other_ids_are_all(own: NodeId, peers: Seq<(NodeId, String)>)
    requires
        forall|i: int| 0 <= i < peers.len() ==> (#[trigger] peers[i]).0 != own,
    ensures
        other_ids(own, peers).len() == peers.len(),
        forall|i: int|
            0 <= i < peers.len() ==> other_ids(own, peers)[i] == (#[trigger] peers[i]).0.0,
    decreases peers.len(),
{
    if peers.len() > 0 {
        let front = peers.drop_last();
        assert forall|i: int| 0 <= i < front.len() implies (#[trigger] front[i]).0 != own by {
            assert(front[i] == peers[i]);
        }
        assert(peers[peers.len() - 1].0 != own);
        lemma_other_ids_are_all(own, front);
        assert forall|i: int| 0 <= i < peers.len() implies other_ids(own, peers)[i] == (
        #[trigger] peers[i]).0.0 by {
            if i < front.len() {
                assert(front[i] == peers[i]);
            }
        }
    }
}

/// A leader whose network is closed keeps the command in its log all the same, sends nothing, and
/// fails if there is anybody to send it to.
pub proof fn law_set_without_network<S: StateMachine>(
    server: ServerView<S>,
    from: Id,
    msg: ClientRequest,
    after: ServerView<S>,
    result: Result<(), ServerError>,
)
    requires
        !server.open,
        server.role == RaftState::Leader,
        msg.command is Put,
        server.handling(IncomingView { from, msg: MessageView::ClientRequest(msg) }, after, result),
    ensures
        after.log == server.log.push(entry_for(server, msg)),
        after.outbox == server.outbox,
        result is Err <==> exists|id: u64| #[trigger] is_other_peer(server, id),
{
    let key = msg.command->Put_key;
    let value = msg.command->Put_value;
    let peers = choose|peers: Seq<(NodeId, String)>|
        lists_peers(server.config.peer_addresses@, peers) && (after, result) == server.setting(
            key,
            value,
            msg.client_id,
            msg.request_id,
            peers,
        );
    let entry = entry_for(server, msg);
    let appended = ServerView { log: server.log.push(entry), ..server };
    lemma_replicating_frame(appended, entry, peers);
    lemma_replicating_without_network(appended, entry, peers);
    if result is Err {
        let i = choose|i: int| 0 <= i < peers.len() && (#[trigger] peers[i]).0 != server.id;
        assert(NodeId(peers[i].0.0) == peers[i].0);
        assert(is_other_peer(server, peers[i].0.0));
    }
    if exists|id: u64| #[trigger] is_other_peer(server, id) {
        let id = choose|id: u64| #[trigger] is_other_peer(server, id);
        let listed = (NodeId(id), server.config.peer_addresses@[id]);
        assert(peers.contains(listed));
        let i = choose|i: int| 0 <= i < peers.len() && peers[i] == listed;
        assert(peers[i].0 != server.id);
    }
}

/// A closed network takes nothing, and refuses the first request for another node.
proof fn lemma_replicating_without_network<S: StateMachine>(
    server: ServerView<S>,
    entry: LogEntry,
    peers: Seq<(NodeId, String)>,
)
    requires
        !server.open,
    ensures
        server.replicating(entry, peers).0.outbox == server.outbox,
        server.replicating(entry, peers).1 is Err <==> exists|i: int|
            0 <= i < peers.len() && (#[trigger] peers[i]).0 != server.id,
    decreases peers.len(),
{
    if peers.len() > 0 {
        let front = peers.drop_last();
        lemma_replicating_without_network(server, entry, front);
        lemma_replicating_frame(server, entry, front);
        assert(peers[peers.len() - 1] == peers.last());
        if exists|i: int| 0 <= i < front.len() && (#[trigger] front[i]).0 != server.id {
            let i = choose|i: int| 0 <= i < front.len() && (#[trigger] front[i]).0 != server.id;
            assert(peers[i].0 != server.id);
        }
        if exists|i: int| 0 <= i < peers.len() && (#[trigger] peers[i]).0 != server.id {
            let i = choose|i: int| 0 <= i < peers.len() && (#[trigger] peers[i]).0 != server.id;
            if i < front.len() {
                assert(front[i].0 != server.id);
            }
        }
    }
}

/// A client's request is served by a leader alone, and only if it sets a key. Otherwise nothing
/// changes.
pub proof fn law_other_requests_are_ignored<S: StateMachine>(
    server: ServerView<S>,
    from: Id,
    msg: ClientRequest,
    after: ServerView<S>,
    result: Result<(), ServerError>,
)
    requires
        server.handling(IncomingView { from, msg: MessageView::ClientRequest(msg) }, after, result),
        server.role != RaftState::Leader || !(msg.command is Put),
    ensures
        after == server,
        result is Ok,
{
}

/// Greetings, and answers to clients, change nothing.
pub proof fn law_stray_messages_are_ignored<S: StateMachine>(
    server: ServerView<S>,
    incoming: IncomingView,
    after: ServerView<S>,
    result: Result<(), ServerError>,
)
    requires
        server.handling(incoming, after, result),
        incoming.msg is Hello || incoming.msg is HelloClient || incoming.msg is ClientResponse,
    ensures
        after == server,
        result is Ok,
{
}

////////////////////////////////////////////////////////////////////////////////////////////////
// Roles
////////////////////////////////////////////////////////////////////////////////////////////////

/// `out` is a heartbeat of the node: to all nodes, without entries, and starting at the end of
/// the node's log.
pub open spec fn is_heartbeat_of<S>(server: ServerView<S>, out: OutgoingView) -> bool {
    &&& out.dest == Destination::Broadcast
    &&& out.msg matches MessageView::AppendEntries(sent) && {
        &&& sent.term == server.current_term
        &&& sent.leader_id == server.id
        &&& sent.prev_log_index == server.log.len() - 1
        &&& server.log.len() > 0 ==> sent.prev_log_term == server.log[server.log.len() - 1].term
        &&& server.log.len() == 0 ==> sent.prev_log_term == 0
        &&& sent.entries.len() == 0
        &&& sent.leader_commit == server.commit_index
    }
}

/// What a node does when it takes up its role. A follower only applies. A candidate goes on to
/// the next term, votes for itself and asks for votes in that term. A leader applies, sends a
/// heartbeat, and takes every node to need what follows the last position applied.
pub proof fn law_role_is_taken_up<S: StateMachine>(server: ServerView<S>, after: ServerView<S>)
    requires
        server.wf(),
        server.can_enter_role(),
        server.entering_role(after),
    ensures
        server.role == RaftState::Follower ==> after == (ServerView {
            last_applied: after.last_applied,
            state_machine: after.state_machine,
            ..server
        }),
        server.role == RaftState::Candidate ==> {
            &&& after == (ServerView {
                current_term: after.current_term,
                voted_for: Some(server.id),
                last_heartbeat: after.last_heartbeat,
                outbox: after.outbox,
                ..server
            })
            &&& after.current_term == server.current_term + 1
            &&& !server.open ==> after.outbox == server.outbox
            &&& server.open ==> {
                &&& after.outbox.len() == server.outbox.len() + 1
                &&& after.outbox.drop_last() == server.outbox
                &&& asks_for_votes(after, after.outbox.last())
            }
        },
        server.role == RaftState::Leader ==> {
            &&& after == (ServerView {
                last_applied: after.last_applied,
                state_machine: after.state_machine,
                next_index: after.next_index,
                outbox: after.outbox,
                ..server
            })
            &&& after.next_index.len() == server.next_index.len()
            &&& forall|i: int|
                0 <= i <= server.config.total_nodes ==> #[trigger] after.next_index[i]
                    == after.last_applied + 1
            &&& after.outbox.len() == server.outbox.len() + 1
            &&& after.outbox.drop_last() == server.outbox
            &&& is_heartbeat_of(server, after.outbox.last())
        },
        after.last_applied >= server.last_applied,
{
    if server.open || server.role == RaftState::Leader {
        assert(server.role != RaftState::Follower ==> after.outbox.drop_last() =~= server.outbox);
    }
}

/// A follower or a leader that takes up its role with a store has applied its log, in order and
/// each entry once, as far as it is committed, and no further.
pub proof fn law_role_applies_committed(
    server: ServerView<SimpleStateMachine>,
    after: ServerView<SimpleStateMachine>,
    position: int,
)
    requires
        server.wf(),
        server.entering_role(after),
        server.role != RaftState::Candidate,
        server.last_applied < position < server.log.len(),
    ensures
        position <= after.last_applied <==> position <= server.commit_index,
        after.state_machine@ == replay(
            server.state_machine@,
            server.log,
            server.last_applied as int,
            after.last_applied as int,
        ),
{
    let applied = ServerView {
        last_applied: after.last_applied,
        state_machine: after.state_machine,
        ..server
    };
    assert(server.settling(applied));
    let outcome = choose|outcome: Result<(), StateMachineError>|
        server.applying(server.commit_index, applied, outcome);
    law_store_applies_all_committed(
        server.log,
        server.last_applied as int,
        server.commit_index as int,
        server.state_machine,
        after.last_applied as int,
        after.state_machine,
        outcome,
    );
}

/// What taking note of a commit does to a node with a store: the commit index moves to it as far
/// as the log goes, and never back; everything up to the commit index is applied, in order and
/// each entry once; and nothing else changes.
pub proof fn law_news_of_commit_is_applied(
    server: ServerView<SimpleStateMachine>,
    leader_commit: i32,
    after: ServerView<SimpleStateMachine>,
    result: Result<(), StateMachineError>,
    position: int,
)
    requires
        server.wf(),
        server.applying(leader_commit, after, result),
        server.last_applied < position < server.log.len(),
    ensures
        result is Ok,
        after == (ServerView {
            commit_index: after.commit_index,
            last_applied: after.last_applied,
            state_machine: after.state_machine,
            ..server
        }),
        leader_commit <= server.commit_index ==> after.commit_index == server.commit_index,
        server.commit_index < leader_commit < server.log.len() ==> after.commit_index
            == leader_commit,
        server.commit_index < leader_commit && server.log.len() <= leader_commit
            ==> after.commit_index == server.log.len() - 1,
        position <= after.last_applied <==> position <= after.commit_index,
        after.state_machine@ == replay(
            server.state_machine@,
            server.log,
            server.last_applied as int,
            after.last_applied as int,
        ),
{
    law_store_applies_all_committed(
        server.log,
        server.last_applied as int,
        after.commit_index as int,
        server.state_machine,
        after.last_applied as int,
        after.state_machine,
        result,
    );
}

/// Whatever the state machine, taking note of a commit succeeds exactly if everything that is
/// committed and in the log has been applied. Where the state machine refuses a command, the
/// position applied stays before it, and never goes back.
pub proof fn law_application_stops_at_refusal<S: StateMachine>(
    server: ServerView<S>,
    leader_commit: i32,
    after: ServerView<S>,
    result: Result<(), StateMachineError>,
)
    requires
        server.wf(),
        server.applying(leader_commit, after, result),
    ensures
        after.last_applied >= server.last_applied,
        result is Ok <==> after.last_applied >= after.commit_index || after.last_applied
            >= server.log.len() - 1,
        after.last_applied > server.last_applied ==> after.last_applied <= after.commit_index
            && after.last_applied < server.log.len(),
{
}

/// Who can take up its role, and how long it then waits: a leader for a heartbeat's interval, all
/// others for the election timeout.
pub proof fn law_wait_depends_on_role<S: StateMachine>(server: ServerView<S>)
    ensures
        server.first_wait() == 1_000_000 * if server.role == RaftState::Leader {
            server.config.heartbeat_interval as int
        } else {
            server.config.election_timeout as int
        },
        server.can_enter_role() <==> {
            &&& server.role == RaftState::Candidate ==> server.current_term < u32::MAX
            &&& server.role == RaftState::Leader ==> server.open
        },
{
}

/// What a wait in vain does. A follower becomes a candidate and has to take up that role. A
/// candidate stays one, in the same term, and asks for votes again. A leader stays one and sends
/// a heartbeat.
pub proof fn law_waiting_in_vain<S: StateMachine>(
    server: ServerView<S>,
    after: ServerView<S>,
    leaves: bool,
)
    requires
        server.wf(),
        server.taking_turn(EventView::Timeout, after, leaves),
    ensures
        server.role == RaftState::Follower ==> leaves && after == (ServerView {
            role: RaftState::Candidate,
            ..server
        }),
        server.role != RaftState::Follower ==> {
            &&& !leaves
            &&& after == (ServerView { outbox: after.outbox, ..server })
        },
        server.role != RaftState::Follower && server.open ==> {
            &&& after.outbox.len() == server.outbox.len() + 1
            &&& after.outbox.drop_last() == server.outbox
        },
        server.role == RaftState::Candidate && server.open ==> asks_for_votes(
            server,
            after.outbox.last(),
        ),
        server.role == RaftState::Candidate && !server.open ==> after.outbox == server.outbox,
        server.role == RaftState::Leader && server.open ==> is_heartbeat_of(
            server,
            after.outbox.last(),
        ),
{
    if server.role != RaftState::Follower && server.open {
        assert(after.outbox.drop_last() =~= server.outbox);
    }
}

/// What a message does in a turn: it is handled, and a candidate that is still one then asks for
/// votes again. A follower always takes up its role anew, all others only if it has changed.
pub proof fn law_message_in_turn<S: StateMachine>(
    server: ServerView<S>,
    incoming: IncomingView,
    after: ServerView<S>,
    leaves: bool,
) -> (handled: (ServerView<S>, Result<(), ServerError>))
    requires
        server.taking_turn(EventView::Message(incoming), after, leaves),
    ensures
        server.handling(incoming, handled.0, handled.1),
        leaves <==> server.role == RaftState::Follower || after.role != server.role,
        after == (ServerView { outbox: after.outbox, ..handled.0 }),
        server.role == RaftState::Candidate && after.role == RaftState::Candidate
            && handled.0.open && handled.0.wf() ==> {
            &&& after.outbox.len() == handled.0.outbox.len() + 1
            &&& after.outbox.drop_last() == handled.0.outbox
            &&& asks_for_votes(after, after.outbox.last())
        },
        server.role != RaftState::Candidate || after.role != RaftState::Candidate
            || !handled.0.open ==> after.outbox == handled.0.outbox,
{
    let event = EventView::Message(incoming);
    let heard = choose|heard: ServerView<S>|
        #[trigger] server.hearing(event, server.having_waited(), heard) && leaves
            == server.leaves_role(event, heard) && after == if server.role == RaftState::Candidate
            && !leaves {
            heard.sending(heard.vote_request()).0
        } else {
            heard
        };
    assert(server.handling_somehow(incoming, heard));
    let result = choose|result: Result<(), ServerError>| server.handling(incoming, heard, result);
    if server.role == RaftState::Candidate && after.role == RaftState::Candidate && heard.open {
        assert(after.outbox.drop_last() =~= heard.outbox);
    }
    (heard, result)
}

/// That nothing will come any more changes nothing, but that a candidate asks for votes again.
pub proof fn law_closed_channel_in_turn<S: StateMachine>(
    server: ServerView<S>,
    after: ServerView<S>,
    leaves: bool,
)
    requires
        server.wf(),
        server.taking_turn(EventView::ChannelClosed, after, leaves),
    ensures
        leaves == (server.role == RaftState::Follower),
        after == (ServerView { outbox: after.outbox, ..server }),
        server.role == RaftState::Candidate && server.open ==> {
            &&& after.outbox.len() == server.outbox.len() + 1
            &&& after.outbox.drop_last() == server.outbox
            &&& asks_for_votes(server, after.outbox.last())
        },
        server.role != RaftState::Candidate || !server.open ==> after.outbox == server.outbox,
{
    if server.role == RaftState::Candidate && server.open {
        assert(after.outbox.drop_last() =~= server.outbox);
    }
}

/// A fresh node follows in term 0, has voted for nobody, has an empty log with nothing committed
/// or applied, has sent nothing, and takes no node to have confirmed anything.
pub proof fn law_fresh_node<S: StateMachine>(
    id: NodeId,
    config: ServerConfig,
    state_machine: S,
    now: Instant,
)
    ensures
        ({
            let server = ServerView::initial(id, config, state_machine, now);
            &&& server.wf()
            &&& server.id == id && server.config == config && server.last_heartbeat == now
            &&& server.state_machine == state_machine
            &&& server.role == RaftState::Follower
            &&& server.current_term == 0 && server.voted_for is None
            &&& server.votes_received == 0
            &&& server.commit_index == -1 && server.last_applied == -1
            &&& server.log.len() == 0 && server.outbox.len() == 0 && server.open
            &&& server.next_index.len() == config.total_nodes + 1
            &&& server.match_index.len() == config.total_nodes + 1
            &&& server.last_sent_index.len() == config.total_nodes + 1
            &&& forall|i: int|
                0 <= i <= config.total_nodes ==> (#[trigger] server.next_index[i]) == 0
            &&& forall|i: int|
                0 <= i <= config.total_nodes ==> (#[trigger] server.match_index[i]) == -1
            &&& forall|i: int|
                0 <= i <= config.total_nodes ==> (#[trigger] server.last_sent_index[i]) == 0
        }),
{
}

////////////////////////////////////////////////////////////////////////////////////////////////
// What a node sends
////////////////////////////////////////////////////////////////////////////////////////////////

/// If `out` is a replication request, it carries the node's term, name and commit index.
pub open spec fn carries_own_commit<S>(server: ServerView<S>, out: OutgoingView) -> bool {
    out.msg matches MessageView::AppendEntries(sent) ==> {
        &&& sent.leader_commit == server.commit_index
        &&& sent.term == server.current_term
        &&& sent.leader_id == server.id
    }
}

/// The node has sent what it had sent before and perhaps more, and every replication request in
/// what is new carries the commit index, the term and the name that the node had.
pub open spec fn sends_own_commit<S>(server: ServerView<S>, after: ServerView<S>) -> bool {
    &&& server.outbox.len() <= after.outbox.len()
    &&& forall|j: int| 0 <= j < server.outbox.len() ==> after.outbox[j] == server.outbox[j]
    &&& forall|j: int|
        server.outbox.len() <= j < after.outbox.len() ==> carries_own_commit(
            server,
            #[trigger] after.outbox[j],
        )
}

/// Every replication request that a message makes a node send, be it for a new entry or a
/// retransmission, carries the commit index that the node had.
pub proof fn law_replies_carry_own_commit<S: StateMachine>(
    server: ServerView<S>,
    incoming: IncomingView,
    after: ServerView<S>,
    result: Result<(), ServerError>,
)
    requires
        server.wf(),
        server.accepts(incoming),
        server.handling(incoming, after, result),
    ensures
        sends_own_commit(server, after),
{
    match incoming.msg {
        MessageView::ClientRequest(msg) => {
            if server.role == RaftState::Leader && msg.command is Put {
                let key = msg.command->Put_key;
                let value = msg.command->Put_value;
                let peers = choose|peers: Seq<(NodeId, String)>|
                    lists_peers(server.config.peer_addresses@, peers) && (after, result)
                        == server.setting(key, value, msg.client_id, msg.request_id, peers);
                let entry = server.new_entry(key, value, msg.client_id, msg.request_id);
                let appended = ServerView { log: server.log.push(entry), ..server };
                lemma_replicating_carries(appended, entry, peers);
            }
        },
        MessageView::AppendEntriesResponse(msg) => {
            if let Id::Peer(peer) = incoming.from {
                if heeds(server, msg) {
                    law_answer_is_noted(server, peer, msg, after, result);
                    if msg.success {
                        law_client_is_told_of_commit(server, peer, msg, after, result);
                    } else if server.open {
                        assert(after.outbox =~= server.outbox.push(after.outbox.last()));
                    }
                }
            }
        },
        _ => {},
    }
}

/// Whatever the network takes of them, the requests that replicate an entry carry the node's own
/// commit index.
proof fn lemma_replicating_carries<S: StateMachine>(
    server: ServerView<S>,
    entry: LogEntry,
    peers: Seq<(NodeId, String)>,
)
    ensures
        sends_own_commit(server, server.replicating(entry, peers).0),
    decreases peers.len(),
{
    if peers.len() > 0 {
        lemma_replicating_carries(server, entry, peers.drop_last());
        lemma_replicating_frame(server, entry, peers.drop_last());
    }
}

/// Every replication request that a node sends, when it takes up a role or in a turn of it,
/// carries the commit index that the node had. A follower that takes one in commits no further
/// than it had, or than the sender had.
pub proof fn law_followers_commit_no_further<S: StateMachine, F: StateMachine>(
    server: ServerView<S>,
    event: EventView,
    leaves: bool,
    after: ServerView<S>,
    j: int,
    sent: AppendEntriesView,
    follower: ServerView<F>,
    followed: ServerView<F>,
    result: Result<(), ServerError>,
)
    requires
        server.wf(),
        server.accepts_event(event),
        server.taking_turn(event, after, leaves) || (server.entering_role(after)
            && server.can_enter_role()),
        server.outbox.len() <= j < after.outbox.len(),
        after.outbox[j].msg == MessageView::AppendEntries(sent),
        follower.wf(),
        follower.accepts(
            IncomingView { from: Id::Peer(server.id), msg: MessageView::AppendEntries(sent) },
        ),
        follower.handling(
            IncomingView { from: Id::Peer(server.id), msg: MessageView::AppendEntries(sent) },
            followed,
            result,
        ),
    ensures
        sent.leader_commit == server.commit_index,
        sent.term == server.current_term,
        sent.leader_id == server.id,
        followed.commit_index <= follower.commit_index || followed.commit_index
            <= server.commit_index,
{
    if server.taking_turn(event, after, leaves) {
        match event {
            EventView::Message(incoming) => {
                let (handled, handled_result) = law_message_in_turn(
                    server,
                    incoming,
                    after,
                    leaves,
                );
                law_replies_carry_own_commit(server, incoming, handled, handled_result);
                assert(after.outbox[j].msg is AppendEntries);
                if j < handled.outbox.len() {
                    assert(carries_own_commit(server, handled.outbox[j]));
                }
            },
            EventView::Timeout => {
                law_waiting_in_vain(server, after, leaves);
                if server.role == RaftState::Leader {
                    assert(carries_own_commit(server, after.outbox[j]));
                }
            },
            EventView::ChannelClosed => {
                law_closed_channel_in_turn(server, after, leaves);
            },
        }
    } else {
        law_role_is_taken_up(server, after);
    }
    if fits(follower, sent) && !dethrones(follower, sent) {
        law_request_moves_commit_index(follower, server.id, sent, followed, result);
    } else if fits(follower, sent) {
        law_request_is_adopted(follower, server.id, sent, followed, result);
    } else {
        law_request_is_answered(follower, server.id, sent, followed, result);
    }
}

////////////////////////////////////////////////////////////////////////////////////////////////
// What a node can handle
////////////////////////////////////////////////////////////////////////////////////////////////

/// Requests for votes, votes, and clients' requests that a node cannot handle: a request of the
/// candidate that it voted for while its log is empty; a vote too many to be counted; and, as a
/// leader, a command for which the log is too long, or that is to go to a peer without a place or
/// from beyond the log. It can handle all others.
pub proof fn law_elections_and_commands_can_be_handled<S: StateMachine>(
    server: ServerView<S>,
    incoming: IncomingView,
)
    ensures
        incoming.msg matches MessageView::RequestVote(msg) ==> (server.accepts(incoming) <==> !(
        msg.term >= server.current_term && server.voted_for == Some(msg.candidate_id)
            && server.log.len() == 0)),
        incoming.msg matches MessageView::RequestVoteResponse(msg) ==> (server.accepts(incoming)
            <==> !(msg.term <= server.current_term && msg.vote_granted && server.votes_received
            == u32::MAX)),
        incoming.msg matches MessageView::ClientRequest(msg) ==> (server.accepts(incoming) <==> (
        server.role == RaftState::Leader && msg.command is Put ==> {
            &&& server.log.len() < i32::MAX
            &&& forall|id: u64| #[trigger]
                is_other_peer(server, id) ==> id <= server.config.total_nodes
                    && server.next_index[id as int] <= server.log.len() + 1
        })),
        incoming.msg is Hello || incoming.msg is HelloClient || incoming.msg is ClientResponse
            ==> server.accepts(incoming),
{
    if let MessageView::ClientRequest(msg) = incoming.msg {
        if server.accepts_command() {
            assert forall|id: u64| #[trigger] is_other_peer(server, id) implies id
                <= server.config.total_nodes && server.next_index[id as int] <= server.log.len()
                + 1 by {
                assert(server.can_replicate_to(NodeId(id)));
            }
        }
        if server.log.len() < i32::MAX && (forall|id: u64| #[trigger]
            is_other_peer(server, id) ==> id <= server.config.total_nodes
                && server.next_index[id as int] <= server.log.len() + 1) {
            assert forall|id: u64| #[trigger]
                server.config.peer_addresses@.contains_key(id) && NodeId(id)
                    != server.id implies server.can_replicate_to(NodeId(id)) by {
                assert(is_other_peer(server, id));
            }
        }
    }
}

/// Replication requests that a node can handle in any case: those that it does not take in,
/// heartbeats, and those whose entries follow each other and do not begin beyond the end of the
/// log, as long as the log stays short enough.
pub proof fn law_replication_can_be_handled<S: StateMachine>(
    server: ServerView<S>,
    from: Id,
    msg: AppendEntriesView,
    start: int,
)
    requires
        server.wf(),
    ensures
        from is Client || !fits(server, msg) || dethrones(server, msg) || msg.entries.len() == 0
            ==> server.accepts(IncomingView { from, msg: MessageView::AppendEntries(msg) }),
        0 <= start <= server.log.len() && start + msg.entries.len() <= i32::MAX && (forall|i: int|
            0 <= i < msg.entries.len() ==> (#[trigger] msg.entries[i]).index == start + i)
            ==> server.accepts(IncomingView { from, msg: MessageView::AppendEntries(msg) }),
{
    if 0 <= start <= server.log.len() && start + msg.entries.len() <= i32::MAX && (forall|i: int|
        0 <= i < msg.entries.len() ==> (#[trigger] msg.entries[i]).index == start + i) {
        law_gapless_entries_are_mergeable(server.log, msg.entries, start);
    }
}

/// Answers that a node can handle in any case: those that it takes no account of, or that make it
/// step down; and in a cluster of two nodes or more those of a node that has a place, as long as
/// the leader has a place and a log too and no node is to be sent anything from beyond it.
pub proof fn law_answers_can_be_handled<S: StateMachine>(
    server: ServerView<S>,
    from: Id,
    msg: AppendEntriesResponse,
)
    requires
        server.wf(),
    ensures
        from is Client || !heeds(server, msg) ==> server.accepts(
            IncomingView { from, msg: MessageView::AppendEntriesResponse(msg) },
        ),
        from matches Id::Peer(peer) ==> (peer.0 <= server.config.total_nodes && server.id.0
            <= server.config.total_nodes && server.config.total_nodes >= 2 && server.log.len() > 0
            && server.next_index[peer.0 as int] <= server.log.len() ==> server.accepts(
            IncomingView { from, msg: MessageView::AppendEntriesResponse(msg) },
        )),
{
}

////////////////////////////////////////////////////////////////////////////////////////////////
// What a store holds
////////////////////////////////////////////////////////////////////////////////////////////////

/// `command` sets or deletes `key`.
pub open spec fn concerns(command: LogCommand, key: Seq<char>) -> bool {
    match command {
        LogCommand::Put { key: set, .. } => set@ == key,
        LogCommand::Delete { key: deleted } => deleted@ == key,
        LogCommand::Get { .. } => false,
    }
}

/// Once a stretch of the log has been applied, a key holds what the last command in it that
/// concerns the key says: the value that it was set to, or nothing if it was deleted.
pub proof fn law_store_holds_last_write(
    log: Seq<LogEntry>,
    from: int,
    upto: int,
    before: SimpleStateMachine,
    after: SimpleStateMachine,
    key: Seq<char>,
    j: int,
)
    requires
        entries_applied(log, from, upto, before, after),
        from < j <= upto,
        concerns(log[j].command, key),
        forall|m: int| j < m <= upto ==> !concerns((#[trigger] log[m]).command, key),
    ensures
        log[j].command matches LogCommand::Put { value, .. } ==> after@.contains_key(key)
            && after@[key] == value@,
        log[j].command is Delete ==> !after@.contains_key(key),
    decreases upto - from,
{
    let between = choose|between: SimpleStateMachine|
        entries_applied(log, from, upto - 1, before, between) && #[trigger] command_applied(
            between,
            log[upto].command,
            after,
            Ok(()),
        );
    if j < upto {
        assert(!concerns(log[upto].command, key));
        law_store_holds_last_write(log, from, upto - 1, before, between, key, j);
    }
}

/// A stretch of the log in which no command concerns a key leaves the key alone.
pub proof fn law_store_keeps_other_keys(
    log: Seq<LogEntry>,
    from: int,
    upto: int,
    before: SimpleStateMachine,
    after: SimpleStateMachine,
    key: Seq<char>,
)
    requires
        entries_applied(log, from, upto, before, after),
        forall|m: int| from < m <= upto ==> !concerns((#[trigger] log[m]).command, key),
    ensures
        after@.contains_key(key) == before@.contains_key(key),
        before@.contains_key(key) ==> after@[key] == before@[key],
    decreases upto - from,
{
    if upto > from {
        let between = choose|between: SimpleStateMachine|
            entries_applied(log, from, upto - 1, before, between) && #[trigger] command_applied(
                between,
                log[upto].command,
                after,
                Ok(()),
            );
        assert(!concerns(log[upto].command, key));
        law_store_keeps_other_keys(log, from, upto - 1, before, between, key);
    }
}

/// The same of the log replayed in the abstract: a key holds what the last command that concerns
/// it says, and is left alone where none does.
pub proof fn law_replay_holds_last_write(
    store: Map<Seq<char>, Seq<char>>,
    log: Seq<LogEntry>,
    from: int,
    upto: int,
    key: Seq<char>,
    j: int,
)
    requires
        from <= j <= upto,
        j > from ==> concerns(log[j].command, key),
        forall|m: int| j < m <= upto ==> !concerns((#[trigger] log[m]).command, key),
    ensures
        ({
            let after = replay(store, log, from, upto);
            if j == from {
                &&& after.contains_key(key) == store.contains_key(key)
                &&& store.contains_key(key) ==> after[key] == store[key]
            } else {
                &&& log[j].command matches LogCommand::Put { value, .. } ==> after.contains_key(
                    key,
                ) && after[key] == value@
                &&& log[j].command is Delete ==> !after.contains_key(key)
            }
        }),
    decreases upto - from,
{
    if j < upto {
        assert(!concerns(log[upto].command, key));
        law_replay_holds_last_write(store, log, from, upto - 1, key, j);
    }
}

} // verus!
