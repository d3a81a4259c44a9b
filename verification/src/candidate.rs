//! Elections: asking for votes, giving one, and counting them.

use crate::codec::{Message, RequestVote, RequestVoteResponse};
use crate::server::{Destination, Event, RaftState, Server, ServerError};
use crate::state_machine::StateMachine;
use crate::timing::{clock_now, duration_nanos, duration_sum, random_below, MAX_DURATION_NANOS};
use std::time::Duration;
use tokio::time::Instant;
use vstd::prelude::*;

verus! {

/// A candidate that has waited in vain waits longer the next time, by a random number of
/// microseconds below this one.
pub const ELECTION_JITTER_MICROS: u64 = 500;

/// Whether a wait of `timeout` can be made longer by any amount of jitter.
pub open spec fn extendable(timeout: Duration) -> bool {
    duration_nanos(timeout) + (ELECTION_JITTER_MICROS - 1) * 1_000 <= MAX_DURATION_NANOS
}

/// Whether a wait of `timeout` can be made longer by any amount of jitter.
pub fn can_extend(timeout: Duration) -> (yes: bool)
    ensures
        yes == extendable(timeout),
{
    timeout.as_nanos() <= MAX_DURATION_NANOS - (ELECTION_JITTER_MICROS as u128 - 1) * 1_000
}

/// `extended` is `timeout`, longer by `jitter` microseconds.
pub open spec fn longer_by(extended: Duration, timeout: Duration, jitter: u64) -> bool {
    duration_nanos(extended) == duration_nanos(timeout) + jitter * 1_000
}

/// `extended` is `timeout`, longer by some number of microseconds that a draw may give.
pub open spec fn longer_by_jitter(extended: Duration, timeout: Duration) -> bool {
    exists|jitter: u64|
        jitter < ELECTION_JITTER_MICROS && #[trigger] longer_by(extended, timeout, jitter)
}

/// `timeout`, longer by `jitter` microseconds.
pub fn extend_timeout(timeout: Duration, jitter: u64) -> (extended: Duration)
    requires
        duration_nanos(timeout) + jitter * 1_000 <= MAX_DURATION_NANOS,
    ensures
        longer_by(extended, timeout, jitter),
{
    duration_sum(timeout, Duration::from_micros(jitter))
}

/// Jitter makes a wait longer by 0 to 499 microseconds, and a wait can be made longer if it stays
/// a duration with the most of that.
pub proof fn law_jitter_is_below_half_a_millisecond(extended: Duration, timeout: Duration)
    ensures
        longer_by_jitter(extended, timeout) ==> {
            let added = duration_nanos(extended) - duration_nanos(timeout);
            0 <= added <= 499_000 && added % 1_000 == 0
        },
        extendable(timeout) <==> duration_nanos(timeout) + 499_000 <= MAX_DURATION_NANOS,
{
}

impl<S: StateMachine> Server<S> {
    /// What a candidate does first: it enters a new term, votes for itself, and takes the time.
    /// Returns how long it then waits.
    pub fn candidate_start(&mut self) -> (timeout: Duration)
        requires
            old(self)@.wf(),
            old(self)@.current_term < u32::MAX,
        ensures
            final(self)@.wf(),
            final(self)@ == old(self)@.campaigning(final(self)@.last_heartbeat),
            duration_nanos(timeout) == old(self)@.config.election_timeout * 1_000_000,
    {
        self.candidate_start_at(clock_now())
    }

    /// What a candidate does first, at the time `now`.
    pub fn candidate_start_at(&mut self, now: Instant) -> (timeout: Duration)
        requires
            old(self)@.wf(),
            old(self)@.current_term < u32::MAX,
        ensures
            final(self)@.wf(),
            final(self)@ == old(self)@.campaigning(now),
            duration_nanos(timeout) == old(self)@.config.election_timeout * 1_000_000,
    {
        self.state.current_term = self.state.current_term + 1;
        self.state.last_heartbeat = now;
        self.state.voted_for = Some(self.id);
        self.config.election_timeout_duration()
    }

    /// Asks all nodes for their votes. What a closed network does not take is lost.
    pub fn send_request_vote_rpc_to_peers(&mut self)
        requires
            old(self)@.wf(),
        ensures
            final(self)@.wf(),
            final(self)@ == old(self)@.sending(old(self)@.vote_request()).0,
    {
        let (last_log_index, last_log_term) = if self.log.len() == 0 {
            (0i32, 0u32)
        } else {
            (self.log.len() as i32 - 1, self.log[self.log.len() - 1].term)
        };
        let msg = Message::RequestVoteType(
            RequestVote {
                term: self.state.current_term,
                candidate_id: self.id,
                last_log_index,
                last_log_term,
            },
        );
        let _ = self.send(Destination::Broadcast, msg);
    }

    /// What a candidate does when it has waited for `timeout`: it handles the message that came
    /// in, or waits longer the next time. Returns whether it has stopped being a candidate, and
    /// how long it waits the next time if not.
    pub fn candidate_event(&mut self, event: Event, timeout: Duration) -> (next: (bool, Duration))
        requires
            old(self)@.wf(),
            old(self)@.accepts_event(event@),
            event is Timeout ==> extendable(timeout),
        ensures
            final(self)@.wf(),
            old(self)@.hearing(event@, old(self)@, final(self)@),
            next.0 == (!(event is Timeout) && final(self)@.role != RaftState::Candidate),
            if event is Timeout {
                longer_by_jitter(next.1, timeout)
            } else {
                next.1 == timeout
            },
    {
        match event {
            Event::Message(incoming) => {
                let _ = self.recieve_rpc(incoming);
            },
            Event::ChannelClosed => {},
            Event::Timeout => {
                let jitter = random_below(ELECTION_JITTER_MICROS);
                return (false, extend_timeout(timeout, jitter));
            },
        }
        (self.state.state != RaftState::Candidate, timeout)
    }

    /// Handles a request for this node's vote.
    pub fn handle_request_vote_rpc(&mut self, msg: RequestVote) -> (result: Result<
        (),
        ServerError,
    >)
        requires
            old(self)@.accepts_vote_request(msg),
        ensures
            (final(self)@, result) == old(self)@.answering_vote_request(msg),
    {
        let mut vote_granted = msg.term >= self.state.current_term;
        if vote_granted {
            if let Some(voted_for) = self.state.voted_for {
                if voted_for != msg.candidate_id {
                    vote_granted = false;
                } else {
                    let last = &self.log[self.log.len() - 1];
                    if msg.last_log_index < last.index as i32 || msg.last_log_term != last.term {
                        vote_granted = false;
                    }
                }
            }
        }
        let response = Message::RequestVoteResponseType(
            RequestVoteResponse { term: self.state.current_term, vote_granted },
        );
        self.send(Destination::Node(msg.candidate_id), response)
    }

    /// Handles the answer to a request for votes.
    pub fn handle_request_vote_response_rpc(&mut self, msg: RequestVoteResponse)
        requires
            old(self)@.accepts_vote(msg),
        ensures
            final(self)@ == old(self)@.counting_vote(msg),
    {
        if msg.term > self.state.current_term {
            self.become_follower(msg.term);
            return;
        }
        if msg.vote_granted {
            self.state.votes_received = self.state.votes_received + 1;
            if self.state.votes_received >= self.config.total_nodes / 2 + 1 {
                self.state.state = RaftState::Leader;
            }
        }
    }

    /// Steps down in favour of a higher term.
    pub(crate) fn become_follower(&mut self, term: u32)
        ensures
            final(self)@ == old(self)@.stepped_down(term),
    {
        self.state.current_term = term;
        self.state.state = RaftState::Follower;
        self.state.voted_for = None;
        self.state.votes_received = 0;
    }
}

} // verus!
