//! Running a node: taking up a role, and one turn after the other in it.
//!
//! Whoever runs a node takes up its role, sends what is in the outbox, waits for a message as
//! long as it is told, and hands over what came of it, until the node has to take up a role
//! again.

use crate::candidate::{can_extend, extendable, longer_by_jitter};
use crate::server::{Event, RaftState, Server};
use crate::state_machine::StateMachine;
use crate::timing::duration_nanos;
use std::time::Duration;
use vstd::prelude::*;

verus! {

impl<S: StateMachine> Server<S> {
    /// Whether the node can take up its role.
    pub fn can_enter_role(&self) -> (yes: bool)
        ensures
            yes == self@.can_enter_role(),
    {
        match self.state.state {
            RaftState::Follower => true,
            RaftState::Candidate => self.state.current_term < u32::MAX,
            RaftState::Leader => self.to_network.open,
        }
    }

    /// Takes up the role that the node is in. Returns how long to wait for the first event.
    pub fn enter_role(&mut self) -> (wait: Duration)
        requires
            old(self)@.wf(),
            old(self)@.can_enter_role(),
        ensures
            final(self)@.wf(),
            old(self)@.entering_role(final(self)@),
            duration_nanos(wait) == old(self)@.first_wait(),
    {
        match self.state.state {
            RaftState::Follower => {
                self.follower_start();
                self.config.election_timeout_duration()
            },
            RaftState::Candidate => {
                let wait = self.candidate_start();
                self.send_request_vote_rpc_to_peers();
                wait
            },
            RaftState::Leader => {
                self.leader_start();
                self.config.heartbeat_interval_duration()
            },
        }
    }

    /// Whether the node can take `event` after a wait of `wait`: it can handle the message; and
    /// if there was none, a candidate can wait longer the next time, and a leader has a network
    /// to send its heartbeat to.
    pub fn can_take_turn(&self, event: &Event, wait: Duration) -> (yes: bool)
        requires
            self@.wf(),
        ensures
            yes == {
                &&& self@.accepts_event(event@)
                &&& event is Timeout && self@.role == RaftState::Candidate ==> extendable(wait)
                &&& event is Timeout && self@.role == RaftState::Leader ==> self@.open
            },
    {
        match event {
            Event::Timeout => match self.state.state {
                RaftState::Follower => true,
                RaftState::Candidate => can_extend(wait),
                RaftState::Leader => self.to_network.open,
            },
            _ => self.accepts_event(event),
        }
    }

    /// Takes `event` after a wait of `wait`. Returns whether the node has to take up a role, and
    /// how long it waits for the next event if not.
    pub fn take_turn(&mut self, event: Event, wait: Duration) -> (next: (bool, Duration))
        requires
            old(self)@.wf(),
            old(self)@.accepts_event(event@),
            event is Timeout && old(self)@.role == RaftState::Candidate ==> extendable(wait),
            event is Timeout && old(self)@.role == RaftState::Leader ==> old(self)@.open,
        ensures
            final(self)@.wf(),
            old(self)@.taking_turn(event@, final(self)@, next.0),
            if event is Timeout && old(self)@.role == RaftState::Candidate {
                longer_by_jitter(next.1, wait)
            } else {
                next.1 == wait
            },
    {
        let ghost before = self@;
        match self.state.state {
            RaftState::Follower => {
                self.follower_event(event);
                assert(before.hearing(event@, before.having_waited(), self@));
                (true, wait)
            },
            RaftState::Candidate => {
                let (leaves, next) = self.candidate_event(event, wait);
                assert(before.hearing(event@, before.having_waited(), self@));
                if !leaves {
                    self.send_request_vote_rpc_to_peers();
                }
                (leaves, next)
            },
            RaftState::Leader => {
                let leaves = self.leader_event(event);
                assert(before.hearing(event@, before.having_waited(), self@));
                (leaves, wait)
            },
        }
    }
}

} // verus!
