//! Following a leader: taking in replicated entries and applying what is committed.

use crate::codec::{AppendEntries, AppendEntriesResponse, Message, MessageView};
use crate::log::{
    agrees_at, gapless, insert_all, lemma_insert_all_len, lemma_merged_len, lemma_plan_bounds,
    merge_plan, merged,
};
use crate::model::{
    apply_target, command_applied, committed_applied, entries_applied, ServerView,
};
use crate::server::{
    Destination, Event, Id, Incoming, LogCommand, LogEntry, NodeId, RaftState, Server, ServerError,
};
use crate::state_machine::{StateMachine, StateMachineError};
use vstd::prelude::*;

verus! {

impl<S: StateMachine> Server<S> {
    /// What a follower does before it waits: it applies what is committed.
    pub fn follower_start(&mut self)
        requires
            old(self)@.wf(),
        ensures
            final(self)@.wf(),
            old(self)@.settling(final(self)@),
    {
        let commit_index = self.state.commit_index;
        let _ = self.apply_latest_commited_logs(commit_index);
    }

    /// What a follower does when it has waited: it handles the message that came in, or stands
    /// for election where none did in time. Either way the node then looks at its role again.
    pub fn follower_event(&mut self, event: Event)
        requires
            old(self)@.wf(),
            old(self)@.accepts_event(event@),
        ensures
            final(self)@.wf(),
            old(self)@.hearing(
                event@,
                ServerView { role: RaftState::Candidate, ..old(self)@ },
                final(self)@,
            ),
    {
        match event {
            Event::Message(incoming) => {
                let _ = self.recieve_rpc(incoming);
            },
            Event::ChannelClosed => {},
            Event::Timeout => {
                self.state.state = RaftState::Candidate;
            },
        }
    }

    /// Handles a replication request.
    pub fn handle_append_entries(&mut self, incoming: Incoming) -> (result: Result<
        (),
        ServerError,
    >)
        requires
            old(self)@.wf(),
            incoming.msg@ matches MessageView::AppendEntries(msg) ==> old(self)@.accepts_entries(
                incoming.from,
                msg,
            ),
        ensures
            final(self)@.wf(),
            match incoming.msg@ {
                MessageView::AppendEntries(msg) => old(self)@.following(
                    incoming.from,
                    msg,
                    final(self)@,
                    result,
                ),
                _ => final(self)@ == old(self)@ && result == Err::<(), ServerError>(
                    ServerError::UnexpectedMessage,
                ),
            },
    {
        let msg = match incoming.msg {
            Message::AppendEntriesType(msg) => msg,
            _ => {
                return Err(ServerError::UnexpectedMessage);
            },
        };
        let leader = match incoming.from {
            Id::Peer(node_id) => node_id,
            Id::Client(_) => {
                return Ok(());
            },
        };
        if msg.term < self.state.current_term {
            return self.reply_to_append_entries(leader, false);
        }
        if !self.prev_log_matches(&msg) {
            return self.reply_to_append_entries(leader, false);
        }
        let prev_state = self.state.state;
        self.change_state_if_higher_term(&msg);
        if prev_state != self.state.state {
            return Ok(());
        }
        let ghost adopted = self@;
        if msg.entries.len() == 0 {
            let outcome = self.apply_latest_commited_logs(msg.leader_commit);
            assert(committed_applied(
                adopted.log,
                adopted.last_applied as int,
                adopted.due(msg@),
                adopted.state_machine,
                self@.last_applied as int,
                self@.state_machine,
                outcome,
            ));
            return Ok(());
        }
        let due = self.due_with_entries(&msg);
        let _ = self.apply_up_to(due);
        let ghost applied = self@;
        self.delete_conflicting_and_append_new_entries(&msg);
        proof {
            lemma_merged_len(applied.log, msg.entries@);
        }
        if msg.leader_commit > self.state.commit_index {
            let last_new_entry_index = msg.entries[msg.entries.len() - 1].index as i32;
            self.state.commit_index = if msg.leader_commit < last_new_entry_index {
                msg.leader_commit
            } else {
                last_new_entry_index
            };
        }
        assert(self@ == applied.extended(msg@));
        self.reply_to_append_entries(leader, true)
    }

    /// Up to which position the log is to be applied before the entries of `msg` are taken in.
    fn due_with_entries(&self, msg: &AppendEntries) -> (due: i32)
        requires
            self@.wf(),
            msg.entries@.len() > 0,
        ensures
            due == self@.due(msg@),
            due < i32::MAX,
    {
        let commit_index = self.state.commit_index;
        if msg.leader_commit <= commit_index {
            return commit_index;
        }
        let kept = kept_by_merge(&self.log, &msg.entries);
        let last_new_entry_index = msg.entries[msg.entries.len() - 1].index;
        let mut due = kept as i32 - 1;
        if msg.leader_commit < due {
            due = msg.leader_commit;
        }
        if (last_new_entry_index as i64) < due as i64 {
            due = last_new_entry_index as i32;
        }
        if due < commit_index {
            commit_index
        } else {
            due
        }
    }

    /// Answers the replication request of the node `leader`.
    fn reply_to_append_entries(&mut self, leader: NodeId, success: bool) -> (result: Result<
        (),
        ServerError,
    >)
        ensures
            (final(self)@, result) == old(self)@.sending(
                old(self)@.replication_answer(leader, success),
            ),
    {
        let msg = Message::AppendEntriesResponseType(
            AppendEntriesResponse { term: self.state.current_term, success },
        );
        self.send(Destination::Node(leader), msg)
    }

    /// Whether the log agrees with a replication request where the request starts. An empty log
    /// agrees with every one.
    pub(crate) fn prev_log_matches(&self, msg: &AppendEntries) -> (matches: bool)
        ensures
            matches == agrees_at(self.log@, msg.prev_log_index, msg.prev_log_term),
    {
        if self.log.len() == 0 {
            return true;
        }
        if msg.prev_log_index < 0 || msg.prev_log_index as usize >= self.log.len() {
            return false;
        }
        self.log[msg.prev_log_index as usize].term == msg.prev_log_term
    }

    /// Takes over a higher term and becomes a follower in it.
    fn change_state_if_higher_term(&mut self, msg: &AppendEntries)
        ensures
            final(self)@ == old(self)@.adopting_term(msg.term),
    {
        if msg.term > self.state.current_term {
            self.state.current_term = msg.term;
            self.state.state = RaftState::Follower;
        }
    }

    /// Merges the entries of a replication request into the log.
    pub fn delete_conflicting_and_append_new_entries(&mut self, msg: &AppendEntries)
        requires
            gapless(old(self)@.log, msg.entries@),
        ensures
            final(self)@ == (ServerView {
                log: merged(old(self)@.log, msg.entries@),
                ..old(self)@
            }),
    {
        let ghost log = self.log@;
        let ghost plan = merge_plan(log, msg.entries@);
        let mut new_entries: Vec<LogEntry> = Vec::new();
        let mut i: usize = 0;
        while i < msg.entries.len()
            invariant
                i <= msg.entries.len(),
                log == old(self)@.log,
                self@ == (ServerView { log: self@.log, ..old(self)@ }),
                ({
                    let so_far = merge_plan(log, msg.entries@.take(i as int));
                    &&& 0 <= so_far.kept <= log.len()
                    &&& self.log@ == log.take(so_far.kept)
                    &&& new_entries@ == so_far.missing
                }),
            decreases msg.entries.len() - i,
        {
            let entry = &msg.entries[i];
            proof {
                let next = msg.entries@.take(i + 1);
                assert(next.drop_last() =~= msg.entries@.take(i as int));
                assert(next.last() == *entry);
                lemma_plan_bounds(log, next);
            }
            let index = entry.index as usize;
            if index < self.log.len() {
                if self.log[index].term != entry.term {
                    self.log.truncate(index);
                    new_entries.push(entry.clone());
                    assert(self.log@ =~= log.take(index as int));
                }
            } else {
                new_entries.push(entry.clone());
            }
            i = i + 1;
        }
        assert(msg.entries@.take(msg.entries.len() as int) =~= msg.entries@);
        let ghost base = self.log@;
        let mut k: usize = 0;
        while k < new_entries.len()
            invariant
                k <= new_entries.len(),
                self@ == (ServerView { log: self@.log, ..old(self)@ }),
                self.log@ == insert_all(base, new_entries@.take(k as int)),
                forall|j: int|
                    0 <= j < new_entries@.len() ==> (#[trigger] new_entries@[j]).index
                        <= base.len() + j,
            decreases new_entries.len() - k,
        {
            proof {
                let done = new_entries@.take(k as int);
                assert(new_entries@.take(k + 1).drop_last() =~= done);
                lemma_insert_all_len(base, done);
            }
            let entry = &new_entries[k];
            self.log.insert(entry.index as usize, entry.clone());
            k = k + 1;
        }
        assert(new_entries@.take(new_entries.len() as int) =~= new_entries@);
    }

    /// Takes note that `leader_commit` is committed, and applies what is committed and not
    /// applied yet to the state machine, in the order of the log. Stops at the first command
    /// that the state machine refuses.
    pub fn apply_latest_commited_logs(&mut self, leader_commit: i32) -> (result: Result<
        (),
        StateMachineError,
    >)
        requires
            old(self)@.wf(),
        ensures
            final(self)@.wf(),
            old(self)@.applying(leader_commit, final(self)@, result),
    {
        if leader_commit > self.state.commit_index {
            let last_idx = self.log.len() as i32 - 1;
            if last_idx >= 0 {
                self.state.commit_index = if leader_commit < last_idx {
                    leader_commit
                } else {
                    last_idx
                };
            }
        }
        let commit_index = self.state.commit_index;
        self.apply_up_to(commit_index)
    }

    /// Applies what is not applied yet up to position `commit`, in the order of the log. Stops at
    /// the first command that the state machine refuses.
    pub(crate) fn apply_up_to(&mut self, commit: i32) -> (result: Result<(), StateMachineError>)
        requires
            old(self)@.wf(),
            commit < i32::MAX,
        ensures
            final(self)@.wf(),
            final(self)@ == (ServerView {
                last_applied: final(self)@.last_applied,
                state_machine: final(self)@.state_machine,
                ..old(self)@
            }),
            committed_applied(
                old(self)@.log,
                old(self)@.last_applied as int,
                commit as int,
                old(self)@.state_machine,
                final(self)@.last_applied as int,
                final(self)@.state_machine,
                result,
            ),
    {
        let ghost log = self.log@;
        let ghost from = self.state.last_applied as int;
        let ghost before = self.state.state_machine;
        let ghost target = apply_target(log, from, commit as int);
        assert(entries_applied(log, from, from, before, before));
        while self.state.last_applied < commit
            invariant
                self@.wf(),
                self@ == (ServerView {
                    last_applied: self@.last_applied,
                    state_machine: self@.state_machine,
                    ..old(self)@
                }),
                commit < i32::MAX,
                log == old(self)@.log,
                from == old(self)@.last_applied,
                before == old(self)@.state_machine,
                target == apply_target(log, from, commit as int),
                from <= self.state.last_applied <= target,
                entries_applied(
                    log,
                    from,
                    self.state.last_applied as int,
                    before,
                    self.state.state_machine,
                ),
            ensures
                self.state.last_applied == target,
            decreases target - self.state.last_applied,
        {
            let next = self.state.last_applied + 1;
            if next as usize >= self.log.len() {
                break;
            }
            let ghost between = self.state.state_machine;
            let result = self.apply_command_at(next);
            assert(entries_applied(log, from, next - 1, before, between));
            if result.is_err() {
                return result;
            }
            assert(result->Ok_0 == ());
            assert(result == Ok::<(), StateMachineError>(()));
            self.state.last_applied = next;
            assert(entries_applied(log, from, next as int, before, self.state.state_machine));
        }
        Ok(())
    }

    /// Applies the command at position `n` to the state machine.
    pub(crate) fn apply_command_at(&mut self, n: i32) -> (result: Result<(), StateMachineError>)
        requires
            old(self)@.wf(),
            0 <= n < old(self)@.log.len(),
        ensures
            final(self)@.wf(),
            final(self)@ == (ServerView {
                state_machine: final(self)@.state_machine,
                ..old(self)@
            }),
            command_applied(
                old(self)@.state_machine,
                old(self)@.log[n as int].command,
                final(self)@.state_machine,
                result,
            ),
    {
        match self.log[n as usize].command.clone() {
            LogCommand::Put { key, value } => self.state.state_machine.apply_log(key, value),
            LogCommand::Delete { key } => self.state.state_machine.delete_key(key),
            LogCommand::Get { key: _ } => Ok(()),
        }
    }
}

/// How much of `log` stays in place when `entries` are merged into it.
fn kept_by_merge(log: &Vec<LogEntry>, entries: &Vec<LogEntry>) -> (kept: usize)
    ensures
        kept == merge_plan(log@, entries@).kept,
        kept <= log@.len(),
{
    let mut kept = log.len();
    let mut i: usize = 0;
    while i < entries.len()
        invariant
            i <= entries.len(),
            kept <= log.len(),
            kept == merge_plan(log@, entries@.take(i as int)).kept,
        decreases entries.len() - i,
    {
        proof {
            let next = entries@.take(i + 1);
            assert(next.drop_last() =~= entries@.take(i as int));
            assert(next.last() == entries@[i as int]);
        }
        let index = entries[i].index as usize;
        if index < kept && log[index].term != entries[i].term {
            kept = index;
        }
        i = i + 1;
    }
    assert(entries@.take(i as int) =~= entries@);
    kept
}

} // verus!
