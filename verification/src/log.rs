//! How a follower merges a leader's entries into its own log.
//!
//! The merge has two passes. The first goes over the leader's entries, cuts the log at the first
//! position where it disagrees, and collects the entries that the log lacks. The second inserts
//! what was collected, each entry at its own index.

use crate::server::LogEntry;
use vstd::prelude::*;

verus! {

/// What is left to do after the first pass: keep the first `kept` entries of the log and insert
/// `missing`.
pub struct MergePlan {
    pub kept: int,
    pub missing: Seq<LogEntry>,
}

/// The first pass over `entries` on `log`. An entry whose index the log still reaches is skipped
/// where the terms agree; where they differ the log is cut before it. An entry that the log does
/// not reach, or not any more, is missing.
pub open spec fn merge_plan(log: Seq<LogEntry>, entries: Seq<LogEntry>) -> MergePlan
    decreases entries.len(),
{
    if entries.len() == 0 {
        MergePlan { kept: log.len() as int, missing: Seq::empty() }
    } else {
        let plan = merge_plan(log, entries.drop_last());
        let entry = entries.last();
        if entry.index >= plan.kept {
            MergePlan { missing: plan.missing.push(entry), ..plan }
        } else if log[entry.index as int].term != entry.term {
            MergePlan { kept: entry.index as int, missing: plan.missing.push(entry) }
        } else {
            plan
        }
    }
}

/// `log` with each of `entries` inserted at its own index, in order.
pub open spec fn insert_all(log: Seq<LogEntry>, entries: Seq<LogEntry>) -> Seq<LogEntry>
    decreases entries.len(),
{
    if entries.len() == 0 {
        log
    } else {
        insert_all(log, entries.drop_last()).insert(entries.last().index as int, entries.last())
    }
}

/// The follower's log after both passes.
pub open spec fn merged(log: Seq<LogEntry>, entries: Seq<LogEntry>) -> Seq<LogEntry> {
    let plan = merge_plan(log, entries);
    insert_all(log.take(plan.kept), plan.missing)
}

/// No insertion of the second pass falls behind the end of the log.
pub open spec fn gapless(log: Seq<LogEntry>, entries: Seq<LogEntry>) -> bool {
    let plan = merge_plan(log, entries);
    forall|i: int|
        0 <= i < plan.missing.len() ==> (#[trigger] plan.missing[i]).index <= plan.kept + i
}

/// The entries can be merged without a gap, and the log stays short enough for its positions to
/// be counted in an `i32`.
pub open spec fn mergeable(log: Seq<LogEntry>, entries: Seq<LogEntry>) -> bool {
    let plan = merge_plan(log, entries);
    plan.kept + plan.missing.len() <= i32::MAX && gapless(log, entries)
}

/// The log agrees with a leader on the entry at `index`: either the log is empty, or it has an
/// entry there and the entry's term is `term`.
pub open spec fn agrees_at(log: Seq<LogEntry>, index: i32, term: u32) -> bool {
    log.len() == 0 || (0 <= index < log.len() && log[index as int].term == term)
}

/// The first pass never keeps more than there is.
pub proof fn lemma_plan_bounds(log: Seq<LogEntry>, entries: Seq<LogEntry>)
    ensures
        0 <= merge_plan(log, entries).kept <= log.len(),
        merge_plan(log, entries).missing.len() <= entries.len(),
    decreases entries.len(),
{
    if entries.len() > 0 {
        lemma_plan_bounds(log, entries.drop_last());
    }
}

/// Each insertion adds one entry.
pub proof fn lemma_insert_all_len(log: Seq<LogEntry>, entries: Seq<LogEntry>)
    requires
        forall|i: int| 0 <= i < entries.len() ==> (#[trigger] entries[i]).index <= log.len() + i,
    ensures
        insert_all(log, entries).len() == log.len() + entries.len(),
    decreases entries.len(),
{
    if entries.len() > 0 {
        let front = entries.drop_last();
        assert forall|i: int| 0 <= i < front.len() implies (#[trigger] front[i]).index <= log.len()
            + i by {
            assert(front[i] == entries[i]);
        }
        lemma_insert_all_len(log, front);
        assert(entries[entries.len() - 1].index <= log.len() + entries.len() - 1);
    }
}

/// The length of the merged log, and that it reaches the last of the leader's entries.
pub proof fn lemma_merged_len(log: Seq<LogEntry>, entries: Seq<LogEntry>)
    requires
        gapless(log, entries),
    ensures
        merged(log, entries).len() == merge_plan(log, entries).kept + merge_plan(
            log,
            entries,
        ).missing.len(),
        entries.len() > 0 ==> entries.last().index < merged(log, entries).len(),
{
    let plan = merge_plan(log, entries);
    lemma_plan_bounds(log, entries);
    lemma_insert_all_len(log.take(plan.kept), plan.missing);
    if entries.len() > 0 {
        lemma_plan_bounds(log, entries.drop_last());
        if plan.missing.len() > 0 {
            assert(plan.missing[plan.missing.len() - 1].index <= plan.kept + plan.missing.len()
                - 1);
        }
    }
}

/// What the first pass keeps stays as it is.
pub proof fn law_merge_keeps_front(log: Seq<LogEntry>, entries: Seq<LogEntry>)
    requires
        gapless(log, entries),
    ensures
        ({
            let kept = merge_plan(log, entries).kept;
            &&& 0 <= kept <= log.len()
            &&& kept <= merged(log, entries).len()
            &&& merged(log, entries).take(kept) == log.take(kept)
        }),
{
    let plan = merge_plan(log, entries);
    lemma_plan_bounds(log, entries);
    lemma_missing_beyond_kept(log, entries);
    lemma_insertion_keeps_front(log.take(plan.kept), plan.missing);
}

/// The log is cut nowhere but before an entry of another term than the leader's entry of the same
/// index, and it is cut before the first such entry: below the cut no entry of the leader's has
/// another term.
pub proof fn law_log_is_cut_at_first_conflict(log: Seq<LogEntry>, entries: Seq<LogEntry>)
    ensures
        ({
            let kept = merge_plan(log, entries).kept;
            &&& 0 <= kept <= log.len()
            &&& kept < log.len() ==> exists|i: int|
                0 <= i < entries.len() && (#[trigger] entries[i]).index == kept && entries[i].term
                    != log[kept].term
            &&& forall|i: int|
                0 <= i < entries.len() && (#[trigger] entries[i]).index < kept ==> entries[i].term
                    == log[entries[i].index as int].term
        }),
    decreases entries.len(),
{
    lemma_plan_bounds(log, entries);
    if entries.len() > 0 {
        let front = entries.drop_last();
        let last = entries.len() - 1;
        let earlier = merge_plan(log, front).kept;
        let kept = merge_plan(log, entries).kept;
        law_log_is_cut_at_first_conflict(log, front);
        assert(entries[last] == entries.last());
        if kept < log.len() && kept == earlier {
            let i = choose|i: int|
                0 <= i < front.len() && (#[trigger] front[i]).index == earlier && front[i].term
                    != log[earlier].term;
            assert(entries[i] == front[i]);
        }
        assert forall|i: int|
            0 <= i < entries.len() && (#[trigger] entries[i]).index < kept implies entries[i].term
            == log[entries[i].index as int].term by {
            if i < last {
                assert(entries[i] == front[i]);
            }
        }
    }
}

/// No entry of the leader's is lost: each is in the log after the merge, unless the log had one
/// of the same term at its index.
pub proof fn law_no_entry_is_lost(log: Seq<LogEntry>, entries: Seq<LogEntry>, i: int)
    requires
        gapless(log, entries),
        0 <= i < entries.len(),
    ensures
        merged(log, entries).contains(entries[i]) || (entries[i].index < log.len()
            && log[entries[i].index as int].term == entries[i].term),
{
    let plan = merge_plan(log, entries);
    lemma_plan_bounds(log, entries);
    lemma_missing_or_present(log, entries, i);
    if plan.missing.contains(entries[i]) {
        let k = choose|k: int| 0 <= k < plan.missing.len() && plan.missing[k] == entries[i];
        lemma_inserted_is_contained(log.take(plan.kept), plan.missing, k);
    }
}

/// The first pass skips an entry only if the log has one of the same term at its index.
proof fn lemma_missing_or_present(log: Seq<LogEntry>, entries: Seq<LogEntry>, i: int)
    requires
        0 <= i < entries.len(),
    ensures
        merge_plan(log, entries).missing.contains(entries[i]) || (entries[i].index < log.len()
            && log[entries[i].index as int].term == entries[i].term),
    decreases entries.len(),
{
    let front = entries.drop_last();
    let plan = merge_plan(log, entries);
    let earlier = merge_plan(log, front);
    lemma_plan_bounds(log, front);
    if i < front.len() {
        lemma_missing_or_present(log, front, i);
        if earlier.missing.contains(front[i]) {
            let k = choose|k: int| 0 <= k < earlier.missing.len() && earlier.missing[k] == front[i];
            assert(plan.missing[k] == entries[i]);
        }
    } else {
        assert(entries[i] == entries.last());
        if plan.missing.len() > earlier.missing.len() {
            assert(plan.missing[plan.missing.len() - 1] == entries[i]);
        }
    }
}

/// What is inserted is there afterwards.
proof fn lemma_inserted_is_contained(log: Seq<LogEntry>, entries: Seq<LogEntry>, k: int)
    requires
        forall|i: int| 0 <= i < entries.len() ==> (#[trigger] entries[i]).index <= log.len() + i,
        0 <= k < entries.len(),
    ensures
        insert_all(log, entries).contains(entries[k]),
    decreases entries.len(),
{
    let front = entries.drop_last();
    assert forall|i: int| 0 <= i < front.len() implies (#[trigger] front[i]).index <= log.len()
        + i by {
        assert(front[i] == entries[i]);
    }
    lemma_insert_all_len(log, front);
    let so_far = insert_all(log, front);
    let at = entries.last().index as int;
    assert(entries[entries.len() - 1] == entries.last());
    let after = so_far.insert(at, entries.last());
    if k < front.len() {
        lemma_inserted_is_contained(log, front, k);
        let m = choose|m: int| 0 <= m < so_far.len() && so_far[m] == front[k];
        if m < at {
            assert(after[m] == entries[k]);
        } else {
            assert(after[m + 1] == entries[k]);
        }
    } else {
        assert(after[at] == entries[k]);
    }
}

/// What the first pass finds missing belongs behind what it keeps.
proof fn lemma_missing_beyond_kept(log: Seq<LogEntry>, entries: Seq<LogEntry>)
    ensures
        ({
            let plan = merge_plan(log, entries);
            forall|i: int|
                0 <= i < plan.missing.len() ==> plan.kept <= (#[trigger] plan.missing[i]).index
        }),
    decreases entries.len(),
{
    if entries.len() > 0 {
        lemma_missing_beyond_kept(log, entries.drop_last());
    }
}

/// Insertions behind the end of `log`, without a gap, leave `log` at the front.
proof fn lemma_insertion_keeps_front(log: Seq<LogEntry>, entries: Seq<LogEntry>)
    requires
        forall|i: int|
            0 <= i < entries.len() ==> log.len() <= (#[trigger] entries[i]).index <= log.len() + i,
    ensures
        insert_all(log, entries).len() == log.len() + entries.len(),
        insert_all(log, entries).take(log.len() as int) == log,
    decreases entries.len(),
{
    if entries.len() > 0 {
        let front = entries.drop_last();
        assert forall|i: int| 0 <= i < front.len() implies log.len() <= (#[trigger] front[i]).index
            <= log.len() + i by {
            assert(front[i] == entries[i]);
        }
        lemma_insertion_keeps_front(log, front);
        assert(entries[entries.len() - 1] == entries.last());
        let so_far = insert_all(log, front);
        assert forall|i: int| 0 <= i < log.len() implies insert_all(log, entries)[i]
            == log[i] by {
            assert(so_far.take(log.len() as int)[i] == so_far[i]);
        }
    }
    assert(insert_all(log, entries).take(log.len() as int) =~= log);
}

////////////////////////////////////////////////////////////////////////////////////////////////
// Entries that follow each other
////////////////////////////////////////////////////////////////////////////////////////////////

/// The indices of `entries` count up from `start`.
pub open spec fn consecutive(entries: Seq<LogEntry>, start: int) -> bool {
    forall|i: int| 0 <= i < entries.len() ==> (#[trigger] entries[i]).index == start + i
}

/// Each entry of the log carries its own position.
pub open spec fn aligned(log: Seq<LogEntry>) -> bool {
    consecutive(log, 0)
}

/// The log has an entry of the same term wherever one of the first `count` of `entries` belongs,
/// the first of them at position `start`.
pub open spec fn agrees_on(
    log: Seq<LogEntry>,
    entries: Seq<LogEntry>,
    start: int,
    count: int,
) -> bool {
    &&& 0 <= count <= entries.len()
    &&& start + count <= log.len()
    &&& forall|i: int|
        0 <= i < count ==> (#[trigger] entries[i]).term == log[start + i].term
}

/// The log stops agreeing after exactly `count` of `entries`: at the next one it ends, or has an
/// entry of another term.
pub open spec fn diverges_after(
    log: Seq<LogEntry>,
    entries: Seq<LogEntry>,
    start: int,
    count: int,
) -> bool {
    &&& agrees_on(log, entries, start, count)
    &&& count < entries.len()
    &&& start + count < log.len() ==> log[start + count].term != entries[count].term
}

/// A leader's entries that the log already has change nothing.
pub proof fn law_present_entries_change_nothing(
    log: Seq<LogEntry>,
    entries: Seq<LogEntry>,
    start: int,
)
    requires
        0 <= start,
        consecutive(entries, start),
        agrees_on(log, entries, start, entries.len() as int),
    ensures
        merged(log, entries) == log,
        gapless(log, entries),
        log.len() <= i32::MAX ==> mergeable(log, entries),
{
    lemma_agreeing_plan(log, entries, start);
    assert(log.take(log.len() as int) =~= log);
}

/// The first pass finds nothing to do where the log agrees on everything.
proof fn lemma_agreeing_plan(log: Seq<LogEntry>, entries: Seq<LogEntry>, start: int)
    requires
        0 <= start,
        consecutive(entries, start),
        agrees_on(log, entries, start, entries.len() as int),
    ensures
        merge_plan(log, entries) == (MergePlan {
            kept: log.len() as int,
            missing: Seq::<LogEntry>::empty(),
        }),
    decreases entries.len(),
{
    if entries.len() > 0 {
        let front = entries.drop_last();
        assert forall|i: int| 0 <= i < front.len() implies (#[trigger] front[i]).index == start + i
            && front[i].term == log[start + i].term by {
            assert(front[i] == entries[i]);
        }
        lemma_agreeing_plan(log, front, start);
        assert(entries.last() == entries[entries.len() - 1]);
    }
}

/// Where the log diverges from a leader's entries, everything from there on is dropped and
/// replaced by the leader's entries from there on. Everything before stays.
pub proof fn law_divergent_suffix_is_replaced(
    log: Seq<LogEntry>,
    entries: Seq<LogEntry>,
    start: int,
    count: int,
)
    requires
        0 <= start,
        consecutive(entries, start),
        diverges_after(log, entries, start, count),
    ensures
        merged(log, entries) == log.take(start + count) + entries.skip(count),
        gapless(log, entries),
        start + entries.len() <= i32::MAX ==> mergeable(log, entries),
{
    lemma_diverging_plan(log, entries, start, count);
    let kept = log.take(start + count);
    let missing = entries.skip(count);
    assert forall|i: int| 0 <= i < missing.len() implies (#[trigger] missing[i]).index
        == kept.len() + i by {
        assert(missing[i] == entries[count + i]);
    }
    lemma_insert_all_appends(kept, missing);
}

/// The first pass keeps what agrees, and finds everything else missing.
proof fn lemma_diverging_plan(
    log: Seq<LogEntry>,
    entries: Seq<LogEntry>,
    start: int,
    count: int,
)
    requires
        0 <= start,
        consecutive(entries, start),
        diverges_after(log, entries, start, count),
    ensures
        merge_plan(log, entries).kept == start + count,
        merge_plan(log, entries).missing == entries.skip(count),
    decreases entries.len(),
{
    let front = entries.drop_last();
    let last = entries.last();
    assert(last == entries[entries.len() - 1]);
    assert forall|i: int| 0 <= i < front.len() implies (#[trigger] front[i]).index == start + i by {
        assert(front[i] == entries[i]);
    }
    assert forall|i: int| 0 <= i < count implies (#[trigger] front[i]).term
        == log[start + i].term by {
        assert(front[i] == entries[i]);
    }
    if count < front.len() {
        lemma_diverging_plan(log, front, start, count);
        assert(entries.skip(count) =~= front.skip(count).push(last));
    } else {
        lemma_agreeing_plan(log, front, start);
        assert(entries.skip(count) =~= Seq::<LogEntry>::empty().push(last));
    }
}

/// Entries whose indices continue the log are appended.
proof fn lemma_insert_all_appends(log: Seq<LogEntry>, entries: Seq<LogEntry>)
    requires
        consecutive(entries, log.len() as int),
    ensures
        insert_all(log, entries) == log + entries,
    decreases entries.len(),
{
    if entries.len() > 0 {
        let front = entries.drop_last();
        assert forall|i: int| 0 <= i < front.len() implies (#[trigger] front[i]).index
            == log.len() + i by {
            assert(front[i] == entries[i]);
        }
        lemma_insert_all_appends(log, front);
        assert(entries.last() == entries[entries.len() - 1]);
        assert((log + front).insert((log + front).len() as int, entries.last()) =~= log + entries);
    } else {
        assert(log + entries =~= log);
    }
}

/// A log either agrees on all of a leader's entries or diverges after some of them.
pub proof fn lemma_agrees_or_diverges(
    log: Seq<LogEntry>,
    entries: Seq<LogEntry>,
    start: int,
) -> (count: int)
    requires
        0 <= start <= log.len(),
    ensures
        agrees_on(log, entries, start, count),
        count == entries.len() || diverges_after(log, entries, start, count),
    decreases entries.len(),
{
    if entries.len() == 0 {
        0
    } else {
        let front = entries.drop_last();
        let count = lemma_agrees_or_diverges(log, front, start);
        assert forall|i: int| 0 <= i < count implies (#[trigger] entries[i]).term
            == log[start + i].term by {
            assert(front[i] == entries[i]);
        }
        if count < front.len() {
            assert(front[count] == entries[count]);
            count
        } else if start + count < log.len() && log[start + count].term == entries[count].term {
            count + 1
        } else {
            count
        }
    }
}

/// After a merge the follower agrees with the leader: wherever one of the leader's entries
/// belongs, the log has an entry of the same term; and what stands before the first of them is as
/// it was.
pub proof fn law_merged_log_agrees_with_leader(
    log: Seq<LogEntry>,
    entries: Seq<LogEntry>,
    start: int,
)
    requires
        0 <= start <= log.len(),
        consecutive(entries, start),
    ensures
        agrees_on(merged(log, entries), entries, start, entries.len() as int),
        merged(log, entries).take(start) == log.take(start),
{
    let count = lemma_agrees_or_diverges(log, entries, start);
    if count == entries.len() {
        law_present_entries_change_nothing(log, entries, start);
    } else {
        law_divergent_suffix_is_replaced(log, entries, start, count);
        let result = merged(log, entries);
        assert forall|i: int| 0 <= i < entries.len() implies (#[trigger] entries[i]).term
            == result[start + i].term by {
            if i < count {
                assert(result[start + i] == log[start + i]);
            } else {
                assert(result[start + i] == entries.skip(count)[i - count]);
            }
        }
    }
    assert(merged(log, entries).take(start) =~= log.take(start));
}

/// Entries that follow each other and do not begin beyond the end of the log leave no gap, and
/// can be merged as long as the log stays short enough.
pub proof fn law_gapless_entries_are_mergeable(
    log: Seq<LogEntry>,
    entries: Seq<LogEntry>,
    start: int,
)
    requires
        0 <= start <= log.len(),
        consecutive(entries, start),
    ensures
        gapless(log, entries),
        log.len() <= i32::MAX && start + entries.len() <= i32::MAX ==> mergeable(log, entries),
{
    let count = lemma_agrees_or_diverges(log, entries, start);
    if count == entries.len() {
        law_present_entries_change_nothing(log, entries, start);
    } else {
        law_divergent_suffix_is_replaced(log, entries, start, count);
    }
}

/// To merge the same entries again changes nothing, and can be done wherever they could be merged
/// the first time.
pub proof fn law_merge_is_idempotent(log: Seq<LogEntry>, entries: Seq<LogEntry>, start: int)
    requires
        0 <= start <= log.len(),
        consecutive(entries, start),
    ensures
        gapless(log, entries),
        merged(merged(log, entries), entries) == merged(log, entries),
        gapless(merged(log, entries), entries),
        mergeable(log, entries) ==> mergeable(merged(log, entries), entries),
{
    law_gapless_entries_are_mergeable(log, entries, start);
    law_merged_log_agrees_with_leader(log, entries, start);
    law_present_entries_change_nothing(merged(log, entries), entries, start);
    lemma_merged_len(log, entries);
}

/// A merge keeps each entry at the position that it carries.
pub proof fn law_merge_keeps_alignment(log: Seq<LogEntry>, entries: Seq<LogEntry>, start: int)
    requires
        0 <= start <= log.len(),
        consecutive(entries, start),
        aligned(log),
    ensures
        aligned(merged(log, entries)),
{
    let count = lemma_agrees_or_diverges(log, entries, start);
    if count == entries.len() {
        law_present_entries_change_nothing(log, entries, start);
    } else {
        law_divergent_suffix_is_replaced(log, entries, start, count);
        let result = merged(log, entries);
        assert forall|i: int| 0 <= i < result.len() implies (#[trigger] result[i]).index == i by {
            if i < start + count {
                assert(result[i] == log[i]);
            } else {
                assert(result[i] == entries[i - start]);
            }
        }
    }
}

} // verus!
