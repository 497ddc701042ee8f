//! What is left of the segments of a log when it is opened.
//!
//! If the program ends after a compacted segment has taken its place and before the
//! closed segments are deleted, the next opening goes by what the segments hold. A
//! task is created before anything else happens to it. So where a segment creates a
//! task that segment 1 knows already, and segment 1 is what a compaction makes of
//! the segments so far, segment 1 was written later and stands for that segment and
//! for all before it. The last segment is never deleted. A closed segment that
//! shows nothing of the kind may stay: replaying it after segment 1 gives the same
//! tasks.

use super::compaction::{compact_first, compacted, compacted_segment, creates, law_compacted_segment_reads_back, mentioned, segment_views};
use super::compaction::{lemma_compacted_again, lemma_compacted_log_is_orderly, lemma_kept, lemma_kept_alike};
use super::record::OpType;
use super::segment::{entries_of, frames, log_of, placed, scan_segment, EntryView, LogEntry, Segment, SegmentView};
use super::segment::{lemma_entry_in_log, lemma_entry_in_segment, lemma_log_of_more};
use super::task::{alike, last_entry, lemma_alike_goes_on, lemma_append, lemma_last_entry, live_in, orderly, starts_once};
use super::wal::Wal;
use std::collections::HashSet;
use vstd::prelude::*;

verus! {

/// What is to be done to the segments of a log when it is opened.
#[derive(Debug)]
pub struct OpenPlan {
    /// The segments that a compaction has superseded, and that are to be deleted.
    pub obsolete: Vec<u64>,
    /// The segment that records are appended to.
    pub active_segment_id: u64,
}

/// Where the last of some segments behind the first stands that creates one of some
/// tasks, or zero.
pub open spec fn last_creating(segments: Seq<SegmentView>, known: Set<u64>) -> int
    decreases segments.len(),
{
    if segments.len() <= 1 {
        0
    } else if creates(entries_of(segments.last()), known) {
        segments.len() - 1
    } else {
        last_creating(segments.drop_last(), known)
    }
}

/// Whether the ids of some segments ascend, from one on.
pub open spec fn numbered(segments: Seq<SegmentView>) -> bool {
    &&& segments.len() > 0
    &&& segments[0].id == 1
    &&& forall|i: int, j: int|
        #![trigger segments[i], segments[j]]
        0 <= i < j < segments.len() ==> segments[i].id < segments[j].id
}

/// Whether the first of some segments is what a compaction makes of the first `k`.
pub open spec fn stands_for(segments: Seq<SegmentView>, k: int) -> bool {
    frames(compacted(log_of(segments.take(k)))) == segments[0].bytes
}

/// How many segments behind the first are superseded by it. They go as far as the
/// last one that creates a task that the first knows, if the first is what a
/// compaction makes of these and perhaps of some more. The last segment was never
/// part of a compaction.
pub open spec fn superseded_count(found: Seq<SegmentView>) -> int {
    let last = last_creating(found, mentioned(entries_of(found[0])));
    if numbered(found) && exists|k: int| last < k < found.len() && #[trigger] stands_for(found, k) {
        last
    } else {
        0
    }
}

/// The segments that the first one supersedes.
pub open spec fn superseded(found: Seq<SegmentView>) -> Seq<SegmentView> {
    let count = superseded_count(found);
    if count == 0 {
        Seq::empty()
    } else {
        found.subrange(1, count + 1)
    }
}

/// The segments that are left when those that are superseded have been deleted.
pub open spec fn remaining(found: Seq<SegmentView>) -> Seq<SegmentView> {
    let count = superseded_count(found);
    if count == 0 {
        found
    } else {
        found.take(1) + found.skip(count + 1)
    }
}

/// The ids of some segments.
pub open spec fn ids_of(segments: Seq<SegmentView>) -> Seq<u64> {
    segments.map_values(|s: SegmentView| s.id)
}

/// The highest of some ids, or zero.
pub open spec fn highest(ids: Seq<u64>) -> u64
    decreases ids.len(),
{
    if ids.len() == 0 {
        0
    } else if ids.last() > highest(ids.drop_last()) {
        ids.last()
    } else {
        highest(ids.drop_last())
    }
}

/// The segment that records are appended to: the one with the highest id, or the
/// first if there is none.
pub open spec fn active_among(segments: Seq<SegmentView>) -> u64 {
    let top = highest(ids_of(segments));
    if top == 0 {
        1
    } else {
        top
    }
}

impl Wal {
    /// Decides which of the segments that are found when a log is opened are left,
    /// and where the log goes on.
    pub fn plan_open(segments: &Vec<Segment>) -> (plan: OpenPlan)
        ensures
            plan.obsolete@ == ids_of(superseded(segment_views(segments@))),
            plan.active_segment_id == active_among(segment_views(segments@)),
    {
        let ghost found = segment_views(segments@);
        let count = count_superseded(segments);
        let mut obsolete: Vec<u64> = Vec::new();
        let mut i: usize = 0;
        proof {
            lemma_superseded_count(found);
            assert(obsolete@ =~= ids_of(found.subrange(0, 0)));
        }
        while i < count
            invariant
                i <= count,
                count == superseded_count(found),
                count > 0 ==> count < found.len() - 1,
                found == segment_views(segments@),
                obsolete@ =~= Seq::new(i as nat, |j: int| found[j + 1].id),
            decreases count - i,
        {
            obsolete.push(segments[i + 1].id);
            i = i + 1;
        }
        assert(obsolete@ =~= ids_of(superseded(found)));
        let mut top: u64 = 0;
        let mut k: usize = 0;
        assert(ids_of(found.take(0)) =~= Seq::<u64>::empty());
        while k < segments.len()
            invariant
                k <= segments@.len(),
                found == segment_views(segments@),
                top == highest(ids_of(found.take(k as int))),
            decreases segments@.len() - k,
        {
            let id: u64 = segments[k].id;
            proof {
                let ids = ids_of(found.take(k + 1));
                assert(ids.drop_last() =~= ids_of(found.take(k as int)));
                assert(ids.last() == id);
            }
            if id > top {
                top = id;
            }
            k = k + 1;
        }
        assert(found.take(k as int) =~= found);
        let active_segment_id: u64 = if top == 0 {
            1
        } else {
            top
        };
        OpenPlan { obsolete, active_segment_id }
    }
}

/// Whether two byte strings are the same.
fn same_bytes(a: &Vec<u8>, b: &Vec<u8>) -> (same: bool)
    ensures
        same == (a@ == b@),
{
    if a.len() != b.len() {
        return false;
    }
    let mut i: usize = 0;
    while i < a.len()
        invariant
            i <= a@.len(),
            a@.len() == b@.len(),
            forall|j: int| 0 <= j < i ==> a@[j] == b@[j],
        decreases a@.len() - i,
    {
        if a[i] != b[i] {
            return false;
        }
        i = i + 1;
    }
    assert(a@ =~= b@);
    true
}

/// The tasks that a segment says something of.
fn mentioned_ids(segment: &Segment) -> (known: HashSet<u64>)
    ensures
        known@ == mentioned(entries_of(segment@)),
{
    let mut known: HashSet<u64> = HashSet::new();
    let entries = scan_segment(segment.id, segment.bytes.as_slice());
    let ghost log = entries_of(segment@);
    let mut i: usize = 0;
    assert(known@ =~= mentioned(log.take(0)));
    while i < entries.len()
        invariant
            i <= entries@.len(),
            entries@.map_values(|e: LogEntry| e@) == log,
            known@ == mentioned(log.take(i as int)),
        decreases entries@.len() - i,
    {
        let id: u64 = entries[i].record.id();
        known.insert(id);
        proof {
            let now = log.take(i + 1);
            assert(log[i as int] == entries@[i as int]@);
            assert(now =~= log.take(i as int).push(log[i as int]));
            assert forall|k: u64| #[trigger] mentioned(now).contains(k) <==> mentioned(
                log.take(i as int),
            ).contains(k) || k == id by {
                lemma_append(log.take(i as int), log[i as int], k);
            }
            assert(known@ =~= mentioned(now));
        }
        i = i + 1;
    }
    assert(log.take(i as int) =~= log);
    known
}

/// Whether a segment creates one of some tasks.
fn creates_known(segment: &Segment, known: &HashSet<u64>) -> (found: bool)
    ensures
        found == creates(entries_of(segment@), known@),
{
    let entries = scan_segment(segment.id, segment.bytes.as_slice());
    let ghost log = entries_of(segment@);
    let mut i: usize = 0;
    while i < entries.len()
        invariant
            i <= entries@.len(),
            log == entries_of(segment@),
            entries@.map_values(|e: LogEntry| e@) == log,
            forall|k: int|
                0 <= k < i ==> !((#[trigger] log[k]).record.op_type == OpType::Created
                    && known@.contains(log[k].record.id)),
        decreases entries@.len() - i,
    {
        assert(log[i as int] == entries@[i as int]@);
        if entries[i].record.op_type() == OpType::Created && known.contains(&entries[i].record.id()) {
            return true;
        }
        i = i + 1;
    }
    false
}

/// Where the last of some segments behind the first stands that creates a task that
/// the first knows, or zero.
fn find_last_creating(segments: &Vec<Segment>) -> (last: usize)
    requires
        segments@.len() > 0,
    ensures
        ({
            let found = segment_views(segments@);
            last == last_creating(found, mentioned(entries_of(found[0])))
        }),
{
    let ghost found = segment_views(segments@);
    let known = mentioned_ids(&segments[0]);
    let mut n: usize = segments.len();
    assert(found.take(n as int) =~= found);
    while n > 1
        invariant
            1 <= n <= segments@.len(),
            found == segment_views(segments@),
            known@ == mentioned(entries_of(found[0])),
            last_creating(found, known@) == last_creating(found.take(n as int), known@),
        decreases n,
    {
        assert(found.take(n as int).last() == segments@[n - 1]@);
        assert(found.take(n as int).drop_last() =~= found.take(n - 1));
        if creates_known(&segments[n - 1], &known) {
            return n - 1;
        }
        n = n - 1;
    }
    0
}

/// Whether the ids of some segments ascend, from one on.
fn are_numbered(segments: &Vec<Segment>) -> (are: bool)
    ensures
        are == numbered(segment_views(segments@)),
{
    let ghost found = segment_views(segments@);
    if segments.len() == 0 {
        return false;
    }
    if segments[0].id != 1 {
        assert(found[0].id != 1);
        return false;
    }
    let mut i: usize = 1;
    while i < segments.len()
        invariant
            1 <= i <= segments@.len(),
            found == segment_views(segments@),
            forall|a: int, b: int|
                #![trigger found[a], found[b]]
                0 <= a < b < i ==> found[a].id < found[b].id,
        decreases segments@.len() - i,
    {
        if segments[i].id <= segments[i - 1].id {
            assert(!(found[i - 1].id < found[i as int].id));
            return false;
        }
        assert(found[i - 1].id < found[i as int].id);
        i = i + 1;
    }
    true
}

/// How many segments behind the first are superseded by it.
fn count_superseded(segments: &Vec<Segment>) -> (count: usize)
    ensures
        count == superseded_count(segment_views(segments@)),
{
    let ghost found = segment_views(segments@);
    proof {
        lemma_superseded_count(found);
    }
    if !are_numbered(segments) {
        return 0;
    }
    let last = find_last_creating(segments);
    proof {
        lemma_last_creating(found, mentioned(entries_of(found[0])));
    }
    if last == 0 {
        return 0;
    }
    let mut k: usize = last;
    while k < segments.len()
        invariant
            last <= k <= segments@.len(),
            found == segment_views(segments@),
            numbered(found),
            last == last_creating(found, mentioned(entries_of(found[0]))),
            forall|j: int| last < j < k ==> !#[trigger] stands_for(found, j),
        decreases segments@.len() - k,
    {
        if k > last {
            let compaction = compact_first(segments, k);
            assert(found[0].bytes == segments@[0].bytes@);
            if same_bytes(&compaction.bytes, &segments[0].bytes) {
                assert(stands_for(found, k as int));
                return last;
            }
            assert(!stands_for(found, k as int));
        }
        k = k + 1;
    }
    0
}

/// Only segments between the first and the last are superseded.
pub proof fn lemma_superseded_count(found: Seq<SegmentView>)
    ensures
        superseded_count(found) >= 0,
        superseded_count(found) > 0 ==> {
            let count = superseded_count(found);
            &&& count < found.len() - 1
            &&& numbered(found)
            &&& exists|k: int| count < k < found.len() && #[trigger] stands_for(found, k)
        },
{
    lemma_last_creating(found, mentioned(entries_of(found[0])));
}

/// The last of some segments that create one of some tasks.
proof fn lemma_last_creating(segments: Seq<SegmentView>, known: Set<u64>)
    ensures
        0 <= last_creating(segments, known),
        last_creating(segments, known) > 0 ==> {
            let last = last_creating(segments, known);
            &&& last < segments.len()
            &&& creates(entries_of(segments[last]), known)
        },
        forall|k: int|
            last_creating(segments, known) < k < segments.len() ==> !creates(
                entries_of(#[trigger] segments[k]),
                known,
            ),
    decreases segments.len(),
{
    if segments.len() > 1 {
        let head = segments.drop_last();
        lemma_last_creating(head, known);
        assert(segments.last() == segments[segments.len() - 1]);
        if !creates(entries_of(segments.last()), known) {
            let last = last_creating(head, known);
            assert(last > 0 ==> head[last] == segments[last]);
            assert forall|k: int| last < k < segments.len() implies !creates(
                entries_of(#[trigger] segments[k]),
                known,
            ) by {
                if k < head.len() {
                    assert(head[k] == segments[k]);
                }
            }
        }
    }
}

/// The opening never deletes the segment with the highest id, and goes on with it.
pub proof fn law_the_highest_segment_stays(found: Seq<SegmentView>)
    requires
        found.len() > 0,
    ensures
        remaining(found).len() > 0,
        remaining(found).last() == found.last(),
        highest(ids_of(remaining(found))) == highest(ids_of(found)),
        active_among(remaining(found)) == active_among(found),
        forall|i: int|
            0 <= i < superseded(found).len() ==> (#[trigger] superseded(found)[i]).id < highest(
                ids_of(found),
            ),
{
    lemma_superseded_count(found);
    let count = superseded_count(found);
    if count > 0 {
        let left = remaining(found);
        let top = found.last().id;
        lemma_numbered_active(found);
        assert(found.last() == found[found.len() - 1]);
        assert forall|i: int, j: int|
            #![trigger left[i], left[j]]
            0 <= i < j < left.len() implies left[i].id < left[j].id by {
            assert(left[j] == found[j + count]);
            if i == 0 {
                assert(left[0] == found[0]);
            } else {
                assert(left[i] == found[i + count]);
            }
        }
        assert(left[0] == found[0]);
        lemma_numbered_active(left);
        assert forall|i: int| 0 <= i < superseded(found).len() implies (
        #[trigger] superseded(found)[i]).id < top by {
            assert(superseded(found)[i] == found[i + 1]);
        }
    }
}

/// What the opening deletes changes nothing of any task, whatever the segments hold:
/// the same tasks are running, with the same state and the same payload.
pub proof fn law_opening_keeps_the_tasks(found: Seq<SegmentView>, id: u64)
    ensures
        alike(log_of(found), log_of(remaining(found)), id),
{
    lemma_superseded_count(found);
    let count = superseded_count(found);
    if count > 0 {
        let k = choose|k: int| count < k < found.len() && #[trigger] stands_for(found, k);
        assert(found[0] == compacted_segment(found.take(k)));
        lemma_middle_says_nothing(found, count, k, id);
    }
}

/// Where the first of some segments is what a compaction makes of the first `k`, some
/// of those behind it may be left out.
proof fn lemma_middle_says_nothing(found: Seq<SegmentView>, count: int, k: int, id: u64)
    requires
        0 < count < k <= found.len(),
        found[0] == compacted_segment(found.take(k)),
    ensures
        alike(log_of(found), log_of(found.take(1) + found.skip(count + 1)), id),
{
    let front = found.take(k);
    let rest = found.skip(k);
    let second = found.subrange(count + 1, k);
    let one = found.take(1);
    let a = log_of(found.take(count + 1));
    let b = log_of(second);
    lemma_log_of_one(found);
    law_compacted_segment_reads_back(front);
    assert(log_of(found) == log_of(front) + log_of(rest)) by {
        assert(front + rest =~= found);
        lemma_log_of_more(front, rest);
    }
    assert(log_of(front) == a + b) by {
        assert(found.take(count + 1) + second =~= front);
        lemma_log_of_more(found.take(count + 1), second);
    }
    assert(log_of(one + found.skip(count + 1)) == log_of(one) + b + log_of(rest)) by {
        assert(one + found.skip(count + 1) =~= one + second + rest);
        lemma_log_of_more(one + second, rest);
        lemma_log_of_more(one, second);
    }
    lemma_kept_alike(a, b, id);
    lemma_alike_goes_on(log_of(front), log_of(one) + b, log_of(rest), id);
}

/// The records of the first segment.
proof fn lemma_log_of_one(segments: Seq<SegmentView>)
    requires
        segments.len() > 0,
    ensures
        log_of(segments.take(1)) == entries_of(segments[0]),
{
    let one = segments.take(1);
    assert(one.drop_last() =~= Seq::<SegmentView>::empty());
    assert(log_of(one.drop_last()) == Seq::<EntryView>::empty());
    assert(one.last() == segments[0]);
    assert(log_of(one) =~= entries_of(segments[0]));
}

/// Where every task is created before anything else is logged of it, nothing is
/// superseded: the opening deletes no segment.
pub proof fn law_ordinary_log_keeps_its_segments(segments: Seq<SegmentView>)
    requires
        starts_once(log_of(segments)),
    ensures
        superseded(segments) == Seq::<SegmentView>::empty(),
        remaining(segments) == segments,
{
    reveal(starts_once);
    let known = mentioned(entries_of(segments[0]));
    lemma_last_creating(segments, known);
    let last = last_creating(segments, known);
    if last > 0 {
        let entries = entries_of(segments[last]);
        let m = choose|m: int|
            0 <= m < entries.len() && (#[trigger] entries[m]).record.op_type == OpType::Created
                && known.contains(entries[m].record.id);
        let id = entries[m].record.id;
        let one = segments.take(1);
        let others = segments.skip(1);
        assert(one + others =~= segments);
        lemma_log_of_more(one, others);
        lemma_log_of_one(segments);
        lemma_last_entry(entries_of(segments[0]), id);
        let e = last_entry(entries_of(segments[0]), id)->0;
        let i = choose|i: int|
            0 <= i < entries_of(segments[0]).len() && entries_of(segments[0])[i] == e;
        assert(others[last - 1] == segments[last]);
        lemma_entry_in_log(others, last - 1, m);
        let n = choose|n: int| 0 <= n < log_of(others).len() && log_of(others)[n] == entries[m];
        assert(log_of(segments)[i] == e);
        assert(log_of(segments)[log_of(one).len() + n] == entries[m]);
        assert(false);
    }
}

/// What is found when the program ended after the new segment had taken the place
/// of segment 1, and the first `from` of the closed segments had been deleted or
/// replaced.
pub open spec fn half_swapped(
    closed: Seq<SegmentView>,
    later: Seq<SegmentView>,
    from: int,
) -> Seq<SegmentView> {
    seq![compacted_segment(closed)] + closed.skip(from) + later
}

/// If the program ends while the closed segments are being deleted, the next
/// opening deletes those of them that are left as far as the last one that creates
/// a task that is still running. It goes on with the segment that was active.
/// Whatever stays of the closed segments, the same tasks are running, with the same
/// state and the same payload, and the log is as orderly as before.
pub proof fn law_interrupted_swap_is_finished(
    closed: Seq<SegmentView>,
    later: Seq<SegmentView>,
    from: int,
)
    requires
        orderly(log_of(closed + later)),
        forall|i: int, j: int|
            #![trigger (closed + later)[i], (closed + later)[j]]
            0 <= i < j < (closed + later).len() ==> (closed + later)[i].id < (closed + later)[j].id,
        0 <= from <= closed.len(),
        forall|i: int| from <= i < closed.len() ==> (#[trigger] closed[i]).id > 1,
        later.len() > 0,
        later[0].id > 1,
    ensures
        ({
            let found = half_swapped(closed, later, from);
            let running = Set::new(|id: u64| live_in(log_of(closed), id));
            &&& exists|to: int|
                from <= to <= closed.len() && remaining(found) == #[trigger] half_swapped(
                    closed,
                    later,
                    to,
                ) && (forall|i: int|
                    to <= i < closed.len() ==> !creates(entries_of(#[trigger] closed[i]), running))
            &&& active_among(found) == later.last().id
            &&& orderly(log_of(remaining(found)))
            &&& forall|id: u64| #[trigger]
                alike(log_of(closed + later), log_of(remaining(found)), id)
        }),
{
    let found = half_swapped(closed, later, from);
    let last = lemma_half_swapped_count(closed, later, from);
    let to = from + last;
    assert(remaining(found) == half_swapped(closed, later, to)) by {
        if last > 0 {
            assert(found.take(1) =~= seq![compacted_segment(closed)]);
            assert(found.skip(last + 1) =~= closed.skip(to) + later);
            assert(found.take(1) + found.skip(last + 1) =~= half_swapped(closed, later, to));
        }
    }
    lemma_running_is_known(log_of(closed));
    lemma_half_swapped_alike(closed, later, to);
    lemma_half_swapped_is_numbered(closed, later, from);
    lemma_numbered_active(found);
    assert(found.last() == later.last());
}

/// The compacted segment knows the running tasks.
proof fn lemma_running_is_known(front: Seq<EntryView>)
    ensures
        mentioned(placed(1, compacted(front), 0)) == Set::new(|id: u64| live_in(front, id)),
{
    let known = mentioned(placed(1, compacted(front), 0));
    let running = Set::new(|id: u64| live_in(front, id));
    assert forall|id: u64| #[trigger] known.contains(id) <==> running.contains(id) by {
        lemma_kept(front, id);
    }
    assert(known =~= running);
}

/// Segments whose ids ascend go on with the last.
proof fn lemma_numbered_active(found: Seq<SegmentView>)
    requires
        numbered(found),
    ensures
        highest(ids_of(found)) == found.last().id,
        active_among(found) == found.last().id,
{
    let top = found.last().id;
    let ids = ids_of(found);
    assert(found.last() == found[found.len() - 1]);
    assert(ids[found.len() - 1] == top);
    assert forall|i: int| 0 <= i < ids.len() implies #[trigger] ids[i] <= top by {
        assert(ids[i] == found[i].id);
    }
    lemma_highest(ids, top);
    assert(found[0].id == 1);
}

/// How many of the closed segments that are left are superseded: all up to the last
/// that creates a running task.
proof fn lemma_half_swapped_count(
    closed: Seq<SegmentView>,
    later: Seq<SegmentView>,
    from: int,
) -> (last: int)
    requires
        orderly(log_of(closed + later)),
        forall|i: int, j: int|
            #![trigger (closed + later)[i], (closed + later)[j]]
            0 <= i < j < (closed + later).len() ==> (closed + later)[i].id < (closed + later)[j].id,
        0 <= from <= closed.len(),
        forall|i: int| from <= i < closed.len() ==> (#[trigger] closed[i]).id > 1,
        later.len() > 0,
        later[0].id > 1,
    ensures
        0 <= last <= closed.len() - from,
        superseded_count(half_swapped(closed, later, from)) == last,
        forall|i: int|
            from + last <= i < closed.len() ==> !creates(
                entries_of(#[trigger] closed[i]),
                mentioned(placed(1, compacted(log_of(closed)), 0)),
            ),
{
    reveal(orderly);
    let found = half_swapped(closed, later, from);
    let front = log_of(closed);
    let base = compacted_segment(closed);
    let known = mentioned(placed(1, compacted(front), 0));
    law_compacted_segment_reads_back(closed);
    assert(found[0] == base);
    lemma_half_swapped_is_numbered(closed, later, from);
    lemma_last_creating(found, known);
    let last = last_creating(found, known);
    lemma_log_of_more(closed, later);
    if last > closed.len() - from {
        let i = last - 1 - (closed.len() - from);
        assert(found[last] == later[i]);
        lemma_later_creates_nothing_known(front, later, i);
        assert(false);
    }
    let k = closed.len() - from + 1;
    lemma_half_swapped_stands(closed, later, from);
    assert(last < k < found.len() && stands_for(found, k));
    assert forall|i: int| from + last <= i < closed.len() implies !creates(
        entries_of(#[trigger] closed[i]),
        known,
    ) by {
        assert(found[i - from + 1] == closed[i]);
    }
    last
}

/// The new segment is what a compaction makes of it and of the closed segments that
/// are left.
proof fn lemma_half_swapped_stands(
    closed: Seq<SegmentView>,
    later: Seq<SegmentView>,
    from: int,
)
    requires
        0 <= from <= closed.len(),
    ensures
        stands_for(half_swapped(closed, later, from), closed.len() - from + 1),
{
    let found = half_swapped(closed, later, from);
    let base = compacted_segment(closed);
    let second = closed.skip(from);
    law_compacted_segment_reads_back(closed);
    assert(found[0] == base);
    assert(found.take(closed.len() - from + 1) =~= seq![base] + second);
    lemma_log_of_more(seq![base], second);
    lemma_log_of_more(closed.take(from), second);
    assert(closed.take(from) + second =~= closed);
    assert(seq![base].take(1) =~= seq![base]);
    lemma_log_of_one(seq![base]);
    assert(log_of(seq![base]) == placed(1, compacted(log_of(closed)), 0));
    lemma_compacted_again(log_of(closed.take(from)), log_of(second));
}

/// The ids of what is found ascend.
proof fn lemma_half_swapped_is_numbered(
    closed: Seq<SegmentView>,
    later: Seq<SegmentView>,
    from: int,
)
    requires
        forall|i: int, j: int|
            #![trigger (closed + later)[i], (closed + later)[j]]
            0 <= i < j < (closed + later).len() ==> (closed + later)[i].id < (closed + later)[j].id,
        0 <= from <= closed.len(),
        forall|i: int| from <= i < closed.len() ==> (#[trigger] closed[i]).id > 1,
        later.len() > 0,
        later[0].id > 1,
    ensures
        numbered(half_swapped(closed, later, from)),
{
    let all = closed + later;
    let found = half_swapped(closed, later, from);
    assert forall|i: int, j: int|
        #![trigger found[i], found[j]]
        0 <= i < j < found.len() implies found[i].id < found[j].id by {
        assert(found[j] == all[from + j - 1]);
        if i > 0 {
            assert(found[i] == all[from + i - 1]);
        } else if from + j - 1 < closed.len() {
            assert(found[j] == closed[from + j - 1]);
        } else {
            assert(all[closed.len() as int] == later[0]);
        }
    }
}

/// Replaying what is left gives the same tasks.
proof fn lemma_half_swapped_alike(closed: Seq<SegmentView>, later: Seq<SegmentView>, to: int)
    requires
        orderly(log_of(closed + later)),
        0 <= to <= closed.len(),
        forall|i: int|
            to <= i < closed.len() ==> !creates(
                entries_of(#[trigger] closed[i]),
                mentioned(placed(1, compacted(log_of(closed)), 0)),
            ),
    ensures
        orderly(log_of(half_swapped(closed, later, to))),
        forall|id: u64| #[trigger]
            alike(log_of(closed + later), log_of(half_swapped(closed, later, to)), id),
{
    let front = log_of(closed);
    let back = log_of(later);
    let base = compacted_segment(closed);
    let kept = placed(1, compacted(front), 0);
    let known = mentioned(kept);
    let second = closed.skip(to);
    let a = log_of(closed.take(to));
    let b = log_of(second);
    law_compacted_segment_reads_back(closed);
    lemma_log_of_more(closed, later);
    lemma_log_of_more(closed.take(to), second);
    assert(closed.take(to) + second =~= closed);
    lemma_log_of_more(seq![base] + second, later);
    lemma_log_of_more(seq![base], second);
    assert(seq![base].take(1) =~= seq![base]);
    lemma_log_of_one(seq![base]);
    assert(log_of(seq![base]) == kept);
    assert(log_of(half_swapped(closed, later, to)) == kept + b + back);
    if creates(b, known) {
        let i = choose|i: int|
            0 <= i < b.len() && (#[trigger] b[i]).record.op_type == OpType::Created
                && known.contains(b[i].record.id);
        lemma_entry_in_segment(second, i);
        let k = choose|k: int|
            0 <= k < second.len() && entries_of(#[trigger] second[k]).contains(b[i]);
        let m = choose|m: int|
            0 <= m < entries_of(second[k]).len() && entries_of(second[k])[m] == b[i];
        assert(entries_of(second[k])[m].record.op_type == OpType::Created);
        assert(creates(entries_of(second[k]), known));
        assert(second[k] == closed[to + k]);
        assert(false);
    }
    lemma_compacted_log_is_orderly(a, b, back);
}

/// A segment behind the compacted ones creates no task that they know.
proof fn lemma_later_creates_nothing_known(
    front: Seq<EntryView>,
    later: Seq<SegmentView>,
    i: int,
)
    requires
        starts_once(front + log_of(later)),
        0 <= i < later.len(),
    ensures
        !creates(entries_of(later[i]), mentioned(placed(1, compacted(front), 0))),
{
    reveal(starts_once);
    let kept = placed(1, compacted(front), 0);
    let back = log_of(later);
    let known = mentioned(kept);
    let entries = entries_of(later[i]);
    if creates(entries, known) {
        let m = choose|m: int|
            0 <= m < entries.len() && (#[trigger] entries[m]).record.op_type == OpType::Created
                && known.contains(entries[m].record.id);
        let id = entries[m].record.id;
        lemma_kept(front, id);
        lemma_last_entry(front, id);
        let e = last_entry(front, id)->0;
        let k = choose|k: int| 0 <= k < front.len() && front[k] == e;
        lemma_entry_in_log(later, i, m);
        let n = choose|n: int| 0 <= n < back.len() && back[n] == entries[m];
        assert((front + back)[k] == e);
        assert((front + back)[front.len() + n] == entries[m]);
    }
}

proof fn lemma_highest(ids: Seq<u64>, top: u64)
    requires
        ids.contains(top),
        forall|i: int| 0 <= i < ids.len() ==> #[trigger] ids[i] <= top,
    ensures
        highest(ids) == top,
    decreases ids.len(),
{
    let head = ids.drop_last();
    lemma_highest_bound(head, top);
    if ids.last() != top {
        let i = choose|i: int| 0 <= i < ids.len() && ids[i] == top;
        assert(head[i] == top);
        lemma_highest(head, top);
    }
}

proof fn lemma_highest_bound(ids: Seq<u64>, top: u64)
    requires
        forall|i: int| 0 <= i < ids.len() ==> #[trigger] ids[i] <= top,
    ensures
        highest(ids) <= top,
    decreases ids.len(),
{
    if ids.len() > 0 {
        let head = ids.drop_last();
        assert forall|i: int| 0 <= i < head.len() implies #[trigger] head[i] <= top by {
            assert(head[i] == ids[i]);
        }
        lemma_highest_bound(head, top);
        assert(ids.last() == ids[ids.len() - 1]);
    }
}

/// The log goes on with the highest of its segments, or with segment 1 where there is
/// none.
pub proof fn law_the_log_goes_on_with_its_highest_segment(segments: Seq<SegmentView>)
    ensures
        forall|i: int|
            0 <= i < segments.len() ==> (#[trigger] segments[i]).id <= active_among(segments),
        active_among(segments) == 1 || exists|i: int|
            0 <= i < segments.len() && (#[trigger] segments[i]).id == active_among(segments),
        segments.len() == 0 ==> active_among(segments) == 1,
{
    let ids = ids_of(segments);
    lemma_highest_is_among(ids);
    assert forall|i: int| 0 <= i < segments.len() implies (#[trigger] segments[i]).id
        <= active_among(segments) by {
        assert(ids[i] == segments[i].id);
    }
    if active_among(segments) != 1 {
        let i = choose|i: int| 0 <= i < ids.len() && ids[i] == highest(ids);
        assert(segments[i].id == ids[i]);
    }
}

proof fn lemma_highest_is_among(ids: Seq<u64>)
    ensures
        forall|i: int| 0 <= i < ids.len() ==> #[trigger] ids[i] <= highest(ids),
        highest(ids) > 0 ==> ids.contains(highest(ids)),
    decreases ids.len(),
{
    if ids.len() > 0 {
        let head = ids.drop_last();
        lemma_highest_is_among(head);
        assert(ids[ids.len() - 1] == ids.last());
        assert forall|i: int| 0 <= i < ids.len() implies #[trigger] ids[i] <= highest(ids) by {
            if i < head.len() {
                assert(head[i] == ids[i]);
            }
        }
        if highest(ids) > 0 && highest(ids) != ids.last() {
            let i = choose|i: int| 0 <= i < head.len() && head[i] == highest(head);
            assert(ids[i] == head[i]);
        }
    }
}

/// Whether a segment creates a task of which another one has a record.
pub open spec fn creates_anew(segment: SegmentView, other: SegmentView) -> bool {
    exists|i: int, j: int|
        0 <= i < entries_of(segment).len() && 0 <= j < entries_of(other).len() && (
        #[trigger] entries_of(segment)[i]).record.op_type == OpType::Created && entries_of(
            segment,
        )[i].record.id == (#[trigger] entries_of(other)[j]).record.id
}

/// The segments that the first one supersedes are those behind it, as far as the last
/// one that creates a task that the first knows. They are superseded if the ids ascend
/// from one on and the first is what a compaction makes of all of them, and perhaps of
/// some more, but never of the last. What is left is the first and what follows them.
pub proof fn law_what_a_compaction_supersedes(found: Seq<SegmentView>, last: int, k: int)
    requires
        found.len() > 0,
        0 < last < k < found.len(),
        creates_anew(found[last], found[0]),
        forall|i: int| last < i < found.len() ==> !creates_anew(#[trigger] found[i], found[0]),
    ensures
        ({
            let in_order = found[0].id == 1 && forall|i: int, j: int|
                #![trigger found[i], found[j]]
                0 <= i < j < found.len() ==> found[i].id < found[j].id;
            &&& in_order && frames(compacted(log_of(found.take(k)))) == found[0].bytes ==> {
                &&& superseded(found) == found.subrange(1, last + 1)
                &&& remaining(found) == found.take(1) + found.skip(last + 1)
            }
            &&& !in_order || (forall|n: int|
                last < n < found.len() ==> frames(compacted(log_of(#[trigger] found.take(n))))
                    != found[0].bytes) ==> {
                &&& superseded(found) == Seq::<SegmentView>::empty()
                &&& remaining(found) == found
            }
        }),
{
    let known = mentioned(entries_of(found[0]));
    assert forall|i: int| 0 < i < found.len() implies creates(entries_of(#[trigger] found[i]), known)
        == creates_anew(found[i], found[0]) by {
        lemma_creates_anew(found[i], found[0]);
    }
    lemma_last_creating(found, known);
    let at = last_creating(found, known);
    assert(at == last) by {
        if at < last {
            assert(!creates(entries_of(found[last]), known));
        } else if at > last {
            assert(creates(entries_of(found[at]), known));
        }
    }
    let in_order = found[0].id == 1 && forall|i: int, j: int|
        #![trigger found[i], found[j]]
        0 <= i < j < found.len() ==> found[i].id < found[j].id;
    assert(in_order == numbered(found));
    if in_order && frames(compacted(log_of(found.take(k)))) == found[0].bytes {
        assert(stands_for(found, k));
    }
    if forall|n: int|
        last < n < found.len() ==> frames(compacted(log_of(#[trigger] found.take(n))))
            != found[0].bytes {
        assert forall|n: int| last < n < found.len() implies !#[trigger] stands_for(found, n) by {
            assert(frames(compacted(log_of(found.take(n)))) != found[0].bytes);
        }
    }
}

/// Where no segment creates a task that the first one knows, nothing is superseded.
pub proof fn law_nothing_else_is_superseded(found: Seq<SegmentView>)
    requires
        found.len() > 0,
        forall|i: int| 0 < i < found.len() ==> !creates_anew(#[trigger] found[i], found[0]),
    ensures
        superseded(found) == Seq::<SegmentView>::empty(),
        remaining(found) == found,
{
    let known = mentioned(entries_of(found[0]));
    lemma_last_creating(found, known);
    let at = last_creating(found, known);
    if at > 0 {
        lemma_creates_anew(found[at], found[0]);
    }
}

proof fn lemma_creates_anew(segment: SegmentView, other: SegmentView)
    ensures
        creates(entries_of(segment), mentioned(entries_of(other))) == creates_anew(segment, other),
{
    let a = entries_of(segment);
    let b = entries_of(other);
    if creates(a, mentioned(b)) {
        let i = choose|i: int|
            0 <= i < a.len() && (#[trigger] a[i]).record.op_type == OpType::Created && mentioned(
                b,
            ).contains(a[i].record.id);
        let id = a[i].record.id;
        lemma_last_entry(b, id);
        let e = last_entry(b, id)->0;
        let j = choose|j: int| 0 <= j < b.len() && b[j] == e;
        assert(b[j].record.id == id);
    }
    if creates_anew(segment, other) {
        let (i, j) = choose|i: int, j: int|
            0 <= i < a.len() && 0 <= j < b.len() && (#[trigger] a[i]).record.op_type
                == OpType::Created && a[i].record.id == (#[trigger] b[j]).record.id;
        lemma_last_entry(b, a[i].record.id);
        assert(b[j].record.id == a[i].record.id);
        assert(mentioned(b).contains(a[i].record.id));
    }
}

} // verus!
