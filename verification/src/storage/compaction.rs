//! The compaction of closed segments.
//!
//! A compaction reads the closed segments, keeps of every task that is still
//! running the latest record and the payload, and writes them to a new segment
//! that takes the place of segment 1. The other closed segments are then deleted.
//! The payload is put into the latest record. Where it would be too long for that,
//! it gets a record of its own in front of the others.

use super::bytes::push_range;
use super::ids::{ascending, lemma_ascending, lists, sort_unstable, sorted_keys, sorts, strictly_ascending};
use super::record::{OpType, Record, RecordView};
use super::segment::{entries_of, frame_end, frames, log_of, placed, scan_end, scan_segment, scanned};
use super::segment::{lemma_frames_push, lemma_log_fits, lemma_placed, lemma_scan_from};
use super::segment::{EntryView, LogEntry, Segment, SegmentView};
use super::task::{alike, carried, carries_payload, decides, is_carrier, last_carrier, last_entry, last_priority, live_in, merged, orderly, payload_since, plain, same_task, starts_once, task_payload};
use super::task::{extract_task_payload, is_carrier_in, merge_payload, meta_length, without_payload};
use super::task::{law_merging_keeps_the_task, lemma_alike_goes_on, lemma_append, lemma_carried, lemma_carried_on, lemma_carried_over, lemma_carried_payload};
use super::task::{lemma_concatenated, lemma_ended_has_no_payload, lemma_goes_on, lemma_last_entry, lemma_mentioned_once, lemma_merged_again, lemma_not_mentioned};
use super::task::{lemma_orderly_has_payload, lemma_payload_since_on, lemma_plain, lemma_silent_log_decides_nothing};
use super::wal::{law_segments_are_their_files, list_segments, segment_of_file, segments_among, Wal};
use std::collections::HashMap;
use vstd::prelude::*;

verus! {

/// What a compaction did.
#[derive(Debug, Clone, Copy, PartialEq, Eq, Structural)]
pub struct CompactionStats {
    pub closed_segments_compacted: usize,
    pub surviving_records: usize,
    pub new_segment_id: u64,
}

/// The outcome of the first phase of a compaction.
#[derive(Debug)]
pub struct Compaction {
    pub stats: CompactionStats,
    /// Where the latest record of each surviving task starts in the new segment.
    pub new_offsets: HashMap<u64, u64>,
    /// Where the record with the payload of each of them starts.
    pub payload_offsets: HashMap<u64, u64>,
    /// The new segment.
    pub bytes: Vec<u8>,
}

/// What a compaction keeps of a task that is still running: its latest record and
/// its payload.
#[verifier::ext_equal]
pub struct Kept {
    pub latest: RecordView,
    pub payload: Option<Seq<u8>>,
}

impl Kept {
    /// Whether one record is enough: the latest record has the payload or can take
    /// it in, or there is none.
    pub open spec fn in_one(self) -> bool {
        ||| self.payload is None
        ||| self.latest.op_type == OpType::Created
        ||| merged(self.latest, self.payload->0).encodable()
    }

    /// The latest record, with the payload where it can be put into it.
    pub open spec fn head(self) -> RecordView {
        if self.payload is None || !self.in_one() {
            plain(self.latest)
        } else if self.latest.op_type == OpType::Created {
            self.latest
        } else {
            merged(self.latest, self.payload->0)
        }
    }

    /// A record for the payload alone, where it would be too long for the latest.
    pub open spec fn spare(self) -> RecordView {
        RecordView {
            id: self.latest.id,
            op_type: OpType::Created,
            priority: self.latest.priority,
            payload: self.payload->0,
        }
    }
}

/// What a compaction keeps of a log: the latest record and the payload of every
/// task that is still running.
pub open spec fn survivors(log: Seq<EntryView>) -> Map<u64, Kept> {
    Map::new(
        |id: u64| live_in(log, id),
        |id: u64|
            Kept { latest: (last_entry(log, id)->0).record, payload: payload_since(log, id) },
    )
}

/// The records with the payloads of some tasks that get a record of their own.
pub open spec fn spares_of(kept: Map<u64, Kept>, ids: Seq<u64>) -> Seq<RecordView> {
    ids.filter(|id: u64| !kept[id].in_one()).map_values(|id: u64| kept[id].spare())
}

/// The records with the payloads that stand apart, by ascending id.
pub open spec fn spares(log: Seq<EntryView>) -> Seq<RecordView> {
    spares_of(survivors(log), ascending(survivors(log).dom()))
}

/// The latest records of the running tasks, by ascending id.
pub open spec fn heads(log: Seq<EntryView>) -> Seq<RecordView> {
    ascending(survivors(log).dom()).map_values(|id: u64| survivors(log)[id].head())
}

/// The records that a compaction writes.
pub open spec fn compacted(log: Seq<EntryView>) -> Seq<RecordView> {
    spares(log) + heads(log)
}

/// Where each of some records starts when their frames stand one behind the other,
/// from `at` on.
pub open spec fn offsets(records: Seq<RecordView>, at: nat) -> Map<u64, u64>
    decreases records.len(),
{
    if records.len() == 0 {
        Map::empty()
    } else {
        offsets(records.drop_last(), at).insert(
            records.last().id,
            (at + frames(records.drop_last()).len()) as u64,
        )
    }
}

/// Where the latest record of each running task starts in the new segment.
#[verifier::opaque]
pub open spec fn head_offsets(log: Seq<EntryView>) -> Map<u64, u64> {
    offsets(heads(log), frames(spares(log)).len())
}

/// Some offsets, with others in their place where there are such.
pub open spec fn overlaid(base: Map<u64, u64>, over: Map<u64, u64>) -> Map<u64, u64> {
    Map::new(
        |id: u64| base.contains_key(id),
        |id: u64|
            if over.contains_key(id) {
                over[id]
            } else {
                base[id]
            },
    )
}

/// Where the record with the payload of each running task starts in the new
/// segment.
#[verifier::opaque]
pub open spec fn payload_offsets(log: Seq<EntryView>) -> Map<u64, u64> {
    overlaid(head_offsets(log), offsets(spares(log), 0))
}

/// The tasks that a log says something of.
pub open spec fn mentioned(log: Seq<EntryView>) -> Set<u64> {
    Set::new(|id: u64| last_entry(log, id) is Some)
}

/// Whether a log creates one of some tasks.
pub open spec fn creates(log: Seq<EntryView>, known: Set<u64>) -> bool {
    exists|i: int|
        0 <= i < log.len() && (#[trigger] log[i]).record.op_type == OpType::Created
            && known.contains(log[i].record.id)
}

/// The segments among some file names that come before the active one.
pub open spec fn closed_among(names: Seq<String>, active: u64) -> Seq<u64> {
    segments_among(names).filter(|id: u64| id < active)
}

/// Whether the file of a segment is among some files.
pub open spec fn is_there(names: Seq<String>, id: u64) -> bool {
    exists|i: int| 0 <= i < names.len() && segment_of_file((#[trigger] names[i])@) == Some(id)
}

/// The views of some segments.
pub open spec fn segment_views(segments: Seq<Segment>) -> Seq<SegmentView> {
    segments.map_values(|s: Segment| s@)
}

/// What is kept of a task.
#[derive(Debug)]
struct KeptTask {
    latest: Record,
    payload: Option<Vec<u8>>,
}

impl View for KeptTask {
    type V = Kept;

    closed spec fn view(&self) -> Kept {
        Kept {
            latest: self.latest@,
            payload: match self.payload {
                Some(payload) => Some(payload@),
                None => None,
            },
        }
    }
}

impl KeptTask {
    /// Whether one record is enough.
    fn in_one(&self) -> (one: bool)
        ensures
            one == self@.in_one(),
    {
        match &self.payload {
            None => true,
            Some(payload) => self.latest.op_type() == OpType::Created || fits_behind(
                &self.latest,
                payload.as_slice(),
            ),
        }
    }

    /// The latest record, with the payload where it can be put into it.
    fn head(&self) -> (record: Record)
        ensures
            record@ == self@.head(),
    {
        match &self.payload {
            None => without_payload(&self.latest),
            Some(payload) => {
                if self.latest.op_type() == OpType::Created {
                    self.latest.clone()
                } else if fits_behind(&self.latest, payload.as_slice()) {
                    merge_payload(&self.latest, payload.as_slice())
                } else {
                    without_payload(&self.latest)
                }
            },
        }
    }

    /// A record for the payload alone.
    fn spare(&self) -> (record: Record)
        requires
            self@.payload is Some,
        ensures
            record@ == self@.spare(),
    {
        let mut bytes: Vec<u8> = Vec::new();
        match &self.payload {
            Some(payload) => {
                push_range(&mut bytes, payload.as_slice(), 0, payload.len());
                assert(bytes@ =~= payload@);
            },
            None => {},
        }
        Record::new(self.latest.id(), OpType::Created, self.latest.priority(), bytes)
    }
}

/// The kept tasks of a map of kept tasks.
spec fn values_of(map: Map<u64, KeptTask>) -> Map<u64, Kept> {
    map.map_values(|k: KeptTask| k@)
}

/// What is kept after one more record.
pub open spec fn absorbed(kept: Map<u64, Kept>, entry: EntryView) -> Map<u64, Kept> {
    let id = entry.record.id;
    if entry.record.op_type.is_terminal_spec() {
        kept.remove(id)
    } else {
        kept.insert(
            id,
            Kept {
                latest: entry.record,
                payload: if is_carrier(entry) {
                    Some(task_payload(entry.record))
                } else if kept.contains_key(id) {
                    kept[id].payload
                } else {
                    None
                },
            },
        )
    }
}

/// Takes one more record into account.
fn absorb(latest: &mut HashMap<u64, KeptTask>, segment: u64, record: Record)
    ensures
        forall|offset: u64|
            values_of(final(latest)@) == #[trigger] absorbed(
                values_of(old(latest)@),
                EntryView { segment, offset, record: record@ },
            ),
{
    let id: u64 = record.id();
    let ghost r = record@;
    let before = latest.remove(&id);
    if !record.op_type().is_terminal() {
        let payload: Option<Vec<u8>> = if is_carrier_in(segment, &record) {
            assert(is_carrier(EntryView { segment, offset: 0, record: r }));
            Some(extract_task_payload(&record))
        } else {
            match before {
                Some(task) => task.payload,
                None => None,
            }
        };
        let task = KeptTask { latest: record, payload };
        latest.insert(id, task);
        assert forall|offset: u64|
            values_of(latest@) == #[trigger] absorbed(
                values_of(old(latest)@),
                EntryView { segment, offset, record: r },
            ) by {
            let entry = EntryView { segment, offset, record: r };
            assert(values_of(latest@) =~= absorbed(values_of(old(latest)@), entry));
        }
    } else {
        assert(values_of(latest@) =~= values_of(old(latest)@).remove(id));
    }
}

/// What a compaction keeps of a log that goes on with one more record.
proof fn lemma_absorbed(log: Seq<EntryView>, entry: EntryView)
    ensures
        survivors(log.push(entry)) == absorbed(survivors(log), entry),
{
    let after = log.push(entry);
    let id = entry.record.id;
    assert(after.drop_last() =~= log);
    assert forall|x: u64| #[trigger] live_in(after, x) == (if x == id {
        !entry.record.op_type.is_terminal_spec()
    } else {
        live_in(log, x)
    }) by {
        lemma_append(log, entry, x);
    }
    if !live_in(log, id) {
        lemma_ended_has_no_payload(log, id);
    }
    assert forall|x: u64| survivors(after).contains_key(x) implies #[trigger] survivors(after)[x]
        == absorbed(survivors(log), entry)[x] by {
        lemma_append(log, entry, x);
    }
    assert(survivors(after) =~= absorbed(survivors(log), entry));
}

/// There are finitely many running tasks.
pub proof fn lemma_survivors_finite(log: Seq<EntryView>)
    ensures
        survivors(log).dom().finite(),
    decreases log.len(),
{
    if log.len() == 0 {
        assert(survivors(log).dom() =~= Set::<u64>::empty());
    } else {
        lemma_survivors_finite(log.drop_last());
        lemma_absorbed(log.drop_last(), log.last());
        assert(log.drop_last().push(log.last()) =~= log);
    }
}

/// Whether the payload of the task can be put behind what a record carries.
fn fits_behind(record: &Record, payload: &[u8]) -> (fits: bool)
    ensures
        fits == merged(record@, payload@).encodable(),
{
    payload.len() <= 0xFFFF_FFFF - 1 - meta_length(record.op_type())
}

/// The tasks that are running at the end of the first `n` segments.
fn collect(segments: &Vec<Segment>, n: usize) -> (kept: HashMap<u64, KeptTask>)
    requires
        n <= segments@.len(),
    ensures
        values_of(kept@) == survivors(log_of(segment_views(segments@).take(n as int))),
{
    let ghost views = segment_views(segments@);
    let mut kept: HashMap<u64, KeptTask> = HashMap::new();
    let mut i: usize = 0;
    assert(values_of(kept@) =~= survivors(log_of(views.take(0))));
    while i < n
        invariant
            i <= n <= segments@.len(),
            views == segment_views(segments@),
            values_of(kept@) == survivors(log_of(views.take(i as int))),
        decreases n - i,
    {
        let entries = scan_segment(segments[i].id, segments[i].bytes.as_slice());
        let ghost log = log_of(views.take(i as int));
        let ghost fresh = entries_of(segments@[i as int]@);
        proof {
            assert(views.take(i + 1).drop_last() =~= views.take(i as int));
            assert(views.take(i + 1).last() == segments@[i as int]@);
            assert(log + fresh.take(0) =~= log);
        }
        let mut j: usize = 0;
        while j < entries.len()
            invariant
                j <= entries@.len(),
                entries@.map_values(|e: LogEntry| e@) == fresh,
                values_of(kept@) == survivors(log + fresh.take(j as int)),
            decreases entries@.len() - j,
        {
            proof {
                let prefix = log + fresh.take(j as int);
                assert(fresh[j as int] == entries@[j as int]@);
                assert(log + fresh.take(j + 1) =~= prefix.push(fresh[j as int]));
                lemma_absorbed(prefix, fresh[j as int]);
                let e = entries@[j as int];
                assert(fresh[j as int] == EntryView {
                    segment: e.segment,
                    offset: e.offset,
                    record: e.record@,
                });
            }
            absorb(&mut kept, entries[j].segment, entries[j].record.clone());
            j = j + 1;
        }
        proof {
            assert(fresh.take(j as int) =~= fresh);
        }
        i = i + 1;
    }
    kept
}

/// The records of some tasks, their frames one behind the other.
struct Frames {
    bytes: Vec<u8>,
    offsets: HashMap<u64, u64>,
}

impl Frames {
    /// Adds the frame of a record.
    fn add_record(&mut self, record: &Record)
        ensures
            final(self).bytes@ == old(self).bytes@ + record@.encoded(),
            final(self).offsets@ == old(self).offsets@.insert(
                record@.id,
                old(self).bytes@.len() as u64,
            ),
    {
        self.offsets.insert(record.id(), self.bytes.len() as u64);
        let frame = record.encode();
        push_range(&mut self.bytes, frame.as_slice(), 0, frame.len());
        assert(frame@.subrange(0, frame@.len() as int) =~= frame@);
    }
}

/// Brings the first `n` segments down to the records of the running tasks.
pub(crate) fn compact_first(segments: &Vec<Segment>, n: usize) -> (result: Compaction)
    requires
        n <= segments@.len(),
    ensures
        ({
            let log = log_of(segment_views(segments@).take(n as int));
            &&& result.bytes@ == frames(compacted(log))
            &&& result.new_offsets@ == head_offsets(log)
            &&& result.payload_offsets@ == payload_offsets(log)
            &&& result.stats.closed_segments_compacted == n
            &&& result.stats.surviving_records == heads(log).len()
            &&& result.stats.new_segment_id == 1
        }),
{
    reveal(head_offsets);
    reveal(payload_offsets);
    let kept = collect(segments, n);
    let ghost log = log_of(segment_views(segments@).take(n as int));
    let ghost first = spares(log);
    let ghost second = heads(log);
    proof {
        assert(values_of(kept@).dom() =~= kept@.dom());
        lemma_survivors_finite(log);
    }
    let ids = sorted_keys(&kept);
    let ghost kept_view = survivors(log);
    let mut spare: Frames = Frames { bytes: Vec::new(), offsets: HashMap::new() };
    let mut i: usize = 0;
    proof {
        reveal(Seq::filter);
        assert(spares_of(kept_view, ids@.take(0)) =~= Seq::<RecordView>::empty());
        assert(frames(Seq::<RecordView>::empty()) =~= spare.bytes@);
    }
    while i < ids.len()
        invariant
            i <= ids@.len(),
            kept_view == survivors(log),
            values_of(kept@) == kept_view,
            lists(ids@, kept@.dom()),
            spare.bytes@ == frames(spares_of(kept_view, ids@.take(i as int))),
            spare.offsets@ == offsets(spares_of(kept_view, ids@.take(i as int)), 0),
        decreases ids@.len() - i,
    {
        let id: u64 = ids[i];
        assert(ids@.contains(id));
        let ghost before = spares_of(kept_view, ids@.take(i as int));
        match kept.get(&id) {
            Some(task) => {
                proof {
                    reveal(Seq::filter);
                    assert(kept_view.contains_key(id) && kept_view[id] == task@);
                    lemma_survivor_id(log, id);
                    assert(ids@.take(i + 1).drop_last() =~= ids@.take(i as int));
                    assert(ids@.take(i + 1).last() == id);
                }
                if !task.in_one() {
                    let record = task.spare();
                    proof {
                        assert(spares_of(kept_view, ids@.take(i + 1)) =~= before.push(record@));
                        lemma_frames_push(before, record@);
                        lemma_offsets_push(before, record@, 0);
                    }
                    spare.add_record(&record);
                } else {
                    assert(spares_of(kept_view, ids@.take(i + 1)) =~= before);
                }
            },
            None => {
                assert(false);
            },
        }
        i = i + 1;
    }
    assert(ids@.take(i as int) =~= ids@);
    let mut all: Frames = Frames { bytes: spare.bytes, offsets: HashMap::new() };
    let mut payload_places: HashMap<u64, u64> = HashMap::new();
    let ghost at = frames(first).len();
    let mut n_done: usize = 0;
    proof {
        assert(second.take(0) =~= Seq::<RecordView>::empty());
        assert(first + second.take(0) =~= first);
        assert(payload_places@ =~= overlaid(offsets(second.take(0), at), offsets(first, 0)));
    }
    while n_done < ids.len()
        invariant
            n_done <= ids@.len(),
            first == spares(log),
            second == heads(log),
            at == frames(first).len(),
            values_of(kept@) == survivors(log),
            ids@ == ascending(survivors(log).dom()),
            lists(ids@, kept@.dom()),
            second.len() == ids@.len(),
            spare.offsets@ == offsets(first, 0),
            all.bytes@ == frames(first + second.take(n_done as int)),
            all.offsets@ == offsets(second.take(n_done as int), at),
            payload_places@ == overlaid(
                offsets(second.take(n_done as int), at),
                offsets(first, 0),
            ),
        decreases ids@.len() - n_done,
    {
        let id: u64 = ids[n_done];
        assert(ids@.contains(id));
        match kept.get(&id) {
            Some(task) => {
                let record = task.head();
                let ghost taken = second.take(n_done as int);
                proof {
                    assert(survivors(log).contains_key(id) && survivors(log)[id] == task@);
                    lemma_survivor_id(log, id);
                    assert(second[n_done as int] == record@);
                    assert(record@.id == id);
                    assert(second.take(n_done + 1) =~= taken.push(record@));
                    assert(first + second.take(n_done + 1) =~= (first + taken).push(record@));
                    lemma_frames_push(first + taken, record@);
                    lemma_placed_on(first, taken, 0);
                    lemma_offsets_push(taken, record@, at);
                }
                let offset: u64 = all.bytes.len() as u64;
                all.add_record(&record);
                let place: u64 = match spare.offsets.get(&id) {
                    Some(apart) => *apart,
                    None => offset,
                };
                payload_places.insert(id, place);
                assert(payload_places@ =~= overlaid(
                    offsets(second.take(n_done + 1), at),
                    offsets(first, 0),
                ));
            },
            None => {
                assert(false);
            },
        }
        n_done = n_done + 1;
    }
    assert(second.take(n_done as int) =~= second);
    Compaction {
        stats: CompactionStats {
            closed_segments_compacted: n,
            surviving_records: ids.len(),
            new_segment_id: 1,
        },
        new_offsets: all.offsets,
        payload_offsets: payload_places,
        bytes: all.bytes,
    }
}

impl Wal {
    /// The segments that a compaction may take: all that come before the active
    /// one, in ascending order, or nothing if there are none.
    pub fn plan_compaction(names: &Vec<String>, active_segment_id: u64) -> (closed: Option<
        Vec<u64>,
    >)
        ensures
            match closed {
                Some(ids) => ids@.len() > 0 && sorts(
                    ids@,
                    closed_among(names@, active_segment_id),
                ),
                None => closed_among(names@, active_segment_id) == Seq::<u64>::empty(),
            },
            closed is Some ==> forall|id: u64| #[trigger]
                (closed->0)@.contains(id) <==> id < active_segment_id && is_there(names@, id),
            closed is None ==> forall|id: u64| #[trigger]
                is_there(names@, id) ==> id >= active_segment_id,
    {
        let ids = list_segments(names);
        let mut closed: Vec<u64> = Vec::new();
        let mut i: usize = 0;
        let ghost earlier = |id: u64| id < active_segment_id;
        proof {
            reveal(Seq::filter);
            assert(ids@.take(0).filter(earlier) =~= Seq::<u64>::empty());
        }
        while i < ids.len()
            invariant
                i <= ids@.len(),
                earlier == |id: u64| id < active_segment_id,
                closed@ == ids@.take(i as int).filter(earlier),
            decreases ids@.len() - i,
        {
            proof {
                reveal(Seq::filter);
                assert(ids@.take(i + 1).drop_last() =~= ids@.take(i as int));
            }
            if ids[i] < active_segment_id {
                closed.push(ids[i]);
            }
            i = i + 1;
        }
        assert(ids@.take(i as int) =~= ids@);
        if closed.len() == 0 {
            assert(closed@ =~= Seq::<u64>::empty());
            proof {
                assert forall|id: u64| #[trigger] is_there(names@, id) implies id
                    >= active_segment_id by {
                    law_closed_segments_are_the_earlier_ones(names@, active_segment_id, closed@, id);
                }
            }
            None
        } else {
            let ghost unsorted = closed@;
            sort_unstable(&mut closed);
            proof {
                broadcast use vstd::seq_lib::group_to_multiset_ensures;

                assert(closed@.len() == closed@.to_multiset().len());
                assert(unsorted.len() == unsorted.to_multiset().len());
                assert forall|id: u64| #[trigger] closed@.contains(id) <==> id < active_segment_id
                    && is_there(names@, id) by {
                    law_closed_segments_are_the_earlier_ones(names@, active_segment_id, closed@, id);
                }
            }
            Some(closed)
        }
    }

    /// Phase 1: brings the closed segments down to the records of the tasks that
    /// are still running. Nothing that is in use is touched.
    pub fn execute_compaction_phase1(closed: &Vec<Segment>) -> (result: Compaction)
        ensures
            ({
                let log = log_of(segment_views(closed@));
                &&& result.bytes@ == frames(compacted(log))
                &&& result.new_offsets@ == head_offsets(log)
                &&& result.payload_offsets@ == payload_offsets(log)
                &&& result.stats.closed_segments_compacted == closed@.len()
                &&& result.stats.surviving_records == heads(log).len()
                &&& result.stats.new_segment_id == 1
            }),
    {
        let ghost views = segment_views(closed@);
        assert(views.take(closed@.len() as int) =~= views);
        compact_first(closed, closed.len())
    }

    /// Phase 2: once the new segment has taken the place of segment 1, these
    /// segments are to be deleted, one after the other.
    pub fn execute_compaction_phase2(closed: &Vec<u64>) -> (unlink: Vec<u64>)
        ensures
            unlink@ == closed@.filter(|id: u64| id > 1),
            forall|id: u64| #[trigger]
                unlink@.contains(id) <==> closed@.contains(id) && id != 1 && id != 0,
    {
        let mut unlink: Vec<u64> = Vec::new();
        let mut i: usize = 0;
        let ghost late = |id: u64| id > 1;
        proof {
            reveal(Seq::filter);
            assert(closed@.take(0).filter(late) =~= Seq::<u64>::empty());
        }
        while i < closed.len()
            invariant
                i <= closed@.len(),
                late == |id: u64| id > 1,
                unlink@ == closed@.take(i as int).filter(late),
            decreases closed@.len() - i,
        {
            proof {
                reveal(Seq::filter);
                assert(closed@.take(i + 1).drop_last() =~= closed@.take(i as int));
            }
            if closed[i] > 1 {
                unlink.push(closed[i]);
            }
            i = i + 1;
        }
        assert(closed@.take(i as int) =~= closed@);
        proof {
            assert forall|id: u64| #[trigger] unlink@.contains(id) <==> closed@.contains(id) && id
                != 1 && id != 0 by {
                law_what_was_compacted_is_deleted(closed@, id);
            }
        }
        unlink
    }
}

/// A record that is kept of a task is a record of the task.
proof fn lemma_survivor_id(log: Seq<EntryView>, id: u64)
    requires
        live_in(log, id),
    ensures
        survivors(log)[id].latest.id == id,
        !survivors(log)[id].latest.op_type.is_terminal_spec(),
        survivors(log)[id].head().id == id,
        survivors(log)[id].spare().id == id,
{
    lemma_last_entry(log, id);
}

/// One more offset.
proof fn lemma_offsets_push(records: Seq<RecordView>, record: RecordView, at: nat)
    ensures
        offsets(records.push(record), at) == offsets(records, at).insert(
            record.id,
            (at + frames(records).len()) as u64,
        ),
{
    assert(records.push(record).drop_last() =~= records);
}

/// What the head of a kept task says of it.
proof fn lemma_head(kept: Kept)
    requires
        !kept.latest.op_type.is_terminal_spec(),
        kept.latest.op_type == OpType::Created ==> kept.payload == Some(kept.latest.payload),
    ensures
        same_task(kept.head(), kept.latest),
        !kept.head().op_type.is_terminal_spec(),
        carries_payload(kept.head()) == (kept.payload is Some && kept.in_one()),
        kept.payload is Some && kept.in_one() ==> task_payload(kept.head()) == kept.payload->0,
        kept.head().op_type == kept.latest.op_type,
{
    lemma_plain(kept.latest);
    if kept.payload is Some && kept.latest.op_type != OpType::Created {
        law_merging_keeps_the_task(kept.latest, kept.payload->0);
    }
}

/// Keeping the head of a kept task in place of its latest record gives the same
/// records.
proof fn lemma_head_again(kept: Kept)
    requires
        !kept.latest.op_type.is_terminal_spec(),
        kept.latest.op_type == OpType::Created ==> kept.payload == Some(kept.latest.payload),
    ensures
        ({
            let again = Kept { latest: kept.head(), payload: kept.payload };
            &&& again.in_one() == kept.in_one()
            &&& again.head() == kept.head()
            &&& !kept.in_one() ==> again.spare() == kept.spare()
        }),
{
    lemma_head(kept);
    lemma_plain(kept.latest);
    if kept.payload is Some && kept.latest.op_type != OpType::Created {
        lemma_merged_again(kept.latest, kept.payload->0);
        lemma_merged_again(kept.head(), kept.payload->0);
    }
}

/// A task that was created last has the payload that it was created with.
proof fn lemma_survivor_payload(log: Seq<EntryView>, id: u64)
    requires
        live_in(log, id),
    ensures
        ({
            let kept = survivors(log)[id];
            kept.latest.op_type == OpType::Created ==> kept.payload == Some(kept.latest.payload)
        }),
    decreases log.len(),
{
    if log.last().record.id != id {
        lemma_survivor_payload(log.drop_last(), id);
    }
}

/// The records with payloads that stand apart are those of some of the tasks.
proof fn lemma_spares_of(kept: Map<u64, Kept>, ids: Seq<u64>)
    requires
        strictly_ascending(ids),
        forall|i: int| 0 <= i < ids.len() ==> kept[#[trigger] ids[i]].latest.id == ids[i],
    ensures
        ({
            let records = spares_of(kept, ids);
            &&& forall|i: int|
                0 <= i < records.len() ==> {
                    let id = (#[trigger] records[i]).id;
                    &&& ids.contains(id)
                    &&& !kept[id].in_one()
                    &&& records[i] == kept[id].spare()
                }
            &&& forall|i: int, j: int|
                0 <= i < j < records.len() ==> (#[trigger] records[i]).id < (
                #[trigger] records[j]).id
            &&& forall|k: int|
                0 <= k < ids.len() && !kept[#[trigger] ids[k]].in_one() ==> exists|i: int|
                    0 <= i < records.len() && (#[trigger] records[i]).id == ids[k]
        }),
    decreases ids.len(),
{
    reveal(Seq::filter);
    let records = spares_of(kept, ids);
    if ids.len() > 0 {
        let head = ids.drop_last();
        let last = ids.last();
        let before = spares_of(kept, head);
        assert(ids[ids.len() - 1] == last);
        assert forall|i: int| 0 <= i < head.len() implies kept[#[trigger] head[i]].latest.id
            == head[i] by {
            assert(head[i] == ids[i]);
        }
        assert forall|i: int, j: int|
            #![trigger head[i], head[j]]
            0 <= i < j < head.len() implies head[i] < head[j] by {
            assert(head[i] == ids[i]);
            assert(head[j] == ids[j]);
            assert(ids[i] < ids[j]);
        }
        lemma_spares_of(kept, head);
        if !kept[last].in_one() {
            assert(records =~= before.push(kept[last].spare()));
        } else {
            assert(records =~= before);
        }
        assert forall|i: int| 0 <= i < before.len() implies (#[trigger] before[i]).id < last
            && ids.contains(before[i].id) && records[i] == before[i] by {
            let id = before[i].id;
            let k = choose|k: int| 0 <= k < head.len() && head[k] == id;
            assert(ids[k] == id);
            assert(ids[k] < ids[ids.len() - 1]);
        }
        assert forall|i: int| 0 <= i < records.len() implies ({
            let id = (#[trigger] records[i]).id;
            &&& ids.contains(id)
            &&& !kept[id].in_one()
            &&& records[i] == kept[id].spare()
        }) by {
            if i < before.len() {
                assert(before[i] == records[i]);
            }
        }
        assert forall|i: int, j: int| 0 <= i < j < records.len() implies (
        #[trigger] records[i]).id < (#[trigger] records[j]).id by {
            assert(records[i] == before[i]);
            if j < before.len() {
                assert(records[j] == before[j]);
            }
        }
        assert forall|k: int| 0 <= k < ids.len() && !kept[#[trigger] ids[k]].in_one() implies exists|
            i: int,
        |
            0 <= i < records.len() && (#[trigger] records[i]).id == ids[k] by {
            if k < head.len() {
                assert(head[k] == ids[k]);
                let i = choose|i: int|
                    0 <= i < before.len() && (#[trigger] before[i]).id == head[k];
                assert(records[i] == before[i]);
            } else {
                assert(records[before.len() as int].id == ids[k]);
            }
        }
    }
}

/// The records that a compaction writes.
pub proof fn lemma_compacted(log: Seq<EntryView>)
    ensures
        survivors(log).dom().finite(),
        forall|i: int|
            0 <= i < heads(log).len() ==> {
                let id = (#[trigger] heads(log)[i]).id;
                &&& live_in(log, id)
                &&& heads(log)[i] == survivors(log)[id].head()
            },
        forall|i: int, j: int|
            0 <= i < j < heads(log).len() ==> (#[trigger] heads(log)[i]).id < (
            #[trigger] heads(log)[j]).id,
        forall|id: u64| #[trigger]
            live_in(log, id) ==> exists|i: int|
                0 <= i < heads(log).len() && (#[trigger] heads(log)[i]).id == id,
        forall|i: int|
            0 <= i < spares(log).len() ==> {
                let id = (#[trigger] spares(log)[i]).id;
                &&& live_in(log, id)
                &&& !survivors(log)[id].in_one()
                &&& spares(log)[i] == survivors(log)[id].spare()
            },
        forall|i: int, j: int|
            0 <= i < j < spares(log).len() ==> (#[trigger] spares(log)[i]).id < (
            #[trigger] spares(log)[j]).id,
        forall|id: u64| #[trigger]
            live_in(log, id) && !survivors(log)[id].in_one() ==> exists|i: int|
                0 <= i < spares(log).len() && (#[trigger] spares(log)[i]).id == id,
{
    let kept = survivors(log);
    let ids = ascending(kept.dom());
    lemma_survivors_finite(log);
    lemma_ascending(kept.dom());
    assert forall|i: int| 0 <= i < ids.len() implies live_in(log, #[trigger] ids[i])
        && kept[ids[i]].latest.id == ids[i] && kept[ids[i]].head().id == ids[i] by {
        assert(ids.contains(ids[i]));
        lemma_survivor_id(log, ids[i]);
    }
    lemma_spares_of(kept, ids);
    assert forall|i: int| 0 <= i < heads(log).len() implies ({
        let id = (#[trigger] heads(log)[i]).id;
        &&& live_in(log, id)
        &&& heads(log)[i] == survivors(log)[id].head()
    }) by {
        assert(heads(log)[i] == kept[ids[i]].head());
    }
    assert forall|i: int, j: int| 0 <= i < j < heads(log).len() implies (
    #[trigger] heads(log)[i]).id < (#[trigger] heads(log)[j]).id by {
        assert(heads(log)[i].id == ids[i]);
        assert(heads(log)[j].id == ids[j]);
        assert(ids[i] < ids[j]);
    }
    assert forall|id: u64| #[trigger] live_in(log, id) implies exists|i: int|
        0 <= i < heads(log).len() && (#[trigger] heads(log)[i]).id == id by {
        assert(ids.contains(id));
        let i = choose|i: int| 0 <= i < ids.len() && ids[i] == id;
        assert(heads(log)[i].id == id);
    }
    assert forall|i: int| 0 <= i < spares(log).len() implies ({
        let id = (#[trigger] spares(log)[i]).id;
        &&& live_in(log, id)
        &&& !survivors(log)[id].in_one()
        &&& spares(log)[i] == survivors(log)[id].spare()
    }) by {
        assert(ids.contains(spares(log)[i].id));
    }
    assert forall|id: u64| #[trigger]
        live_in(log, id) && !survivors(log)[id].in_one() implies exists|i: int|
        0 <= i < spares(log).len() && (#[trigger] spares(log)[i]).id == id by {
        assert(ids.contains(id));
        let k = choose|k: int| 0 <= k < ids.len() && ids[k] == id;
        assert(!kept[ids[k]].in_one());
    }
}

/// A compaction writes one record for every task that is still running, and none
/// for a task that was acknowledged or given up. Only where the payload would be
/// too long for the record of the task does it get a second one.
pub proof fn law_one_record_for_each_running_task(log: Seq<EntryView>, id: u64)
    ensures
        live_in(log, id) ==> exists|i: int|
            0 <= i < heads(log).len() && (#[trigger] heads(log)[i]).id == id,
        !live_in(log, id) ==> forall|i: int|
            0 <= i < compacted(log).len() ==> (#[trigger] compacted(log)[i]).id != id,
        forall|i: int, j: int|
            0 <= i < j < heads(log).len() ==> (#[trigger] heads(log)[i]).id < (
            #[trigger] heads(log)[j]).id,
        (forall|x: u64| #[trigger] live_in(log, x) ==> survivors(log)[x].in_one()) ==> compacted(log)
            == heads(log),
{
    lemma_compacted(log);
    assert forall|i: int| 0 <= i < compacted(log).len() implies live_in(
        log,
        (#[trigger] compacted(log)[i]).id,
    ) by {
        if i < spares(log).len() {
            assert(compacted(log)[i] == spares(log)[i]);
        } else {
            assert(compacted(log)[i] == heads(log)[i - spares(log).len()]);
        }
    }
    if forall|x: u64| #[trigger] live_in(log, x) ==> survivors(log)[x].in_one() {
        if spares(log).len() > 0 {
            assert(live_in(log, spares(log)[0].id));
            assert(false);
        }
        assert(compacted(log) =~= heads(log));
    }
}

/// What some records say of a task that stand by ascending id in segment 1.
proof fn lemma_listed(records: Seq<RecordView>, at: int, id: u64)
    requires
        forall|i: int, j: int|
            0 <= i < j < records.len() ==> (#[trigger] records[i]).id < (#[trigger] records[j]).id,
        forall|i: int|
            0 <= i < records.len() ==> !(#[trigger] records[i]).op_type.is_terminal_spec(),
    ensures
        ({
            let log = placed(1, records, at);
            &&& forall|i: int|
                0 <= i < records.len() && (#[trigger] records[i]).id == id ==> {
                    let carries = carries_payload(records[i]);
                    &&& last_entry(log, id) == Some(log[i])
                    &&& log[i].record == records[i]
                    &&& carried(log, id) == carries
                    &&& last_carrier(log, id) == (if carries {
                        Some(log[i])
                    } else {
                        None
                    })
                    &&& payload_since(log, id) == (if carries {
                        Some(task_payload(records[i]))
                    } else {
                        None
                    })
                    &&& decides(log, id) == carries
                }
            &&& (forall|i: int| 0 <= i < records.len() ==> (#[trigger] records[i]).id != id) ==> {
                &&& last_entry(log, id) is None
                &&& last_carrier(log, id) is None
                &&& !carried(log, id)
                &&& payload_since(log, id) is None
                &&& !decides(log, id)
            }
        }),
{
    let log = placed(1, records, at);
    lemma_placed(1, records, at);
    assert forall|i: int| 0 <= i < records.len() && (#[trigger] records[i]).id == id implies ({
        let carries = carries_payload(records[i]);
        &&& last_entry(log, id) == Some(log[i])
        &&& log[i].record == records[i]
        &&& carried(log, id) == carries
        &&& last_carrier(log, id) == (if carries {
            Some(log[i])
        } else {
            None
        })
        &&& payload_since(log, id) == (if carries {
            Some(task_payload(records[i]))
        } else {
            None
        })
        &&& decides(log, id) == carries
    }) by {
        assert(log[i].record == records[i]);
        assert forall|j: int| 0 <= j < log.len() && j != i implies (#[trigger] log[j]).record.id
            != log[i].record.id by {
            assert(log[j].record == records[j]);
            if j < i {
                assert(records[j].id < records[i].id);
            } else {
                assert(records[i].id < records[j].id);
            }
        }
        lemma_mentioned_once(log, i);
    }
    if forall|i: int| 0 <= i < records.len() ==> (#[trigger] records[i]).id != id {
        assert forall|j: int| 0 <= j < log.len() implies (#[trigger] log[j]).record.id != id by {
            assert(log[j].record == records[j]);
        }
        lemma_not_mentioned(log, id);
    }
}

/// Where the records of two lists stand when one list follows the other.
proof fn lemma_placed_on(first: Seq<RecordView>, second: Seq<RecordView>, at: int)
    ensures
        placed(1, first + second, at) == placed(1, first, at) + placed(
            1,
            second,
            at + frames(first).len(),
        ),
        frames(first + second) == frames(first) + frames(second),
    decreases first.len(),
{
    let all = first + second;
    if first.len() == 0 {
        assert(all =~= second);
        assert(placed(1, first, at) + placed(1, second, at) =~= placed(1, second, at));
        assert(frames(first) + frames(second) =~= frames(second));
    } else {
        let rest = first.skip(1);
        let next = at + first[0].encoded().len();
        lemma_placed_on(rest, second, next);
        assert(all.skip(1) =~= rest + second);
        assert(all[0] == first[0]);
        let one = seq![EntryView { segment: 1, offset: at as u64, record: first[0] }];
        let beyond = placed(1, second, at + frames(first).len());
        assert(next + frames(rest).len() == at + frames(first).len());
        assert(one + (placed(1, rest, next) + beyond) =~= (one + placed(1, rest, next)) + beyond);
        assert(first[0].encoded() + (frames(rest) + frames(second)) =~= (first[0].encoded()
            + frames(rest)) + frames(second));
    }
}

/// Where a record stands.
proof fn lemma_placed_offset(records: Seq<RecordView>, at: int, i: int)
    requires
        0 <= i < records.len(),
    ensures
        placed(1, records, at)[i].offset == (at + frames(records.take(i)).len()) as u64,
        placed(1, records, at)[i].segment == 1,
    decreases records.len(),
{
    if i == 0 {
        assert(records.take(0) =~= Seq::<RecordView>::empty());
    } else {
        let rest = records.skip(1);
        let next = at + records[0].encoded().len();
        lemma_placed_offset(rest, next, i - 1);
        lemma_placed(1, rest, next);
        assert(placed(1, records, at)[i] == placed(1, rest, next)[i - 1]);
        assert(records.take(i).skip(1) =~= rest.take(i - 1));
        assert(records.take(i)[0] == records[0]);
    }
}

/// The offset of a record.
proof fn lemma_offsets(records: Seq<RecordView>, at: nat, i: int)
    requires
        0 <= i < records.len(),
        forall|a: int, b: int|
            0 <= a < b < records.len() ==> (#[trigger] records[a]).id < (#[trigger] records[b]).id,
    ensures
        offsets(records, at).contains_key(records[i].id),
        offsets(records, at)[records[i].id] == (at + frames(records.take(i)).len()) as u64,
    decreases records.len(),
{
    let head = records.drop_last();
    assert(records.last() == records[records.len() - 1]);
    if i < head.len() {
        assert forall|a: int, b: int| 0 <= a < b < head.len() implies (#[trigger] head[a]).id < (
        #[trigger] head[b]).id by {
            assert(head[a] == records[a]);
            assert(head[b] == records[b]);
        }
        lemma_offsets(head, at, i);
        assert(head[i] == records[i]);
        assert(head.take(i) =~= records.take(i));
    } else {
        assert(head =~= records.take(i));
    }
}

/// An offset belongs to a record.
proof fn lemma_offsets_name_records(records: Seq<RecordView>, at: nat)
    ensures
        forall|id: u64| #[trigger]
            offsets(records, at).contains_key(id) ==> exists|i: int|
                0 <= i < records.len() && (#[trigger] records[i]).id == id,
    decreases records.len(),
{
    if records.len() > 0 {
        let head = records.drop_last();
        lemma_offsets_name_records(head, at);
        assert forall|id: u64| #[trigger] offsets(records, at).contains_key(id) implies exists|
            i: int,
        |
            0 <= i < records.len() && (#[trigger] records[i]).id == id by {
            if id == records.last().id {
                assert(records[records.len() - 1].id == id);
            } else {
                assert(offsets(head, at).contains_key(id));
                let i = choose|i: int| 0 <= i < head.len() && (#[trigger] head[i]).id == id;
                assert(records[i].id == id);
            }
        }
    }
}

/// What the compacted segment says of a task, and where.
pub proof fn lemma_kept(closed: Seq<EntryView>, id: u64)
    ensures
        ({
            let log = placed(1, compacted(closed), 0);
            if live_in(closed, id) {
                let kept = survivors(closed)[id];
                &&& last_entry(log, id) is Some
                &&& (last_entry(log, id)->0).record == kept.head()
                &&& live_in(log, id)
                &&& same_task(kept.head(), kept.latest)
                &&& payload_since(log, id) == kept.payload
                &&& kept.payload is Some ==> {
                    &&& carried(log, id)
                    &&& last_carrier(log, id) is Some
                    &&& task_payload((last_carrier(log, id)->0).record) == kept.payload->0
                    &&& ((last_carrier(log, id)->0).segment, (last_carrier(log, id)->0).offset) == (
                        1u64,
                        payload_offsets(closed)[id],
                    )
                }
                &&& ((last_entry(log, id)->0).segment, (last_entry(log, id)->0).offset) == (
                    1u64,
                    head_offsets(closed)[id],
                )
                &&& head_offsets(closed).contains_key(id)
                &&& payload_offsets(closed).contains_key(id)
            } else {
                &&& last_entry(log, id) is None
                &&& last_carrier(log, id) is None
                &&& !carried(log, id)
                &&& !head_offsets(closed).contains_key(id)
                &&& !payload_offsets(closed).contains_key(id)
            }
        }),
{
    reveal(head_offsets);
    reveal(payload_offsets);
    let a = spares(closed);
    let b = heads(closed);
    let at = frames(a).len();
    let first = placed(1, a, 0);
    let second = placed(1, b, at as int);
    let log = placed(1, compacted(closed), 0);
    lemma_compacted(closed);
    lemma_placed_on(a, b, 0);
    assert forall|i: int| 0 <= i < b.len() implies !(#[trigger] b[i]).op_type.is_terminal_spec() by {
        lemma_survivor_id(closed, b[i].id);
        lemma_survivor_payload(closed, b[i].id);
        lemma_head(survivors(closed)[b[i].id]);
    }
    lemma_listed(a, 0, id);
    lemma_listed(b, at as int, id);
    lemma_concatenated(first, second, id);
    lemma_payload_since_on(first, second, id);
    lemma_carried_on(first, second, id);
    lemma_offsets_name_records(b, at);
    lemma_offsets_name_records(a, 0);
    if live_in(closed, id) {
        let kept = survivors(closed)[id];
        lemma_survivor_id(closed, id);
        lemma_survivor_payload(closed, id);
        lemma_head(kept);
        let i = choose|i: int| 0 <= i < b.len() && (#[trigger] b[i]).id == id;
        assert(b[i] == kept.head());
        lemma_placed_offset(b, at as int, i);
        lemma_offsets(b, at, i);
        if kept.in_one() {
            assert forall|k: int| 0 <= k < a.len() implies (#[trigger] a[k]).id != id by {}
            assert(!offsets(a, 0).contains_key(id));
        } else {
            let k = choose|k: int| 0 <= k < a.len() && (#[trigger] a[k]).id == id;
            assert(a[k] == kept.spare());
            lemma_placed_offset(a, 0, k);
            lemma_offsets(a, 0, k);
            lemma_placed(1, b, at as int);
            assert forall|j: int|
                0 <= j < second.len() && (#[trigger] second[j]).record.id == id implies !second[j].record.op_type.is_terminal_spec()
                && second[j].record.priority == last_priority(first, id) by {
                assert(second[j].record == b[j]);
            }
            lemma_goes_on(first, second, id);
        }
    } else {
        assert forall|i: int| 0 <= i < b.len() implies (#[trigger] b[i]).id != id by {}
        assert forall|i: int| 0 <= i < a.len() implies (#[trigger] a[i]).id != id by {}
    }
}

/// A payload of a log that was read can be written down.
proof fn lemma_payload_fits(log: Seq<EntryView>, id: u64)
    requires
        forall|i: int| 0 <= i < log.len() ==> (#[trigger] log[i]).record.encodable(),
    ensures
        payload_since(log, id) is Some ==> (payload_since(log, id)->0).len() <= u32::MAX,
    decreases log.len(),
{
    if log.len() > 0 {
        let head = log.drop_last();
        assert forall|i: int| 0 <= i < head.len() implies (#[trigger] head[i]).record.encodable() by {
            assert(head[i] == log[i]);
        }
        lemma_payload_fits(head, id);
        assert(log[log.len() - 1] == log.last());
        assert(log.last().record.encodable());
    }
}

/// The records that a compaction writes can be written down.
proof fn lemma_compacted_fits(log: Seq<EntryView>)
    requires
        forall|i: int| 0 <= i < log.len() ==> (#[trigger] log[i]).record.encodable(),
    ensures
        forall|i: int|
            0 <= i < compacted(log).len() ==> (#[trigger] compacted(log)[i]).encodable(),
{
    lemma_compacted(log);
    assert forall|i: int| 0 <= i < compacted(log).len() implies (#[trigger] compacted(
        log,
    )[i]).encodable() by {
        let record = compacted(log)[i];
        if i < spares(log).len() {
            assert(record == spares(log)[i]);
        } else {
            assert(record == heads(log)[i - spares(log).len()]);
        }
        let id = record.id;
        let kept = survivors(log)[id];
        lemma_payload_fits(log, id);
        lemma_survivor_id(log, id);
        lemma_plain(kept.latest);
        lemma_last_entry(log, id);
        let e = last_entry(log, id)->0;
        let k = choose|k: int| 0 <= k < log.len() && log[k] == e;
        assert(log[k].record.encodable());
    }
}

/// The segment that a compaction writes for some segments.
pub open spec fn compacted_segment(closed: Seq<SegmentView>) -> SegmentView {
    SegmentView { id: 1, bytes: frames(compacted(log_of(closed))) }
}

/// A replay of the new segment gives the records that the compaction kept, and
/// nothing else.
pub proof fn law_compacted_segment_reads_back(closed: Seq<SegmentView>)
    ensures
        entries_of(compacted_segment(closed)) == placed(1, compacted(log_of(closed)), 0),
        scan_end(compacted_segment(closed).bytes, 0) == compacted_segment(closed).bytes.len(),
{
    let log = log_of(closed);
    let records = compacted(log);
    let bytes = frames(records);
    let end = bytes.len() as int;
    lemma_log_fits(closed);
    lemma_compacted_fits(log);
    assert(bytes.skip(0) =~= bytes + Seq::<u8>::empty());
    lemma_scan_from(1, bytes, 0, records, Seq::empty());
    assert(frame_end(bytes, end) is None);
    assert(scanned(1, bytes, end) =~= Seq::<EntryView>::empty());
    assert(scan_end(bytes, end) == end);
    assert(placed(1, records, 0) + Seq::<EntryView>::empty() =~= placed(1, records, 0));
}

/// The compacted segment says the same of a task as the closed segments, also
/// where some of the last of them are read once more behind it.
pub proof fn lemma_kept_alike(first: Seq<EntryView>, second: Seq<EntryView>, id: u64)
    ensures
        alike(first + second, placed(1, compacted(first + second), 0) + second, id),
{
    let closed = first + second;
    let kept = placed(1, compacted(closed), 0);
    lemma_kept(closed, id);
    lemma_concatenated(first, second, id);
    lemma_concatenated(kept, second, id);
    if carried(closed, id) {
        lemma_carried(closed, id);
        lemma_carried_payload(closed, id);
        lemma_carried_on(first, second, id);
        if carried(second, id) {
            lemma_carried(second, id);
            lemma_carried_on(kept, second, id);
        } else {
            lemma_carried(first, id);
            lemma_carried_over(first, kept, second, id);
        }
    }
}

/// Compacting the new segment together with some of the last of the closed segments
/// gives the new segment once more.
pub proof fn lemma_compacted_again(first: Seq<EntryView>, second: Seq<EntryView>)
    ensures
        compacted(placed(1, compacted(first + second), 0) + second) == compacted(first + second),
{
    let closed = first + second;
    let kept = placed(1, compacted(closed), 0);
    let again = kept + second;
    assert forall|id: u64| #[trigger] live_in(again, id) == live_in(closed, id) by {
        lemma_kept_alike(first, second, id);
    }
    assert(survivors(again).dom() =~= survivors(closed).dom());
    let ids = ascending(survivors(closed).dom());
    lemma_survivors_finite(closed);
    lemma_ascending(survivors(closed).dom());
    assert forall|id: u64| #[trigger] live_in(closed, id) implies ({
        let a = survivors(again)[id];
        let b = survivors(closed)[id];
        &&& a.in_one() == b.in_one()
        &&& a.head() == b.head()
        &&& !b.in_one() ==> a.spare() == b.spare()
    }) by {
        lemma_kept(closed, id);
        lemma_concatenated(first, second, id);
        lemma_concatenated(kept, second, id);
        lemma_payload_since_on(first, second, id);
        lemma_payload_since_on(kept, second, id);
        lemma_survivor_id(closed, id);
        lemma_survivor_payload(closed, id);
        lemma_head_again(survivors(closed)[id]);
        assert(live_in(again, id));
        if last_entry(second, id) is None {
            lemma_silent_log_decides_nothing(second, id);
        }
    }
    assert forall|i: int| 0 <= i < ids.len() implies live_in(closed, #[trigger] ids[i]) by {
        assert(ids.contains(ids[i]));
    }
    assert(heads(again) =~= heads(closed));
    lemma_spares_agree(survivors(again), survivors(closed), ids);
}

/// Two ways of keeping some tasks give the same records apart.
proof fn lemma_spares_agree(a: Map<u64, Kept>, b: Map<u64, Kept>, ids: Seq<u64>)
    requires
        forall|i: int|
            0 <= i < ids.len() ==> {
                let id = #[trigger] ids[i];
                &&& a[id].in_one() == b[id].in_one()
                &&& !b[id].in_one() ==> a[id].spare() == b[id].spare()
            },
    ensures
        spares_of(a, ids) == spares_of(b, ids),
    decreases ids.len(),
{
    reveal(Seq::filter);
    if ids.len() > 0 {
        let head = ids.drop_last();
        assert forall|i: int| 0 <= i < head.len() implies ({
            let id = #[trigger] head[i];
            &&& a[id].in_one() == b[id].in_one()
            &&& !b[id].in_one() ==> a[id].spare() == b[id].spare()
        }) by {
            assert(head[i] == ids[i]);
        }
        lemma_spares_agree(a, b, head);
        assert(ids.last() == ids[ids.len() - 1]);
        if !a[ids.last()].in_one() {
            assert(spares_of(a, ids) =~= spares_of(a, head).push(a[ids.last()].spare()));
            assert(spares_of(b, ids) =~= spares_of(b, head).push(b[ids.last()].spare()));
        } else {
            assert(spares_of(a, ids) =~= spares_of(a, head));
            assert(spares_of(b, ids) =~= spares_of(b, head));
        }
    } else {
        assert(spares_of(a, ids) =~= spares_of(b, ids));
    }
}

/// A compaction changes nothing of what a replay finds. Whatever follows the
/// compacted segments in the log, the same tasks are running afterwards, with the
/// same priority, the same lease or number of retries, and the same payload.
pub proof fn law_compaction_preserves_tasks(
    closed: Seq<EntryView>,
    rest: Seq<EntryView>,
    id: u64,
)
    requires
        orderly(closed + rest),
    ensures
        ({
            let before = closed + rest;
            let after = placed(1, compacted(closed), 0) + rest;
            &&& live_in(after, id) == live_in(before, id)
            &&& live_in(before, id) ==> {
                &&& same_task(
                    (last_entry(after, id)->0).record,
                    (last_entry(before, id)->0).record,
                )
                &&& last_carrier(before, id) is Some
                &&& last_carrier(after, id) is Some
                &&& task_payload((last_carrier(after, id)->0).record) == task_payload(
                    (last_carrier(before, id)->0).record,
                )
            }
        }),
{
    let kept = placed(1, compacted(closed), 0);
    lemma_kept_alike(closed, Seq::empty(), id);
    assert(closed + Seq::<EntryView>::empty() =~= closed);
    assert(kept + Seq::<EntryView>::empty() =~= kept);
    lemma_alike_goes_on(closed, kept, rest, id);
    if live_in(closed + rest, id) {
        lemma_orderly_has_payload(closed + rest, id);
        lemma_carried(kept + rest, id);
    }
}

/// A task of the compacted segment is a running task of the closed segments.
proof fn lemma_kept_is_known(closed: Seq<EntryView>, i: int)
    requires
        0 <= i < placed(1, compacted(closed), 0).len(),
    ensures
        ({
            let kept = placed(1, compacted(closed), 0);
            let id = kept[i].record.id;
            &&& live_in(closed, id)
            &&& last_entry(kept, id) is Some
        }),
{
    let kept = placed(1, compacted(closed), 0);
    let id = kept[i].record.id;
    lemma_last_entry(kept, id);
    lemma_kept(closed, id);
}

/// The compacted segment creates a task before it says anything else of it.
proof fn lemma_kept_starts_once(closed: Seq<EntryView>, i: int, j: int)
    requires
        0 <= i < j < placed(1, compacted(closed), 0).len(),
        placed(1, compacted(closed), 0)[j].record.op_type == OpType::Created,
    ensures
        placed(1, compacted(closed), 0)[i].record.id != placed(1, compacted(closed), 0)[j].record.id,
{
    let a = spares(closed);
    let b = heads(closed);
    let all = compacted(closed);
    lemma_compacted(closed);
    lemma_placed(1, all, 0);
    let n = a.len() as int;
    if j < n {
        assert(all[i] == a[i]);
        assert(all[j] == a[j]);
    } else {
        assert(all[j] == b[j - n]);
        if i >= n {
            assert(all[i] == b[i - n]);
        } else {
            assert(all[i] == a[i]);
            if a[i].id == b[j - n].id {
                let id = a[i].id;
                lemma_survivor_id(closed, id);
                lemma_survivor_payload(closed, id);
                lemma_head(survivors(closed)[id]);
            }
        }
    }
}

/// A log stays orderly when its front is compacted, also where some of the last of
/// the compacted records are read once more, as long as those create no task that
/// is still running.
pub proof fn lemma_compacted_log_is_orderly(
    first: Seq<EntryView>,
    second: Seq<EntryView>,
    rest: Seq<EntryView>,
)
    requires
        orderly(first + second + rest),
        !creates(second, mentioned(placed(1, compacted(first + second), 0))),
    ensures
        orderly(placed(1, compacted(first + second), 0) + second + rest),
        forall|id: u64| #[trigger]
            alike(
                first + second + rest,
                placed(1, compacted(first + second), 0) + second + rest,
                id,
            ),
{
    reveal(orderly);
    reveal(starts_once);
    let closed = first + second;
    let before = closed + rest;
    let kept = placed(1, compacted(closed), 0);
    let after = kept + second + rest;
    assert forall|id: u64| #[trigger] alike(before, after, id) by {
        lemma_kept_alike(first, second, id);
        lemma_alike_goes_on(closed, kept + second, rest, id);
    }
    assert forall|id: u64| #[trigger] live_in(after, id) implies carried(after, id) by {
        assert(alike(before, after, id));
        assert(live_in(before, id));
    }
    assert forall|i: int, j: int|
        #![trigger after[i], after[j]]
        0 <= i < j < after.len() && after[j].record.op_type == OpType::Created implies after[i].record.id
        != after[j].record.id by {
        let cut = (first.len() - kept.len()) as int;
        if j >= kept.len() {
            assert(after[j] == before[j + cut]);
            if i >= kept.len() {
                assert(after[i] == before[i + cut]);
            } else if after[i].record.id == after[j].record.id {
                assert(after[i] == kept[i]);
                lemma_kept_is_known(closed, i);
                let id = kept[i].record.id;
                if j < kept.len() + second.len() {
                    assert(second[j - kept.len()] == after[j]);
                    assert(mentioned(kept).contains(id));
                } else {
                    lemma_last_entry(closed, id);
                    let e = last_entry(closed, id)->0;
                    let k = choose|k: int| 0 <= k < closed.len() && closed[k] == e;
                    assert(before[k] == closed[k]);
                }
            }
        } else {
            lemma_kept_starts_once(closed, i, j);
        }
    }
}

/// How often an id is among those below a limit.
proof fn lemma_earlier_count(ids: Seq<u64>, active: u64, id: u64)
    ensures
        ids.filter(|x: u64| x < active).to_multiset().count(id) == (if id < active {
            ids.to_multiset().count(id)
        } else {
            0
        }),
    decreases ids.len(),
{
    broadcast use vstd::seq_lib::group_to_multiset_ensures;
    broadcast use vstd::multiset::group_multiset_axioms;

    reveal(Seq::filter);
    let earlier = |x: u64| x < active;
    if ids.len() > 0 {
        let head = ids.drop_last();
        let last = ids.last();
        lemma_earlier_count(head, active, id);
        assert(ids =~= head.push(last));
        assert(ids.filter(earlier) == (if last < active {
            head.filter(earlier).push(last)
        } else {
            head.filter(earlier)
        }));
    } else {
        assert(ids.filter(earlier) =~= ids);
    }
}

/// A compaction takes a segment exactly if its file is there and it comes before the
/// active one, however far before. So the active segment is never taken, and the
/// first one is not left out.
pub proof fn law_closed_segments_are_the_earlier_ones(
    names: Seq<String>,
    active: u64,
    planned: Seq<u64>,
    id: u64,
)
    requires
        sorts(planned, closed_among(names, active)) || planned == closed_among(names, active),
    ensures
        planned.contains(id) <==> id < active && exists|i: int|
            0 <= i < names.len() && segment_of_file((#[trigger] names[i])@) == Some(id),
        planned.to_multiset().count(id) == (if id < active {
            segments_among(names).to_multiset().count(id)
        } else {
            0
        }),
{
    broadcast use vstd::seq_lib::group_to_multiset_ensures;

    let all = segments_among(names);
    lemma_earlier_count(all, active, id);
    law_segments_are_their_files(names, names[0], id);
    assert(planned.contains(id) <==> planned.to_multiset().count(id) > 0);
    assert(all.contains(id) <==> all.to_multiset().count(id) > 0);
}

/// What a compaction reads and the segments from the active one on are the whole log:
/// in the list of all segments, those that are taken stand in front, and those that
/// stay follow.
pub proof fn law_a_compaction_reads_the_front_of_the_log(
    names: Seq<String>,
    active: u64,
    all: Seq<u64>,
    planned: Seq<u64>,
)
    requires
        sorts(all, segments_among(names)),
        sorts(planned, closed_among(names, active)),
    ensures
        planned.len() <= all.len(),
        planned == all.take(planned.len() as int),
        forall|i: int| 0 <= i < planned.len() ==> #[trigger] all[i] < active,
        forall|i: int| planned.len() <= i < all.len() ==> #[trigger] all[i] >= active,
{
    broadcast use vstd::seq_lib::group_to_multiset_ensures;

    let front = all.filter(|x: u64| x < active);
    lemma_front(all, active);
    assert(planned.to_multiset() =~= front.to_multiset()) by {
        assert forall|id: u64| planned.to_multiset().count(id) == front.to_multiset().count(id) by {
            lemma_earlier_count(all, active, id);
            lemma_earlier_count(segments_among(names), active, id);
        }
    }
    let leq = |a: u64, b: u64| a <= b;
    assert(vstd::relations::sorted_by(planned, leq));
    assert(vstd::relations::sorted_by(front, leq));
    vstd::seq_lib::lemma_sorted_unique(planned, front, leq);
}

/// Of ids in order, those below a limit stand in front.
proof fn lemma_front(all: Seq<u64>, active: u64)
    requires
        forall|i: int, j: int|
            #![trigger all[i], all[j]]
            0 <= i < j < all.len() ==> all[i] <= all[j],
    ensures
        ({
            let front = all.filter(|x: u64| x < active);
            &&& front.len() <= all.len()
            &&& front == all.take(front.len() as int)
            &&& forall|i: int| 0 <= i < front.len() ==> #[trigger] all[i] < active
            &&& forall|i: int| front.len() <= i < all.len() ==> #[trigger] all[i] >= active
        }),
    decreases all.len(),
{
    reveal(Seq::filter);
    let earlier = |x: u64| x < active;
    let front = all.filter(earlier);
    if all.len() > 0 {
        let head = all.drop_last();
        let before = head.filter(earlier);
        let last = all.last();
        assert forall|i: int, j: int|
            #![trigger head[i], head[j]]
            0 <= i < j < head.len() implies head[i] <= head[j] by {
            assert(all[i] <= all[j]);
        }
        lemma_front(head, active);
        assert(all[all.len() - 1] == last);
        assert forall|i: int| 0 <= i < before.len() implies #[trigger] all[i] < active by {
            assert(head[i] < active);
        }
        assert forall|i: int| before.len() <= i < head.len() implies #[trigger] all[i]
            >= active by {
            assert(head[i] >= active);
        }
        if last < active {
            if before.len() < head.len() {
                assert(all[before.len() as int] <= all[all.len() - 1]);
                assert(false);
            }
            assert(front == before.push(last));
            assert(front =~= all.take(front.len() as int));
        } else {
            assert(front == before);
            assert(front =~= all.take(front.len() as int));
        }
    } else {
        assert(front =~= all.take(0));
    }
}

/// A compaction keeps as many tasks as are still running.
pub proof fn law_every_running_task_is_counted(log: Seq<EntryView>)
    ensures
        Set::new(|id: u64| live_in(log, id)).finite(),
        heads(log).len() == Set::new(|id: u64| live_in(log, id)).len(),
{
    lemma_survivors_finite(log);
    lemma_ascending(survivors(log).dom());
    assert(survivors(log).dom() =~= Set::new(|id: u64| live_in(log, id)));
}

/// One record is enough for a task unless its payload does not fit behind the latest
/// record: what that carries, the byte between and the payload would be longer than a
/// header can state.
pub proof fn law_when_one_record_is_enough(kept: Kept)
    requires
        !kept.latest.op_type.is_terminal_spec(),
    ensures
        ({
            let op = kept.latest.op_type;
            let start = if op == OpType::Leased {
                13int
            } else {
                1int
            };
            let fits = kept.payload is None || op == OpType::Created || start + 1 + (
            kept.payload->0).len() <= 4_294_967_295;
            &&& kept.in_one() <==> fits
            &&& kept.payload is Some && fits && op != OpType::Created ==> kept.head() == merged(
                kept.latest,
                kept.payload->0,
            )
            &&& kept.payload is None || !fits ==> kept.head() == plain(kept.latest)
            &&& kept.payload is Some && op == OpType::Created ==> kept.head() == kept.latest
            &&& kept.spare().id == kept.latest.id
            &&& kept.spare().priority == kept.latest.priority
            &&& kept.spare().op_type == OpType::Created
            &&& kept.spare().payload == kept.payload->0
        }),
{
}

/// After a compaction every segment that it took is deleted, except segment 1, whose
/// place the new segment has taken.
pub proof fn law_what_was_compacted_is_deleted(closed: Seq<u64>, id: u64)
    ensures
        closed.filter(|x: u64| x > 1).contains(id) <==> closed.contains(id) && id != 1 && id != 0,
{
    let late = |x: u64| x > 1;
    let left = closed.filter(late);
    if left.contains(id) {
        let k = choose|k: int| 0 <= k < left.len() && left[k] == id;
        closed.lemma_filter_pred(late, k);
        lemma_filtered_is_there(closed, id);
    }
    if closed.contains(id) && id > 1 {
        let k = choose|k: int| 0 <= k < closed.len() && closed[k] == id;
        closed.lemma_filter_contains(late, k);
    }
}

proof fn lemma_filtered_is_there(closed: Seq<u64>, id: u64)
    ensures
        closed.filter(|x: u64| x > 1).contains(id) ==> closed.contains(id),
    decreases closed.len(),
{
    reveal(Seq::filter);
    let late = |x: u64| x > 1;
    if closed.len() > 0 && closed.filter(late).contains(id) {
        let head = closed.drop_last();
        lemma_filtered_is_there(head, id);
        let k = choose|k: int| 0 <= k < closed.filter(late).len() && closed.filter(late)[k] == id;
        assert(closed[closed.len() - 1] == closed.last());
        if k < head.filter(late).len() {
            assert(head.filter(late)[k] == id);
            let i = choose|i: int| 0 <= i < head.len() && head[i] == id;
            assert(closed[i] == id);
        }
    }
}

/// What is read of some segments is the value of each of them, in their order.
pub proof fn law_segments_are_read_in_order(segments: Seq<Segment>, i: int)
    requires
        0 <= i < segments.len(),
    ensures
        segment_views(segments).len() == segments.len(),
        segment_views(segments)[i].id == segments[i].id,
        segment_views(segments)[i].bytes == segments[i].bytes@,
{
}

/// A compaction keeps the latest record of a running task. It keeps the payload that
/// the log has carried last, unless the task has come to its end since, or the log has
/// not carried it at all.
pub proof fn law_what_a_compaction_keeps(log: Seq<EntryView>, i: int, id: u64)
    requires
        0 <= i < log.len(),
        log[i].record.id == id,
        is_carrier(log[i]) || log[i].record.op_type == OpType::Acked || log[i].record.op_type
            == OpType::DeadLettered,
        forall|j: int|
            i < j < log.len() && (#[trigger] log[j]).record.id == id ==> {
                &&& !is_carrier(log[j])
                &&& log[j].record.op_type != OpType::Acked
                &&& log[j].record.op_type != OpType::DeadLettered
            },
    ensures
        survivors(log).contains_key(id) <==> live_in(log, id),
        live_in(log, id) ==> {
            &&& survivors(log)[id].latest == (last_entry(log, id)->0).record
            &&& is_carrier(log[i]) ==> survivors(log)[id].payload == Some(
                task_payload(log[i].record),
            )
            &&& !is_carrier(log[i]) ==> survivors(log)[id].payload is None
        },
{
    lemma_latest_payload(log, i, id);
}

proof fn lemma_latest_payload(log: Seq<EntryView>, i: int, id: u64)
    requires
        0 <= i < log.len(),
        log[i].record.id == id,
        is_carrier(log[i]) || log[i].record.op_type == OpType::Acked || log[i].record.op_type
            == OpType::DeadLettered,
        forall|j: int|
            i < j < log.len() && (#[trigger] log[j]).record.id == id ==> {
                &&& !is_carrier(log[j])
                &&& log[j].record.op_type != OpType::Acked
                &&& log[j].record.op_type != OpType::DeadLettered
            },
    ensures
        payload_since(log, id) == (if is_carrier(log[i]) {
            Some(task_payload(log[i].record))
        } else {
            None
        }),
    decreases log.len(),
{
    if i < log.len() - 1 {
        let head = log.drop_last();
        assert(log[log.len() - 1] == log.last());
        assert(head[i] == log[i]);
        assert forall|j: int|
            i < j < head.len() && (#[trigger] head[j]).record.id == id implies !is_carrier(head[j])
            && head[j].record.op_type != OpType::Acked && head[j].record.op_type
            != OpType::DeadLettered by {
            assert(head[j] == log[j]);
        }
        lemma_latest_payload(head, i, id);
    }
}

} // verus!
