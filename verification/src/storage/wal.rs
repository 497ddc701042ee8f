//! The segmented write-ahead log.
//!
//! Records are appended to the active segment, the one with the highest id, and
//! the log moves on to a new segment when the active one has reached its size.
//! The types here keep the books: which segment is active and how long it is,
//! which segment files are open for reading, how far the replay has come. The
//! program does the reading and the writing and reports how it went.

use super::ids::{sort_unstable, sorts};
use super::names::{ends_with, is_leftover, law_segment_names, leftover_name, parse_segment_name, segment_of_name};
use super::record::{Record, RecordView};
use super::segment::{find_frame_end, read_frame, scan_end, scanned, valid_len, EntryView, LogEntry, ReadError};
use super::segment::read_result;
use crate::text::parsed_number;
use vstd::prelude::*;

verus! {

/// The size at which a segment is closed: 64 MiB.
pub const DEFAULT_MAX_SEGMENT_SIZE: u64 = 67_108_864;

/// How many segment files are kept open for reading.
pub const MAX_LRU_CACHE_SIZE: usize = 8;

/// How the writing of a record went.
#[derive(Debug, Clone, Copy, PartialEq, Eq, Structural)]
pub enum AppendOutcome {
    /// The whole frame was written.
    Written,
    /// The frame could not be written, and the segment was cut back.
    WriteFailed,
    /// The segment that was to be closed could not be synced.
    RotationSyncFailed,
    /// The new segment could not be opened.
    RotationOpenFailed,
}

/// Where the next record goes.
#[derive(Debug, Clone, Copy, PartialEq, Eq, Structural)]
pub struct AppendPlan {
    /// Whether the active segment is to be synced and a new one opened first.
    pub rotate: bool,
    pub segment: u64,
    pub offset: u64,
}

/// The books of the log.
#[derive(Debug)]
pub struct Wal {
    active_segment_id: u64,
    current_size: u64,
    max_segment_size: u64,
}

/// The value of a [`Wal`].
pub struct WalView {
    pub active_segment_id: u64,
    pub current_size: u64,
    pub max_segment_size: u64,
}

impl WalView {
    /// Whether the next record goes to a new segment.
    pub open spec fn rotates(self) -> bool {
        self.current_size >= self.max_segment_size
    }

    /// The log once it is ready for the next record.
    pub open spec fn ready(self) -> WalView {
        if self.rotates() {
            WalView {
                active_segment_id: (self.active_segment_id + 1) as u64,
                current_size: 0,
                ..self
            }
        } else {
            self
        }
    }

    /// Where the next record goes.
    pub open spec fn next_place(self) -> (u64, u64) {
        (self.ready().active_segment_id, self.ready().current_size)
    }

    /// Whether there are numbers left for the next segment and the next offset
    /// behind a frame of `len` bytes.
    pub open spec fn has_room(self, len: nat) -> bool {
        &&& self.rotates() ==> self.active_segment_id < u64::MAX
        &&& self.ready().current_size + len <= u64::MAX
    }

    /// The log after an attempt to append a frame of `len` bytes.
    pub open spec fn after(self, len: nat, outcome: AppendOutcome) -> WalView {
        match outcome {
            AppendOutcome::Written => WalView {
                current_size: (self.ready().current_size + len) as u64,
                ..self.ready()
            },
            AppendOutcome::WriteFailed => self.ready(),
            AppendOutcome::RotationSyncFailed => self,
            AppendOutcome::RotationOpenFailed => if self.rotates() {
                WalView { active_segment_id: (self.active_segment_id + 1) as u64, ..self }
            } else {
                self
            },
        }
    }
}

impl View for Wal {
    type V = WalView;

    closed spec fn view(&self) -> WalView {
        WalView {
            active_segment_id: self.active_segment_id,
            current_size: self.current_size,
            max_segment_size: self.max_segment_size,
        }
    }
}

/// What the files of a directory are.
#[derive(Debug)]
pub struct DirSurvey {
    /// The positions of the files that a crash left behind.
    pub leftovers: Vec<usize>,
    /// The segments that are there, in ascending order.
    pub segment_ids: Vec<u64>,
}

/// The segment that a file is, if it is one.
pub open spec fn segment_of_file(name: Seq<char>) -> Option<u64> {
    if leftover_name(name) {
        None
    } else {
        segment_of_name(name)
    }
}

/// The ids of the segments among some file names, one for each file.
pub open spec fn segments_among(names: Seq<String>) -> Seq<u64>
    decreases names.len(),
{
    if names.len() == 0 {
        Seq::empty()
    } else {
        let before = segments_among(names.drop_last());
        match segment_of_file(names.last()@) {
            Some(id) => before.push(id),
            None => before,
        }
    }
}

/// Whether `positions` are the places of the leftover files, in order.
pub open spec fn leftovers_among(names: Seq<String>, positions: Seq<usize>) -> bool {
    &&& forall|k: int|
        0 <= k < positions.len() ==> (#[trigger] positions[k]) < names.len() && leftover_name(
            names[positions[k] as int]@,
        )
    &&& forall|i: int|
        0 <= i < names.len() && leftover_name(#[trigger] names[i]@) ==> positions.contains(
            i as usize,
        )
    &&& forall|k: int, l: int| 0 <= k < l < positions.len() ==> positions[k] < positions[l]
}

/// The ids of the segments among some file names, in the order of the files.
pub(crate) fn list_segments(names: &Vec<String>) -> (ids: Vec<u64>)
    ensures
        ids@ == segments_among(names@),
{
    let mut ids: Vec<u64> = Vec::new();
    let mut i: usize = 0;
    assert(ids@ =~= segments_among(names@.take(0)));
    while i < names.len()
        invariant
            i <= names@.len(),
            ids@ == segments_among(names@.take(i as int)),
        decreases names@.len() - i,
    {
        let name = names[i].as_str();
        proof {
            assert(names@.take(i + 1).drop_last() =~= names@.take(i as int));
            assert(names@.take(i + 1).last()@ == name@);
        }
        if !is_leftover(name) {
            match parse_segment_name(name) {
                Some(id) => {
                    ids.push(id);
                },
                None => {},
            }
        }
        i = i + 1;
    }
    assert(names@.take(i as int) =~= names@);
    ids
}

impl Wal {
    /// Sorts out the files of a directory.
    pub fn survey(names: &Vec<String>) -> (survey: DirSurvey)
        ensures
            leftovers_among(names@, survey.leftovers@),
            sorts(survey.segment_ids@, segments_among(names@)),
            forall|id: u64| #[trigger]
                survey.segment_ids@.contains(id) <==> exists|i: int|
                    0 <= i < names@.len() && segment_of_file((#[trigger] names@[i])@) == Some(id),
            forall|i: int|
                0 <= i < names@.len() ==> (survey.leftovers@.contains(i as usize)
                    <==> leftover_name((#[trigger] names@[i])@)),
    {
        let mut leftovers: Vec<usize> = Vec::new();
        let mut i: usize = 0;
        while i < names.len()
            invariant
                i <= names@.len(),
                leftovers_among(names@.take(i as int), leftovers@),
            decreases names@.len() - i,
        {
            let ghost before = names@.take(i as int);
            let ghost now = names@.take(i + 1);
            let ghost old_leftovers = leftovers@;
            let name = names[i].as_str();
            assert(now.last()@ == name@);
            if is_leftover(name) {
                leftovers.push(i);
            }
            proof {
                assert forall|j: int| 0 <= j < i implies now[j] == before[j] by {}
                assert forall|j: int|
                    0 <= j < now.len() && leftover_name(
                        #[trigger] now[j]@,
                    ) implies leftovers@.contains(j as usize) by {
                    if j < i {
                        assert(before[j]@ == now[j]@);
                        assert(old_leftovers.contains(j as usize));
                        let k = choose|k: int|
                            0 <= k < old_leftovers.len() && old_leftovers[k] == j as usize;
                        assert(leftovers@[k] == j as usize);
                    } else {
                        assert(leftovers@[leftovers@.len() - 1] == j as usize);
                    }
                }
                assert forall|k: int| 0 <= k < leftovers@.len() implies (#[trigger] leftovers@[k])
                    < now.len() && leftover_name(now[leftovers@[k] as int]@) by {
                    if k < old_leftovers.len() {
                        assert(old_leftovers[k] == leftovers@[k]);
                        assert(before[old_leftovers[k] as int] == now[old_leftovers[k] as int]);
                    }
                }
            }
            i = i + 1;
        }
        assert(names@.take(i as int) =~= names@);
        let mut ids = list_segments(names);
        sort_unstable(&mut ids);
        proof {
            broadcast use vstd::seq_lib::group_to_multiset_ensures;

            let all = segments_among(names@);
            assert forall|id: u64| #[trigger] ids@.contains(id) <==> exists|k: int|
                0 <= k < names@.len() && segment_of_file((#[trigger] names@[k])@) == Some(id) by {
                lemma_segments_among(names@, id);
                assert(ids@.contains(id) <==> ids@.to_multiset().count(id) > 0);
                assert(all.contains(id) <==> all.to_multiset().count(id) > 0);
            }
        }
        DirSurvey { leftovers, segment_ids: ids }
    }

    /// Opens the log at its active segment, whose bytes are handed in. Whatever
    /// stands behind the last whole frame is not part of the log: the file is
    /// to be cut back to the size that the log starts with.
    pub fn open(active_segment_id: u64, active: &[u8], max_segment_size: Option<u64>) -> (wal: Self)
        ensures
            wal@ == (WalView {
                active_segment_id,
                current_size: scan_end(active@, 0) as u64,
                max_segment_size: match max_segment_size {
                    Some(size) => size,
                    None => DEFAULT_MAX_SEGMENT_SIZE,
                },
            }),
            wal@.current_size == scan_end(active@, 0),
            wal@.current_size <= active@.len(),
            max_segment_size is None ==> wal@.max_segment_size == 64 * 1024 * 1024,
    {
        let current_size: u64 = valid_len(active) as u64;
        Wal {
            active_segment_id,
            current_size,
            max_segment_size: match max_segment_size {
                Some(size) => size,
                None => DEFAULT_MAX_SEGMENT_SIZE,
            },
        }
    }

    /// Where the next record goes.
    pub fn plan_append(&self) -> (plan: AppendPlan)
        requires
            self@.rotates() ==> self@.active_segment_id < u64::MAX,
        ensures
            plan.rotate == self@.rotates(),
            (plan.segment, plan.offset) == self@.next_place(),
    {
        if self.current_size >= self.max_segment_size {
            AppendPlan { rotate: true, segment: self.active_segment_id + 1, offset: 0 }
        } else {
            AppendPlan {
                rotate: false,
                segment: self.active_segment_id,
                offset: self.current_size,
            }
        }
    }

    /// Takes note of an attempt to append a record, and returns its place if it
    /// was written.
    pub fn append(&mut self, record: &Record, outcome: AppendOutcome) -> (place: Option<(u64, u64)>)
        requires
            old(self)@.has_room(record@.encoded().len()),
        ensures
            final(self)@ == old(self)@.after(record@.encoded().len(), outcome),
            place == (if outcome == AppendOutcome::Written {
                Some(old(self)@.next_place())
            } else {
                None
            }),
    {
        if self.current_size >= self.max_segment_size {
            match outcome {
                AppendOutcome::RotationSyncFailed => {
                    return None;
                },
                AppendOutcome::RotationOpenFailed => {
                    self.active_segment_id = self.active_segment_id + 1;
                    return None;
                },
                _ => {
                    self.active_segment_id = self.active_segment_id + 1;
                    self.current_size = 0;
                },
            }
        }
        match outcome {
            AppendOutcome::Written => {
                proof {
                    super::record::lemma_frame_layout(
                        record@,
                        super::checksum::crc32(record@.body()),
                    );
                }
                let offset: u64 = self.current_size;
                self.current_size = offset + record.frame_len();
                Some((self.active_segment_id, offset))
            },
            _ => None,
        }
    }

    pub fn active_segment_id(&self) -> (id: u64)
        ensures
            id == self@.active_segment_id,
    {
        self.active_segment_id
    }

    pub fn current_size(&self) -> (size: u64)
        ensures
            size == self@.current_size,
    {
        self.current_size
    }

    pub fn max_segment_size(&self) -> (size: u64)
        ensures
            size == self@.max_segment_size,
    {
        self.max_segment_size
    }
}

/// Whether an id is in a list.
pub fn contains_id(ids: &Vec<u64>, id: u64) -> (found: bool)
    ensures
        found == ids@.contains(id),
{
    let mut i: usize = 0;
    while i < ids.len()
        invariant
            i <= ids@.len(),
            forall|j: int| 0 <= j < i ==> ids@[j] != id,
        decreases ids@.len() - i,
    {
        if ids[i] == id {
            assert(ids@[i as int] == id);
            return true;
        }
        i = i + 1;
    }
    false
}

/// The segment files that are open for reading, the one used longest ago first.
#[derive(Debug)]
pub struct WalReader {
    read_cache: Vec<u64>,
}

impl View for WalReader {
    type V = Seq<u64>;

    closed spec fn view(&self) -> Seq<u64> {
        self.read_cache@
    }
}

impl WalReader {
    /// No segment is open twice, and no more are open than allowed.
    pub open spec fn wf(&self) -> bool {
        &&& self@.no_duplicates()
        &&& self@.len() <= MAX_LRU_CACHE_SIZE
    }

    pub fn new() -> (reader: Self)
        ensures
            reader.wf(),
            reader@ == Seq::<u64>::empty(),
    {
        WalReader { read_cache: Vec::with_capacity(MAX_LRU_CACHE_SIZE) }
    }

    /// Looks for an open segment. If it is there it becomes the one used last.
    pub fn touch(&mut self, segment_id: u64) -> (open: bool)
        requires
            old(self).wf(),
        ensures
            final(self).wf(),
            open == old(self)@.contains(segment_id),
            final(self)@ == (if open {
                old(self)@.remove(old(self)@.index_of(segment_id)).push(segment_id)
            } else {
                old(self)@
            }),
    {
        let mut i: usize = 0;
        while i < self.read_cache.len()
            invariant
                *self == *old(self),
                self.wf(),
                i <= self@.len(),
                forall|j: int| 0 <= j < i ==> self@[j] != segment_id,
            decreases self@.len() - i,
        {
            if self.read_cache[i] == segment_id {
                let ghost before = self@;
                let entry = self.read_cache.remove(i);
                self.read_cache.push(entry);
                proof {
                    assert(before[i as int] == segment_id);
                    assert(before.index_of(segment_id) == i);
                    let rest = before.remove(i as int);
                    assert(self@ =~= rest.push(segment_id));
                    assert forall|a: int, b: int|
                        0 <= a < self@.len() && 0 <= b < self@.len() && a
                            != b implies self@[a] != self@[b] by {
                        let pa = if a < i { a } else if a < rest.len() { a + 1 } else { i as int };
                        let pb = if b < i { b } else if b < rest.len() { b + 1 } else { i as int };
                        assert(self@[a] == before[pa]);
                        assert(self@[b] == before[pb]);
                    }
                }
                return true;
            }
            i = i + 1;
        }
        false
    }

    /// Takes note of a segment that has been opened, and returns the one that
    /// is to be closed for it.
    pub fn keep_open(&mut self, segment_id: u64) -> (evicted: Option<u64>)
        requires
            old(self).wf(),
            !old(self)@.contains(segment_id),
        ensures
            final(self).wf(),
            match evicted {
                Some(id) => old(self)@.len() == MAX_LRU_CACHE_SIZE && id == old(self)@[0] && final(self)@ == old(self)@.skip(1).push(segment_id),
                None => old(self)@.len() < MAX_LRU_CACHE_SIZE && final(self)@ == old(self)@.push(
                    segment_id,
                ),
            },
            evicted is Some <==> old(self)@.len() >= 8,
    {
        let ghost before = self@;
        if self.read_cache.len() >= MAX_LRU_CACHE_SIZE {
            let id: u64 = self.read_cache.remove(0);
            self.read_cache.push(segment_id);
            assert(self@ =~= before.skip(1).push(segment_id));
            Some(id)
        } else {
            self.read_cache.push(segment_id);
            assert(self@ =~= before.push(segment_id));
            None
        }
    }

    /// Forgets every open segment. A compaction replaces the files behind them.
    pub fn clear_cache(&mut self)
        ensures
            final(self).wf(),
            final(self)@ == Seq::<u64>::empty(),
    {
        self.read_cache.clear();
    }

    pub fn cached_count(&self) -> (count: usize)
        ensures
            count == self@.len(),
    {
        self.read_cache.len()
    }

    /// The open segments, the one used longest ago first.
    pub fn cached_segments(&self) -> (ids: Vec<u64>)
        ensures
            ids@ == self@,
    {
        let ids = self.read_cache.clone();
        assert(ids@ =~= self.read_cache@);
        ids
    }

    /// Reads the frame at `offset` of a segment.
    pub fn read_at(segment: &[u8], offset: u64) -> (result: Result<Option<Record>, ReadError>)
        ensures
            match result {
                Ok(Some(r)) => read_result(segment@, offset as int) == Ok::<_, ReadError>(
                    Some(r@),
                ),
                Ok(None) => read_result(segment@, offset as int) == Ok::<_, ReadError>(
                    None::<RecordView>,
                ),
                Err(e) => read_result(segment@, offset as int) == Err::<Option<RecordView>, _>(e),
            },
    {
        read_frame(segment, offset)
    }
}

/// What the replay of a log wants next.
#[derive(Debug)]
pub enum WalStep {
    /// The bytes of this segment.
    Open(u64),
    /// Nothing: here is the next record.
    Item(LogEntry),
    /// Nothing: there are no more records.
    Done,
}

/// The replay of a log, segment by segment.
#[derive(Debug)]
pub struct WalIteratorAll {
    segment_ids: Vec<u64>,
    current_segment_idx: usize,
    current_segment: Option<Vec<u8>>,
    current_offset: usize,
}

/// A segment that is being replayed, and how far it has been read.
pub struct OpenSegment {
    pub id: u64,
    pub bytes: Seq<u8>,
    pub at: int,
}

/// The value of a [`WalIteratorAll`].
pub struct WalIteratorView {
    /// The segments that have not been opened yet.
    pub unopened: Seq<u64>,
    /// The segment that is open.
    pub current: Option<OpenSegment>,
}

impl WalIteratorView {
    /// The records that are left of the open segment.
    pub open spec fn pending(self) -> Seq<EntryView> {
        match self.current {
            Some(open) => scanned(open.id, open.bytes, open.at),
            None => Seq::empty(),
        }
    }
}

impl View for WalIteratorAll {
    type V = WalIteratorView;

    closed spec fn view(&self) -> WalIteratorView {
        match self.current_segment {
            Some(bytes) => WalIteratorView {
                unopened: self.segment_ids@.skip(self.current_segment_idx + 1),
                current: Some(
                    OpenSegment {
                        id: self.segment_ids@[self.current_segment_idx as int],
                        bytes: bytes@,
                        at: self.current_offset as int,
                    },
                ),
            },
            None => WalIteratorView {
                unopened: self.segment_ids@.skip(self.current_segment_idx as int),
                current: None,
            },
        }
    }
}

impl WalIteratorAll {
    pub closed spec fn wf(&self) -> bool {
        match self.current_segment {
            Some(bytes) => self.current_segment_idx < self.segment_ids@.len()
                && self.current_offset <= bytes@.len(),
            None => self.current_segment_idx <= self.segment_ids@.len(),
        }
    }

    /// Starts the replay of some segments, in the given order.
    pub fn new(segment_ids: Vec<u64>) -> (iter: Self)
        ensures
            iter.wf(),
            iter@.unopened == segment_ids@,
            iter@.current is None,
    {
        let iter = WalIteratorAll {
            segment_ids,
            current_segment_idx: 0,
            current_segment: None,
            current_offset: 0,
        };
        assert(iter@.unopened =~= segment_ids@);
        iter
    }

    /// Hands in the bytes of the segment that was asked for.
    pub fn opened(&mut self, bytes: Vec<u8>)
        requires
            old(self).wf(),
            old(self)@.current is None,
            old(self)@.unopened.len() > 0,
        ensures
            final(self).wf(),
            final(self)@.unopened == old(self)@.unopened.skip(1),
            final(self)@.current == Some(
                (OpenSegment { id: old(self)@.unopened[0], bytes: bytes@, at: 0 }),
            ),
    {
        self.current_segment = Some(bytes);
        self.current_offset = 0;
        assert(self@.unopened =~= old(self)@.unopened.skip(1));
    }

    /// The next record of the open segment, or what is needed to go on.
    pub fn next(&mut self) -> (step: WalStep)
        requires
            old(self).wf(),
        ensures
            final(self).wf(),
            match step {
                WalStep::Item(entry) => {
                    &&& old(self)@.pending() == seq![entry@] + final(self)@.pending()
                    &&& final(self)@.unopened == old(self)@.unopened
                    &&& final(self)@.current is Some
                    &&& (final(self)@.current->0).id == (old(self)@.current->0).id
                    &&& (final(self)@.current->0).bytes == (old(self)@.current->0).bytes
                },
                WalStep::Open(id) => {
                    &&& old(self)@.pending().len() == 0
                    &&& final(self)@.unopened == old(self)@.unopened
                    &&& final(self)@.current is None
                    &&& old(self)@.unopened.len() > 0
                    &&& id == old(self)@.unopened[0]
                },
                WalStep::Done => {
                    &&& old(self)@.pending().len() == 0
                    &&& old(self)@.unopened.len() == 0
                    &&& final(self)@.unopened.len() == 0
                    &&& final(self)@.current is None
                },
            },
    {
        let ghost start = self@;
        let mut at: usize = self.current_offset;
        let found: Option<LogEntry> = match &self.current_segment {
            Some(bytes) => {
                let id: u64 = self.segment_ids[self.current_segment_idx];
                let mut item: Option<LogEntry> = None;
                let mut done: bool = false;
                while !done
                    invariant
                        at <= bytes@.len(),
                        done && item is None ==> scanned(id, bytes@, (start.current->0).at).len()
                            == 0,
                        !done ==> item is None && scanned(id, bytes@, at as int) == scanned(
                            id,
                            bytes@,
                            (start.current->0).at,
                        ),
                        item is Some ==> scanned(id, bytes@, (start.current->0).at) == seq![
                            (item->0)@,
                        ] + scanned(id, bytes@, at as int),
                    decreases bytes@.len() - at, (if done { 0int } else { 1int }),
                {
                    match find_frame_end(bytes.as_slice(), at) {
                        Some(end) => {
                            let frame = Record::decode(&bytes[at..end]);
                            let offset: u64 = at as u64;
                            at = end;
                            match frame {
                                Some(record) => {
                                    item = Some(LogEntry { segment: id, offset, record });
                                    done = true;
                                },
                                None => {},
                            }
                        },
                        None => {
                            done = true;
                        },
                    }
                }
                item
            },
            None => None,
        };
        self.current_offset = at;
        match found {
            Some(entry) => {
                return WalStep::Item(entry);
            },
            None => {},
        }
        let count: usize = self.segment_ids.len();
        if self.current_segment.is_some() {
            self.current_segment = None;
            self.current_segment_idx = self.current_segment_idx + 1;
        }
        if self.current_segment_idx < count {
            WalStep::Open(self.segment_ids[self.current_segment_idx])
        } else {
            WalStep::Done
        }
    }
}

/// The next record goes to the end of the active segment as long as that is shorter
/// than a full segment, and to the front of a new segment otherwise, whatever the
/// size of a full segment is. So no record starts where a segment is full.
pub proof fn law_segments_roll_over_when_full(wal: WalView)
    ensures
        wal.rotates() <==> wal.current_size >= wal.max_segment_size,
        wal.current_size < wal.max_segment_size ==> wal.next_place() == (
            wal.active_segment_id,
            wal.current_size,
        ),
        wal.current_size >= wal.max_segment_size && wal.active_segment_id < u64::MAX ==> {
            &&& wal.next_place().0 == wal.active_segment_id + 1
            &&& wal.next_place().1 == 0
        },
        wal.max_segment_size > 0 ==> wal.next_place().1 < wal.max_segment_size,
        wal.active_segment_id < u64::MAX ==> (wal.next_place().0 == wal.active_segment_id
            <==> wal.current_size < wal.max_segment_size),
{
}

/// A record that is written makes the log longer by its frame, from the place that it
/// was given. One that could not be written leaves the end of the log where the next
/// attempt is to start: the new segment counts once it has been opened, and its number
/// is used up even if it has not. The size of a full segment never changes.
pub proof fn law_books_follow_the_log(wal: WalView, len: nat)
    requires
        if wal.current_size < wal.max_segment_size {
            wal.current_size + len <= u64::MAX
        } else {
            wal.active_segment_id < u64::MAX && len <= u64::MAX
        },
    ensures
        wal.has_room(len),
        ({
            let after = wal.after(len, AppendOutcome::Written);
            &&& after.active_segment_id == wal.next_place().0
            &&& after.current_size == wal.next_place().1 + len
        }),
        ({
            let after = wal.after(len, AppendOutcome::WriteFailed);
            &&& after.active_segment_id == wal.next_place().0
            &&& after.current_size == wal.next_place().1
        }),
        wal.after(len, AppendOutcome::RotationSyncFailed) == wal,
        ({
            let after = wal.after(len, AppendOutcome::RotationOpenFailed);
            &&& after.current_size == wal.current_size
            &&& wal.current_size < wal.max_segment_size ==> after.active_segment_id
                == wal.active_segment_id
            &&& wal.current_size >= wal.max_segment_size ==> after.active_segment_id
                == wal.active_segment_id + 1
        }),
        forall|outcome: AppendOutcome|
            (#[trigger] wal.after(len, outcome)).max_segment_size == wal.max_segment_size,
{
}

/// A file is a segment exactly if its name is `nesso.`, a number and `.wal`, and then
/// it is the segment of that number.
pub proof fn law_segment_files(name: Seq<char>, id: u64)
    ensures
        segment_of_file(name) == Some(id) <==> exists|digits: Seq<char>|
            #[trigger] parsed_number(digits, u64::MAX) == Some(id) && name == "nesso."@ + digits
                + ".wal"@,
{
    law_segment_names(name, id);
    reveal_strlit(".wal");
    reveal_strlit(".compacting");
    reveal_strlit(".tmp");
    if segment_of_name(name) == Some(id) {
        let digits = choose|digits: Seq<char>|
            #[trigger] parsed_number(digits, u64::MAX) == Some(id) && name == "nesso."@ + digits
                + ".wal"@;
        assert(name.last() == 'l');
        if ends_with(name, ".compacting"@) {
            assert(name.skip(name.len() - 11).last() == 'g');
        }
        if ends_with(name, ".tmp"@) {
            assert(name.skip(name.len() - 4).last() == 'p');
        }
    }
}

/// The segments among some files are those of the files that are segments, one for
/// each file, and no others.
pub proof fn law_segments_are_their_files(names: Seq<String>, more: String, id: u64)
    ensures
        segments_among(Seq::empty()) == Seq::<u64>::empty(),
        segments_among(names.push(more)) == (match segment_of_file(more@) {
            Some(next) => segments_among(names).push(next),
            None => segments_among(names),
        }),
        segments_among(names).contains(id) <==> exists|i: int|
            0 <= i < names.len() && segment_of_file((#[trigger] names[i])@) == Some(id),
{
    assert(names.push(more).drop_last() =~= names);
    lemma_segments_among(names, id);
}

proof fn lemma_segments_among(names: Seq<String>, id: u64)
    ensures
        segments_among(names).contains(id) <==> exists|i: int|
            0 <= i < names.len() && segment_of_file((#[trigger] names[i])@) == Some(id),
    decreases names.len(),
{
    if names.len() > 0 {
        let head = names.drop_last();
        let before = segments_among(head);
        let after = segments_among(names);
        lemma_segments_among(head, id);
        assert(names[names.len() - 1] == names.last());
        if after.contains(id) {
            let k = choose|k: int| 0 <= k < after.len() && after[k] == id;
            if k < before.len() {
                assert(before[k] == id);
                let i = choose|i: int|
                    0 <= i < head.len() && segment_of_file((#[trigger] head[i])@) == Some(id);
                assert(names[i] == head[i]);
            }
        }
        if exists|i: int| 0 <= i < names.len() && segment_of_file((#[trigger] names[i])@) == Some(
            id,
        ) {
            let i = choose|i: int|
                0 <= i < names.len() && segment_of_file((#[trigger] names[i])@) == Some(id);
            if i < head.len() {
                assert(head[i] == names[i]);
                let k = choose|k: int| 0 <= k < before.len() && before[k] == id;
                assert(after[k] == id);
            } else {
                assert(after[after.len() - 1] == id);
            }
        }
    }
}

} // verus!
