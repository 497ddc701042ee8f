//! The frames of one segment of the log.
//!
//! A segment is a file of frames one behind the other. It is read from the
//! front, and reading stops at the first place where no whole frame starts: at
//! the end, at a header or a payload that is cut off, or at a wrong magic byte.
//! A whole frame that cannot be decoded is passed over.

use super::bytes::u32_of_be;
use super::checksum::crc32;
use super::record::{decoded, extract_payload_len, stated_payload_len, Record, RecordView, HEADER_SIZE, MAGIC_BYTE};
use super::record::{law_record_round_trip, lemma_frame_layout};
use vstd::prelude::*;

verus! {

/// A payload length from this on that the segment does not hold is taken for a
/// corrupted header, a shorter one for a write that was cut off.
pub const HUGE_PAYLOAD: usize = 0x8000_0000;

/// Why a place in the log cannot be read.
#[derive(Debug, Clone, Copy, PartialEq, Eq, Structural)]
pub enum ReadError {
    /// The frame does not start with the magic byte.
    CorruptedMagicByte,
    /// The header states a payload length that cannot be right.
    CorruptedPayloadLength,
}

/// The contents of a segment.
#[derive(Debug)]
pub struct Segment {
    pub id: u64,
    pub bytes: Vec<u8>,
}

/// The value of a [`Segment`].
#[verifier::ext_equal]
pub struct SegmentView {
    pub id: u64,
    pub bytes: Seq<u8>,
}

impl View for Segment {
    type V = SegmentView;

    open spec fn view(&self) -> SegmentView {
        SegmentView { id: self.id, bytes: self.bytes@ }
    }
}

/// A record and its place in the log.
#[derive(Debug)]
pub struct LogEntry {
    pub segment: u64,
    pub offset: u64,
    pub record: Record,
}

/// The value of a [`LogEntry`].
#[verifier::ext_equal]
pub struct EntryView {
    pub segment: u64,
    pub offset: u64,
    pub record: RecordView,
}

impl View for LogEntry {
    type V = EntryView;

    open spec fn view(&self) -> EntryView {
        EntryView { segment: self.segment, offset: self.offset, record: self.record@ }
    }
}

/// The end of the frame that starts at `at`, or `None` if no whole frame does.
pub open spec fn frame_end(bytes: Seq<u8>, at: int) -> Option<int> {
    if at + HEADER_SIZE > bytes.len() || bytes[at] != MAGIC_BYTE {
        None
    } else {
        let end = at + HEADER_SIZE + stated_payload_len(
            bytes.subrange(at, at + HEADER_SIZE),
        );
        if end <= bytes.len() {
            Some(end)
        } else {
            None
        }
    }
}

/// The records of a segment from `at` on, with their places.
pub open spec fn scanned(id: u64, bytes: Seq<u8>, at: int) -> Seq<EntryView>
    decreases bytes.len() - at,
{
    match frame_end(bytes, at) {
        None => Seq::empty(),
        Some(end) => {
            let rest = scanned(id, bytes, end);
            match decoded(bytes.subrange(at, end)) {
                Some(record) => seq![EntryView { segment: id, offset: at as u64, record }] + rest,
                None => rest,
            }
        },
    }
}

/// Where reading a segment from `at` on stops.
pub open spec fn scan_end(bytes: Seq<u8>, at: int) -> int
    decreases bytes.len() - at,
{
    match frame_end(bytes, at) {
        None => at,
        Some(end) => scan_end(bytes, end),
    }
}

/// The records of a whole segment.
pub open spec fn entries_of(segment: SegmentView) -> Seq<EntryView> {
    scanned(segment.id, segment.bytes, 0)
}

/// The records of a log, segment by segment.
pub open spec fn log_of(segments: Seq<SegmentView>) -> Seq<EntryView>
    decreases segments.len(),
{
    if segments.len() == 0 {
        Seq::empty()
    } else {
        log_of(segments.drop_last()) + entries_of(segments.last())
    }
}

/// What reading the frame at `offset` gives: nothing if it is cut off or cannot
/// be decoded, an error if its header is corrupted.
pub open spec fn read_result(bytes: Seq<u8>, offset: int) -> Result<Option<RecordView>, ReadError> {
    if offset + HEADER_SIZE > bytes.len() {
        Ok(None)
    } else if bytes[offset] != MAGIC_BYTE {
        Err(ReadError::CorruptedMagicByte)
    } else {
        let len = stated_payload_len(bytes.subrange(offset, offset + HEADER_SIZE));
        if offset + HEADER_SIZE + len <= bytes.len() {
            Ok(decoded(bytes.subrange(offset, offset + HEADER_SIZE + len)))
        } else if len >= HUGE_PAYLOAD {
            Err(ReadError::CorruptedPayloadLength)
        } else {
            Ok(None)
        }
    }
}

/// The end of the frame that starts at `at`.
pub fn find_frame_end(bytes: &[u8], at: usize) -> (end: Option<usize>)
    requires
        at <= bytes@.len(),
    ensures
        match end {
            Some(e) => frame_end(bytes@, at as int) == Some(e as int) && at + HEADER_SIZE <= e
                <= bytes@.len(),
            None => frame_end(bytes@, at as int) is None,
        },
{
    if bytes.len() - at < HEADER_SIZE {
        return None;
    }
    if bytes[at] != MAGIC_BYTE {
        return None;
    }
    let payload_len: usize = extract_payload_len(&bytes[at..at + HEADER_SIZE]);
    if bytes.len() - at - HEADER_SIZE < payload_len {
        return None;
    }
    Some(at + HEADER_SIZE + payload_len)
}

/// Reads the records of a segment.
pub fn scan_segment(id: u64, bytes: &[u8]) -> (entries: Vec<LogEntry>)
    ensures
        entries@.map_values(|e: LogEntry| e@) == scanned(id, bytes@, 0),
{
    let mut entries: Vec<LogEntry> = Vec::new();
    let mut at: usize = 0;
    let ghost seen = |v: Seq<LogEntry>| v.map_values(|e: LogEntry| e@);
    assert(seen(entries@) + scanned(id, bytes@, 0) =~= scanned(id, bytes@, 0));
    loop
        invariant
            at <= bytes@.len(),
            seen == |v: Seq<LogEntry>| v.map_values(|e: LogEntry| e@),
            seen(entries@) + scanned(id, bytes@, at as int) == scanned(id, bytes@, 0),
        ensures
            seen(entries@) == scanned(id, bytes@, 0),
        decreases bytes@.len() - at,
    {
        let end = match find_frame_end(bytes, at) {
            Some(end) => end,
            None => {
                assert(seen(entries@) + Seq::<EntryView>::empty() =~= seen(entries@));
                break;
            },
        };
        let ghost before = entries@;
        let ghost rest = scanned(id, bytes@, end as int);
        match Record::decode(&bytes[at..end]) {
            Some(record) => {
                let entry = LogEntry { segment: id, offset: at as u64, record };
                entries.push(entry);
                assert(seen(entries@) =~= seen(before).push(entry@));
                assert(seen(before) + (seq![entry@] + rest) =~= seen(entries@) + rest);
            },
            None => {},
        }
        at = end;
    }
    entries
}

/// The length of the part of a segment that holds whole frames.
pub fn valid_len(bytes: &[u8]) -> (len: usize)
    ensures
        len == scan_end(bytes@, 0),
        len <= bytes@.len(),
{
    let mut at: usize = 0;
    loop
        invariant
            at <= bytes@.len(),
            scan_end(bytes@, at as int) == scan_end(bytes@, 0),
        ensures
            at <= bytes@.len(),
            at == scan_end(bytes@, 0),
        decreases bytes@.len() - at,
    {
        match find_frame_end(bytes, at) {
            Some(end) => {
                at = end;
            },
            None => {
                break;
            },
        }
    }
    at
}

/// Decides from a header how many bytes of payload are to be read behind it,
/// where `available` bytes follow. Nothing is read of a frame that is cut off.
pub fn payload_to_read(header: &[u8], available: u64) -> (plan: Result<Option<usize>, ReadError>)
    ensures
        plan == (if header@.len() < HEADER_SIZE {
            Ok::<Option<usize>, ReadError>(None)
        } else if header@[0] != MAGIC_BYTE {
            Err(ReadError::CorruptedMagicByte)
        } else if stated_payload_len(header@) <= available {
            Ok(Some(stated_payload_len(header@) as usize))
        } else if stated_payload_len(header@) >= HUGE_PAYLOAD {
            Err(ReadError::CorruptedPayloadLength)
        } else {
            Ok(None)
        }),
{
    if header.len() < HEADER_SIZE {
        return Ok(None);
    }
    if header[0] != MAGIC_BYTE {
        return Err(ReadError::CorruptedMagicByte);
    }
    let payload_len: usize = extract_payload_len(header);
    if payload_len as u64 <= available {
        Ok(Some(payload_len))
    } else if payload_len >= HUGE_PAYLOAD {
        Err(ReadError::CorruptedPayloadLength)
    } else {
        Ok(None)
    }
}

/// Reads the frame at `offset`.
pub fn read_frame(bytes: &[u8], offset: u64) -> (result: Result<Option<Record>, ReadError>)
    ensures
        match result {
            Ok(Some(r)) => read_result(bytes@, offset as int) == Ok::<_, ReadError>(Some(r@)),
            Ok(None) => read_result(bytes@, offset as int) == Ok::<_, ReadError>(
                None::<RecordView>,
            ),
            Err(e) => read_result(bytes@, offset as int) == Err::<Option<RecordView>, _>(e),
        },
{
    let len: usize = bytes.len();
    if offset > len as u64 || len as u64 - offset < HEADER_SIZE as u64 {
        return Ok(None);
    }
    let at: usize = offset as usize;
    let header = &bytes[at..at + HEADER_SIZE];
    let available: u64 = (len - at - HEADER_SIZE) as u64;
    match payload_to_read(header, available) {
        Err(e) => Err(e),
        Ok(None) => Ok(None),
        Ok(Some(payload_len)) => Ok(Record::decode(&bytes[at..at + HEADER_SIZE + payload_len])),
    }
}

/// The frames of records, one behind the other.
pub open spec fn frames(records: Seq<RecordView>) -> Seq<u8>
    decreases records.len(),
{
    if records.len() == 0 {
        Seq::empty()
    } else {
        records[0].encoded() + frames(records.skip(1))
    }
}

/// Records with the places that their frames have when the first starts at `at`.
pub open spec fn placed(id: u64, records: Seq<RecordView>, at: int) -> Seq<EntryView>
    decreases records.len(),
{
    if records.len() == 0 {
        Seq::empty()
    } else {
        seq![EntryView { segment: id, offset: at as u64, record: records[0] }] + placed(
            id,
            records.skip(1),
            at + records[0].encoded().len(),
        )
    }
}

/// Where the bytes at `at` are the frame of a record, that frame is found and
/// decodes to the record.
pub proof fn lemma_frame_found(bytes: Seq<u8>, at: int, record: RecordView)
    requires
        record.encodable(),
        0 <= at,
        at + record.encoded().len() <= bytes.len(),
        bytes.subrange(at, at + record.encoded().len()) == record.encoded(),
    ensures
        frame_end(bytes, at) == Some(at + record.encoded().len()),
        decoded(bytes.subrange(at, at + record.encoded().len())) == Some(record),
        read_result(bytes, at) == Ok::<_, ReadError>(Some(record)),
{
    let frame = record.encoded();
    lemma_frame_layout(record, crc32(record.body()));
    law_record_round_trip(record);
    assert(bytes[at] == frame[0]);
    let header = bytes.subrange(at, at + HEADER_SIZE);
    assert(header.subrange(15, 19) =~= frame.subrange(15, 19));
}

/// A segment gives back the records that were appended to it, in order and at
/// their places, and whatever follows them without starting a whole frame is
/// left out.
pub proof fn law_scan_reads_what_was_appended(
    id: u64,
    records: Seq<RecordView>,
    tail: Seq<u8>,
)
    requires
        forall|i: int| 0 <= i < records.len() ==> (#[trigger] records[i]).encodable(),
        frame_end(tail, 0) is None,
    ensures
        scanned(id, frames(records) + tail, 0) == placed(id, records, 0),
        scan_end(frames(records) + tail, 0) == frames(records).len(),
{
    let bytes = frames(records) + tail;
    let end = frames(records).len() as int;
    assert(bytes.skip(0) =~= bytes);
    lemma_scan_from(id, bytes, 0, records, tail);
    assert(bytes.skip(end) =~= tail);
    lemma_frame_end_shift(bytes, end);
    assert(placed(id, records, 0) + Seq::<EntryView>::empty() =~= placed(id, records, 0));
}

/// Reading frames one behind the other gives their records, and goes on behind
/// them.
pub proof fn lemma_scan_from(
    id: u64,
    bytes: Seq<u8>,
    at: int,
    records: Seq<RecordView>,
    tail: Seq<u8>,
)
    requires
        0 <= at <= bytes.len(),
        bytes.skip(at) == frames(records) + tail,
        forall|i: int| 0 <= i < records.len() ==> (#[trigger] records[i]).encodable(),
    ensures
        scanned(id, bytes, at) == placed(id, records, at) + scanned(
            id,
            bytes,
            at + frames(records).len(),
        ),
        scan_end(bytes, at) == scan_end(bytes, at + frames(records).len()),
    decreases records.len(),
{
    if records.len() == 0 {
        assert(placed(id, records, at) + scanned(id, bytes, at) =~= scanned(id, bytes, at));
    } else {
        let first = records[0];
        let rest = records.skip(1);
        let end = at + first.encoded().len();
        lemma_step(bytes, at, records, tail);
        lemma_scan_from(id, bytes, end, rest, tail);
        let head = seq![EntryView { segment: id, offset: at as u64, record: first }];
        let beyond = scanned(id, bytes, at + frames(records).len());
        assert(head + (placed(id, rest, end) + beyond) =~= (head + placed(id, rest, end)) + beyond);
    }
}

/// The first of some frames is found, and the others follow it.
pub proof fn lemma_step(bytes: Seq<u8>, at: int, records: Seq<RecordView>, tail: Seq<u8>)
    requires
        0 <= at <= bytes.len(),
        bytes.skip(at) == frames(records) + tail,
        records.len() > 0,
        forall|i: int| 0 <= i < records.len() ==> (#[trigger] records[i]).encodable(),
    ensures
        ({
            let end = at + records[0].encoded().len();
            let rest = records.skip(1);
            &&& at < end <= bytes.len()
            &&& bytes.subrange(at, end) == records[0].encoded()
            &&& frame_end(bytes, at) == Some(end)
            &&& decoded(bytes.subrange(at, end)) == Some(records[0])
            &&& bytes.skip(end) == frames(rest) + tail
            &&& end + frames(rest).len() == at + frames(records).len()
            &&& forall|i: int| 0 <= i < rest.len() ==> (#[trigger] rest[i]).encodable()
        }),
{
    let first = records[0];
    let frame = first.encoded();
    let rest = records.skip(1);
    let end = at + frame.len();
    lemma_frame_len(first);
    assert(bytes.skip(at).len() == frame.len() + frames(rest).len() + tail.len());
    assert(bytes.skip(at).subrange(0, frame.len() as int) =~= frame);
    assert(bytes.subrange(at, end) =~= bytes.skip(at).subrange(0, frame.len() as int));
    lemma_frame_found(bytes, at, first);
    assert(bytes.skip(end) =~= bytes.skip(at).skip(frame.len() as int));
    assert(bytes.skip(end) =~= frames(rest) + tail);
    assert forall|i: int| 0 <= i < rest.len() implies (#[trigger] rest[i]).encodable() by {
        assert(rest[i] == records[i + 1]);
    }
}

/// A frame is as long as its header and its payload.
pub proof fn lemma_frame_len(record: RecordView)
    ensures
        record.encoded().len() == HEADER_SIZE + record.payload.len(),
{
    lemma_frame_layout(record, crc32(record.body()));
}

/// Each record is found among the placed ones, in order.
pub proof fn lemma_placed(id: u64, records: Seq<RecordView>, at: int)
    ensures
        placed(id, records, at).len() == records.len(),
        forall|i: int|
            0 <= i < records.len() ==> (#[trigger] placed(id, records, at)[i]).record
                == records[i] && placed(id, records, at)[i].segment == id,
    decreases records.len(),
{
    if records.len() > 0 {
        let next = at + records[0].encoded().len();
        let rest = records.skip(1);
        lemma_placed(id, rest, next);
        let tail = placed(id, rest, next);
        assert forall|i: int| 0 <= i < records.len() implies (#[trigger] placed(
            id,
            records,
            at,
        )[i]).record == records[i] && placed(id, records, at)[i].segment == id by {
            if i > 0 {
                assert(placed(id, records, at)[i] == tail[i - 1]);
                assert(rest[i - 1] == records[i]);
            }
        }
    }
}

/// Frames can be put together from the front or from the back.
pub proof fn lemma_frames_push(records: Seq<RecordView>, record: RecordView)
    ensures
        frames(records.push(record)) == frames(records) + record.encoded(),
    decreases records.len(),
{
    let all = records.push(record);
    if records.len() == 0 {
        assert(all.skip(1) =~= Seq::<RecordView>::empty());
        assert(frames(all.skip(1)) =~= Seq::<u8>::empty());
        assert(frames(all) =~= record.encoded());
        assert(frames(records) + record.encoded() =~= record.encoded());
    } else {
        lemma_frames_push(records.skip(1), record);
        assert(all.skip(1) =~= records.skip(1).push(record));
        assert(frames(all) =~= frames(records) + record.encoded());
    }
}

/// Whether a frame starts at a place depends only on the bytes from there on.
proof fn lemma_frame_end_shift(bytes: Seq<u8>, at: int)
    requires
        0 <= at <= bytes.len(),
    ensures
        frame_end(bytes, at) is None <==> frame_end(bytes.skip(at), 0) is None,
{
    let tail = bytes.skip(at);
    if at + HEADER_SIZE <= bytes.len() {
        assert(tail[0] == bytes[at]);
        assert(tail.subrange(0, 0 + HEADER_SIZE) =~= bytes.subrange(at, at + HEADER_SIZE));
    }
}

/// A write that was cut off leaves no whole frame: a proper prefix of a frame is
/// never taken for one.
pub proof fn law_torn_frame_is_no_frame(record: RecordView, cut: int)
    requires
        record.encodable(),
        0 <= cut < record.encoded().len(),
    ensures
        frame_end(record.encoded().take(cut), 0) is None,
{
    let frame = record.encoded();
    let torn = frame.take(cut);
    lemma_frame_layout(record, crc32(record.body()));
    if cut >= HEADER_SIZE {
        assert(torn.subrange(0, 0 + HEADER_SIZE).subrange(15, 19) =~= frame.subrange(15, 19));
        assert(frame.subrange(0, 0 + HEADER_SIZE).subrange(15, 19) =~= frame.subrange(15, 19));
    }
}

/// What is read of a segment up to its end stays the same when something is
/// appended.
proof fn lemma_scan_of_longer(id: u64, bytes: Seq<u8>, more: Seq<u8>, at: int)
    requires
        0 <= at <= bytes.len(),
        scan_end(bytes, at) == bytes.len(),
    ensures
        scanned(id, bytes + more, at) == scanned(id, bytes, at) + scanned(
            id,
            bytes + more,
            bytes.len() as int,
        ),
        scan_end(bytes + more, at) == scan_end(bytes + more, bytes.len() as int),
    decreases bytes.len() - at,
{
    let all = bytes + more;
    let beyond = scanned(id, all, bytes.len() as int);
    match frame_end(bytes, at) {
        None => {
            assert(scanned(id, bytes, at) + beyond =~= beyond);
        },
        Some(end) => {
            assert(all.subrange(at, at + HEADER_SIZE) =~= bytes.subrange(at, at + HEADER_SIZE));
            assert(all[at] == bytes[at]);
            assert(all.subrange(at, end) =~= bytes.subrange(at, end));
            assert(frame_end(all, at) == Some(end));
            lemma_scan_of_longer(id, bytes, more, end);
            let rest = scanned(id, bytes, end);
            match decoded(bytes.subrange(at, end)) {
                Some(record) => {
                    let head = seq![EntryView { segment: id, offset: at as u64, record }];
                    assert(head + (rest + beyond) =~= (head + rest) + beyond);
                },
                None => {},
            }
        },
    }
}

/// Appending the frame of a record to a segment of whole frames adds that record
/// at the former end, and nothing else changes.
pub proof fn law_append_adds_one_record(id: u64, bytes: Seq<u8>, record: RecordView)
    requires
        record.encodable(),
        scan_end(bytes, 0) == bytes.len(),
    ensures
        scanned(id, bytes + record.encoded(), 0) == scanned(id, bytes, 0).push(
            EntryView { segment: id, offset: bytes.len() as u64, record },
        ),
        scan_end(bytes + record.encoded(), 0) == (bytes + record.encoded()).len(),
{
    let frame = record.encoded();
    let all = bytes + frame;
    let at = bytes.len() as int;
    lemma_scan_of_longer(id, bytes, frame, 0);
    assert(all.subrange(at, at + frame.len()) =~= frame);
    lemma_frame_found(all, at, record);
    let end = all.len() as int;
    assert(frame_end(all, end) is None);
    assert(scan_end(all, end) == end);
    assert(scan_end(all, at) == end);
    assert(scanned(id, all, end) =~= Seq::<EntryView>::empty());
    let entry = EntryView { segment: id, offset: bytes.len() as u64, record };
    assert(scanned(id, all, at) =~= seq![entry]);
    assert(scanned(id, bytes, 0) + seq![entry] =~= scanned(id, bytes, 0).push(entry));
}

/// Every record that a replay finds in a segment can be read at its place.
pub proof fn law_replayed_record_can_be_read(id: u64, bytes: Seq<u8>, at: int, k: int)
    requires
        0 <= at,
        bytes.len() <= u64::MAX,
        0 <= k < scanned(id, bytes, at).len(),
    ensures
        ({
            let entry = scanned(id, bytes, at)[k];
            &&& entry.segment == id
            &&& read_result(bytes, entry.offset as int) == Ok::<_, ReadError>(Some(entry.record))
        }),
    decreases bytes.len() - at,
{
    match frame_end(bytes, at) {
        None => {},
        Some(end) => {
            match decoded(bytes.subrange(at, end)) {
                Some(record) => {
                    if k > 0 {
                        law_replayed_record_can_be_read(id, bytes, end, k - 1);
                    }
                },
                None => {
                    law_replayed_record_can_be_read(id, bytes, end, k);
                },
            }
        },
    }
}

/// Reading does not stop before it has started, nor behind the end.
proof fn lemma_scan_end(bytes: Seq<u8>, at: int)
    requires
        0 <= at <= bytes.len(),
    ensures
        at <= scan_end(bytes, at) <= bytes.len(),
    decreases bytes.len() - at,
{
    match frame_end(bytes, at) {
        None => {},
        Some(end) => {
            lemma_scan_end(bytes, end);
        },
    }
}

/// Reading a segment that was cut back to the place where reading stops.
proof fn lemma_scan_of_cut(id: u64, bytes: Seq<u8>, at: int)
    requires
        0 <= at <= bytes.len(),
    ensures
        scanned(id, bytes.take(scan_end(bytes, at)), at) == scanned(id, bytes, at),
        scan_end(bytes.take(scan_end(bytes, at)), at) == scan_end(bytes, at),
    decreases bytes.len() - at,
{
    let stop = scan_end(bytes, at);
    let cut = bytes.take(stop);
    lemma_scan_end(bytes, at);
    match frame_end(bytes, at) {
        None => {
            assert(frame_end(cut, at) is None);
        },
        Some(end) => {
            lemma_scan_end(bytes, end);
            assert(cut.subrange(at, at + HEADER_SIZE) =~= bytes.subrange(at, at + HEADER_SIZE));
            assert(cut[at] == bytes[at]);
            assert(frame_end(cut, at) == Some(end));
            assert(cut.subrange(at, end) =~= bytes.subrange(at, end));
            lemma_scan_of_cut(id, bytes, end);
        },
    }
}

/// Cutting a segment back to its last whole frame loses no record, and leaves
/// nothing in the way of the records that are appended next.
pub proof fn law_cutting_back_keeps_the_records(id: u64, bytes: Seq<u8>)
    ensures
        ({
            let cut = bytes.take(scan_end(bytes, 0));
            &&& cut.len() == scan_end(bytes, 0)
            &&& scanned(id, cut, 0) == scanned(id, bytes, 0)
            &&& scan_end(cut, 0) == cut.len()
        }),
{
    lemma_scan_end(bytes, 0);
    lemma_scan_of_cut(id, bytes, 0);
}

/// The records of a log that goes on with more segments.
pub proof fn lemma_log_of_more(first: Seq<SegmentView>, second: Seq<SegmentView>)
    ensures
        log_of(first + second) == log_of(first) + log_of(second),
    decreases second.len(),
{
    let all = first + second;
    if second.len() == 0 {
        assert(all =~= first);
        assert(log_of(first) + log_of(second) =~= log_of(first));
    } else {
        let head = second.drop_last();
        lemma_log_of_more(first, head);
        assert(all.drop_last() =~= first + head);
        assert(all.last() == second.last());
        assert((log_of(first) + log_of(head)) + entries_of(second.last()) =~= log_of(first) + (
        log_of(head) + entries_of(second.last())));
    }
}

/// A record of a segment is a record of the log.
pub proof fn lemma_entry_in_log(segments: Seq<SegmentView>, k: int, i: int)
    requires
        0 <= k < segments.len(),
        0 <= i < entries_of(segments[k]).len(),
    ensures
        log_of(segments).contains(entries_of(segments[k])[i]),
    decreases segments.len(),
{
    let head = segments.drop_last();
    let e = entries_of(segments[k])[i];
    if k < head.len() {
        assert(head[k] == segments[k]);
        lemma_entry_in_log(head, k, i);
        let n = choose|n: int| 0 <= n < log_of(head).len() && log_of(head)[n] == e;
        assert(log_of(segments)[n] == e);
    } else {
        assert(log_of(segments)[log_of(head).len() + i] == e);
    }
}

/// A record of the log is a record of one of its segments.
pub proof fn lemma_entry_in_segment(segments: Seq<SegmentView>, n: int)
    requires
        0 <= n < log_of(segments).len(),
    ensures
        exists|k: int|
            0 <= k < segments.len() && entries_of(#[trigger] segments[k]).contains(
                log_of(segments)[n],
            ),
    decreases segments.len(),
{
    let head = segments.drop_last();
    let e = log_of(segments)[n];
    if n < log_of(head).len() {
        lemma_entry_in_segment(head, n);
        let k = choose|k: int|
            0 <= k < head.len() && entries_of(#[trigger] head[k]).contains(log_of(head)[n]);
        assert(segments[k] == head[k]);
    } else {
        let last = segments.last();
        assert(entries_of(last)[n - log_of(head).len()] == e);
        assert(segments[segments.len() - 1] == last);
    }
}

/// The length of a payload that was read fits into a header.
proof fn lemma_scanned_fits(id: u64, bytes: Seq<u8>, at: int)
    ensures
        forall|i: int|
            0 <= i < scanned(id, bytes, at).len() ==> (#[trigger] scanned(
                id,
                bytes,
                at,
            )[i]).record.encodable(),
    decreases bytes.len() - at,
{
    match frame_end(bytes, at) {
        None => {},
        Some(end) => {
            lemma_scanned_fits(id, bytes, end);
            let rest = scanned(id, bytes, end);
            match decoded(bytes.subrange(at, end)) {
                Some(record) => {
                    let all = scanned(id, bytes, at);
                    assert forall|i: int| 0 <= i < all.len() implies (
                    #[trigger] all[i]).record.encodable() by {
                        if i > 0 {
                            assert(all[i] == rest[i - 1]);
                        }
                    }
                },
                None => {},
            }
        },
    }
}

/// The length of every payload of a log that was read fits into a header.
pub proof fn lemma_log_fits(segments: Seq<SegmentView>)
    ensures
        forall|i: int|
            0 <= i < log_of(segments).len() ==> (#[trigger] log_of(
                segments,
            )[i]).record.encodable(),
    decreases segments.len(),
{
    if segments.len() > 0 {
        let head = log_of(segments.drop_last());
        let last = segments.last();
        lemma_log_fits(segments.drop_last());
        lemma_scanned_fits(last.id, last.bytes, 0);
        assert forall|i: int| 0 <= i < log_of(segments).len() implies (#[trigger] log_of(
            segments,
        )[i]).record.encodable() by {
            if i < head.len() {
                assert(log_of(segments)[i] == head[i]);
            } else {
                assert(log_of(segments)[i] == entries_of(last)[i - head.len()]);
            }
        }
    }
}

/// A whole frame starts where there are nineteen bytes of header, the first of them
/// the letter `N`, and behind them as many bytes as the header states in its last four
/// bytes. It ends behind those.
pub proof fn law_whole_frames(bytes: Seq<u8>, at: int)
    requires
        0 <= at <= bytes.len(),
    ensures
        frame_end(bytes, at) is Some <==> {
            &&& at + 19 <= bytes.len()
            &&& bytes[at] == 78
            &&& at + 19 + u32_of_be(bytes.subrange(at + 15, at + 19)) <= bytes.len()
        },
        frame_end(bytes, at) is Some ==> frame_end(bytes, at)->0 == at + 19 + u32_of_be(
            bytes.subrange(at + 15, at + 19),
        ),
{
    if at + 19 <= bytes.len() {
        assert(bytes.subrange(at, at + HEADER_SIZE).subrange(15, 19) =~= bytes.subrange(
            at + 15,
            at + 19,
        ));
    }
}

/// A segment is read frame by frame. Where no whole frame starts, reading stops. A
/// frame that can be decoded gives its record at its place. One that cannot is passed
/// over, and reading goes on behind it.
pub proof fn law_reading_goes_frame_by_frame(id: u64, bytes: Seq<u8>, at: int)
    requires
        0 <= at <= bytes.len(),
    ensures
        match frame_end(bytes, at) {
            None => {
                &&& scanned(id, bytes, at) == Seq::<EntryView>::empty()
                &&& scan_end(bytes, at) == at
            },
            Some(end) => {
                &&& at < end <= bytes.len()
                &&& scan_end(bytes, at) == scan_end(bytes, end)
                &&& match decoded(bytes.subrange(at, end)) {
                    Some(record) => {
                        let all = scanned(id, bytes, at);
                        &&& all.len() > 0
                        &&& all[0].segment == id
                        &&& all[0].offset == at as u64
                        &&& all[0].record == record
                        &&& all.skip(1) == scanned(id, bytes, end)
                    },
                    None => scanned(id, bytes, at) == scanned(id, bytes, end),
                }
            },
        },
{
    match frame_end(bytes, at) {
        None => {},
        Some(end) => {
            match decoded(bytes.subrange(at, end)) {
                Some(record) => {
                    assert(scanned(id, bytes, at).skip(1) =~= scanned(id, bytes, end));
                },
                None => {},
            }
        },
    }
}

/// The log is read segment by segment, in the order of the segments.
pub proof fn law_the_log_is_read_segment_by_segment(
    first: Seq<SegmentView>,
    next: SegmentView,
    second: Seq<SegmentView>,
)
    ensures
        log_of(Seq::empty()) == Seq::<EntryView>::empty(),
        log_of(seq![next]) == scanned(next.id, next.bytes, 0),
        log_of(first + second) == log_of(first) + log_of(second),
{
    lemma_log_of_more(first, second);
    let one = seq![next];
    assert(one.drop_last() =~= Seq::<SegmentView>::empty());
    assert(log_of(one.drop_last()) == Seq::<EntryView>::empty());
    assert(log_of(one) =~= entries_of(next));
}

/// What reading at a place gives. A header that is cut off, a payload that is cut off
/// and a frame that cannot be decoded give nothing. A wrong first byte is an error, and
/// so is a payload of two gibibytes or more that is not there.
pub proof fn law_reading_at_a_place(bytes: Seq<u8>, at: int)
    requires
        0 <= at,
    ensures
        at + 19 > bytes.len() ==> read_result(bytes, at) == Ok::<_, ReadError>(
            None::<RecordView>,
        ),
        at + 19 <= bytes.len() && bytes[at] != 78 ==> read_result(bytes, at) == Err::<
            Option<RecordView>,
            _,
        >(ReadError::CorruptedMagicByte),
        at + 19 <= bytes.len() && bytes[at] == 78 ==> {
            let len = u32_of_be(bytes.subrange(at + 15, at + 19));
            let end = at + 19 + len;
            if end <= bytes.len() {
                read_result(bytes, at) == Ok::<_, ReadError>(decoded(bytes.subrange(at, end)))
            } else if len >= 2_147_483_648 {
                read_result(bytes, at) == Err::<Option<RecordView>, _>(
                    ReadError::CorruptedPayloadLength,
                )
            } else {
                read_result(bytes, at) == Ok::<_, ReadError>(None::<RecordView>)
            }
        },
{
    if at + 19 <= bytes.len() {
        assert(bytes.subrange(at, at + HEADER_SIZE).subrange(15, 19) =~= bytes.subrange(
            at + 15,
            at + 19,
        ));
    }
}

/// The frames of some records stand one behind the other, in the order of the records,
/// and each record has the place at which the frames in front of it end.
pub proof fn law_frames_stand_one_behind_the_other(
    id: u64,
    records: Seq<RecordView>,
    record: RecordView,
    at: int,
    i: int,
)
    requires
        0 <= i < records.len(),
    ensures
        frames(Seq::empty()) == Seq::<u8>::empty(),
        frames(records.push(record)) == frames(records) + record.encoded(),
        placed(id, records, at).len() == records.len(),
        placed(id, records, at)[i].segment == id,
        placed(id, records, at)[i].record == records[i],
        placed(id, records, at)[i].offset == (at + frames(records.take(i)).len()) as u64,
    decreases records.len(),
{
    lemma_frames_push(records, record);
    lemma_placed(id, records, at);
    if i == 0 {
        assert(records.take(0) =~= Seq::<RecordView>::empty());
    } else {
        let rest = records.skip(1);
        let next = at + records[0].encoded().len();
        law_frames_stand_one_behind_the_other(id, rest, record, next, i - 1);
        assert(placed(id, records, at)[i] == placed(id, rest, next)[i - 1]);
        assert(records.take(i).skip(1) =~= rest.take(i - 1));
        assert(records.take(i)[0] == records[0]);
    }
}

} // verus!
