//! What holds of a log over any number of attempts to write to it.

use super::checksum::crc32;
use super::laws::{booked, in_sequence, lemma_in_sequence, unwritten, written};
use super::record::{lemma_frame_layout, RecordView};
use super::segment::{lemma_frame_found, read_result, ReadError, SegmentView};
use super::wal::{AppendOutcome, WalView};
use vstd::prelude::*;

verus! {

/// An attempt to append a record, and what came of it.
pub struct Attempt {
    pub record: RecordView,
    pub outcome: AppendOutcome,
}

/// The books of a log after some attempts.
pub open spec fn books_after(wal: WalView, attempts: Seq<Attempt>) -> WalView
    decreases attempts.len(),
{
    if attempts.len() == 0 {
        wal
    } else {
        let last = attempts.last();
        books_after(wal, attempts.drop_last()).after(last.record.encoded().len(), last.outcome)
    }
}

/// The segments of a log after some attempts.
pub open spec fn segments_after(
    wal: WalView,
    segments: Seq<SegmentView>,
    attempts: Seq<Attempt>,
) -> Seq<SegmentView>
    decreases attempts.len(),
{
    if attempts.len() == 0 {
        segments
    } else {
        let last = attempts.last();
        let books = books_after(wal, attempts.drop_last());
        let before = segments_after(wal, segments, attempts.drop_last());
        if last.outcome == AppendOutcome::Written {
            written(books, before, last.record)
        } else {
            unwritten(books, before, last.outcome)
        }
    }
}

/// Whether an attempt can be made: the numbers of the log do not run out.
pub open spec fn fits(wal: WalView, attempts: Seq<Attempt>, i: int) -> bool {
    books_after(wal, attempts.take(i)).has_room(attempts[i].record.encoded().len())
}

/// The place that an attempt is told to write to.
pub open spec fn place_given(wal: WalView, attempts: Seq<Attempt>, i: int) -> (u64, u64) {
    books_after(wal, attempts.take(i)).next_place()
}

/// Whether some segments hold given bytes at a place.
pub open spec fn holds_at(
    segments: Seq<SegmentView>,
    place: (u64, u64),
    bytes: Seq<u8>,
) -> bool {
    exists|n: int|
        0 <= n < segments.len() && (#[trigger] segments[n]).id == place.0 && place.1 + bytes.len()
            <= segments[n].bytes.len() && segments[n].bytes.subrange(
            place.1 as int,
            place.1 + bytes.len(),
        ) == bytes
}

/// One more attempt leaves what was written where it is. If it succeeds, its frame
/// stands at the place that it was given.
proof fn lemma_attempt(
    wal: WalView,
    segments: Seq<SegmentView>,
    attempt: Attempt,
    place: (u64, u64),
    bytes: Seq<u8>,
)
    requires
        booked(wal, segments),
        wal.has_room(attempt.record.encoded().len()),
    ensures
        ({
            let frame = attempt.record.encoded();
            let after = if attempt.outcome == AppendOutcome::Written {
                written(wal, segments, attempt.record)
            } else {
                unwritten(wal, segments, attempt.outcome)
            };
            &&& booked(wal.after(frame.len(), attempt.outcome), after)
            &&& holds_at(segments, place, bytes) ==> holds_at(after, place, bytes)
            &&& attempt.outcome == AppendOutcome::Written ==> holds_at(
                after,
                wal.next_place(),
                frame,
            )
        }),
{
    let frame = attempt.record.encoded();
    let after = if attempt.outcome == AppendOutcome::Written {
        written(wal, segments, attempt.record)
    } else {
        unwritten(wal, segments, attempt.outcome)
    };
    let last = segments.last();
    assert(last == segments[segments.len() - 1]);
    if wal.rotates() {
        if after.len() > segments.len() {
            lemma_in_sequence(segments, after.last());
        }
    } else if attempt.outcome == AppendOutcome::Written {
        assert forall|i: int, j: int| 0 <= i < j < after.len() implies (#[trigger] after[i]).id < (
        #[trigger] after[j]).id by {
            assert(after[i].id == segments[i].id);
            assert(after[j].id == segments[j].id);
        }
    }
    if holds_at(segments, place, bytes) {
        let n = choose|n: int|
            0 <= n < segments.len() && (#[trigger] segments[n]).id == place.0 && place.1
                + bytes.len() <= segments[n].bytes.len() && segments[n].bytes.subrange(
                place.1 as int,
                place.1 + bytes.len(),
            ) == bytes;
        assert(after[n].id == place.0);
        assert(after[n].bytes.subrange(place.1 as int, place.1 + bytes.len()) =~= bytes);
    }
    if attempt.outcome == AppendOutcome::Written {
        let n = after.len() - 1;
        let at = wal.next_place();
        assert(after[n].id == at.0);
        assert(after[n].bytes.subrange(at.1 as int, at.1 + frame.len()) =~= frame);
    }
}

/// After any attempts the segments fit the books, and the frame of every record that
/// was written stands at the place that it was given.
proof fn lemma_attempts(
    wal: WalView,
    segments: Seq<SegmentView>,
    attempts: Seq<Attempt>,
    k: int,
)
    requires
        booked(wal, segments),
        forall|i: int| 0 <= i < attempts.len() ==> #[trigger] fits(wal, attempts, i),
        0 <= k < attempts.len() ==> attempts[k].outcome == AppendOutcome::Written,
    ensures
        booked(books_after(wal, attempts), segments_after(wal, segments, attempts)),
        0 <= k < attempts.len() ==> holds_at(
            segments_after(wal, segments, attempts),
            place_given(wal, attempts, k),
            attempts[k].record.encoded(),
        ),
    decreases attempts.len(),
{
    if attempts.len() > 0 {
        let head = attempts.drop_last();
        let n = head.len() as int;
        let books = books_after(wal, head);
        let before = segments_after(wal, segments, head);
        assert forall|i: int| 0 <= i < head.len() implies #[trigger] fits(wal, head, i) by {
            assert(fits(wal, attempts, i));
            assert(head.take(i) =~= attempts.take(i));
        }
        lemma_attempts(wal, segments, head, k);
        assert(fits(wal, attempts, n));
        assert(attempts.take(n) =~= head);
        assert(attempts[n] == attempts.last());
        assert(0 <= k < n ==> head.take(k) =~= attempts.take(k));
        lemma_attempt(
            books,
            before,
            attempts.last(),
            place_given(wal, attempts, k),
            attempts[k].record.encoded(),
        );
    }
}

/// A record that was written can be read at its place ever after, whatever is
/// written or tried before and behind it.
pub proof fn law_written_record_stays_readable(
    wal: WalView,
    segments: Seq<SegmentView>,
    attempts: Seq<Attempt>,
    k: int,
)
    requires
        booked(wal, segments),
        forall|i: int| 0 <= i < attempts.len() ==> #[trigger] fits(wal, attempts, i),
        0 <= k < attempts.len(),
        attempts[k].outcome == AppendOutcome::Written,
        attempts[k].record.encodable(),
    ensures
        ({
            let place = place_given(wal, attempts, k);
            let after = segments_after(wal, segments, attempts);
            &&& in_sequence(after)
            &&& exists|n: int|
                0 <= n < after.len() && (#[trigger] after[n]).id == place.0 && read_result(
                    after[n].bytes,
                    place.1 as int,
                ) == Ok::<_, ReadError>(Some(attempts[k].record))
        }),
{
    let place = place_given(wal, attempts, k);
    let after = segments_after(wal, segments, attempts);
    let record = attempts[k].record;
    let frame = record.encoded();
    lemma_attempts(wal, segments, attempts, k);
    let n = choose|n: int|
        0 <= n < after.len() && (#[trigger] after[n]).id == place.0 && place.1 + frame.len()
            <= after[n].bytes.len() && after[n].bytes.subrange(
            place.1 as int,
            place.1 + frame.len(),
        ) == frame;
    lemma_frame_found(after[n].bytes, place.1 as int, record);
    assert(after[n].id == place.0);
}

/// Whether the books of a log are past a place.
pub open spec fn is_past(wal: WalView, place: (u64, u64)) -> bool {
    wal.active_segment_id > place.0 || wal.active_segment_id == place.0 && wal.current_size
        > place.1
}

/// Books that are past a place stay past it.
proof fn lemma_past(wal: WalView, attempts: Seq<Attempt>, i: int, n: int, place: (u64, u64))
    requires
        0 <= i <= n <= attempts.len(),
        forall|m: int| 0 <= m < attempts.len() ==> #[trigger] fits(wal, attempts, m),
        is_past(books_after(wal, attempts.take(i)), place),
    ensures
        is_past(books_after(wal, attempts.take(n)), place),
    decreases n,
{
    if i < n {
        lemma_past(wal, attempts, i, n - 1, place);
        assert(fits(wal, attempts, n - 1));
        assert(attempts.take(n).drop_last() =~= attempts.take(n - 1));
        assert(attempts.take(n).last() == attempts[n - 1]);
    }
}

/// No place is given to two records.
pub proof fn law_no_place_is_given_twice(
    wal: WalView,
    attempts: Seq<Attempt>,
    i: int,
    k: int,
)
    requires
        forall|m: int| 0 <= m < attempts.len() ==> #[trigger] fits(wal, attempts, m),
        0 <= i < k < attempts.len(),
        attempts[i].outcome == AppendOutcome::Written,
    ensures
        place_given(wal, attempts, i) != place_given(wal, attempts, k),
{
    let place = place_given(wal, attempts, i);
    let record = attempts[i].record;
    assert(fits(wal, attempts, i));
    lemma_frame_layout(record, crc32(record.body()));
    assert(attempts.take(i + 1).drop_last() =~= attempts.take(i));
    assert(attempts.take(i + 1).last() == attempts[i]);
    lemma_past(wal, attempts, i + 1, k, place);
    assert(fits(wal, attempts, k));
}

} // verus!
