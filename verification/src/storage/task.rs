//! What the records of the log say of their tasks.
//!
//! `Created` carries the payload of the task. `Leased` carries the lease: the
//! consumer, the time at which the lease ends and the number of retries so far.
//! `Nacked` and `Expired` carry the number of retries. `Acked` and
//! `DeadLettered` end the task.
//!
//! A compaction keeps the latest record of each task. So that the payload of the
//! task is not lost with its `Created` record, it is put behind what the
//! latest record carries, with one byte between the two, [`PAYLOAD_MARK`]. A
//! compaction writes to segment 1 only. So a record of segment 1 carries the
//! payload of its task if that byte stands behind the lease or the number of
//! retries, even where the payload is empty. Anything else behind them is no
//! payload, nor is anything behind them in another segment.

use super::bytes::{be_u32, be_u64, push_range, push_u32, push_u64, read_u32, read_u64, u32_of_be, u64_of_be};
use super::bytes::{lemma_u32_be_round_trip, lemma_u64_be_round_trip};
use super::record::{OpType, Record, RecordView};
use super::segment::EntryView;
use vstd::prelude::*;

verus! {

/// A lease in a record: four bytes of consumer, eight of time, one of retries.
pub const LEASE_LEN: usize = 13;

/// Stands between what the latest record carries and the payload of the task.
pub const PAYLOAD_MARK: u8 = 0x50;

/// A task that a consumer holds.
#[derive(Debug, Clone, Copy, PartialEq, Eq, Structural)]
pub struct LeaseInfo {
    pub consumer_id: u32,
    pub expire_timestamp: u64,
    pub retries: u8,
    pub priority: u8,
}

/// What becomes of a task when its log is replayed.
#[derive(Debug, Clone, Copy, PartialEq, Eq, Structural)]
pub enum TaskState {
    /// It waits to be handed out.
    Ready { retries: u8 },
    /// A consumer holds it.
    Leased(LeaseInfo),
    /// It was acknowledged or given up.
    Finished,
}

/// The bytes of a lease.
pub open spec fn lease_bytes(lease: LeaseInfo) -> Seq<u8> {
    be_u32(lease.consumer_id) + be_u64(lease.expire_timestamp) + seq![lease.retries]
}

/// How many bytes an ordinary record of a running task carries.
pub open spec fn meta_len(op: OpType) -> nat {
    match op {
        OpType::Leased => LEASE_LEN as nat,
        OpType::Nacked | OpType::Expired => 1,
        _ => 0,
    }
}

/// What a record carries besides the payload of the task. A lease or a number of
/// retries that is cut short reads as zeros.
pub open spec fn meta(r: RecordView) -> Seq<u8> {
    if r.payload.len() >= meta_len(r.op_type) {
        r.payload.take(meta_len(r.op_type) as int)
    } else {
        Seq::new(meta_len(r.op_type), |i: int| 0u8)
    }
}

/// Whether a record has the form of one with the payload of the task: it creates
/// the task, or has the payload put behind what it carries.
pub open spec fn carries_payload(r: RecordView) -> bool {
    match r.op_type {
        OpType::Created => true,
        OpType::Leased | OpType::Nacked | OpType::Expired => r.payload.len() > meta_len(r.op_type)
            && r.payload[meta_len(r.op_type) as int] == PAYLOAD_MARK,
        _ => false,
    }
}

/// Whether the payload of the task is in a record of the log. A payload is put
/// behind what a record carries in segment 1 only.
pub open spec fn is_carrier(entry: EntryView) -> bool {
    entry.record.op_type == OpType::Created || entry.segment == 1 && carries_payload(entry.record)
}

/// The payload of the task, in a record that carries it.
pub open spec fn task_payload(r: RecordView) -> Seq<u8> {
    if r.op_type == OpType::Created {
        r.payload
    } else {
        r.payload.skip(meta_len(r.op_type) as int + 1)
    }
}

/// A record with the payload of the task put behind what it carries.
pub open spec fn merged(r: RecordView, payload: Seq<u8>) -> RecordView {
    RecordView { payload: meta(r) + seq![PAYLOAD_MARK] + payload, ..r }
}

/// A record without the payload of the task, in a form that is not taken for one
/// with it.
pub open spec fn plain(r: RecordView) -> RecordView {
    if r.op_type != OpType::Created && carries_payload(r) {
        RecordView { payload: meta(r), ..r }
    } else {
        r
    }
}

/// The number of retries that a record states.
pub open spec fn retries_of(r: RecordView) -> u8 {
    match r.op_type {
        OpType::Leased => if r.payload.len() >= LEASE_LEN {
            r.payload[12]
        } else {
            0
        },
        OpType::Nacked | OpType::Expired => if r.payload.len() >= 1 {
            r.payload[0]
        } else {
            0
        },
        _ => 0,
    }
}

/// The lease that a record states.
pub open spec fn lease_of(r: RecordView) -> LeaseInfo {
    LeaseInfo {
        consumer_id: u32_of_be(r.payload.subrange(0, 4)),
        expire_timestamp: u64_of_be(r.payload.subrange(4, 12)),
        retries: r.payload[12],
        priority: r.priority,
    }
}

/// What becomes of a task whose latest record is `r` when its log is replayed
/// at the time `now`: a lease that is still running goes on, one that has ended
/// or is cut short returns the task to the queue.
pub open spec fn state_after(r: RecordView, now: u64) -> TaskState {
    if r.op_type.is_terminal_spec() {
        TaskState::Finished
    } else if r.op_type == OpType::Leased && r.payload.len() >= LEASE_LEN && lease_of(
        r,
    ).expire_timestamp > now {
        TaskState::Leased(lease_of(r))
    } else {
        TaskState::Ready { retries: retries_of(r) }
    }
}

/// Whether two records say the same of their task, apart from its payload.
pub open spec fn same_task(a: RecordView, b: RecordView) -> bool {
    &&& a.id == b.id
    &&& a.op_type == b.op_type
    &&& a.priority == b.priority
    &&& retries_of(a) == retries_of(b)
    &&& forall|now: u64| #[trigger] state_after(a, now) == state_after(b, now)
    &&& b.op_type == OpType::Leased && b.payload.len() >= LEASE_LEN ==> a.payload.len()
        >= LEASE_LEN && lease_of(a) == lease_of(b)
}

/// The payload of a `Leased` record.
pub fn encode_lease(lease: &LeaseInfo) -> (bytes: Vec<u8>)
    ensures
        bytes@ == lease_bytes(*lease),
{
    let mut bytes: Vec<u8> = Vec::new();
    push_u32(&mut bytes, lease.consumer_id);
    push_u64(&mut bytes, lease.expire_timestamp);
    bytes.push(lease.retries);
    assert(bytes@ =~= lease_bytes(*lease));
    bytes
}

/// How many bytes an ordinary record of a running task carries.
pub fn meta_length(op: OpType) -> (len: usize)
    ensures
        len == meta_len(op),
{
    match op {
        OpType::Leased => LEASE_LEN,
        OpType::Nacked | OpType::Expired => 1,
        _ => 0,
    }
}

/// Whether a record has the form of one with the payload of the task.
pub fn has_payload(record: &Record) -> (has: bool)
    ensures
        has == carries_payload(record@),
{
    let op = record.op_type();
    match op {
        OpType::Created => true,
        OpType::Leased | OpType::Nacked | OpType::Expired => {
            let len: usize = meta_length(op);
            record.payload().len() > len && record.payload()[len] == PAYLOAD_MARK
        },
        _ => false,
    }
}

/// Whether the payload of the task is in a record of a segment.
pub fn is_carrier_in(segment: u64, record: &Record) -> (is: bool)
    ensures
        forall|offset: u64|
            is == #[trigger] is_carrier(EntryView { segment, offset, record: record@ }),
{
    record.op_type() == OpType::Created || segment == 1 && has_payload(record)
}

/// A record without the payload of the task.
pub fn without_payload(record: &Record) -> (bare: Record)
    ensures
        bare@ == plain(record@),
{
    if record.op_type() != OpType::Created && has_payload(record) {
        let mut out: Vec<u8> = Vec::new();
        push_range(&mut out, record.payload(), 0, meta_length(record.op_type()));
        assert(out@ =~= meta(record@));
        Record::new(record.id(), record.op_type(), record.priority(), out)
    } else {
        record.clone()
    }
}

/// The payload of the task, out of a record that carries it.
pub fn extract_task_payload(record: &Record) -> (payload: Vec<u8>)
    requires
        carries_payload(record@),
    ensures
        payload@ == task_payload(record@),
{
    let bytes = record.payload();
    let from: usize = if record.op_type() == OpType::Created {
        0
    } else {
        meta_length(record.op_type()) + 1
    };
    let mut payload: Vec<u8> = Vec::new();
    push_range(&mut payload, bytes, from, bytes.len());
    assert(payload@ =~= task_payload(record@));
    payload
}

/// Puts the payload of the task behind what a record carries.
pub fn merge_payload(record: &Record, payload: &[u8]) -> (whole: Record)
    ensures
        whole@ == merged(record@, payload@),
{
    let bytes = record.payload();
    let len: usize = meta_length(record.op_type());
    let mut out: Vec<u8> = Vec::new();
    if bytes.len() >= len {
        push_range(&mut out, bytes, 0, len);
        assert(out@ =~= meta(record@));
    } else {
        let mut i: usize = 0;
        while i < len
            invariant
                i <= len,
                out@ == Seq::new(i as nat, |j: int| 0u8),
            decreases len - i,
        {
            out.push(0);
            i = i + 1;
            assert(out@ =~= Seq::new(i as nat, |j: int| 0u8));
        }
        assert(out@ =~= meta(record@));
    }
    out.push(PAYLOAD_MARK);
    push_range(&mut out, payload, 0, payload.len());
    assert(out@ =~= meta(record@) + seq![PAYLOAD_MARK] + payload@);
    Record::new(record.id(), record.op_type(), record.priority(), out)
}

/// What becomes of a task whose latest record is `record`.
pub fn replay_state(record: &Record, now: u64) -> (state: TaskState)
    ensures
        state == state_after(record@, now),
{
    let payload = record.payload();
    match record.op_type() {
        OpType::Created => TaskState::Ready { retries: 0 },
        OpType::Nacked | OpType::Expired => {
            if payload.len() >= 1 {
                TaskState::Ready { retries: payload[0] }
            } else {
                TaskState::Ready { retries: 0 }
            }
        },
        OpType::Leased => {
            if payload.len() >= LEASE_LEN {
                let lease = LeaseInfo {
                    consumer_id: read_u32(payload, 0),
                    expire_timestamp: read_u64(payload, 4),
                    retries: payload[12],
                    priority: record.priority(),
                };
                if lease.expire_timestamp > now {
                    TaskState::Leased(lease)
                } else {
                    TaskState::Ready { retries: lease.retries }
                }
            } else {
                TaskState::Ready { retries: 0 }
            }
        },
        OpType::Acked | OpType::DeadLettered => TaskState::Finished,
    }
}

/// A lease comes back from the record that states it.
pub proof fn law_lease_round_trip(id: u64, lease: LeaseInfo)
    ensures
        ({
            let r = RecordView {
                id,
                op_type: OpType::Leased,
                priority: lease.priority,
                payload: lease_bytes(lease),
            };
            &&& r.payload.len() == LEASE_LEN
            &&& lease_of(r) == lease
            &&& !carries_payload(r)
        }),
{
    let bytes = lease_bytes(lease);
    lemma_u32_be_round_trip(lease.consumer_id);
    lemma_u64_be_round_trip(lease.expire_timestamp);
    assert(bytes.subrange(0, 4) =~= be_u32(lease.consumer_id));
    assert(bytes.subrange(4, 12) =~= be_u64(lease.expire_timestamp));
}

/// Putting the payload of the task into a record changes nothing of what the
/// record says of the task, and the payload comes back from it.
pub proof fn law_merging_keeps_the_task(r: RecordView, payload: Seq<u8>)
    requires
        r.op_type != OpType::Created,
        !r.op_type.is_terminal_spec(),
    ensures
        same_task(merged(r, payload), r),
        carries_payload(merged(r, payload)),
        task_payload(merged(r, payload)) == payload,
{
    let m = merged(r, payload);
    assert(m.payload.skip(meta_len(r.op_type) as int + 1) =~= payload);
    if r.op_type == OpType::Leased {
        if r.payload.len() >= LEASE_LEN {
            assert(m.payload.subrange(0, 4) =~= r.payload.subrange(0, 4));
            assert(m.payload.subrange(4, 12) =~= r.payload.subrange(4, 12));
        } else {
            let s = m.payload.subrange(4, 12);
            assert(s =~= seq![0u8, 0u8, 0u8, 0u8, 0u8, 0u8, 0u8, 0u8]);
            assert(be_u64(0) =~= s) by {
                assert((0u64 >> 56u64) & 0xff == 0) by (bit_vector);
                assert((0u64 >> 48u64) & 0xff == 0) by (bit_vector);
                assert((0u64 >> 40u64) & 0xff == 0) by (bit_vector);
                assert((0u64 >> 32u64) & 0xff == 0) by (bit_vector);
                assert((0u64 >> 24u64) & 0xff == 0) by (bit_vector);
                assert((0u64 >> 16u64) & 0xff == 0) by (bit_vector);
                assert((0u64 >> 8u64) & 0xff == 0) by (bit_vector);
                assert(0u64 & 0xff == 0) by (bit_vector);
            }
            lemma_u64_be_round_trip(0);
        }
    }
}

/// A record says the same of its task without the payload.
pub proof fn lemma_plain(r: RecordView)
    requires
        !r.op_type.is_terminal_spec(),
    ensures
        same_task(plain(r), r),
        plain(plain(r)) == plain(r),
        r.op_type != OpType::Created ==> !carries_payload(plain(r)),
        plain(r).op_type == r.op_type,
        meta(plain(r)) == meta(r),
        plain(r).payload.len() <= r.payload.len(),
{
    let b = plain(r);
    if r.op_type != OpType::Created && carries_payload(r) {
        assert(meta(b) =~= meta(r));
        if r.op_type == OpType::Leased {
            assert(b.payload.subrange(0, 4) =~= r.payload.subrange(0, 4));
            assert(b.payload.subrange(4, 12) =~= r.payload.subrange(4, 12));
        }
    }
}

/// Putting a payload into a record that has it changes nothing.
pub proof fn lemma_merged_again(r: RecordView, payload: Seq<u8>)
    requires
        r.op_type != OpType::Created,
        !r.op_type.is_terminal_spec(),
    ensures
        merged(merged(r, payload), payload) == merged(r, payload),
        merged(plain(r), payload) == merged(r, payload),
        carries_payload(r) ==> merged(r, task_payload(r)) == r,
{
    let m = merged(r, payload);
    assert(meta(m) =~= meta(r));
    lemma_plain(r);
    if carries_payload(r) {
        assert(merged(r, task_payload(r)).payload =~= r.payload);
    }
}

/// The latest record of a task in a log.
pub open spec fn last_entry(log: Seq<EntryView>, id: u64) -> Option<EntryView>
    decreases log.len(),
{
    if log.len() == 0 {
        None
    } else if log.last().record.id == id {
        Some(log.last())
    } else {
        last_entry(log.drop_last(), id)
    }
}

/// The latest record in a log that carries the payload of a task.
pub open spec fn last_carrier(log: Seq<EntryView>, id: u64) -> Option<EntryView>
    decreases log.len(),
{
    if log.len() == 0 {
        None
    } else if log.last().record.id == id && is_carrier(log.last()) {
        Some(log.last())
    } else {
        last_carrier(log.drop_last(), id)
    }
}

/// Whether a task is neither acknowledged nor given up at the end of a log.
pub open spec fn live_in(log: Seq<EntryView>, id: u64) -> bool {
    match last_entry(log, id) {
        Some(e) => !e.record.op_type.is_terminal_spec(),
        None => false,
    }
}

/// Every task in the log has an id below `bound`.
pub open spec fn ids_below(log: Seq<EntryView>, bound: u64) -> bool {
    forall|i: int| 0 <= i < log.len() ==> (#[trigger] log[i]).record.id < bound
}

/// Whether a task is running at the end of a log and its payload is there: since
/// the record that carries it nothing has ended the task, and every record of the
/// task states the same priority.
pub open spec fn carried(log: Seq<EntryView>, id: u64) -> bool
    decreases log.len(),
{
    if log.len() == 0 {
        false
    } else if log.last().record.id != id {
        carried(log.drop_last(), id)
    } else {
        let r = log.last().record;
        ||| is_carrier(log.last())
        ||| !r.op_type.is_terminal_spec() && carried(log.drop_last(), id) && r.priority
            == last_priority(log.drop_last(), id)
    }
}

/// The priority that the latest record of a task states.
pub open spec fn last_priority(log: Seq<EntryView>, id: u64) -> u8 {
    (last_entry(log, id)->0).record.priority
}

/// A task is created before anything else happens to it.
#[verifier::opaque]
pub open spec fn starts_once(log: Seq<EntryView>) -> bool {
    forall|i: int, j: int|
        #![trigger log[i], log[j]]
        0 <= i < j < log.len() && log[j].record.op_type == OpType::Created ==> log[i].record.id
            != log[j].record.id
}

/// The payload of every running task is in the log, and no task is created twice.
#[verifier::opaque]
pub open spec fn orderly(log: Seq<EntryView>) -> bool {
    &&& forall|id: u64| #[trigger] live_in(log, id) ==> carried(log, id)
    &&& starts_once(log)
}

/// Whether a record may come next in an orderly log: it creates a task of which
/// the log knows nothing, it carries the payload of its task, it ends the task, or
/// it goes on with a running task.
pub open spec fn follows(log: Seq<EntryView>, entry: EntryView) -> bool {
    let r = entry.record;
    if r.op_type == OpType::Created {
        last_entry(log, r.id) is None
    } else {
        ||| is_carrier(entry)
        ||| r.op_type.is_terminal_spec()
        ||| live_in(log, r.id) && r.priority == last_priority(log, r.id)
    }
}

/// An orderly log stays orderly.
pub proof fn lemma_orderly_append(log: Seq<EntryView>, entry: EntryView)
    requires
        orderly(log),
        follows(log, entry),
    ensures
        orderly(log.push(entry)),
{
    reveal(orderly);
    reveal(starts_once);
    let after = log.push(entry);
    assert(after.drop_last() =~= log);
    assert forall|id: u64| #[trigger] live_in(after, id) implies carried(after, id) by {
        lemma_append(log, entry, id);
        if entry.record.id != id {
            assert(live_in(log, id));
        } else {
            assert(live_in(log, id) ==> carried(log, id));
        }
    }
    assert forall|i: int, j: int|
        #![trigger after[i], after[j]]
        0 <= i < j < after.len() && after[j].record.op_type == OpType::Created implies after[i].record.id
        != after[j].record.id by {
        assert(after[i] == log[i]);
        if j < log.len() {
            assert(after[j] == log[j]);
        } else {
            lemma_last_entry(log, entry.record.id);
        }
    }
}

/// A task whose payload is there is running, and the record that carries the
/// payload states its priority.
pub proof fn lemma_carried(log: Seq<EntryView>, id: u64)
    requires
        carried(log, id),
    ensures
        live_in(log, id),
        last_carrier(log, id) is Some,
        last_carrier(log, id)->0.record.id == id,
        is_carrier(last_carrier(log, id)->0),
        carries_payload(last_carrier(log, id)->0.record),
        last_carrier(log, id)->0.record.priority == last_priority(log, id),
    decreases log.len(),
{
    if log.last().record.id == id && is_carrier(log.last()) {
    } else {
        lemma_carried(log.drop_last(), id);
    }
}

/// In an orderly log the payload of every running task is there, in a record that
/// states the priority of the task.
pub proof fn lemma_orderly_has_payload(log: Seq<EntryView>, id: u64)
    requires
        orderly(log),
        live_in(log, id),
    ensures
        last_carrier(log, id) is Some,
        last_carrier(log, id)->0.record.id == id,
        is_carrier(last_carrier(log, id)->0),
        carries_payload(last_carrier(log, id)->0.record),
        last_carrier(log, id)->0.record.priority == last_entry(log, id)->0.record.priority,
        carried(log, id),
{
    reveal(orderly);
    lemma_carried(log, id);
}

/// Where the payload of a task comes from when one log follows another.
pub proof fn lemma_carried_on(first: Seq<EntryView>, second: Seq<EntryView>, id: u64)
    ensures
        carried(second, id) ==> carried(first + second, id),
        carried(first + second, id) && !carried(second, id) ==> {
            &&& carried(first, id)
            &&& last_carrier(second, id) is None
            &&& last_priority(first + second, id) == last_priority(first, id)
        },
    decreases second.len(),
{
    if second.len() == 0 {
        assert(first + second =~= first);
    } else {
        let head = second.drop_last();
        lemma_carried_on(first, head, id);
        lemma_concatenated(first, head, id);
        assert((first + second).drop_last() =~= first + head);
        assert((first + second).last() == second.last());
        if carried(head, id) {
            lemma_carried(head, id);
        }
    }
}

/// The payload that a task has at the end of a log: the latest that was logged
/// since the task last came to an end.
pub open spec fn payload_since(log: Seq<EntryView>, id: u64) -> Option<Seq<u8>>
    decreases log.len(),
{
    if log.len() == 0 {
        None
    } else if log.last().record.id != id {
        payload_since(log.drop_last(), id)
    } else if log.last().record.op_type.is_terminal_spec() {
        None
    } else if is_carrier(log.last()) {
        Some(task_payload(log.last().record))
    } else {
        payload_since(log.drop_last(), id)
    }
}

/// Whether a log alone says which payload a task has.
pub open spec fn decides(log: Seq<EntryView>, id: u64) -> bool
    decreases log.len(),
{
    if log.len() == 0 {
        false
    } else {
        ||| log.last().record.id == id && (log.last().record.op_type.is_terminal_spec()
            || is_carrier(log.last()))
        ||| decides(log.drop_last(), id)
    }
}

/// The payload of a task when one log follows another.
pub proof fn lemma_payload_since_on(first: Seq<EntryView>, second: Seq<EntryView>, id: u64)
    ensures
        payload_since(first + second, id) == (if decides(second, id) {
            payload_since(second, id)
        } else {
            payload_since(first, id)
        }),
    decreases second.len(),
{
    if second.len() == 0 {
        assert(first + second =~= first);
    } else {
        lemma_payload_since_on(first, second.drop_last(), id);
        assert((first + second).drop_last() =~= first + second.drop_last());
        assert((first + second).last() == second.last());
    }
}

/// Where the payload of a task is there, it is the payload of the task.
pub proof fn lemma_carried_payload(log: Seq<EntryView>, id: u64)
    requires
        carried(log, id),
    ensures
        payload_since(log, id) == Some(task_payload((last_carrier(log, id)->0).record)),
    decreases log.len(),
{
    if log.last().record.id == id && is_carrier(log.last()) {
    } else {
        lemma_carried_payload(log.drop_last(), id);
    }
}

/// Whether a second log says of a task what a first one says: that it is running,
/// its state, and, where the first has its payload, the payload.
pub open spec fn alike(first: Seq<EntryView>, second: Seq<EntryView>, id: u64) -> bool {
    &&& live_in(second, id) == live_in(first, id)
    &&& live_in(first, id) ==> same_task(
        (last_entry(second, id)->0).record,
        (last_entry(first, id)->0).record,
    )
    &&& carried(first, id) ==> {
        &&& carried(second, id)
        &&& task_payload((last_carrier(second, id)->0).record) == task_payload(
            (last_carrier(first, id)->0).record,
        )
    }
}

/// Two logs that say the same of a task still do when the same records follow.
pub proof fn lemma_alike_goes_on(
    first: Seq<EntryView>,
    second: Seq<EntryView>,
    rest: Seq<EntryView>,
    id: u64,
)
    requires
        alike(first, second, id),
    ensures
        alike(first + rest, second + rest, id),
{
    lemma_concatenated(first, rest, id);
    lemma_concatenated(second, rest, id);
    lemma_carried_on(first, rest, id);
    if carried(first + rest, id) {
        lemma_carried(first + rest, id);
        if carried(rest, id) {
            lemma_carried_on(second, rest, id);
            lemma_carried(rest, id);
        } else {
            lemma_carried(first, id);
            lemma_carried_over(first, second, rest, id);
        }
    }
}

/// A task whose payload stands in one front of a log is carried on from another
/// front that has its payload as well.
pub proof fn lemma_carried_over(
    first: Seq<EntryView>,
    second: Seq<EntryView>,
    rest: Seq<EntryView>,
    id: u64,
)
    requires
        carried(first + rest, id),
        carried(second, id),
        last_priority(second, id) == last_priority(first, id),
        live_in(first, id),
    ensures
        carried(second + rest, id),
        last_priority(second + rest, id) == last_priority(first + rest, id),
    decreases rest.len(),
{
    if rest.len() == 0 {
        assert(first + rest =~= first);
        assert(second + rest =~= second);
    } else {
        let head = rest.drop_last();
        assert((first + rest).drop_last() =~= first + head);
        assert((second + rest).drop_last() =~= second + head);
        assert((first + rest).last() == rest.last());
        assert((second + rest).last() == rest.last());
        if rest.last().record.id != id || !is_carrier(rest.last()) {
            lemma_carried_over(first, second, head, id);
        }
    }
}

/// The latest record of a task is a record of that task.
pub proof fn lemma_last_entry(log: Seq<EntryView>, id: u64)
    ensures
        match last_entry(log, id) {
            Some(e) => e.record.id == id && log.contains(e),
            None => forall|i: int| 0 <= i < log.len() ==> (#[trigger] log[i]).record.id != id,
        },
    decreases log.len(),
{
    if log.len() > 0 {
        lemma_last_entry(log.drop_last(), id);
        let head = log.drop_last();
        if log.last().record.id != id {
            match last_entry(log, id) {
                Some(e) => {
                    let i = choose|i: int| 0 <= i < head.len() && head[i] == e;
                    assert(log[i] == e);
                },
                None => {
                    assert forall|i: int| 0 <= i < log.len() implies (#[trigger] log[i]).record.id
                        != id by {
                        if i < head.len() {
                            assert(head[i] == log[i]);
                        }
                    }
                },
            }
        } else {
            assert(log[log.len() - 1] == log.last());
        }
    }
}

/// Appending a record to a log makes it the latest of its task and leaves every
/// other task alone.
pub proof fn lemma_append(log: Seq<EntryView>, entry: EntryView, id: u64)
    ensures
        last_entry(log.push(entry), id) == (if entry.record.id == id {
            Some(entry)
        } else {
            last_entry(log, id)
        }),
        last_carrier(log.push(entry), id) == (if entry.record.id == id && is_carrier(entry) {
            Some(entry)
        } else {
            last_carrier(log, id)
        }),
{
    assert(log.push(entry).drop_last() =~= log);
}

/// What two logs say of a task when one follows the other: the later one counts
/// where it mentions the task.
pub proof fn lemma_concatenated(first: Seq<EntryView>, second: Seq<EntryView>, id: u64)
    ensures
        last_entry(first + second, id) == (if last_entry(second, id) is Some {
            last_entry(second, id)
        } else {
            last_entry(first, id)
        }),
        last_carrier(first + second, id) == (if last_carrier(second, id) is Some {
            last_carrier(second, id)
        } else {
            last_carrier(first, id)
        }),
    decreases second.len(),
{
    if second.len() == 0 {
        assert(first + second =~= first);
    } else {
        lemma_concatenated(first, second.drop_last(), id);
        assert((first + second).drop_last() =~= first + second.drop_last());
        assert((first + second).last() == second.last());
    }
}

/// A task that a log mentions once, and not to end it.
pub proof fn lemma_mentioned_once(log: Seq<EntryView>, i: int)
    requires
        0 <= i < log.len(),
        forall|j: int|
            0 <= j < log.len() && j != i ==> (#[trigger] log[j]).record.id != log[i].record.id,
        !log[i].record.op_type.is_terminal_spec(),
    ensures
        ({
            let id = log[i].record.id;
            &&& last_entry(log, id) == Some(log[i])
            &&& carried(log, id) == is_carrier(log[i])
            &&& last_carrier(log, id) == (if is_carrier(log[i]) {
                Some(log[i])
            } else {
                None
            })
            &&& payload_since(log, id) == (if is_carrier(log[i]) {
                Some(task_payload(log[i].record))
            } else {
                None
            })
            &&& decides(log, id) == is_carrier(log[i])
        }),
    decreases log.len(),
{
    let head = log.drop_last();
    assert(log.last() == log[log.len() - 1]);
    if i < log.len() - 1 {
        assert(head[i] == log[i]);
        assert forall|j: int| 0 <= j < head.len() && j != i implies (#[trigger] head[j]).record.id
            != head[i].record.id by {
            assert(head[j] == log[j]);
        }
        lemma_mentioned_once(head, i);
    } else {
        assert forall|j: int| 0 <= j < head.len() implies (#[trigger] head[j]).record.id
            != log[i].record.id by {
            assert(head[j] == log[j]);
        }
        lemma_not_mentioned(head, log[i].record.id);
    }
}

/// A task that a log does not mention has no record in it.
pub proof fn lemma_not_mentioned(log: Seq<EntryView>, id: u64)
    requires
        forall|j: int| 0 <= j < log.len() ==> (#[trigger] log[j]).record.id != id,
    ensures
        last_entry(log, id) is None,
        last_carrier(log, id) is None,
        !carried(log, id),
        payload_since(log, id) is None,
        !decides(log, id),
    decreases log.len(),
{
    if log.len() > 0 {
        let head = log.drop_last();
        assert forall|j: int| 0 <= j < head.len() implies (#[trigger] head[j]).record.id
            != id by {
            assert(head[j] == log[j]);
        }
        assert(log.last() == log[log.len() - 1]);
        lemma_not_mentioned(head, id);
    }
}

/// Records that go on with a task in its priority, and neither end it nor carry its
/// payload, leave the payload where it is.
pub proof fn lemma_goes_on(first: Seq<EntryView>, second: Seq<EntryView>, id: u64)
    requires
        carried(first, id),
        forall|j: int|
            0 <= j < second.len() && (#[trigger] second[j]).record.id == id ==> {
                &&& !second[j].record.op_type.is_terminal_spec()
                &&& second[j].record.priority == last_priority(first, id)
            },
    ensures
        carried(first + second, id),
        last_priority(first + second, id) == last_priority(first, id),
    decreases second.len(),
{
    if second.len() == 0 {
        assert(first + second =~= first);
    } else {
        let head = second.drop_last();
        assert forall|j: int|
            0 <= j < head.len() && (#[trigger] head[j]).record.id == id implies !head[j].record.op_type.is_terminal_spec()
            && head[j].record.priority == last_priority(first, id) by {
            assert(head[j] == second[j]);
        }
        lemma_goes_on(first, head, id);
        assert((first + second).drop_last() =~= first + head);
        assert((first + second).last() == second[second.len() - 1]);
    }
}

/// A task that is not running has no payload.
pub proof fn lemma_ended_has_no_payload(log: Seq<EntryView>, id: u64)
    requires
        !live_in(log, id),
    ensures
        payload_since(log, id) is None,
    decreases log.len(),
{
    if log.len() > 0 && log.last().record.id != id {
        lemma_ended_has_no_payload(log.drop_last(), id);
    }
}

/// A log that says nothing of a task does not decide which payload it has.
pub proof fn lemma_silent_log_decides_nothing(log: Seq<EntryView>, id: u64)
    requires
        last_entry(log, id) is None,
    ensures
        !decides(log, id),
        !carried(log, id),
        last_carrier(log, id) is None,
    decreases log.len(),
{
    if log.len() > 0 {
        lemma_silent_log_decides_nothing(log.drop_last(), id);
    }
}

/// A lease is written with four bytes of consumer, eight of time and one of retries,
/// and is read from these places.
pub proof fn law_lease_layout(lease: LeaseInfo, r: RecordView)
    ensures
        ({
            let bytes = lease_bytes(lease);
            &&& bytes.len() == 13
            &&& u32_of_be(bytes.subrange(0, 4)) == lease.consumer_id
            &&& u64_of_be(bytes.subrange(4, 12)) == lease.expire_timestamp
            &&& bytes[12] == lease.retries
        }),
        r.op_type == OpType::Leased && r.payload.len() >= 13 ==> {
            &&& lease_of(r).consumer_id == u32_of_be(r.payload.subrange(0, 4))
            &&& lease_of(r).expire_timestamp == u64_of_be(r.payload.subrange(4, 12))
            &&& lease_of(r).retries == r.payload[12]
            &&& lease_of(r).priority == r.priority
        },
{
    law_lease_round_trip(0, lease);
    let bytes = lease_bytes(lease);
    lemma_u32_be_round_trip(lease.consumer_id);
    lemma_u64_be_round_trip(lease.expire_timestamp);
    assert(bytes.subrange(0, 4) =~= be_u32(lease.consumer_id));
    assert(bytes.subrange(4, 12) =~= be_u64(lease.expire_timestamp));
}

/// What becomes of a task at a replay is said by its latest record. A new task waits
/// without a retry. A task that failed waits with the retries that the record states in
/// its first byte. A task that was handed out is held until the time that the record
/// states has come, and waits from then on, with the retries of its lease. A task that
/// was acknowledged or given up is finished. A number that is missing from the record
/// counts as zero.
pub proof fn law_replay_of_a_task(r: RecordView, now: u64)
    ensures
        r.op_type == OpType::Created ==> state_after(r, now) == (TaskState::Ready { retries: 0 }),
        r.op_type == OpType::Nacked || r.op_type == OpType::Expired ==> state_after(r, now) == (
        TaskState::Ready {
            retries: if r.payload.len() > 0 {
                r.payload[0]
            } else {
                0
            },
        }),
        r.op_type == OpType::Leased && r.payload.len() < 13 ==> state_after(r, now) == (
        TaskState::Ready { retries: 0 }),
        r.op_type == OpType::Leased && r.payload.len() >= 13 ==> {
            if u64_of_be(r.payload.subrange(4, 12)) > now {
                state_after(r, now) == TaskState::Leased(
                    LeaseInfo {
                        consumer_id: u32_of_be(r.payload.subrange(0, 4)),
                        expire_timestamp: u64_of_be(r.payload.subrange(4, 12)),
                        retries: r.payload[12],
                        priority: r.priority,
                    },
                )
            } else {
                state_after(r, now) == (TaskState::Ready { retries: r.payload[12] })
            }
        },
        r.op_type == OpType::Acked || r.op_type == OpType::DeadLettered ==> state_after(r, now)
            == TaskState::Finished,
        state_after(r, now) matches TaskState::Ready { retries } ==> retries == retries_of(r),
{
}

/// The payload of a task is in the record that creates it. In any other record of a
/// running task it stands behind the thirteen bytes of a lease or the one byte of
/// retries and the letter `P`, and only in segment 1.
pub proof fn law_where_the_payload_is(entry: EntryView, payload: Seq<u8>)
    ensures
        ({
            let r = entry.record;
            let op = r.op_type;
            let start = if op == OpType::Leased {
                13int
            } else {
                1int
            };
            &&& op == OpType::Created ==> is_carrier(entry) && carries_payload(r) && task_payload(r)
                == r.payload && plain(r) == r
            &&& op == OpType::Acked || op == OpType::DeadLettered ==> !is_carrier(entry)
                && !carries_payload(r) && plain(r) == r
            &&& op == OpType::Leased || op == OpType::Nacked || op == OpType::Expired ==> {
                &&& carries_payload(r) <==> r.payload.len() > start && r.payload[start] == 80
                &&& is_carrier(entry) <==> entry.segment == 1 && carries_payload(r)
                &&& task_payload(r) == r.payload.skip(start + 1)
                &&& r.payload.len() >= start ==> merged(r, payload).payload == r.payload.take(start)
                    + seq![80u8] + payload
                &&& merged(r, payload).payload.len() == start + 1 + payload.len()
                &&& plain(r).payload == (if carries_payload(r) {
                    r.payload.take(start)
                } else {
                    r.payload
                })
            }
        }),
{
}

/// The latest record of a task in a log is the one behind which there is no other of
/// the task, and the task is running unless that record ends it.
pub proof fn law_the_latest_record_counts(log: Seq<EntryView>, i: int)
    requires
        0 <= i < log.len(),
        forall|j: int| i < j < log.len() ==> (#[trigger] log[j]).record.id != log[i].record.id,
    ensures
        last_entry(log, log[i].record.id) == Some(log[i]),
        live_in(log, log[i].record.id) <==> log[i].record.op_type != OpType::Acked
            && log[i].record.op_type != OpType::DeadLettered,
    decreases log.len(),
{
    if i < log.len() - 1 {
        let head = log.drop_last();
        assert(log[log.len() - 1] == log.last());
        assert forall|j: int| i < j < head.len() implies (#[trigger] head[j]).record.id
            != head[i].record.id by {
            assert(head[j] == log[j]);
        }
        law_the_latest_record_counts(head, i);
        assert(head[i] == log[i]);
    }
}

/// The payload of a task is found in the latest record that carries it.
pub proof fn law_the_latest_payload_counts(log: Seq<EntryView>, i: int)
    requires
        0 <= i < log.len(),
        is_carrier(log[i]),
        forall|j: int|
            i < j < log.len() ==> (#[trigger] log[j]).record.id != log[i].record.id || !is_carrier(
                log[j],
            ),
    ensures
        last_carrier(log, log[i].record.id) == Some(log[i]),
    decreases log.len(),
{
    if i < log.len() - 1 {
        let head = log.drop_last();
        assert(log[log.len() - 1] == log.last());
        assert forall|j: int| i < j < head.len() implies (#[trigger] head[j]).record.id
            != head[i].record.id || !is_carrier(head[j]) by {
            assert(head[j] == log[j]);
        }
        law_the_latest_payload_counts(head, i);
        assert(head[i] == log[i]);
    }
}

/// A task of which a log says nothing is not running, and has no record in it.
pub proof fn law_an_unknown_task_is_not_running(log: Seq<EntryView>, id: u64)
    requires
        forall|i: int| 0 <= i < log.len() ==> (#[trigger] log[i]).record.id != id,
    ensures
        last_entry(log, id) is None,
        last_carrier(log, id) is None,
        !live_in(log, id),
{
    lemma_not_mentioned(log, id);
}

} // verus!
