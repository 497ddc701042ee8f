//! What always holds between a queue and its log.
//!
//! [`agrees`] relates the state of a queue to the records of its log. The laws
//! below show that every operation keeps the relation, that a replay of the log
//! establishes it, and that a compaction keeps it. From the relation follow the
//! promises of the queue: a task is held by one consumer at a time, a task that
//! was completed or given up does not come back, and a consumer gets the payload
//! that was pushed.

use super::compaction::{compacted, compacted_segment, head_offsets, law_compacted_segment_reads_back, law_compaction_preserves_tasks, payload_offsets};
use super::compaction::{lemma_compacted_log_is_orderly, lemma_kept};
use super::engine::{acking, created, delivered, failing, lease_for, leasing, retries_after, EngineError, EngineView, TaskRef, MAX_RETRIES};
use super::ids::{ascending, lemma_ascending, strictly_ascending};
use super::payload_cache::CacheView;
use super::priority_queue::{by_priority, enqueued, law_fifo_within_priority, lemma_enqueued, rank};
use super::record::{decoded, OpType, RecordView};
use super::recovery::{moved, next_id_after, place_of, places, recovered, requeued, task_state};
use super::segment::lemma_log_of_more;
use super::segment::{entries_of, frame_end, log_of, placed, scan_end, scanned, EntryView, SegmentView};
use super::segment::{law_append_adds_one_record, law_cutting_back_keeps_the_records, law_replayed_record_can_be_read};
use super::segment::{read_result, ReadError};
use super::task::{carried, carries_payload, follows, is_carrier, ids_below, last_carrier, last_entry, lease_of, live_in, orderly, retries_of, same_task, starts_once, state_after, task_payload};
use super::task::{law_lease_round_trip, lemma_append, lemma_last_entry, lemma_orderly_has_payload, LeaseInfo, TaskState, LEASE_LEN};
use super::task::{lemma_carried, lemma_carried_on, lemma_carried_payload, lemma_concatenated, lemma_orderly_append};
use super::wal::{AppendOutcome, WalView};
use vstd::prelude::*;

verus! {

/// The latest record of a running task.
pub open spec fn latest(log: Seq<EntryView>, id: u64) -> RecordView {
    (last_entry(log, id)->0).record
}

/// The payload of a running task.
pub open spec fn payload_in(log: Seq<EntryView>, id: u64) -> Seq<u8> {
    task_payload((last_carrier(log, id)->0).record)
}

/// A task is running in both of two logs or in none of them, with one payload.
pub open spec fn unchanged(before: Seq<EntryView>, after: Seq<EntryView>, id: u64) -> bool {
    &&& live_in(after, id) == live_in(before, id)
    &&& payload_in(after, id) == payload_in(before, id)
}

/// A task that waits is running, and its latest record states its priority and
/// its retries.
pub open spec fn waits(log: Seq<EntryView>, task: TaskRef) -> bool {
    &&& live_in(log, task.id)
    &&& latest(log, task.id).priority == task.priority
    &&& retries_of(latest(log, task.id)) == task.retries
}

/// A task that is held is running, and its latest record states its lease.
pub open spec fn holds(log: Seq<EntryView>, id: u64, lease: LeaseInfo) -> bool {
    &&& live_in(log, id)
    &&& latest(log, id).op_type == OpType::Leased
    &&& latest(log, id).payload.len() >= LEASE_LEN
    &&& lease_of(latest(log, id)) == lease
}

/// The places of the latest records and of the payloads are those in the log.
pub open spec fn places_agree(v: EngineView, log: Seq<EntryView>) -> bool {
    &&& forall|id: u64|
        live_in(log, id) ==> #[trigger] v.index.contains_key(id) && v.index[id] == place_of(
            last_entry(log, id)->0,
        )
    &&& forall|id: u64| #[trigger] v.data_index.contains_key(id) <==> live_in(log, id)
    &&& forall|id: u64| #[trigger]
        v.data_index.contains_key(id) ==> v.data_index[id] == place_of(last_carrier(log, id)->0)
}

/// The tasks in the queue are running, each is there once, and nobody holds them.
pub open spec fn queue_agrees(v: EngineView, log: Seq<EntryView>) -> bool {
    &&& forall|i: int| 0 <= i < v.ready.len() ==> waits(log, #[trigger] v.ready[i])
    &&& forall|i: int, j: int|
        0 <= i < j < v.ready.len() ==> (#[trigger] v.ready[i]).id != (#[trigger] v.ready[j]).id
    &&& forall|i: int|
        0 <= i < v.ready.len() ==> !v.leased.contains_key((#[trigger] v.ready[i]).id)
}

/// The leases are those that the log states.
pub open spec fn leases_agree(v: EngineView, log: Seq<EntryView>) -> bool {
    forall|id: u64| #[trigger] v.leased.contains_key(id) ==> holds(log, id, v.leased[id])
}

/// The cached payloads are those of running tasks.
pub open spec fn cache_agrees(v: EngineView, log: Seq<EntryView>) -> bool {
    forall|id: u64| #[trigger]
        v.cache.entries.contains_key(id) ==> live_in(log, id) && v.cache.entries[id] == payload_in(
            log,
            id,
        )
}

/// The state of a queue agrees with its log.
pub open spec fn agrees(v: EngineView, log: Seq<EntryView>) -> bool {
    &&& orderly(log)
    &&& ids_below(log, v.next_id)
    &&& places_agree(v, log)
    &&& queue_agrees(v, log)
    &&& leases_agree(v, log)
    &&& cache_agrees(v, log)
}

/// Every running task waits or is held.
pub open spec fn complete(v: EngineView, log: Seq<EntryView>) -> bool {
    forall|id: u64| #[trigger]
        live_in(log, id) ==> v.leased.contains_key(id) || is_waiting(v.ready, id)
}

/// Whether a task is in the queue.
pub open spec fn is_waiting(ready: Seq<TaskRef>, id: u64) -> bool {
    exists|i: int| 0 <= i < ready.len() && (#[trigger] ready[i]).id == id
}

/// Of two tasks with one priority, the one that was pushed first stands first.
pub open spec fn by_age(ready: Seq<TaskRef>) -> bool {
    forall|i: int, j: int|
        0 <= i < j < ready.len() && (#[trigger] ready[i]).priority == (#[trigger] ready[j]).priority
            ==> ready[i].id < ready[j].id
}

/// The log after a record has been appended at the next place.
pub open spec fn extended(v: EngineView, log: Seq<EntryView>, record: RecordView) -> Seq<EntryView> {
    let place = v.wal.next_place();
    log.push(EntryView { segment: place.0, offset: place.1, record })
}

/// Where each task stands after one more has joined them.
proof fn lemma_joined(tasks: Seq<TaskRef>, task: TaskRef)
    ensures
        ({
            let k = rank(tasks, task.priority) as int;
            let after = enqueued(tasks, task);
            &&& 0 <= k <= tasks.len()
            &&& after.len() == tasks.len() + 1
            &&& forall|i: int|
                0 <= i < after.len() ==> (#[trigger] after[i]) == (if i < k {
                    tasks[i]
                } else if i == k {
                    task
                } else {
                    tasks[i - 1]
                })
            &&& forall|id: u64| #[trigger]
                is_waiting(after, id) <==> is_waiting(tasks, id) || id == task.id
        }),
{
    lemma_enqueued(tasks, task);
    let k = rank(tasks, task.priority) as int;
    let after = enqueued(tasks, task);
    assert forall|id: u64| #[trigger]
        is_waiting(after, id) <==> is_waiting(tasks, id) || id == task.id by {
        if is_waiting(after, id) {
            let i = choose|i: int| 0 <= i < after.len() && (#[trigger] after[i]).id == id;
            if i < k {
                assert(tasks[i].id == id);
            } else if i > k {
                assert(tasks[i - 1].id == id);
            }
        }
        if is_waiting(tasks, id) {
            let j = choose|j: int| 0 <= j < tasks.len() && (#[trigger] tasks[j]).id == id;
            if j < k {
                assert(after[j].id == id);
            } else {
                assert(after[j + 1].id == id);
            }
        }
        if id == task.id {
            assert(after[k].id == id);
        }
    }
}

/// An insertion into the cache adds at most the one entry.
proof fn lemma_cache_grows_by_one(cache: CacheView, id: u64, payload: Seq<u8>)
    ensures
        forall|k: u64| #[trigger]
            cache.inserted(id, payload).entries.contains_key(k) ==> {
                let after = cache.inserted(id, payload).entries;
                ||| k == id && after[k] == payload
                ||| cache.entries.contains_key(k) && after[k] == cache.entries[k]
            },
{
}

/// What a log says after one more record.
pub proof fn lemma_extended(v: EngineView, log: Seq<EntryView>, record: RecordView)
    ensures
        ({
            let after = extended(v, log, record);
            let entry = after.last();
            &&& after.drop_last() == log
            &&& entry.record == record
            &&& place_of(entry) == v.wal.next_place()
            &&& forall|id: u64| #[trigger]
                last_entry(after, id) == (if record.id == id {
                    Some(entry)
                } else {
                    last_entry(log, id)
                })
            &&& forall|id: u64| #[trigger]
                last_carrier(after, id) == (if record.id == id && is_carrier(entry) {
                    Some(entry)
                } else {
                    last_carrier(log, id)
                })
            &&& forall|id: u64| id != record.id ==> live_in(after, id) == #[trigger] live_in(
                log,
                id,
            )
            &&& orderly(log) && follows(log, entry) ==> orderly(after)
        }),
{
    let place = v.wal.next_place();
    let entry = EntryView { segment: place.0, offset: place.1, record };
    let after = extended(v, log, record);
    assert(after.drop_last() =~= log);
    if orderly(log) && follows(log, entry) {
        lemma_orderly_append(log, entry);
    }
    assert forall|id: u64| #[trigger] last_entry(after, id) == (if record.id == id {
        Some(entry)
    } else {
        last_entry(log, id)
    }) by {
        lemma_append(log, entry, id);
    }
    assert forall|id: u64| #[trigger] last_carrier(after, id) == (if record.id == id
        && is_carrier(entry) {
        Some(entry)
    } else {
        last_carrier(log, id)
    }) by {
        lemma_append(log, entry, id);
    }
}

/// The places after one more record.
proof fn lemma_places_step(v: EngineView, after: EngineView, log: Seq<EntryView>, record: RecordView)
    requires
        places_agree(v, log),
        after.index == v.index.insert(record.id, v.wal.next_place()),
        if record.op_type.is_terminal_spec() {
            after.data_index == v.data_index.remove(record.id)
        } else if record.op_type == OpType::Created {
            after.data_index == v.data_index.insert(record.id, v.wal.next_place())
        } else {
            after.data_index == v.data_index && live_in(log, record.id) && !carries_payload(record)
        },
    ensures
        places_agree(after, extended(v, log, record)),
{
    let log_after = extended(v, log, record);
    lemma_extended(v, log, record);
    assert forall|id: u64| live_in(log_after, id) implies #[trigger] after.index.contains_key(id)
        && after.index[id] == place_of(last_entry(log_after, id)->0) by {
        if id != record.id {
            assert(live_in(log, id));
            assert(v.index.contains_key(id));
        }
    }
    assert forall|id: u64| #[trigger] after.data_index.contains_key(id) <==> live_in(
        log_after,
        id,
    ) by {
        assert(v.data_index.contains_key(id) <==> live_in(log, id));
    }
    assert forall|id: u64| #[trigger] after.data_index.contains_key(id) implies after.data_index[id]
        == place_of(last_carrier(log_after, id)->0) by {
        if id != record.id || record.op_type != OpType::Created {
            assert(v.data_index.contains_key(id));
        }
    }
}

/// The leases after one more record.
proof fn lemma_leases_step(v: EngineView, after: EngineView, log: Seq<EntryView>, record: RecordView)
    requires
        leases_agree(v, log),
        forall|id: u64| #[trigger]
            after.leased.contains_key(id) ==> {
                ||| id != record.id && v.leased.contains_key(id) && after.leased[id] == v.leased[id]
                ||| id == record.id && holds(extended(v, log, record), id, after.leased[id])
            },
    ensures
        leases_agree(after, extended(v, log, record)),
{
    let log_after = extended(v, log, record);
    lemma_extended(v, log, record);
    assert forall|id: u64| #[trigger] after.leased.contains_key(id) implies holds(
        log_after,
        id,
        after.leased[id],
    ) by {
        if id != record.id {
            assert(holds(log, id, v.leased[id]));
        }
    }
}

/// The cache after one more record.
proof fn lemma_cache_step(v: EngineView, after: EngineView, log: Seq<EntryView>, record: RecordView)
    requires
        cache_agrees(v, log),
        forall|id: u64| #[trigger]
            after.cache.entries.contains_key(id) ==> {
                let log_after = extended(v, log, record);
                let payload = after.cache.entries[id];
                ||| v.cache.entries.contains_key(id) && payload == v.cache.entries[id] && (id
                    != record.id || !record.op_type.is_terminal_spec() && !carries_payload(record))
                ||| id == record.id && live_in(log_after, id) && payload == payload_in(
                    log_after,
                    id,
                )
            },
    ensures
        cache_agrees(after, extended(v, log, record)),
{
    let log_after = extended(v, log, record);
    lemma_extended(v, log, record);
    assert forall|id: u64| #[trigger] after.cache.entries.contains_key(id) implies live_in(
        log_after,
        id,
    ) && after.cache.entries[id] == payload_in(log_after, id) by {
        assert(v.cache.entries.contains_key(id) ==> live_in(log, id) && v.cache.entries[id]
            == payload_in(log, id));
    }
}

/// Pushing a task keeps the state in agreement with the log. The new task is
/// running and has the payload that was pushed, and every other task keeps its
/// own.
pub proof fn law_push_keeps_agreement(
    v: EngineView,
    log: Seq<EntryView>,
    payload: Seq<u8>,
    priority: u8,
)
    requires
        agrees(v, log),
        v.next_id < u64::MAX,
    ensures
        ({
            let after = v.pushed(payload, priority, AppendOutcome::Written);
            let log_after = extended(v, log, created(v.next_id, priority, payload));
            &&& agrees(after, log_after)
            &&& complete(v, log) ==> complete(after, log_after)
            &&& live_in(log_after, v.next_id)
            &&& payload_in(log_after, v.next_id) == payload
            &&& forall|id: u64| id != v.next_id ==> #[trigger] unchanged(log, log_after, id)
        }),
{
    let id = v.next_id;
    let record = created(id, priority, payload);
    let after = v.pushed(payload, priority, AppendOutcome::Written);
    let log_after = extended(v, log, record);
    let task = TaskRef { id, priority, retries: 0 };
    lemma_extended(v, log, record);
    lemma_joined(v.ready, task);
    lemma_cache_grows_by_one(v.cache, id, payload);
    lemma_last_entry(log, id);
    assert(last_entry(log, id) is None) by {
        if last_entry(log, id) is Some {
            let e = last_entry(log, id)->0;
            let i = choose|i: int| 0 <= i < log.len() && log[i] == e;
            assert(log[i].record.id < v.next_id);
        }
    }
    assert(!live_in(log, id));
    assert(ids_below(log_after, after.next_id)) by {
        assert forall|i: int| 0 <= i < log_after.len() implies (#[trigger] log_after[i]).record.id
            < after.next_id by {
            if i < log.len() {
                assert(log_after[i] == log[i]);
            }
        }
    }
    assert(follows(log, log_after.last()));
    assert(!v.leased.contains_key(id)) by {
        if v.leased.contains_key(id) {
            assert(holds(log, id, v.leased[id]));
        }
    }
    lemma_places_step(v, after, log, record);
    lemma_leases_step(v, after, log, record);
    assert(!v.cache.entries.contains_key(id)) by {
        assert(v.cache.entries.contains_key(id) ==> live_in(log, id));
    }
    lemma_cache_step(v, after, log, record);
    let k = rank(v.ready, priority) as int;
    assert forall|i: int| 0 <= i < after.ready.len() implies waits(
        log_after,
        #[trigger] after.ready[i],
    ) && !after.leased.contains_key(after.ready[i].id) by {
        if i < k {
            assert(waits(log, v.ready[i]));
        } else if i > k {
            assert(waits(log, v.ready[i - 1]));
        }
    }
    assert forall|i: int, j: int| 0 <= i < j < after.ready.len() implies (#[trigger] after.ready[i]).id
        != (#[trigger] after.ready[j]).id by {
        if i < k {
            assert(waits(log, v.ready[i]));
        } else if i > k {
            assert(waits(log, v.ready[i - 1]));
        }
        if j < k {
            assert(waits(log, v.ready[j]));
        } else if j > k {
            assert(waits(log, v.ready[j - 1]));
        }
    }
    assert(queue_agrees(after, log_after));
    if complete(v, log) {
        assert forall|x: u64| #[trigger] live_in(log_after, x) implies after.leased.contains_key(x)
            || is_waiting(after.ready, x) by {
            if x != id {
                assert(live_in(log, x));
            }
        }
    }
}

/// Handing out a task keeps the state in agreement with the log, and keeps the
/// payload of every task.
pub proof fn law_lease_keeps_agreement(
    v: EngineView,
    log: Seq<EntryView>,
    consumer_id: u32,
    expire_timestamp: u64,
)
    requires
        agrees(v, log),
        v.ready.len() > 0,
    ensures
        ({
            let task = v.ready[0];
            let lease = lease_for(task, consumer_id, expire_timestamp);
            let after = v.handed_out(consumer_id, expire_timestamp, AppendOutcome::Written);
            let log_after = extended(v, log, leasing(task.id, lease));
            &&& agrees(after, log_after)
            &&& complete(v, log) ==> complete(after, log_after)
            &&& forall|id: u64| #[trigger] unchanged(log, log_after, id)
        }),
{
    let task = v.ready[0];
    let id = task.id;
    let lease = lease_for(task, consumer_id, expire_timestamp);
    let record = leasing(id, lease);
    let after = v.handed_out(consumer_id, expire_timestamp, AppendOutcome::Written);
    let log_after = extended(v, log, record);
    lemma_extended(v, log, record);
    law_lease_round_trip(id, lease);
    assert(waits(log, v.ready[0]));
    assert(ids_below(log_after, after.next_id)) by {
        lemma_last_entry(log, id);
        let e = last_entry(log, id)->0;
        let i = choose|i: int| 0 <= i < log.len() && log[i] == e;
        assert(log[i].record.id < v.next_id);
        assert forall|i: int| 0 <= i < log_after.len() implies (#[trigger] log_after[i]).record.id
            < after.next_id by {
            if i < log.len() {
                assert(log_after[i] == log[i]);
            }
        }
    }
    assert forall|i: int| 0 <= i < after.ready.len() implies waits(
        log_after,
        #[trigger] after.ready[i],
    ) && !after.leased.contains_key(after.ready[i].id) by {
        assert(after.ready[i] == v.ready[i + 1]);
        assert(waits(log, v.ready[i + 1]));
        assert(v.ready[0].id != v.ready[i + 1].id);
    }
    assert forall|i: int, j: int| 0 <= i < j < after.ready.len() implies (#[trigger] after.ready[i]).id
        != (#[trigger] after.ready[j]).id by {
        assert(after.ready[i] == v.ready[i + 1]);
        assert(after.ready[j] == v.ready[j + 1]);
    }
    assert(queue_agrees(after, log_after));
    assert(follows(log, log_after.last()));
    assert(!carries_payload(record));
    lemma_places_step(v, after, log, record);
    assert(holds(log_after, id, lease));
    lemma_leases_step(v, after, log, record);
    lemma_cache_step(v, after, log, record);
    if complete(v, log) {
        assert forall|x: u64| #[trigger] live_in(log_after, x) implies after.leased.contains_key(x)
            || is_waiting(after.ready, x) by {
            if x != id {
                assert(live_in(log, x));
                if !v.leased.contains_key(x) {
                    let i = choose|i: int| 0 <= i < v.ready.len() && (#[trigger] v.ready[i]).id == x;
                    assert(after.ready[i - 1].id == x);
                }
            }
        }
    }
}

/// Completing a task keeps the state in agreement with the log. The task is no
/// longer running, and every other task keeps its payload.
pub proof fn law_ack_keeps_agreement(v: EngineView, log: Seq<EntryView>, id: u64)
    requires
        agrees(v, log),
        v.leased.contains_key(id),
    ensures
        ({
            let after = v.acknowledged(id, AppendOutcome::Written);
            let log_after = extended(v, log, acking(id, v.leased[id].priority));
            &&& agrees(after, log_after)
            &&& complete(v, log) ==> complete(after, log_after)
            &&& !live_in(log_after, id)
            &&& forall|x: u64| x != id ==> #[trigger] unchanged(log, log_after, x)
        }),
{
    let record = acking(id, v.leased[id].priority);
    let after = v.acknowledged(id, AppendOutcome::Written);
    lemma_settled(v, after, log, record);
}

/// A step that appends a record and takes a task out of the hands of its
/// consumer for good.
proof fn lemma_settled(v: EngineView, after: EngineView, log: Seq<EntryView>, record: RecordView)
    requires
        agrees(v, log),
        v.leased.contains_key(record.id),
        record.op_type.is_terminal_spec(),
        record.priority == v.leased[record.id].priority,
        after.next_id == v.next_id,
        after.index == v.index.insert(record.id, v.wal.next_place()),
        after.data_index == v.data_index.remove(record.id),
        after.leased == v.leased.remove(record.id),
        after.ready == v.ready,
        after.cache.entries == v.cache.entries.remove(record.id),
    ensures
        ({
            let log_after = extended(v, log, record);
            &&& agrees(after, log_after)
            &&& complete(v, log) ==> complete(after, log_after)
            &&& !live_in(log_after, record.id)
            &&& forall|x: u64| x != record.id ==> #[trigger] unchanged(log, log_after, x)
        }),
{
    let id = record.id;
    let log_after = extended(v, log, record);
    lemma_extended(v, log, record);
    assert(follows(log, log_after.last()));
    assert(holds(log, id, v.leased[id]));
    assert(ids_below(log_after, after.next_id)) by {
        lemma_last_entry(log, id);
        let e = last_entry(log, id)->0;
        let i = choose|i: int| 0 <= i < log.len() && log[i] == e;
        assert(log[i].record.id < v.next_id);
        assert forall|i: int| 0 <= i < log_after.len() implies (#[trigger] log_after[i]).record.id
            < after.next_id by {
            if i < log.len() {
                assert(log_after[i] == log[i]);
            }
        }
    }
    assert forall|i: int| 0 <= i < after.ready.len() implies waits(
        log_after,
        #[trigger] after.ready[i],
    ) && !after.leased.contains_key(after.ready[i].id) by {
        assert(waits(log, v.ready[i]));
        assert(!v.leased.contains_key(v.ready[i].id));
    }
    assert(queue_agrees(after, log_after));
    lemma_places_step(v, after, log, record);
    lemma_leases_step(v, after, log, record);
    lemma_cache_step(v, after, log, record);
    if complete(v, log) {
        assert forall|x: u64| #[trigger] live_in(log_after, x) implies after.leased.contains_key(x)
            || is_waiting(after.ready, x) by {
            assert(live_in(log, x));
        }
    }
}

/// A failure keeps the state in agreement with the log, and every task keeps its
/// payload. The task is running afterwards unless it has failed too often.
pub proof fn law_failure_keeps_agreement(
    v: EngineView,
    log: Seq<EntryView>,
    id: u64,
    failure: OpType,
)
    requires
        agrees(v, log),
        v.leased.contains_key(id),
        failure == OpType::Nacked || failure == OpType::Expired,
    ensures
        ({
            let after = v.failed(id, failure, AppendOutcome::Written);
            let log_after = extended(v, log, failing(id, v.leased[id], failure));
            &&& agrees(after, log_after)
            &&& complete(v, log) ==> complete(after, log_after)
            &&& live_in(log_after, id) == (retries_after(v.leased[id].retries) < MAX_RETRIES)
            &&& live_in(log_after, id) ==> unchanged(log, log_after, id)
            &&& forall|x: u64| x != id ==> #[trigger] unchanged(log, log_after, x)
        }),
{
    let lease = v.leased[id];
    let record = failing(id, lease, failure);
    let after = v.failed(id, failure, AppendOutcome::Written);
    let log_after = extended(v, log, record);
    if record.op_type == OpType::DeadLettered {
        lemma_settled(v, after, log, record);
    } else {
        let task = TaskRef { id, priority: lease.priority, retries: retries_after(lease.retries) };
        assert(!carries_payload(record));
        lemma_extended(v, log, record);
        lemma_joined(v.ready, task);
        assert(holds(log, id, lease));
        assert(ids_below(log_after, after.next_id)) by {
            lemma_last_entry(log, id);
            let e = last_entry(log, id)->0;
            let i = choose|i: int| 0 <= i < log.len() && log[i] == e;
            assert(log[i].record.id < v.next_id);
            assert forall|i: int| 0 <= i < log_after.len() implies (
            #[trigger] log_after[i]).record.id < after.next_id by {
                if i < log.len() {
                    assert(log_after[i] == log[i]);
                }
            }
        }
        let k = rank(v.ready, task.priority) as int;
        assert forall|i: int| 0 <= i < after.ready.len() implies waits(
            log_after,
            #[trigger] after.ready[i],
        ) && !after.leased.contains_key(after.ready[i].id) by {
            if i != k {
                let j = if i < k { i } else { i - 1 };
                assert(waits(log, v.ready[j]));
                assert(!v.leased.contains_key(v.ready[j].id));
            }
        }
        assert forall|i: int, j: int| 0 <= i < j < after.ready.len() implies (
        #[trigger] after.ready[i]).id != (#[trigger] after.ready[j]).id by {
            let a = if i < k { i } else { i - 1 };
            let b = if j < k { j } else { j - 1 };
            if i != k {
                assert(!v.leased.contains_key(v.ready[a].id));
            }
            if j != k {
                assert(!v.leased.contains_key(v.ready[b].id));
            }
        }
        assert(follows(log, log_after.last()));
        assert(queue_agrees(after, log_after));
        lemma_places_step(v, after, log, record);
        lemma_leases_step(v, after, log, record);
        lemma_cache_step(v, after, log, record);
        if complete(v, log) {
            assert forall|x: u64| #[trigger] live_in(log_after, x) implies
                after.leased.contains_key(x) || is_waiting(after.ready, x) by {
                if x != id {
                    assert(live_in(log, x));
                }
            }
        }
    }
}

/// An operation whose record could not be appended leaves the log as it was, and
/// the state in agreement with it. A task that was to be handed out has left the
/// queue and comes back with the next replay.
pub proof fn law_failed_append_keeps_agreement(
    v: EngineView,
    log: Seq<EntryView>,
    outcome: AppendOutcome,
    payload: Seq<u8>,
    priority: u8,
    id: u64,
    failure: OpType,
    consumer_id: u32,
    expire_timestamp: u64,
)
    requires
        agrees(v, log),
        outcome != AppendOutcome::Written,
    ensures
        v.next_id < u64::MAX ==> agrees(v.pushed(payload, priority, outcome), log),
        agrees(v.acknowledged(id, outcome), log),
        agrees(v.failed(id, failure, outcome), log),
        v.ready.len() > 0 ==> agrees(v.handed_out(consumer_id, expire_timestamp, outcome), log),
        v.next_id < u64::MAX && complete(v, log) ==> complete(
            v.pushed(payload, priority, outcome),
            log,
        ),
        complete(v, log) ==> complete(v.acknowledged(id, outcome), log),
        complete(v, log) ==> complete(v.failed(id, failure, outcome), log),
{
    let after = v.pushed(payload, priority, outcome);
    if v.next_id < u64::MAX {
        assert forall|i: int| 0 <= i < log.len() implies (#[trigger] log[i]).record.id
            < after.next_id by {
            assert(log[i].record.id < v.next_id);
        }
        lemma_same_tasks(v, after, log);
    }
    lemma_same_tasks(v, v.acknowledged(id, outcome), log);
    lemma_same_tasks(v, v.failed(id, failure, outcome), log);
    if v.ready.len() > 0 {
        lemma_first_task_left(v, v.handed_out(consumer_id, expire_timestamp, outcome), log);
    }
}

/// A state with the same tasks agrees with the log as well.
proof fn lemma_same_tasks(v: EngineView, after: EngineView, log: Seq<EntryView>)
    requires
        agrees(v, log),
        ids_below(log, after.next_id),
        after.index == v.index,
        after.data_index == v.data_index,
        after.ready == v.ready,
        after.leased == v.leased,
        after.cache == v.cache,
    ensures
        agrees(after, log),
        complete(v, log) ==> complete(after, log),
{
    assert(places_agree(after, log));
    assert(queue_agrees(after, log));
    assert(leases_agree(after, log));
    assert(cache_agrees(after, log));
}

/// So does one from whose queue the first task is missing.
proof fn lemma_first_task_left(v: EngineView, after: EngineView, log: Seq<EntryView>)
    requires
        agrees(v, log),
        v.ready.len() > 0,
        after.next_id == v.next_id,
        after.index == v.index,
        after.data_index == v.data_index,
        after.ready == v.ready.skip(1),
        after.leased == v.leased,
        after.cache == v.cache,
    ensures
        agrees(after, log),
{
    assert forall|i: int| 0 <= i < after.ready.len() implies waits(log, #[trigger] after.ready[i])
        && !after.leased.contains_key(after.ready[i].id) by {
        assert(after.ready[i] == v.ready[i + 1]);
        assert(waits(log, v.ready[i + 1]));
        assert(!v.leased.contains_key(v.ready[i + 1].id));
    }
    assert forall|i: int, j: int| 0 <= i < j < after.ready.len() implies (
    #[trigger] after.ready[i]).id != (#[trigger] after.ready[j]).id by {
        assert(after.ready[i] == v.ready[i + 1]);
        assert(after.ready[j] == v.ready[j + 1]);
    }
    assert(queue_agrees(after, log));
    assert(places_agree(after, log));
    assert(leases_agree(after, log));
    assert(cache_agrees(after, log));
}

/// A queue without tasks agrees with an empty log.
pub proof fn law_empty_queue_agrees(v: EngineView)
    requires
        v.index == Map::<u64, (u64, u64)>::empty(),
        v.data_index == Map::<u64, (u64, u64)>::empty(),
        v.ready == Seq::<TaskRef>::empty(),
        v.leased == Map::<u64, LeaseInfo>::empty(),
        v.cache.entries == Map::<u64, Seq<u8>>::empty(),
    ensures
        agrees(v, Seq::empty()),
        complete(v, Seq::empty()),
{
    reveal(orderly);
    reveal(starts_once);
}

/// Dropping the cached payloads keeps the state in agreement with the log: the
/// cache holds nothing that the log does not hold.
pub proof fn law_clearing_the_cache_keeps_agreement(
    v: EngineView,
    log: Seq<EntryView>,
    cache: CacheView,
)
    requires
        agrees(v, log),
        cache.entries == Map::<u64, Seq<u8>>::empty(),
    ensures
        agrees(EngineView { cache, ..v }, log),
        complete(v, log) ==> complete(EngineView { cache, ..v }, log),
{
}

/// The next id is behind every id of the log.
proof fn lemma_next_id(log: Seq<EntryView>, next: u64)
    requires
        ids_below(log, u64::MAX),
    ensures
        next_id_after(log, next) >= next,
        ids_below(log, next_id_after(log, next)),
    decreases log.len(),
{
    if log.len() > 0 {
        let head = log.drop_last();
        assert forall|i: int| 0 <= i < head.len() implies (#[trigger] head[i]).record.id
            < u64::MAX by {
            assert(head[i] == log[i]);
        }
        assert(log.last() == log[log.len() - 1]);
        lemma_next_id(head, next);
        assert forall|i: int| 0 <= i < log.len() implies (#[trigger] log[i]).record.id
            < next_id_after(log, next) by {
            if i < head.len() {
                assert(head[i] == log[i]);
            }
        }
    }
}

/// The entry of a task in the queue after a replay.
pub open spec fn returning(log: Seq<EntryView>, id: u64, now: u64) -> TaskRef {
    TaskRef {
        id,
        priority: latest(log, id).priority,
        retries: task_state(log, id, now)->retries,
    }
}

/// What the queue holds after tasks have returned to it: every one that is ready,
/// once.
proof fn lemma_requeued(ids: Seq<u64>, log: Seq<EntryView>, now: u64)
    requires
        strictly_ascending(ids),
    ensures
        ({
            let queue = requeued(ids, log, now);
            &&& forall|i: int|
                0 <= i < queue.len() ==> {
                    let task = #[trigger] queue[i];
                    &&& ids.contains(task.id)
                    &&& task_state(log, task.id, now) is Ready
                    &&& task == returning(log, task.id, now)
                }
            &&& forall|id: u64| #[trigger]
                is_waiting(queue, id) <==> ids.contains(id) && task_state(log, id, now) is Ready
            &&& forall|i: int, j: int|
                0 <= i < j < queue.len() ==> (#[trigger] queue[i]).id != (#[trigger] queue[j]).id
        }),
    decreases ids.len(),
{
    if ids.len() > 0 {
        let head = ids.drop_last();
        let id = ids.last();
        let before = requeued(head, log, now);
        let queue = requeued(ids, log, now);
        assert forall|i: int, j: int|
            #![trigger head[i], head[j]]
            0 <= i < j < head.len() implies head[i] < head[j] by {
            assert(ids[i] < ids[j]);
        }
        lemma_requeued(head, log, now);
        assert(ids == head.push(id)) by {
            assert(ids =~= head.push(id));
        }
        assert(!head.contains(id)) by {
            if head.contains(id) {
                let k = choose|k: int| 0 <= k < head.len() && head[k] == id;
                assert(ids[k] < ids[ids.len() - 1]);
            }
        }
        assert forall|x: u64| #[trigger] ids.contains(x) <==> head.contains(x) || x == id by {
            if head.contains(x) {
                let k = choose|k: int| 0 <= k < head.len() && head[k] == x;
                assert(ids[k] == x);
            }
            if x == id {
                assert(ids[ids.len() - 1] == x);
            }
            if ids.contains(x) && x != id {
                let k = choose|k: int| 0 <= k < ids.len() && ids[k] == x;
                assert(head[k] == x);
            }
        }
        if task_state(log, id, now) is Ready {
            let task = returning(log, id, now);
            assert(queue == enqueued(before, task));
            lemma_joined(before, task);
            let k = rank(before, task.priority) as int;
            assert forall|i: int| 0 <= i < queue.len() implies {
                let t = #[trigger] queue[i];
                &&& ids.contains(t.id)
                &&& task_state(log, t.id, now) is Ready
                &&& t == returning(log, t.id, now)
            } by {
                if i < k {
                    assert(queue[i] == before[i]);
                } else if i > k {
                    assert(queue[i] == before[i - 1]);
                }
            }
            assert forall|i: int, j: int| 0 <= i < j < queue.len() implies (
            #[trigger] queue[i]).id != (#[trigger] queue[j]).id by {
                let a = if i < k { i } else { i - 1 };
                let b = if j < k { j } else { j - 1 };
                if i != k {
                    assert(head.contains(before[a].id));
                }
                if j != k {
                    assert(head.contains(before[b].id));
                }
            }
        }
    }
}

/// The tasks of a log are finitely many.
proof fn lemma_finitely_many(log: Seq<EntryView>)
    ensures
        places(log).dom().finite(),
    decreases log.len(),
{
    if log.len() == 0 {
        assert(places(log).dom() =~= Set::<u64>::empty());
    } else {
        let head = log.drop_last();
        lemma_finitely_many(head);
        assert forall|id: u64| places(log).dom().contains(id) implies places(head).dom().insert(
            log.last().record.id,
        ).contains(id) by {}
        assert(places(log).dom().subset_of(places(head).dom().insert(log.last().record.id)));
    }
}

/// The state that a replay gives agrees with the log, and no running task is
/// missing from it.
pub proof fn law_replay_agrees(empty: EngineView, log: Seq<EntryView>, now: u64)
    requires
        orderly(log),
        ids_below(log, u64::MAX),
        empty.cache.entries == Map::<u64, Seq<u8>>::empty(),
    ensures
        agrees(recovered(empty, log, now), log),
        complete(recovered(empty, log, now), log),
{
    let v = recovered(empty, log, now);
    lemma_next_id(log, empty.next_id);
    lemma_finitely_many(log);
    let ids = ascending(places(log).dom());
    lemma_ascending(places(log).dom());
    lemma_requeued(ids, log, now);
    assert forall|id: u64| #[trigger] ids.contains(id) <==> last_entry(log, id) is Some by {
        assert(ids.contains(id) <==> places(log).dom().contains(id));
    }
    assert forall|id: u64| #[trigger] v.data_index.contains_key(id) <==> live_in(log, id) by {
        if live_in(log, id) {
            lemma_orderly_has_payload(log, id);
        }
    }
    assert forall|i: int| 0 <= i < v.ready.len() implies waits(log, #[trigger] v.ready[i])
        && !v.leased.contains_key(v.ready[i].id) by {
        let task = v.ready[i];
        assert(task == returning(log, task.id, now));
        assert(ids.contains(task.id));
    }
    assert(places_agree(v, log));
    assert(queue_agrees(v, log));
    assert forall|id: u64| #[trigger] live_in(log, id) implies v.leased.contains_key(id)
        || is_waiting(v.ready, id) by {
        assert(ids.contains(id));
    }
}

/// Tasks that return by ascending id stand by priority, and within a priority by
/// id.
proof fn lemma_requeued_order(ids: Seq<u64>, log: Seq<EntryView>, now: u64)
    requires
        strictly_ascending(ids),
    ensures
        by_priority(requeued(ids, log, now)),
        by_age(requeued(ids, log, now)),
    decreases ids.len(),
{
    if ids.len() > 0 {
        let head = ids.drop_last();
        let id = ids.last();
        assert forall|i: int, j: int|
            #![trigger head[i], head[j]]
            0 <= i < j < head.len() implies head[i] < head[j] by {
            assert(ids[i] < ids[j]);
        }
        lemma_requeued_order(head, log, now);
        lemma_requeued(head, log, now);
        let before = requeued(head, log, now);
        if task_state(log, id, now) is Ready {
            let task = returning(log, id, now);
            let queue = enqueued(before, task);
            assert(requeued(ids, log, now) == queue);
            let k = rank(before, task.priority) as int;
            law_fifo_within_priority(before, task);
            lemma_joined(before, task);
            assert forall|i: int, j: int|
                0 <= i < j < queue.len() && (#[trigger] queue[i]).priority == (
                #[trigger] queue[j]).priority implies queue[i].id < queue[j].id by {
                if j == k {
                    assert(queue[i] == before[i]);
                    let n = choose|n: int| 0 <= n < head.len() && head[n] == before[i].id;
                    assert(ids[n] < ids[ids.len() - 1]);
                } else if i == k {
                    assert(queue[j] == before[j - 1]);
                } else {
                    let a = if i < k { i } else { i - 1 };
                    let b = if j < k { j } else { j - 1 };
                    assert(queue[i] == before[a]);
                    assert(queue[j] == before[b]);
                }
            }
        }
    }
}

/// After a restart tasks are handed out by priority, and within a priority in the
/// order in which they were pushed.
pub proof fn law_restart_queues_in_order(empty: EngineView, log: Seq<EntryView>, now: u64)
    ensures
        by_priority(recovered(empty, log, now).ready),
        by_age(recovered(empty, log, now).ready),
{
    lemma_finitely_many(log);
    lemma_ascending(places(log).dom());
    lemma_requeued_order(ascending(places(log).dom()), log, now);
}

/// After a restart every task is where it was. A lease that is still running goes
/// on. A task whose lease has ended waits again, with the retries it had. A task
/// that waited still waits, with the priority and the retries it had, unless its
/// latest record is a lease that is running at the time of the restart, which
/// takes a clock that was set back. A task that was completed or given up is
/// neither held nor does it wait.
pub proof fn law_restart_keeps_tasks(v: EngineView, log: Seq<EntryView>, empty: EngineView, now: u64)
    requires
        agrees(v, log),
        complete(v, log),
    ensures
        ({
            let w = recovered(empty, log, now);
            &&& forall|id: u64| #[trigger]
                v.leased.contains_key(id) ==> if v.leased[id].expire_timestamp > now {
                    w.leased.contains_key(id) && w.leased[id] == v.leased[id]
                } else {
                    w.ready.contains(
                        TaskRef {
                            id,
                            priority: v.leased[id].priority,
                            retries: v.leased[id].retries,
                        },
                    )
                }
            &&& forall|i: int|
                0 <= i < v.ready.len() && state_after(latest(log, v.ready[i].id), now) is Ready
                    ==> w.ready.contains(#[trigger] v.ready[i])
            &&& forall|id: u64|
                !live_in(log, id) ==> !w.leased.contains_key(id) && !(#[trigger] is_waiting(
                    w.ready,
                    id,
                ))
            &&& forall|id: u64|
                live_in(log, id) ==> w.leased.contains_key(id) != #[trigger] is_waiting(w.ready, id)
        }),
{
    let w = recovered(empty, log, now);
    lemma_finitely_many(log);
    let ids = ascending(places(log).dom());
    lemma_ascending(places(log).dom());
    lemma_requeued(ids, log, now);
    assert forall|id: u64| #[trigger] ids.contains(id) <==> last_entry(log, id) is Some by {
        assert(ids.contains(id) <==> places(log).dom().contains(id));
    }
    assert forall|id: u64| #[trigger] is_waiting(w.ready, id) implies w.ready.contains(
        returning(log, id, now),
    ) by {
        let i = choose|i: int| 0 <= i < w.ready.len() && (#[trigger] w.ready[i]).id == id;
        assert(w.ready[i] == returning(log, id, now));
    }
    assert forall|id: u64| #[trigger] v.leased.contains_key(id) implies if v.leased[id].expire_timestamp
        > now {
        w.leased.contains_key(id) && w.leased[id] == v.leased[id]
    } else {
        w.ready.contains(
            TaskRef { id, priority: v.leased[id].priority, retries: v.leased[id].retries },
        )
    } by {
        assert(holds(log, id, v.leased[id]));
        assert(ids.contains(id));
        if v.leased[id].expire_timestamp <= now {
            assert(is_waiting(w.ready, id));
        }
    }
    assert forall|i: int|
        0 <= i < v.ready.len() && state_after(latest(log, v.ready[i].id), now)
            is Ready implies w.ready.contains(#[trigger] v.ready[i]) by {
        let task = v.ready[i];
        assert(waits(log, task));
        assert(ids.contains(task.id));
        assert(is_waiting(w.ready, task.id));
        assert(returning(log, task.id, now) == task);
    }
}

/// A consumer gets the payload that was pushed. The place of the payload is known
/// for every task that waits. What the cache holds is the payload, and what the
/// log holds at that place is a record of the task with its payload.
pub proof fn law_delivers_the_pushed_payload(v: EngineView, log: Seq<EntryView>, i: int)
    requires
        agrees(v, log),
        0 <= i < v.ready.len(),
    ensures
        ({
            let task = v.ready[i];
            let stored = last_carrier(log, task.id)->0;
            &&& v.data_index.contains_key(task.id)
            &&& v.cache.entries.contains_key(task.id) ==> v.cache.entries[task.id] == payload_in(
                log,
                task.id,
            )
            &&& log.contains(stored)
            &&& v.data_index[task.id] == place_of(stored)
            &&& delivered(stored.record) == created(
                task.id,
                task.priority,
                payload_in(log, task.id),
            )
        }),
{
    let task = v.ready[i];
    assert(waits(log, task));
    lemma_orderly_has_payload(log, task.id);
    lemma_carrier_in_log(log, task.id);
    assert(v.data_index.contains_key(task.id));
    let stored = last_carrier(log, task.id)->0;
    assert(stored.record.id == task.id && stored.record.priority == task.priority);
}

/// A record with the payload of a task is found in the log.
proof fn lemma_carrier_in_log(log: Seq<EntryView>, id: u64)
    requires
        last_carrier(log, id) is Some,
    ensures
        log.contains(last_carrier(log, id)->0),
    decreases log.len(),
{
    if log.last().record.id == id && is_carrier(log.last()) {
        assert(log[log.len() - 1] == log.last());
    } else {
        let head = log.drop_last();
        lemma_carrier_in_log(head, id);
        let i = choose|i: int| 0 <= i < head.len() && head[i] == last_carrier(head, id)->0;
        assert(log[i] == head[i]);
    }
}

/// A task that has been handed out is out of the queue and held by its consumer
/// alone: nobody else can complete or refuse it, and it cannot be handed out
/// again until its lease has come to an end.
pub proof fn law_one_consumer_holds_a_task(
    v: EngineView,
    log: Seq<EntryView>,
    consumer_id: u32,
    expire_timestamp: u64,
    other: u32,
)
    requires
        agrees(v, log),
        v.ready.len() > 0,
    ensures
        ({
            let id = v.ready[0].id;
            let after = v.handed_out(consumer_id, expire_timestamp, AppendOutcome::Written);
            &&& !is_waiting(after.ready, id)
            &&& after.held_by(id, consumer_id) is Ok
            &&& other != consumer_id ==> after.held_by(id, other) == Err::<(), EngineError>(
                EngineError::LeasedToAnother,
            )
            &&& forall|now: u64| #[trigger]
                after.lease_ended(id, now) <==> now >= expire_timestamp
        }),
{
    law_lease_keeps_agreement(v, log, consumer_id, expire_timestamp);
}

/// A task is completed, refused or taken back once: whoever comes second finds it
/// not leased.
pub proof fn law_a_lease_ends_once(v: EngineView, id: u64, failure: OpType, consumer_id: u32)
    ensures
        v.acknowledged(id, AppendOutcome::Written).held_by(id, consumer_id) == Err::<
            (),
            EngineError,
        >(EngineError::NotLeased),
        v.failed(id, failure, AppendOutcome::Written).held_by(id, consumer_id) == Err::<
            (),
            EngineError,
        >(EngineError::NotLeased),
        forall|now: u64|
            !(#[trigger] v.acknowledged(id, AppendOutcome::Written).lease_ended(id, now)),
        forall|now: u64| !(#[trigger] v.failed(id, failure, AppendOutcome::Written).lease_ended(
            id,
            now,
        )),
{
}

/// A task is given up at its third failure and not before. Until then each
/// failure returns it to the queue with one more retry.
pub proof fn law_third_failure_gives_up(v: EngineView, id: u64, failure: OpType)
    requires
        v.leased.contains_key(id),
        failure == OpType::Nacked || failure == OpType::Expired,
    ensures
        ({
            let lease = v.leased[id];
            let after = v.failed(id, failure, AppendOutcome::Written);
            if lease.retries + 1 < MAX_RETRIES {
                &&& failing(id, lease, failure).op_type == failure
                &&& after.ready == enqueued(
                    v.ready,
                    TaskRef {
                        id,
                        priority: lease.priority,
                        retries: (lease.retries + 1) as u8,
                    },
                )
            } else {
                &&& failing(id, lease, failure).op_type == OpType::DeadLettered
                &&& after.ready == v.ready
                &&& !after.data_index.contains_key(id)
                &&& !after.cache.entries.contains_key(id)
            }
        }),
{
}

/// The segments that are on disk fit the books of the log: they are in order, and
/// the next record goes to the end of the last one, unless it starts a segment of
/// its own behind all others.
pub open spec fn booked(wal: WalView, segments: Seq<SegmentView>) -> bool {
    &&& segments.len() > 0
    &&& in_sequence(segments)
    &&& segments.last().id <= wal.active_segment_id
    &&& !wal.rotates() ==> {
        &&& segments.last().id == wal.active_segment_id
        &&& segments.last().bytes.len() == wal.current_size
    }
}

/// The segments that are on disk fit the books of the log, and the last one holds
/// nothing but whole frames.
pub open spec fn stored(wal: WalView, segments: Seq<SegmentView>) -> bool {
    &&& booked(wal, segments)
    &&& scan_end(segments.last().bytes, 0) == segments.last().bytes.len()
}

/// The segments are in ascending order.
pub open spec fn in_sequence(segments: Seq<SegmentView>) -> bool {
    forall|i: int, j: int|
        0 <= i < j < segments.len() ==> (#[trigger] segments[i]).id < (#[trigger] segments[j]).id
}

/// The segments after the last one has been cut back to its last whole frame.
pub open spec fn cut_back(segments: Seq<SegmentView>) -> Seq<SegmentView> {
    let last = segments.last();
    segments.drop_last().push(
        SegmentView { id: last.id, bytes: last.bytes.take(scan_end(last.bytes, 0)) },
    )
}

/// A log that is opened at its last segment fits its books once that segment has
/// been cut back, and no record is lost by that.
pub proof fn law_opened_log_is_stored(wal: WalView, segments: Seq<SegmentView>)
    requires
        segments.len() > 0,
        in_sequence(segments),
        wal.active_segment_id == segments.last().id,
        wal.current_size == scan_end(segments.last().bytes, 0),
    ensures
        stored(wal, cut_back(segments)),
        log_of(cut_back(segments)) == log_of(segments),
{
    let last = segments.last();
    let cut = cut_back(segments);
    law_cutting_back_keeps_the_records(last.id, last.bytes);
    assert(cut.drop_last() =~= segments.drop_last());
    assert forall|i: int, j: int| 0 <= i < j < cut.len() implies (#[trigger] cut[i]).id < (
    #[trigger] cut[j]).id by {
        assert(cut[i].id == segments[i].id);
        assert(cut[j].id == segments[j].id);
    }
}

/// The segments after an attempt to write a record that failed: at most an empty
/// segment was added.
pub open spec fn unwritten(
    wal: WalView,
    segments: Seq<SegmentView>,
    outcome: AppendOutcome,
) -> Seq<SegmentView> {
    if wal.rotates() && outcome == AppendOutcome::WriteFailed {
        segments.push(SegmentView { id: wal.next_place().0, bytes: Seq::empty() })
    } else {
        segments
    }
}

/// An attempt to write that failed adds no record to the log, and the books fit
/// for the next attempt.
pub proof fn law_failed_write_keeps_the_log(
    wal: WalView,
    segments: Seq<SegmentView>,
    len: nat,
    outcome: AppendOutcome,
)
    requires
        stored(wal, segments),
        wal.has_room(len),
        outcome != AppendOutcome::Written,
    ensures
        log_of(unwritten(wal, segments, outcome)) == log_of(segments),
        stored(wal.after(len, outcome), unwritten(wal, segments, outcome)),
{
    let after = unwritten(wal, segments, outcome);
    if wal.rotates() && outcome == AppendOutcome::WriteFailed {
        let nothing = Seq::<u8>::empty();
        assert(frame_end(nothing, 0) is None);
        assert(after.drop_last() =~= segments);
        assert(entries_of(after.last()) =~= Seq::<EntryView>::empty());
        assert(log_of(after) =~= log_of(segments));
        lemma_in_sequence(segments, after.last());
    }
}

/// A segment behind all others keeps the segments in order.
pub proof fn lemma_in_sequence(segments: Seq<SegmentView>, next: SegmentView)
    requires
        in_sequence(segments),
        segments.len() > 0,
        segments.last().id < next.id,
    ensures
        in_sequence(segments.push(next)),
{
    let after = segments.push(next);
    assert forall|i: int, j: int| 0 <= i < j < after.len() implies (#[trigger] after[i]).id < (
    #[trigger] after[j]).id by {
        if j < segments.len() {
            assert(segments[i].id < segments[j].id);
        } else if i < segments.len() - 1 {
            assert(segments[i].id < segments[segments.len() - 1].id);
        }
    }
}

/// The segments after a record has been written where the books say.
pub open spec fn written(
    wal: WalView,
    segments: Seq<SegmentView>,
    record: RecordView,
) -> Seq<SegmentView> {
    if wal.rotates() {
        segments.push(SegmentView { id: wal.next_place().0, bytes: record.encoded() })
    } else {
        segments.drop_last().push(
            SegmentView {
                id: segments.last().id,
                bytes: segments.last().bytes + record.encoded(),
            },
        )
    }
}

/// A record that was written is the next record of the log, at the place that the
/// books gave it, and the books are right for the record that follows.
pub proof fn law_write_extends_the_log(v: EngineView, segments: Seq<SegmentView>, record: RecordView)
    requires
        stored(v.wal, segments),
        record.encodable(),
        v.wal.has_room(record.encoded().len()),
    ensures
        log_of(written(v.wal, segments, record)) == extended(v, log_of(segments), record),
        stored(
            v.wal.after(record.encoded().len(), AppendOutcome::Written),
            written(v.wal, segments, record),
        ),
{
    let after = written(v.wal, segments, record);
    let place = v.wal.next_place();
    let entry = EntryView { segment: place.0, offset: place.1, record };
    if v.wal.rotates() {
        let nothing = Seq::<u8>::empty();
        assert(frame_end(nothing, 0) is None);
        law_append_adds_one_record(place.0, nothing, record);
        assert(nothing + record.encoded() =~= record.encoded());
        assert(scanned(place.0, nothing, 0) =~= Seq::<EntryView>::empty());
        assert(after.drop_last() =~= segments);
        assert(entries_of(after.last()) =~= seq![entry]);
        assert(log_of(segments) + seq![entry] =~= log_of(segments).push(entry));
        lemma_in_sequence(segments, after.last());
    } else {
        let last = segments.last();
        law_append_adds_one_record(last.id, last.bytes, record);
        assert(after.drop_last() =~= segments.drop_last());
        let head = log_of(segments.drop_last());
        assert(head + entries_of(last).push(entry) =~= (head + entries_of(last)).push(entry));
        assert forall|i: int, j: int| 0 <= i < j < after.len() implies (#[trigger] after[i]).id < (
        #[trigger] after[j]).id by {
            assert(after[i].id == segments[i].id);
            assert(after[j].id == segments[j].id);
        }
    }
}

/// Every record of a log can be read in the segment that it is placed in.
proof fn lemma_entry_can_be_read(segments: Seq<SegmentView>, i: int, k: int)
    requires
        in_sequence(segments),
        forall|n: int| 0 <= n < segments.len() ==> (#[trigger] segments[n]).bytes.len() <= u64::MAX,
        0 <= i < log_of(segments).len(),
        0 <= k < segments.len(),
        segments[k].id == log_of(segments)[i].segment,
    ensures
        ({
            let entry = log_of(segments)[i];
            read_result(segments[k].bytes, entry.offset as int) == Ok::<_, ReadError>(
                Some(entry.record),
            )
        }),
    decreases segments.len(),
{
    let head = segments.drop_last();
    let last = segments.last();
    let n = log_of(head).len();
    let entry = log_of(segments)[i];
    if i < n {
        assert(entry == log_of(head)[i]);
        lemma_segment_of_entry(head, i);
        let m = choose|m: int| 0 <= m < head.len() && (#[trigger] head[m]).id == entry.segment;
        assert(segments[m].id == entry.segment);
        if k != m {
            assert(k < m ==> segments[k].id < segments[m].id);
            assert(m < k ==> segments[m].id < segments[k].id);
        }
        assert(head[k] == segments[k]);
        assert(in_sequence(head)) by {
            assert forall|a: int, b: int| 0 <= a < b < head.len() implies (#[trigger] head[a]).id < (
            #[trigger] head[b]).id by {
                assert(segments[a].id < segments[b].id);
            }
        }
        assert forall|a: int| 0 <= a < head.len() implies (#[trigger] head[a]).bytes.len()
            <= u64::MAX by {
            assert(head[a] == segments[a]);
        }
        lemma_entry_can_be_read(head, i, k);
    } else {
        assert(segments[segments.len() - 1] == last);
        law_replayed_record_can_be_read(last.id, last.bytes, 0, i - n);
        assert(entry == entries_of(last)[i - n]);
        if k < segments.len() - 1 {
            assert(segments[k].id < segments[segments.len() - 1].id);
        }
    }
}

/// A task that is read back from disk has the payload that was pushed. The segment
/// that its payload is placed in is there, and reading it at that place gives a
/// record that is delivered with the id, the priority and the payload of the task.
pub proof fn law_payload_is_read_back(v: EngineView, segments: Seq<SegmentView>, i: int)
    requires
        agrees(v, log_of(segments)),
        in_sequence(segments),
        forall|n: int| 0 <= n < segments.len() ==> (#[trigger] segments[n]).bytes.len() <= u64::MAX,
        0 <= i < v.ready.len(),
    ensures
        ({
            let task = v.ready[i];
            let place = v.data_index[task.id];
            let whole = created(task.id, task.priority, payload_in(log_of(segments), task.id));
            &&& exists|k: int| 0 <= k < segments.len() && (#[trigger] segments[k]).id == place.0
            &&& forall|k: int|
                0 <= k < segments.len() && (#[trigger] segments[k]).id == place.0 ==> {
                    let read = read_result(segments[k].bytes, place.1 as int);
                    &&& read is Ok && read->Ok_0 is Some
                    &&& delivered((read->Ok_0)->0) == whole
                }
        }),
{
    let log = log_of(segments);
    let task = v.ready[i];
    law_delivers_the_pushed_payload(v, log, i);
    let stored = last_carrier(log, task.id)->0;
    let n = choose|n: int| 0 <= n < log.len() && log[n] == stored;
    lemma_segment_of_entry(segments, n);
    assert forall|k: int|
        0 <= k < segments.len() && (#[trigger] segments[k]).id == stored.segment implies read_result(
        segments[k].bytes,
        stored.offset as int,
    ) == Ok::<_, ReadError>(Some(stored.record)) by {
        lemma_entry_can_be_read(segments, n, k);
    }
}

/// Agreement after the front of a log has been replaced by its compacted records.
proof fn lemma_compaction_keeps_agreement(
    v: EngineView,
    closed: Seq<EntryView>,
    rest: Seq<EntryView>,
    closed_ids: Seq<u64>,
)
    requires
        agrees(v, closed + rest),
        forall|i: int|
            0 <= i < closed.len() ==> closed_ids.contains((#[trigger] closed[i]).segment),
        forall|i: int|
            0 <= i < rest.len() ==> !closed_ids.contains((#[trigger] rest[i]).segment),
    ensures
        ({
            let after = EngineView {
                index: moved(v.index, closed_ids, head_offsets(closed)),
                data_index: moved(v.data_index, closed_ids, payload_offsets(closed)),
                ..v
            };
            let log_after = placed(1, compacted(closed), 0) + rest;
            &&& agrees(after, log_after)
            &&& complete(v, closed + rest) ==> complete(after, log_after)
        }),
{
    let records = compacted(closed);
    let after = EngineView {
        index: moved(v.index, closed_ids, head_offsets(closed)),
        data_index: moved(v.data_index, closed_ids, payload_offsets(closed)),
        ..v
    };
    let log = closed + rest;
    let kept = placed(1, records, 0);
    let log_after = kept + rest;
    assert(closed + Seq::<EntryView>::empty() =~= closed);
    assert(kept + Seq::<EntryView>::empty() =~= kept);
    lemma_compacted_log_is_orderly(closed, Seq::empty(), rest);
    assert forall|id: u64| #[trigger] live_in(log_after, id) == live_in(log, id) by {
        law_compaction_preserves_tasks(closed, rest, id);
    }
    assert forall|id: u64| #[trigger] live_in(log, id) implies same_task(
        latest(log_after, id),
        latest(log, id),
    ) && payload_in(log_after, id) == payload_in(log, id) by {
        law_compaction_preserves_tasks(closed, rest, id);
    }
    assert forall|id: u64| live_in(log_after, id) implies #[trigger] after.index.contains_key(id)
        && after.index[id] == place_of(last_entry(log_after, id)->0) by {
        assert(live_in(log, id));
        assert(v.index.contains_key(id));
        lemma_moved_place(closed, rest, closed_ids, id);
    }
    assert forall|id: u64| #[trigger] after.data_index.contains_key(id) implies after.data_index[id]
        == place_of(last_carrier(log_after, id)->0) by {
        assert(v.data_index.contains_key(id));
        assert(live_in(log, id));
        lemma_moved_place(closed, rest, closed_ids, id);
    }
    assert forall|id: u64| #[trigger] after.data_index.contains_key(id) <==> live_in(
        log_after,
        id,
    ) by {
        assert(v.data_index.contains_key(id) <==> live_in(log, id));
    }
    assert forall|i: int| 0 <= i < after.ready.len() implies waits(
        log_after,
        #[trigger] after.ready[i],
    ) by {
        assert(waits(log, v.ready[i]));
    }
    assert forall|id: u64| #[trigger] after.leased.contains_key(id) implies holds(
        log_after,
        id,
        after.leased[id],
    ) by {
        assert(holds(log, id, v.leased[id]));
    }
    assert forall|id: u64| #[trigger] after.cache.entries.contains_key(id) implies live_in(
        log_after,
        id,
    ) && after.cache.entries[id] == payload_in(log_after, id) by {
        assert(v.cache.entries.contains_key(id));
        assert(live_in(log, id));
    }
    if complete(v, log) {
        assert forall|id: u64| #[trigger] live_in(log_after, id) implies
            after.leased.contains_key(id) || is_waiting(after.ready, id) by {
            assert(live_in(log, id));
        }
    }
    assert forall|i: int| 0 <= i < log_after.len() implies (#[trigger] log_after[i]).record.id
        < v.next_id by {
        if i < kept.len() {
            assert(log_after[i] == kept[i]);
            let id = kept[i].record.id;
            lemma_last_entry(kept, id);
            lemma_kept(closed, id);
            lemma_last_entry(closed, id);
            let e = last_entry(closed, id)->0;
            let k = choose|k: int| 0 <= k < closed.len() && closed[k] == e;
            assert(log[k] == closed[k]);
        } else {
            assert(log_after[i] == rest[i - kept.len()]);
            assert(log[closed.len() + (i - kept.len())] == rest[i - kept.len()]);
        }
    }
    assert(ids_below(log_after, after.next_id));
    assert(orderly(log_after));
    assert(places_agree(after, log_after));
    assert(leases_agree(after, log_after));
    assert(cache_agrees(after, log_after));
    assert forall|i: int| 0 <= i < after.ready.len() implies !after.leased.contains_key(
        (#[trigger] after.ready[i]).id,
    ) by {
        assert(!v.leased.contains_key(v.ready[i].id));
    }
    assert(queue_agrees(after, log_after));
}

/// Where the latest record of a running task and its payload are before and after
/// a compaction.
proof fn lemma_moved_place(
    closed: Seq<EntryView>,
    rest: Seq<EntryView>,
    closed_ids: Seq<u64>,
    id: u64,
)
    requires
        orderly(closed + rest),
        live_in(closed + rest, id),
        forall|i: int|
            0 <= i < closed.len() ==> closed_ids.contains((#[trigger] closed[i]).segment),
        forall|i: int|
            0 <= i < rest.len() ==> !closed_ids.contains((#[trigger] rest[i]).segment),
    ensures
        ({
            let log = closed + rest;
            let log_after = placed(1, compacted(closed), 0) + rest;
            let moves = |place: (u64, u64), offsets: Map<u64, u64>|
                if offsets.contains_key(id) && closed_ids.contains(place.0) {
                    (1u64, offsets[id])
                } else {
                    place
                };
            &&& place_of(last_entry(log_after, id)->0) == moves(
                place_of(last_entry(log, id)->0),
                head_offsets(closed),
            )
            &&& place_of(last_carrier(log_after, id)->0) == moves(
                place_of(last_carrier(log, id)->0),
                payload_offsets(closed),
            )
        }),
{
    let kept = placed(1, compacted(closed), 0);
    lemma_kept(closed, id);
    lemma_concatenated(closed, rest, id);
    lemma_concatenated(kept, rest, id);
    lemma_orderly_has_payload(closed + rest, id);
    lemma_carried_on(closed, rest, id);
    if last_entry(rest, id) is Some {
        lemma_last_entry(rest, id);
    } else {
        lemma_last_entry(closed, id);
    }
    if carried(rest, id) {
        lemma_carried(rest, id);
        lemma_carrier_in_log(rest, id);
    } else {
        lemma_carried(closed, id);
        lemma_carried_payload(closed, id);
        lemma_carrier_in_log(closed, id);
    }
}

/// Every record of a log is in one of its segments.
proof fn lemma_segment_of_entry(segments: Seq<SegmentView>, i: int)
    requires
        0 <= i < log_of(segments).len(),
    ensures
        exists|k: int|
            0 <= k < segments.len() && (#[trigger] segments[k]).id == log_of(segments)[i].segment,
    decreases segments.len(),
{
    let head = segments.drop_last();
    let n = log_of(head).len();
    if i < n {
        lemma_segment_of_entry(head, i);
        let k = choose|k: int|
            0 <= k < head.len() && (#[trigger] head[k]).id == log_of(head)[i].segment;
        assert(segments[k].id == log_of(segments)[i].segment);
    } else {
        let last = segments.last();
        lemma_scanned_segment(last.id, last.bytes, 0, i - n);
        assert(segments[segments.len() - 1].id == log_of(segments)[i].segment);
    }
}

/// A record that is read in a segment is placed in that segment.
proof fn lemma_scanned_segment(id: u64, bytes: Seq<u8>, at: int, k: int)
    requires
        0 <= k < scanned(id, bytes, at).len(),
    ensures
        scanned(id, bytes, at)[k].segment == id,
    decreases bytes.len() - at,
{
    match frame_end(bytes, at) {
        None => {},
        Some(end) => {
            match decoded(bytes.subrange(at, end)) {
                Some(record) => {
                    if k > 0 {
                        lemma_scanned_segment(id, bytes, end, k - 1);
                    }
                },
                None => {
                    lemma_scanned_segment(id, bytes, end, k);
                },
            }
        },
    }
}

/// A compaction keeps the state in agreement with the log. The closed segments
/// are replaced by the compacted segment, and the indexes follow. What was
/// appended to the other segments since the closed ones were read stays where it
/// is. The queue, the leases and the payloads are the same as before, no running
/// task is lost, and none that has ended comes back.
pub proof fn law_compaction_keeps_agreement(
    v: EngineView,
    closed: Seq<SegmentView>,
    rest: Seq<SegmentView>,
)
    requires
        agrees(v, log_of(closed + rest)),
        forall|i: int, j: int|
            0 <= i < closed.len() && 0 <= j < rest.len() ==> (#[trigger] closed[i]).id != (
            #[trigger] rest[j]).id,
    ensures
        ({
            let closed_ids = closed.map_values(|s: SegmentView| s.id);
            let after = EngineView {
                index: moved(v.index, closed_ids, head_offsets(log_of(closed))),
                data_index: moved(v.data_index, closed_ids, payload_offsets(log_of(closed))),
                ..v
            };
            let swapped = seq![compacted_segment(closed)] + rest;
            &&& agrees(after, log_of(swapped))
            &&& complete(v, log_of(closed + rest)) ==> complete(after, log_of(swapped))
            &&& forall|id: u64| #[trigger]
                live_in(log_of(swapped), id) == live_in(log_of(closed + rest), id)
            &&& forall|id: u64| #[trigger]
                live_in(log_of(swapped), id) ==> unchanged(
                    log_of(closed + rest),
                    log_of(swapped),
                    id,
                )
        }),
{
    let front = log_of(closed);
    let back = log_of(rest);
    let records = compacted(front);
    let closed_ids = closed.map_values(|s: SegmentView| s.id);
    let base = compacted_segment(closed);
    lemma_log_of_more(closed, rest);
    lemma_log_of_more(seq![base], rest);
    law_compacted_segment_reads_back(closed);
    assert(seq![base].drop_last() =~= Seq::<SegmentView>::empty());
    assert(seq![base].last() == base);
    assert(log_of(Seq::<SegmentView>::empty()) =~= Seq::<EntryView>::empty());
    assert(log_of(seq![base]) =~= entries_of(base));
    assert forall|i: int| 0 <= i < front.len() implies closed_ids.contains(
        (#[trigger] front[i]).segment,
    ) by {
        lemma_segment_of_entry(closed, i);
        let k = choose|k: int|
            0 <= k < closed.len() && (#[trigger] closed[k]).id == front[i].segment;
        assert(closed_ids[k] == front[i].segment);
    }
    assert forall|i: int| 0 <= i < back.len() implies !closed_ids.contains(
        (#[trigger] back[i]).segment,
    ) by {
        lemma_segment_of_entry(rest, i);
        let k = choose|k: int| 0 <= k < rest.len() && (#[trigger] rest[k]).id == back[i].segment;
        if closed_ids.contains(back[i].segment) {
            let j = choose|j: int|
                0 <= j < closed_ids.len() && closed_ids[j] == back[i].segment;
            assert(closed[j].id == rest[k].id);
        }
    }
    lemma_compaction_keeps_agreement(v, front, back, closed_ids);
    assert forall|id: u64| #[trigger] live_in(placed(1, records, 0) + back, id) implies unchanged(
        front + back,
        placed(1, records, 0) + back,
        id,
    ) by {
        law_compaction_preserves_tasks(front, back, id);
    }
    let after = EngineView {
        index: moved(v.index, closed_ids, head_offsets(front)),
        data_index: moved(v.data_index, closed_ids, payload_offsets(front)),
        ..v
    };
    assert forall|id: u64| #[trigger] live_in(placed(1, records, 0) + back, id) == live_in(
        front + back,
        id,
    ) by {
        assert(after.data_index.contains_key(id) == v.data_index.contains_key(id));
    }
}

/// After a compaction the segments still fit the books of the log.
pub proof fn law_compaction_keeps_the_books(
    wal: WalView,
    closed: Seq<SegmentView>,
    rest: Seq<SegmentView>,
    base: SegmentView,
)
    requires
        stored(wal, closed + rest),
        closed.len() > 0,
        closed[0].id >= 1,
        rest.len() > 0,
        base.id == 1,
    ensures
        stored(wal, seq![base] + rest),
{
    let before = closed + rest;
    let after = seq![base] + rest;
    assert(before.last() == rest.last());
    assert(after.last() == rest.last());
    assert forall|i: int, j: int| 0 <= i < j < after.len() implies (#[trigger] after[i]).id < (
    #[trigger] after[j]).id by {
        assert(after[j] == before[closed.len() + j - 1]);
        if i > 0 {
            assert(after[i] == before[closed.len() + i - 1]);
        } else {
            assert(before[0] == closed[0]);
        }
    }
}

/// A replay finds each task where its latest record left it. A task that is running has
/// the place of that record, and it waits or is held, not both, as the record says. A
/// task that has come to its end, or of which the log says nothing, has no place, does
/// not wait and is not held. Each waiting task is in the queue once. What is not in the
/// log is taken over from the empty queue.
pub proof fn law_replay_finds_each_task(
    empty: EngineView,
    log: Seq<EntryView>,
    now: u64,
    id: u64,
)
    ensures
        ({
            let w = recovered(empty, log, now);
            &&& w.wal == empty.wal
            &&& w.cache == empty.cache
            &&& match last_entry(log, id) {
                None => {
                    &&& !w.index.contains_key(id)
                    &&& !w.data_index.contains_key(id)
                    &&& !w.leased.contains_key(id)
                    &&& !is_waiting(w.ready, id)
                },
                Some(e) => match state_after(e.record, now) {
                    TaskState::Finished => {
                        &&& !w.index.contains_key(id)
                        &&& !w.data_index.contains_key(id)
                        &&& !w.leased.contains_key(id)
                        &&& !is_waiting(w.ready, id)
                    },
                    TaskState::Ready { retries } => {
                        &&& w.index.contains_key(id)
                        &&& w.index[id] == (e.segment, e.offset)
                        &&& !w.leased.contains_key(id)
                        &&& w.ready.contains(TaskRef { id, priority: e.record.priority, retries })
                    },
                    TaskState::Leased(lease) => {
                        &&& w.index.contains_key(id)
                        &&& w.index[id] == (e.segment, e.offset)
                        &&& w.leased.contains_key(id)
                        &&& w.leased[id] == lease
                        &&& !is_waiting(w.ready, id)
                    },
                },
            }
            &&& live_in(log, id) ==> match last_carrier(log, id) {
                Some(c) => w.data_index.contains_key(id) && w.data_index[id] == (
                    c.segment,
                    c.offset,
                ),
                None => !w.data_index.contains_key(id),
            }
            &&& forall|i: int, j: int|
                0 <= i < j < w.ready.len() ==> (#[trigger] w.ready[i]).id != (
                #[trigger] w.ready[j]).id
        }),
{
    let w = recovered(empty, log, now);
    lemma_finitely_many(log);
    let ids = ascending(places(log).dom());
    lemma_ascending(places(log).dom());
    lemma_requeued(ids, log, now);
    assert(ids.contains(id) <==> places(log).dom().contains(id));
    assert(is_waiting(w.ready, id) <==> ids.contains(id) && task_state(log, id, now) is Ready);
    if is_waiting(w.ready, id) {
        let i = choose|i: int| 0 <= i < w.ready.len() && (#[trigger] w.ready[i]).id == id;
        assert(w.ready[i] == returning(log, id, now));
    }
}

} // verus!
