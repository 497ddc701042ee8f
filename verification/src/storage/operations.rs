//! What each operation of a queue does, and what it leaves alone.
//!
//! The laws here speak of the parts of the state one by one. Those that hold between
//! the state and the log stand in [`laws`](super::laws), those over many calls in
//! [`queue_runs`](super::queue_runs) and [`queue_order`](super::queue_order).

use super::bytes::{u32_of_be, u64_of_be};
use super::engine::{acking, created, delivered, empty_engine, failing, lease_for, leasing, retries_after, EngineError, EngineView, ErrorKind, TaskRef, MAX_RETRIES};
use super::payload_cache::CacheView;
use super::priority_queue::law_a_task_joins_behind_its_equals;
use super::record::{OpType, RecordView};
use super::segment::lemma_frame_len;
use super::task::{law_lease_layout, LeaseInfo};
use super::wal::{AppendOutcome, WalView};
use vstd::prelude::*;

verus! {

/// A push whose record was written adds one task to the queue, with the next id, the
/// given priority and no retries, behind every task of its own or a higher priority. The
/// tasks that wait stay in their order, whatever the payload is, and nobody's lease
/// changes. The place of the record is that of the task and of its payload.
pub proof fn law_push_adds_one_task(v: EngineView, payload: Seq<u8>, priority: u8)
    requires
        v.next_id < u64::MAX,
    ensures
        ({
            let id = v.next_id;
            let after = v.pushed(payload, priority, AppendOutcome::Written);
            &&& after.next_id == id + 1
            &&& exists|k: int|
                0 <= k <= v.ready.len() && after.ready == #[trigger] v.ready.insert(
                    k,
                    TaskRef { id, priority, retries: 0 },
                ) && (forall|i: int|
                    0 <= i < k ==> (#[trigger] v.ready[i]).priority >= priority) && (k
                    < v.ready.len() ==> v.ready[k].priority < priority)
            &&& after.leased == v.leased
            &&& after.index == v.index.insert(id, v.wal.next_place())
            &&& after.data_index == v.data_index.insert(id, v.wal.next_place())
            &&& after.cache == v.cache.inserted(id, payload)
            &&& after.wal == v.wal.after(19 + payload.len(), AppendOutcome::Written)
        }),
{
    let task = TaskRef { id: v.next_id, priority, retries: 0 };
    law_a_task_joins_behind_its_equals(v.ready, task);
    lemma_frame_len(created(v.next_id, priority, payload));
}

/// Handing out a task whose record was written takes the first task out of the queue,
/// and leaves the others in their order. The consumer holds it until the given time,
/// with the priority and the retries that it had in the queue. All other leases, the
/// payloads and their places stay as they are.
pub proof fn law_pop_takes_the_first_task(v: EngineView, consumer_id: u32, expire_timestamp: u64)
    requires
        v.ready.len() > 0,
    ensures
        ({
            let task = v.ready[0];
            let after = v.handed_out(consumer_id, expire_timestamp, AppendOutcome::Written);
            &&& after.ready == v.ready.skip(1)
            &&& after.leased.contains_key(task.id)
            &&& after.leased[task.id].consumer_id == consumer_id
            &&& after.leased[task.id].expire_timestamp == expire_timestamp
            &&& after.leased[task.id].retries == task.retries
            &&& after.leased[task.id].priority == task.priority
            &&& after.leased.remove(task.id) == v.leased.remove(task.id)
            &&& after.next_id == v.next_id
            &&& after.index == v.index.insert(task.id, v.wal.next_place())
            &&& after.data_index == v.data_index
            &&& after.cache.entries == v.cache.entries
            &&& after.cache.order == v.cache.order
            &&& v.data_index.contains_key(task.id) ==> after.cache == v.cache.looked_up(task.id)
            &&& !v.data_index.contains_key(task.id) ==> after.cache == v.cache
            &&& after.wal == v.wal.after(32, AppendOutcome::Written)
        }),
{
    let task = v.ready[0];
    let lease = lease_for(task, consumer_id, expire_timestamp);
    let after = v.handed_out(consumer_id, expire_timestamp, AppendOutcome::Written);
    lemma_frame_len(leasing(task.id, lease));
    law_lease_layout(lease, leasing(task.id, lease));
    assert(after.leased.remove(task.id) =~= v.leased.remove(task.id));
}

/// Completing a task whose record was written ends its lease and forgets its payload.
/// The queue, all other leases and all other payloads stay as they are.
pub proof fn law_ack_removes_one_task(v: EngineView, id: u64)
    ensures
        ({
            let after = v.acknowledged(id, AppendOutcome::Written);
            &&& after.ready == v.ready
            &&& after.leased == v.leased.remove(id)
            &&& after.data_index == v.data_index.remove(id)
            &&& after.cache == v.cache.removed(id)
            &&& after.next_id == v.next_id
            &&& after.index == v.index.insert(id, v.wal.next_place())
            &&& after.wal == v.wal.after(19, AppendOutcome::Written)
        }),
{
    lemma_frame_len(acking(id, v.leased[id].priority));
}

/// A failure whose record was written ends the lease of the task. At the first and the
/// second failure the task returns to the queue with its priority and one more retry,
/// behind every task of its own or a higher priority, and its payload stays. At the
/// third it is given up: it does not return, and its payload is forgotten. All other
/// tasks stay where they are.
pub proof fn law_failure_returns_the_task_twice(v: EngineView, id: u64, failure: OpType)
    requires
        v.leased.contains_key(id),
        failure == OpType::Nacked || failure == OpType::Expired,
    ensures
        ({
            let lease = v.leased[id];
            let after = v.failed(id, failure, AppendOutcome::Written);
            &&& after.leased == v.leased.remove(id)
            &&& after.next_id == v.next_id
            &&& after.index == v.index.insert(id, v.wal.next_place())
            &&& after.wal == v.wal.after(20, AppendOutcome::Written)
            &&& lease.retries < 2 ==> {
                &&& exists|k: int|
                    0 <= k <= v.ready.len() && after.ready == #[trigger] v.ready.insert(
                        k,
                        TaskRef {
                            id,
                            priority: lease.priority,
                            retries: (lease.retries + 1) as u8,
                        },
                    ) && (forall|i: int|
                        0 <= i < k ==> (#[trigger] v.ready[i]).priority >= lease.priority) && (k
                        < v.ready.len() ==> v.ready[k].priority < lease.priority)
                &&& after.data_index == v.data_index
                &&& after.cache == v.cache
            }
            &&& lease.retries >= 2 ==> {
                &&& after.ready == v.ready
                &&& after.data_index == v.data_index.remove(id)
                &&& after.cache == v.cache.removed(id)
            }
            &&& retries_after(lease.retries) < MAX_RETRIES <==> lease.retries < 2
        }),
{
    let lease = v.leased[id];
    lemma_frame_len(failing(id, lease, failure));
    if lease.retries < 2 {
        law_a_task_joins_behind_its_equals(
            v.ready,
            TaskRef { id, priority: lease.priority, retries: (lease.retries + 1) as u8 },
        );
    }
}

/// An operation whose record could not be written changes nothing of the tasks, with
/// two exceptions: a push uses up its id, and a task that was to be handed out has left
/// the queue.
pub proof fn law_what_was_not_written_did_not_happen(
    v: EngineView,
    outcome: AppendOutcome,
    payload: Seq<u8>,
    priority: u8,
    id: u64,
    failure: OpType,
    consumer_id: u32,
    expire_timestamp: u64,
)
    requires
        outcome != AppendOutcome::Written,
        v.next_id < u64::MAX,
    ensures
        ({
            let after = v.pushed(payload, priority, outcome);
            &&& after.next_id == v.next_id + 1
            &&& after == (EngineView {
                next_id: after.next_id,
                wal: v.wal.after(19 + payload.len(), outcome),
                ..v
            })
        }),
        v.handed_out(consumer_id, expire_timestamp, outcome) == (EngineView {
            ready: v.ready.skip(1),
            wal: v.wal.after(32, outcome),
            ..v
        }),
        v.acknowledged(id, outcome) == (EngineView { wal: v.wal.after(19, outcome), ..v }),
        v.failed(id, failure, outcome) == (EngineView { wal: v.wal.after(20, outcome), ..v }),
{
    let task = v.ready[0];
    let lease = lease_for(task, consumer_id, expire_timestamp);
    lemma_frame_len(created(v.next_id, priority, payload));
    lemma_frame_len(leasing(task.id, lease));
    law_lease_layout(lease, leasing(task.id, lease));
    lemma_frame_len(acking(id, v.leased[id].priority));
    lemma_frame_len(failing(id, v.leased[id], failure));
}

/// What the records of the operations state. The record of a push has the payload. That
/// of a lease has the consumer, the time at which the lease ends, and the retries that
/// the task had in the queue. That of a failure has the retries with the new one, and
/// gives the task up at the third. All state the id and the priority of the task.
pub proof fn law_what_the_records_state(
    task: TaskRef,
    lease: LeaseInfo,
    payload: Seq<u8>,
    consumer_id: u32,
    expire_timestamp: u64,
    failure: OpType,
)
    ensures
        created(task.id, task.priority, payload) == (RecordView {
            id: task.id,
            op_type: OpType::Created,
            priority: task.priority,
            payload,
        }),
        ({
            let r = leasing(task.id, lease_for(task, consumer_id, expire_timestamp));
            &&& r.id == task.id
            &&& r.op_type == OpType::Leased
            &&& r.priority == task.priority
            &&& r.payload.len() == 13
            &&& u32_of_be(r.payload.subrange(0, 4)) == consumer_id
            &&& u64_of_be(r.payload.subrange(4, 12)) == expire_timestamp
            &&& r.payload[12] == task.retries
        }),
        acking(task.id, task.priority) == (RecordView {
            id: task.id,
            op_type: OpType::Acked,
            priority: task.priority,
            payload: Seq::empty(),
        }),
        ({
            let r = failing(task.id, lease, failure);
            &&& r.id == task.id
            &&& r.priority == lease.priority
            &&& r.op_type == (if lease.retries < 2 {
                failure
            } else {
                OpType::DeadLettered
            })
            &&& r.payload.len() == 1
            &&& lease.retries < 255 ==> r.payload[0] == lease.retries + 1
            &&& lease.retries == 255 ==> r.payload[0] == 255
        }),
{
    let given = lease_for(task, consumer_id, expire_timestamp);
    law_lease_layout(given, leasing(task.id, given));
}

/// Whoever completes or refuses a task has to be the consumer that holds it. A task
/// that nobody holds is not leased, and one that another holds is leased to another. A
/// lease has ended once its time has come, and not before.
pub proof fn law_who_may_end_a_lease(v: EngineView, id: u64, consumer_id: u32, now: u64)
    ensures
        v.held_by(id, consumer_id) is Ok <==> v.leased.contains_key(id)
            && v.leased[id].consumer_id == consumer_id,
        !v.leased.contains_key(id) ==> v.held_by(id, consumer_id) == Err::<(), EngineError>(
            EngineError::NotLeased,
        ),
        v.leased.contains_key(id) && v.leased[id].consumer_id != consumer_id ==> v.held_by(
            id,
            consumer_id,
        ) == Err::<(), EngineError>(EngineError::LeasedToAnother),
        v.lease_ended(id, now) <==> v.leased.contains_key(id) && v.leased[id].expire_timestamp
            <= now,
{
}

/// A new queue has no task, gives its first task the id one, and has an empty cache.
pub proof fn law_a_new_queue_is_empty(wal: WalView, cache_capacity: usize)
    ensures
        ({
            let v = empty_engine(wal, cache_capacity);
            &&& v.wal == wal
            &&& v.next_id == 1
            &&& v.index == Map::<u64, (u64, u64)>::empty()
            &&& v.data_index == Map::<u64, (u64, u64)>::empty()
            &&& v.ready == Seq::<TaskRef>::empty()
            &&& v.leased == Map::<u64, LeaseInfo>::empty()
            &&& v.cache.capacity == cache_capacity
            &&& v.cache.entries == Map::<u64, Seq<u8>>::empty()
            &&& v.cache == CacheView::fresh(cache_capacity)
        }),
{
}

/// A consumer is given the payload that a record carries, under the id and the priority
/// of the record, in the form in which the task was created. A record without a payload
/// is given as it is.
pub proof fn law_what_a_consumer_is_given(r: RecordView)
    ensures
        r.op_type == OpType::Created || r.op_type == OpType::Acked || r.op_type
            == OpType::DeadLettered ==> delivered(r) == r,
        r.op_type == OpType::Leased || r.op_type == OpType::Nacked || r.op_type
            == OpType::Expired ==> {
            let start = if r.op_type == OpType::Leased {
                13int
            } else {
                1int
            };
            if r.payload.len() > start && r.payload[start] == 80 {
                delivered(r) == (RecordView {
                    id: r.id,
                    op_type: OpType::Created,
                    priority: r.priority,
                    payload: r.payload.skip(start + 1),
                })
            } else {
                delivered(r) == r
            }
        },
{
}

/// What is not there is not found, what another holds is denied, a record that is
/// missing from the log is invalid data, and a log that cannot be written is an error of
/// its own.
pub proof fn law_errors_have_kinds(e: EngineError)
    ensures
        e.kind_spec() == ErrorKind::NotFound <==> e == EngineError::NotLeased || e
            == EngineError::MissingDataOffset,
        e.kind_spec() == ErrorKind::PermissionDenied <==> e == EngineError::LeasedToAnother,
        e.kind_spec() == ErrorKind::InvalidData <==> e == EngineError::RecordNotFound,
        e.kind_spec() == ErrorKind::Io <==> e == EngineError::AppendFailed,
{
}

} // verus!
