//! In which order tasks are handed out, how often one is, and that none is lost.
//!
//! A run is the sequence of the calls that were made of one queue, as in
//! [`queue_runs`](super::queue_runs).

use super::engine::{acking, created, empty_engine, failing, lease_for, leasing, EngineView, TaskRef};
use super::laws::{agrees, by_age, complete, extended, holds, is_waiting, latest, lemma_extended, payload_in, unchanged, waits};
use super::laws::{law_ack_keeps_agreement, law_failed_append_keeps_agreement, law_failure_keeps_agreement, law_lease_keeps_agreement, law_push_keeps_agreement, law_replay_agrees};
use super::operations::{law_pop_takes_the_first_task, law_push_adds_one_task, law_what_the_records_state};
use super::priority_queue::by_priority;
use super::queue_runs::{is_over, law_a_run_keeps_agreement, lemma_call, lemma_has_ids, lemma_id_is_below, QueueCall, QueueView};
use super::record::OpType;
use super::segment::EntryView;
use super::task::{last_entry, live_in, retries_of};
use super::wal::AppendOutcome;
use vstd::prelude::*;

verus! {

/// Whether a call ends the lease of a task with a failure: the consumer that holds it
/// refuses it, or its time has come, and the record was written.
pub open spec fn fails(q: QueueView, call: QueueCall, id: u64) -> bool {
    match call {
        QueueCall::Nack { id: task, consumer_id, outcome } => {
            &&& task == id
            &&& q.state.leased.contains_key(id)
            &&& q.state.leased[id].consumer_id == consumer_id
            &&& outcome == AppendOutcome::Written
        },
        QueueCall::Expire { id: task, now, outcome } => {
            &&& task == id
            &&& q.state.leased.contains_key(id)
            &&& q.state.leased[id].expire_timestamp <= now
            &&& outcome == AppendOutcome::Written
        },
        _ => false,
    }
}

/// How often the lease of a task ends with a failure during some calls.
pub open spec fn failures(q: QueueView, calls: Seq<QueueCall>, id: u64) -> nat
    decreases calls.len(),
{
    if calls.len() == 0 {
        0
    } else {
        failures(q, calls.drop_last(), id) + (if fails(
            q.after(calls.drop_last()),
            calls.last(),
            id,
        ) {
            1nat
        } else {
            0nat
        })
    }
}

/// What the log says of a task that has failed `count` times: that it is running with
/// as many retries, or that it is over.
spec fn has_failed(log: Seq<EntryView>, id: u64, count: nat) -> bool {
    &&& last_entry(log, id) is Some
    &&& count <= 3
    &&& live_in(log, id) ==> count < 3 && retries_of(latest(log, id)) == count
}

/// A call that fails a task adds one to its failures, and no other call does.
proof fn lemma_call_counts(q: QueueView, call: QueueCall, id: u64, count: nat)
    requires
        agrees(q.state, q.log),
        call is Push ==> q.state.next_id < u64::MAX,
        has_failed(q.log, id, count),
    ensures
        has_failed(
            q.after_call(call).log,
            id,
            count + (if fails(q, call, id) {
                1nat
            } else {
                0nat
            }),
        ),
{
    let v = q.state;
    let log = q.log;
    lemma_id_is_below(log, v.next_id, id);
    match call {
        QueueCall::Push { payload, priority, outcome } => {
            if outcome == AppendOutcome::Written {
                lemma_extended(v, log, created(v.next_id, priority, payload));
            }
        },
        QueueCall::Pop { consumer_id, expire_timestamp, outcome } => {
            if v.ready.len() > 0 && outcome == AppendOutcome::Written {
                let task = v.ready[0];
                let lease = lease_for(task, consumer_id, expire_timestamp);
                assert(waits(log, v.ready[0]));
                lemma_extended(v, log, leasing(task.id, lease));
                law_what_the_records_state(
                    task,
                    lease,
                    Seq::empty(),
                    consumer_id,
                    expire_timestamp,
                    OpType::Nacked,
                );
            }
        },
        QueueCall::Ack { id: task, consumer_id, outcome } => {
            if v.held_by(task, consumer_id) is Ok && outcome == AppendOutcome::Written {
                lemma_extended(v, log, acking(task, v.leased[task].priority));
            }
        },
        QueueCall::Nack { id: task, consumer_id, outcome } => {
            if v.held_by(task, consumer_id) is Ok && outcome == AppendOutcome::Written {
                lemma_failure_counts(v, log, task, OpType::Nacked, id, count);
            }
        },
        QueueCall::Expire { id: task, now, outcome } => {
            if v.lease_ended(task, now) && outcome == AppendOutcome::Written {
                lemma_failure_counts(v, log, task, OpType::Expired, id, count);
            }
        },
        QueueCall::Restart { .. } => {},
    }
}

proof fn lemma_failure_counts(
    v: EngineView,
    log: Seq<EntryView>,
    task: u64,
    failure: OpType,
    id: u64,
    count: nat,
)
    requires
        agrees(v, log),
        v.leased.contains_key(task),
        failure == OpType::Nacked || failure == OpType::Expired,
        has_failed(log, id, count),
    ensures
        has_failed(
            extended(v, log, failing(task, v.leased[task], failure)),
            id,
            count + (if task == id {
                1nat
            } else {
                0nat
            }),
        ),
{
    let lease = v.leased[task];
    assert(holds(log, task, lease));
    lemma_extended(v, log, failing(task, lease, failure));
    law_what_the_records_state(
        TaskRef { id: task, priority: lease.priority, retries: lease.retries },
        lease,
        Seq::empty(),
        0,
        0,
        failure,
    );
}

proof fn lemma_run_counts(q: QueueView, calls: Seq<QueueCall>, id: u64, count: nat)
    requires
        agrees(q.state, q.log),
        q.has_ids(calls),
        has_failed(q.log, id, count),
    ensures
        has_failed(q.after(calls).log, id, count + failures(q, calls, id)),
    decreases calls.len(),
{
    if calls.len() > 0 {
        let head = calls.drop_last();
        lemma_has_ids(q, calls);
        lemma_run_counts(q, head, id, count);
        law_a_run_keeps_agreement(q, head);
        lemma_call_counts(q.after(head), calls.last(), id, count + failures(q, head, id));
    }
}

/// From its push on, a task shows as many retries as its leases have ended with a
/// failure, while it waits and while it is held, whatever its priority is, whatever is
/// called and however often the program is restarted. When its leases have ended with a
/// failure three times, it is over: it neither waits nor is it held any more, and it
/// never fails again.
pub proof fn law_three_failures_end_a_task(
    q: QueueView,
    payload: Seq<u8>,
    priority: u8,
    calls: Seq<QueueCall>,
)
    requires
        agrees(q.state, q.log),
        q.state.next_id < u64::MAX,
        q.after_call(
            QueueCall::Push { payload, priority, outcome: AppendOutcome::Written },
        ).has_ids(calls),
    ensures
        ({
            let id = q.state.next_id;
            let pushed = q.after_call(
                QueueCall::Push { payload, priority, outcome: AppendOutcome::Written },
            );
            let after = pushed.after(calls);
            let count = failures(pushed, calls, id);
            &&& count <= 3
            &&& count == 3 ==> {
                &&& is_over(after.log, id)
                &&& !is_waiting(after.state.ready, id)
                &&& !after.state.leased.contains_key(id)
            }
            &&& forall|i: int|
                0 <= i < after.state.ready.len() && (#[trigger] after.state.ready[i]).id == id
                    ==> after.state.ready[i].retries == count
            &&& after.state.leased.contains_key(id) ==> after.state.leased[id].retries == count
        }),
{
    let id = q.state.next_id;
    let call = QueueCall::Push { payload, priority, outcome: AppendOutcome::Written };
    let pushed = q.after_call(call);
    let after = pushed.after(calls);
    lemma_call(q, call);
    lemma_extended(q.state, q.log, created(id, priority, payload));
    assert(has_failed(pushed.log, id, 0));
    lemma_run_counts(pushed, calls, id, 0);
    law_a_run_keeps_agreement(pushed, calls);
    assert forall|i: int| 0 <= i < after.state.ready.len() && (
    #[trigger] after.state.ready[i]).id == id implies live_in(after.log, id)
        && after.state.ready[i].retries == failures(pushed, calls, id) by {
        assert(waits(after.log, after.state.ready[i]));
    }
    if after.state.leased.contains_key(id) {
        assert(holds(after.log, id, after.state.leased[id]));
    }
}

/// The task that a call of a run hands out, if it hands one out.
pub open spec fn handed(q: QueueView, calls: Seq<QueueCall>, i: int) -> Option<TaskRef> {
    let ready = q.after(calls.take(i)).state.ready;
    match calls[i] {
        QueueCall::Pop { outcome, .. } => if ready.len() > 0 && outcome == AppendOutcome::Written {
            Some(ready[0])
        } else {
            None
        },
        _ => None,
    }
}

/// Whether no task returns to the queue during some calls: no lease ends with a failure,
/// and the program is not restarted.
pub open spec fn nothing_returns(q: QueueView, calls: Seq<QueueCall>) -> bool {
    forall|i: int|
        0 <= i < calls.len() ==> !((#[trigger] calls[i]) is Restart) && forall|id: u64|
            !#[trigger] fails(q.after(calls.take(i)), calls[i], id)
}

/// The queue is in order: by priority, and within a priority by id, and every id is
/// below the next one.
spec fn in_line(v: EngineView) -> bool {
    &&& by_priority(v.ready)
    &&& by_age(v.ready)
    &&& forall|i: int| 0 <= i < v.ready.len() ==> (#[trigger] v.ready[i]).id < v.next_id
}

/// Every task of a priority that waits, or is yet to come, has an id above a given one.
spec fn beyond(v: EngineView, priority: u8, id: u64) -> bool {
    &&& id < v.next_id
    &&& forall|i: int|
        0 <= i < v.ready.len() && (#[trigger] v.ready[i]).priority == priority ==> v.ready[i].id
            > id
}

/// A call that returns no task keeps the queue in order.
proof fn lemma_call_keeps_the_line(q: QueueView, call: QueueCall, priority: u8, id: u64)
    requires
        in_line(q.state),
        !(call is Restart),
        call is Push ==> q.state.next_id < u64::MAX,
        forall|task: u64| !#[trigger] fails(q, call, task),
    ensures
        in_line(q.after_call(call).state),
        beyond(q.state, priority, id) ==> beyond(q.after_call(call).state, priority, id),
{
    let v = q.state;
    let after = q.after_call(call).state;
    match call {
        QueueCall::Push { payload, priority: given, outcome } => {
            if outcome == AppendOutcome::Written {
                let task = TaskRef { id: v.next_id, priority: given, retries: 0 };
                law_push_adds_one_task(v, payload, given);
                let k = choose|k: int|
                    0 <= k <= v.ready.len() && after.ready == #[trigger] v.ready.insert(k, task) && (
                    forall|i: int| 0 <= i < k ==> (#[trigger] v.ready[i]).priority >= given) && (k
                        < v.ready.len() ==> v.ready[k].priority < given);
                lemma_joined_line(v, after, task, k, priority, id);
            }
        },
        QueueCall::Pop { consumer_id, expire_timestamp, outcome } => {
            if v.ready.len() > 0 {
                law_pop_takes_the_first_task(v, consumer_id, expire_timestamp);
                assert(after.ready == v.ready.skip(1));
                assert forall|i: int| 0 <= i < after.ready.len() implies (
                #[trigger] after.ready[i]) == v.ready[i + 1] by {}
            }
        },
        QueueCall::Ack { .. } => {},
        QueueCall::Nack { id: task, consumer_id, outcome } => {
            assert(!fails(q, call, task));
        },
        QueueCall::Expire { id: task, now, outcome } => {
            assert(!fails(q, call, task));
        },
        QueueCall::Restart { .. } => {},
    }
}

proof fn lemma_joined_line(
    v: EngineView,
    after: EngineView,
    task: TaskRef,
    k: int,
    priority: u8,
    id: u64,
)
    requires
        in_line(v),
        task.id == v.next_id,
        after.next_id == v.next_id + 1,
        0 <= k <= v.ready.len(),
        after.ready == v.ready.insert(k, task),
        forall|i: int| 0 <= i < k ==> (#[trigger] v.ready[i]).priority >= task.priority,
        k < v.ready.len() ==> v.ready[k].priority < task.priority,
    ensures
        in_line(after),
        beyond(v, priority, id) ==> beyond(after, priority, id),
{
    assert forall|i: int| 0 <= i < after.ready.len() implies (#[trigger] after.ready[i]) == (if i
        < k {
        v.ready[i]
    } else if i == k {
        task
    } else {
        v.ready[i - 1]
    }) by {}
    assert forall|i: int, j: int|
        #![trigger after.ready[i], after.ready[j]]
        0 <= i <= j < after.ready.len() implies after.ready[i].priority >= after.ready[j].priority by {
        let a = if i < k { i } else { i - 1 };
        let b = if j < k { j } else { j - 1 };
        if i == k && j > k {
            assert(v.ready[k].priority >= v.ready[b].priority);
        } else if i != k && j != k {
            assert(v.ready[a].priority >= v.ready[b].priority);
        }
    }
    assert forall|i: int, j: int|
        0 <= i < j < after.ready.len() && (#[trigger] after.ready[i]).priority == (
        #[trigger] after.ready[j]).priority implies after.ready[i].id < after.ready[j].id by {
        let a = if i < k { i } else { i - 1 };
        let b = if j < k { j } else { j - 1 };
        if j == k {
            assert(v.ready[a].id < v.next_id);
        } else if i == k {
            assert(v.ready[k].priority >= v.ready[b].priority);
        } else {
            assert(v.ready[a].priority == v.ready[b].priority);
        }
    }
}

/// The state before a call of a run, and the calls up to it.
proof fn lemma_line_so_far(q: QueueView, calls: Seq<QueueCall>, i: int, n: int, task: TaskRef)
    requires
        in_line(q.state),
        q.has_ids(calls),
        nothing_returns(q, calls),
        0 <= i <= n <= calls.len(),
    ensures
        in_line(q.after(calls.take(n)).state),
        beyond(q.after(calls.take(i)).state, task.priority, task.id) ==> beyond(
            q.after(calls.take(n)).state,
            task.priority,
            task.id,
        ),
    decreases n,
{
    if n > 0 {
        let before = calls.take(n - 1);
        assert(calls.take(n).drop_last() =~= before);
        assert(calls.take(n).last() == calls[n - 1]);
        if i < n {
            lemma_line_so_far(q, calls, i, n - 1, task);
        } else {
            lemma_line_so_far(q, calls, n - 1, n - 1, task);
        }
        assert(calls[n - 1] is Push ==> q.after(calls.take(n - 1)).state.next_id < u64::MAX);
        lemma_call_keeps_the_line(q.after(before), calls[n - 1], task.priority, task.id);
    } else {
        assert(calls.take(0).len() == 0);
    }
}

/// Tasks are handed out by priority, and within a priority in the order in which they
/// were pushed. Whatever is pushed, handed out and completed in between: a task that is
/// handed out has the highest priority of all that wait at that time. Of two tasks of
/// one priority the one with the lower id is handed out first, as long as none of them
/// returns to the queue.
pub proof fn law_tasks_are_handed_out_in_order(
    q: QueueView,
    calls: Seq<QueueCall>,
    first: int,
    second: int,
)
    requires
        by_priority(q.state.ready),
        by_age(q.state.ready),
        forall|i: int|
            0 <= i < q.state.ready.len() ==> (#[trigger] q.state.ready[i]).id < q.state.next_id,
        q.has_ids(calls),
        nothing_returns(q, calls),
        0 <= first < second < calls.len(),
        handed(q, calls, first) is Some,
        handed(q, calls, second) is Some,
    ensures
        ({
            let a = handed(q, calls, first)->0;
            let b = handed(q, calls, second)->0;
            let waiting = q.after(calls.take(first)).state.ready;
            &&& a.priority == b.priority ==> a.id < b.id
            &&& forall|i: int|
                0 <= i < waiting.len() ==> (#[trigger] waiting[i]).priority <= a.priority
        }),
{
    let a = handed(q, calls, first)->0;
    let b = handed(q, calls, second)->0;
    let v = q.after(calls.take(first)).state;
    lemma_line_so_far(q, calls, first, first, a);
    assert(v.ready[0] == a);
    assert(calls.take(first + 1).drop_last() =~= calls.take(first));
    assert(calls.take(first + 1).last() == calls[first]);
    let next = q.after(calls.take(first + 1)).state;
    match calls[first] {
        QueueCall::Pop { consumer_id, expire_timestamp, outcome } => {
            law_pop_takes_the_first_task(v, consumer_id, expire_timestamp);
            assert(next.ready == v.ready.skip(1));
            assert forall|i: int| 0 <= i < next.ready.len() && (
            #[trigger] next.ready[i]).priority == a.priority implies next.ready[i].id > a.id by {
                assert(next.ready[i] == v.ready[i + 1]);
                assert(v.ready[0].priority == v.ready[i + 1].priority);
            }
            assert(a.id < next.next_id) by {
                assert(v.ready[0].id < v.next_id);
            }
        },
        _ => {},
    }
    assert(beyond(next, a.priority, a.id));
    lemma_line_so_far(q, calls, first + 1, second, a);
    let last = q.after(calls.take(second)).state;
    assert(last.ready[0] == b);
}

/// The queue after `n` tasks have been handed out one after the other.
pub open spec fn after_pops(
    v: EngineView,
    n: nat,
    consumer_id: u32,
    expire_timestamp: u64,
) -> EngineView
    decreases n,
{
    if n == 0 {
        v
    } else {
        after_pops(v, (n - 1) as nat, consumer_id, expire_timestamp).handed_out(
            consumer_id,
            expire_timestamp,
            AppendOutcome::Written,
        )
    }
}

/// The tasks that wait are handed out one after the other, in the order of the queue,
/// until none is left: none is passed over, and none is handed out twice.
pub proof fn law_every_waiting_task_has_its_turn(
    v: EngineView,
    n: nat,
    consumer_id: u32,
    expire_timestamp: u64,
)
    requires
        n <= v.ready.len(),
    ensures
        after_pops(v, n, consumer_id, expire_timestamp).ready == v.ready.skip(n as int),
        forall|i: int|
            0 <= i < n ==> after_pops(v, n, consumer_id, expire_timestamp).leased.contains_key(
                (#[trigger] v.ready[i]).id,
            ),
    decreases n,
{
    if n > 0 {
        let before = after_pops(v, (n - 1) as nat, consumer_id, expire_timestamp);
        law_every_waiting_task_has_its_turn(v, (n - 1) as nat, consumer_id, expire_timestamp);
        law_pop_takes_the_first_task(before, consumer_id, expire_timestamp);
        let after = after_pops(v, n, consumer_id, expire_timestamp);
        assert(before.ready[0] == v.ready[n - 1]);
        assert(v.ready.skip(n - 1).skip(1) =~= v.ready.skip(n as int));
        assert forall|i: int| 0 <= i < n implies after.leased.contains_key(
            (#[trigger] v.ready[i]).id,
        ) by {
            let id = v.ready[i].id;
            if id != v.ready[n - 1].id {
                assert(before.leased.contains_key(id));
                assert(after.leased.remove(v.ready[n - 1].id).contains_key(id));
            }
        }
    } else {
        assert(v.ready.skip(0) =~= v.ready);
    }
}

/// Whether every call among some that hands out a task gets its record written.
pub open spec fn pops_are_written(calls: Seq<QueueCall>) -> bool {
    forall|i: int|
        0 <= i < calls.len() ==> ((#[trigger] calls[i]) matches QueueCall::Pop { outcome, .. }
            ==> outcome == AppendOutcome::Written)
}

/// What the log says of a task that was pushed: that it is running with its priority and
/// its payload, or that it is over.
spec fn is_intact(log: Seq<EntryView>, id: u64, priority: u8, payload: Seq<u8>) -> bool {
    &&& last_entry(log, id) is Some
    &&& live_in(log, id) ==> latest(log, id).priority == priority && payload_in(log, id) == payload
}

/// A call leaves the priority and the payload of a task that is running alone.
proof fn lemma_call_leaves_intact(
    q: QueueView,
    call: QueueCall,
    id: u64,
    priority: u8,
    payload: Seq<u8>,
)
    requires
        agrees(q.state, q.log),
        call is Push ==> q.state.next_id < u64::MAX,
        is_intact(q.log, id, priority, payload),
    ensures
        is_intact(q.after_call(call).log, id, priority, payload),
{
    let v = q.state;
    let log = q.log;
    let log_after = q.after_call(call).log;
    lemma_id_is_below(log, v.next_id, id);
    match call {
        QueueCall::Push { payload: given, priority: own, outcome } => {
            if outcome == AppendOutcome::Written {
                law_push_keeps_agreement(v, log, given, own);
                lemma_extended(v, log, created(v.next_id, own, given));
                assert(unchanged(log, log_after, id));
            }
        },
        QueueCall::Pop { consumer_id, expire_timestamp, outcome } => {
            if v.ready.len() > 0 && outcome == AppendOutcome::Written {
                let task = v.ready[0];
                assert(waits(log, v.ready[0]));
                law_lease_keeps_agreement(v, log, consumer_id, expire_timestamp);
                lemma_extended(
                    v,
                    log,
                    leasing(task.id, lease_for(task, consumer_id, expire_timestamp)),
                );
                assert(unchanged(log, log_after, id));
            }
        },
        QueueCall::Ack { id: task, consumer_id, outcome } => {
            if v.held_by(task, consumer_id) is Ok && outcome == AppendOutcome::Written {
                law_ack_keeps_agreement(v, log, task);
                lemma_extended(v, log, acking(task, v.leased[task].priority));
                assert(task != id ==> unchanged(log, log_after, id));
            }
        },
        QueueCall::Nack { id: task, consumer_id, outcome } => {
            if v.held_by(task, consumer_id) is Ok && outcome == AppendOutcome::Written {
                lemma_failure_leaves_intact(v, log, task, OpType::Nacked, id, priority, payload);
            }
        },
        QueueCall::Expire { id: task, now, outcome } => {
            if v.lease_ended(task, now) && outcome == AppendOutcome::Written {
                lemma_failure_leaves_intact(v, log, task, OpType::Expired, id, priority, payload);
            }
        },
        QueueCall::Restart { .. } => {},
    }
}

proof fn lemma_failure_leaves_intact(
    v: EngineView,
    log: Seq<EntryView>,
    task: u64,
    failure: OpType,
    id: u64,
    priority: u8,
    payload: Seq<u8>,
)
    requires
        agrees(v, log),
        v.leased.contains_key(task),
        failure == OpType::Nacked || failure == OpType::Expired,
        is_intact(log, id, priority, payload),
    ensures
        is_intact(
            extended(v, log, failing(task, v.leased[task], failure)),
            id,
            priority,
            payload,
        ),
{
    let log_after = extended(v, log, failing(task, v.leased[task], failure));
    assert(holds(log, task, v.leased[task]));
    law_failure_keeps_agreement(v, log, task, failure);
    lemma_extended(v, log, failing(task, v.leased[task], failure));
    assert(task != id ==> unchanged(log, log_after, id));
}

/// A call leaves no running task behind that neither waits nor is held, unless the record
/// of a task that was to be handed out could not be written.
proof fn lemma_call_keeps_complete(q: QueueView, call: QueueCall)
    requires
        agrees(q.state, q.log),
        complete(q.state, q.log),
        call is Push ==> q.state.next_id < u64::MAX,
        call matches QueueCall::Pop { outcome, .. } ==> outcome == AppendOutcome::Written,
    ensures
        complete(q.after_call(call).state, q.after_call(call).log),
{
    let v = q.state;
    let log = q.log;
    match call {
        QueueCall::Push { payload, priority, outcome } => {
            if outcome == AppendOutcome::Written {
                law_push_keeps_agreement(v, log, payload, priority);
            } else {
                law_failed_append_keeps_agreement(
                    v,
                    log,
                    outcome,
                    payload,
                    priority,
                    0,
                    OpType::Nacked,
                    0,
                    0,
                );
            }
        },
        QueueCall::Pop { consumer_id, expire_timestamp, outcome } => {
            if v.ready.len() > 0 {
                law_lease_keeps_agreement(v, log, consumer_id, expire_timestamp);
            }
        },
        QueueCall::Ack { id, consumer_id, outcome } => {
            if v.held_by(id, consumer_id) is Ok {
                if outcome == AppendOutcome::Written {
                    law_ack_keeps_agreement(v, log, id);
                } else {
                    law_failed_append_keeps_agreement(
                        v,
                        log,
                        outcome,
                        Seq::empty(),
                        0,
                        id,
                        OpType::Nacked,
                        0,
                        0,
                    );
                }
            }
        },
        QueueCall::Nack { id, consumer_id, outcome } => {
            if v.held_by(id, consumer_id) is Ok {
                lemma_failure_keeps_complete(v, log, id, OpType::Nacked, outcome);
            }
        },
        QueueCall::Expire { id, now, outcome } => {
            if v.lease_ended(id, now) {
                lemma_failure_keeps_complete(v, log, id, OpType::Expired, outcome);
            }
        },
        QueueCall::Restart { wal, cache_capacity, now } => {
            assert forall|i: int| 0 <= i < log.len() implies (#[trigger] log[i]).record.id
                < u64::MAX by {
                assert(log[i].record.id < v.next_id);
            }
            law_replay_agrees(empty_engine(wal, cache_capacity), log, now);
        },
    }
}

proof fn lemma_failure_keeps_complete(
    v: EngineView,
    log: Seq<EntryView>,
    id: u64,
    failure: OpType,
    outcome: AppendOutcome,
)
    requires
        agrees(v, log),
        complete(v, log),
        v.leased.contains_key(id),
        failure == OpType::Nacked || failure == OpType::Expired,
    ensures
        complete(
            v.failed(id, failure, outcome),
            if outcome == AppendOutcome::Written {
                extended(v, log, failing(id, v.leased[id], failure))
            } else {
                log
            },
        ),
{
    if outcome == AppendOutcome::Written {
        law_failure_keeps_agreement(v, log, id, failure);
    } else {
        law_failed_append_keeps_agreement(v, log, outcome, Seq::empty(), 0, id, failure, 0, 0);
    }
}

proof fn lemma_run_keeps_tasks(
    q: QueueView,
    calls: Seq<QueueCall>,
    id: u64,
    priority: u8,
    payload: Seq<u8>,
)
    requires
        agrees(q.state, q.log),
        q.has_ids(calls),
        is_intact(q.log, id, priority, payload),
    ensures
        is_intact(q.after(calls).log, id, priority, payload),
        complete(q.state, q.log) && pops_are_written(calls) ==> complete(
            q.after(calls).state,
            q.after(calls).log,
        ),
    decreases calls.len(),
{
    if calls.len() > 0 {
        let head = calls.drop_last();
        let before = q.after(head);
        lemma_has_ids(q, calls);
        lemma_run_keeps_tasks(q, head, id, priority, payload);
        law_a_run_keeps_agreement(q, head);
        lemma_call_leaves_intact(before, calls.last(), id, priority, payload);
        if complete(q.state, q.log) && pops_are_written(calls) {
            assert(pops_are_written(head)) by {
                assert forall|i: int| 0 <= i < head.len() implies ((
                #[trigger] head[i]) matches QueueCall::Pop { outcome, .. } ==> outcome
                    == AppendOutcome::Written) by {
                    assert(head[i] == calls[i]);
                }
            }
            assert(calls[calls.len() - 1] == calls.last());
            lemma_call_keeps_complete(before, calls.last());
        }
    }
}

/// No task is lost. From its push on, and until it is acknowledged or given up, a task
/// waits or is held, whatever is called and however often the program is restarted, as
/// long as the records of the tasks that are handed out can be written. It waits and is
/// held with the priority that it was pushed with, and its payload is the one that was
/// pushed.
pub proof fn law_no_task_is_lost(
    q: QueueView,
    payload: Seq<u8>,
    priority: u8,
    calls: Seq<QueueCall>,
)
    requires
        agrees(q.state, q.log),
        complete(q.state, q.log),
        q.state.next_id < u64::MAX,
        q.after_call(
            QueueCall::Push { payload, priority, outcome: AppendOutcome::Written },
        ).has_ids(calls),
    ensures
        ({
            let id = q.state.next_id;
            let pushed = q.after_call(
                QueueCall::Push { payload, priority, outcome: AppendOutcome::Written },
            );
            let after = pushed.after(calls);
            &&& pops_are_written(calls) ==> is_over(after.log, id) || is_waiting(
                after.state.ready,
                id,
            ) || after.state.leased.contains_key(id)
            &&& forall|i: int|
                0 <= i < after.state.ready.len() && (#[trigger] after.state.ready[i]).id == id
                    ==> after.state.ready[i].priority == priority
            &&& after.state.leased.contains_key(id) ==> after.state.leased[id].priority == priority
            &&& !is_over(after.log, id) ==> payload_in(after.log, id) == payload
            &&& after.state.cache.entries.contains_key(id) ==> after.state.cache.entries[id]
                == payload
        }),
{
    let id = q.state.next_id;
    let call = QueueCall::Push { payload, priority, outcome: AppendOutcome::Written };
    let pushed = q.after_call(call);
    let after = pushed.after(calls);
    lemma_call(q, call);
    law_push_keeps_agreement(q.state, q.log, payload, priority);
    lemma_extended(q.state, q.log, created(id, priority, payload));
    assert(is_intact(pushed.log, id, priority, payload));
    lemma_run_keeps_tasks(pushed, calls, id, priority, payload);
    law_a_run_keeps_agreement(pushed, calls);
    assert forall|i: int| 0 <= i < after.state.ready.len() && (
    #[trigger] after.state.ready[i]).id == id implies after.state.ready[i].priority == priority by {
        assert(waits(after.log, after.state.ready[i]));
    }
    if after.state.leased.contains_key(id) {
        assert(holds(after.log, id, after.state.leased[id]));
    }
}

} // verus!
