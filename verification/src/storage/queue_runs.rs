//! What holds of a queue over any number of calls and restarts.
//!
//! A run is the sequence of the calls that were made of one queue, each with what
//! came of the record that it appends. The log is not compacted during a run: a
//! compaction drops the records of the tasks that have come to their end.

use super::engine::{acking, created, empty_engine, failing, lease_for, leasing, EngineView};
use super::laws::{agrees, extended, is_waiting, lemma_extended};
use super::laws::{law_ack_keeps_agreement, law_failed_append_keeps_agreement, law_failure_keeps_agreement};
use super::laws::{holds, law_lease_keeps_agreement, law_push_keeps_agreement, law_replay_agrees, waits};
use super::record::{OpType, RecordView};
use super::recovery::{next_id_after, recovered};
use super::segment::EntryView;
use super::task::{ids_below, last_entry, lemma_append, lemma_last_entry, live_in};
use super::wal::{AppendOutcome, WalView};
use vstd::prelude::*;

verus! {

/// A call of a queue, with what came of the attempt to append its record.
pub enum QueueCall {
    Push { payload: Seq<u8>, priority: u8, outcome: AppendOutcome },
    Pop { consumer_id: u32, expire_timestamp: u64, outcome: AppendOutcome },
    Ack { id: u64, consumer_id: u32, outcome: AppendOutcome },
    Nack { id: u64, consumer_id: u32, outcome: AppendOutcome },
    Expire { id: u64, now: u64, outcome: AppendOutcome },
    /// The program ends, and the log is opened and replayed.
    Restart { wal: WalView, cache_capacity: usize, now: u64 },
}

/// A queue and the records of its log.
pub struct QueueView {
    pub state: EngineView,
    pub log: Seq<EntryView>,
}

impl QueueView {
    /// The records after an attempt to append one.
    pub open spec fn logged(self, record: RecordView, outcome: AppendOutcome) -> Seq<EntryView> {
        if outcome == AppendOutcome::Written {
            extended(self.state, self.log, record)
        } else {
            self.log
        }
    }

    /// Whether a call hands out a task.
    pub open spec fn hands_out(self, call: QueueCall, id: u64) -> bool {
        match call {
            QueueCall::Pop { outcome, .. } => {
                &&& self.state.ready.len() > 0
                &&& self.state.ready[0].id == id
                &&& outcome == AppendOutcome::Written
            },
            _ => false,
        }
    }

    /// Whether a call ends the lease of a task: it completes the task, refuses it, or
    /// takes it back.
    pub open spec fn ends_lease(self, call: QueueCall, id: u64) -> bool {
        match call {
            QueueCall::Ack { id: task, consumer_id, outcome } => {
                &&& task == id
                &&& self.state.held_by(id, consumer_id) is Ok
                &&& outcome == AppendOutcome::Written
            },
            QueueCall::Nack { id: task, consumer_id, outcome } => {
                &&& task == id
                &&& self.state.held_by(id, consumer_id) is Ok
                &&& outcome == AppendOutcome::Written
            },
            QueueCall::Expire { id: task, now, outcome } => {
                &&& task == id
                &&& self.state.lease_ended(id, now)
                &&& outcome == AppendOutcome::Written
            },
            _ => false,
        }
    }

    /// The queue after a call.
    pub open spec fn after_call(self, call: QueueCall) -> QueueView {
        let state = self.state;
        match call {
            QueueCall::Push { payload, priority, outcome } => QueueView {
                state: state.pushed(payload, priority, outcome),
                log: self.logged(created(state.next_id, priority, payload), outcome),
            },
            QueueCall::Pop { consumer_id, expire_timestamp, outcome } => if state.ready.len() == 0 {
                self
            } else {
                let task = state.ready[0];
                QueueView {
                    state: state.handed_out(consumer_id, expire_timestamp, outcome),
                    log: self.logged(
                        leasing(task.id, lease_for(task, consumer_id, expire_timestamp)),
                        outcome,
                    ),
                }
            },
            QueueCall::Ack { id, consumer_id, outcome } => if state.held_by(
                id,
                consumer_id,
            ) is Ok {
                QueueView {
                    state: state.acknowledged(id, outcome),
                    log: self.logged(acking(id, state.leased[id].priority), outcome),
                }
            } else {
                self
            },
            QueueCall::Nack { id, consumer_id, outcome } => if state.held_by(
                id,
                consumer_id,
            ) is Ok {
                QueueView {
                    state: state.failed(id, OpType::Nacked, outcome),
                    log: self.logged(failing(id, state.leased[id], OpType::Nacked), outcome),
                }
            } else {
                self
            },
            QueueCall::Expire { id, now, outcome } => if state.lease_ended(id, now) {
                QueueView {
                    state: state.failed(id, OpType::Expired, outcome),
                    log: self.logged(failing(id, state.leased[id], OpType::Expired), outcome),
                }
            } else {
                self
            },
            QueueCall::Restart { wal, cache_capacity, now } => QueueView {
                state: recovered(empty_engine(wal, cache_capacity), self.log, now),
                log: self.log,
            },
        }
    }

    /// The queue after some calls, one after the other.
    pub open spec fn after(self, calls: Seq<QueueCall>) -> QueueView
        decreases calls.len(),
    {
        if calls.len() == 0 {
            self
        } else {
            self.after(calls.drop_last()).after_call(calls.last())
        }
    }

    /// Whether the ids do not run out during some calls.
    pub open spec fn has_ids(self, calls: Seq<QueueCall>) -> bool {
        forall|i: int|
            0 <= i < calls.len() && (#[trigger] calls[i]) is Push ==> self.after(
                calls.take(i),
            ).state.next_id < u64::MAX
    }
}

/// What a call does, given that the state agrees with the log: the state agrees
/// with the log again, nothing is taken from the log, and what is added to it is a
/// record of a new task or of one that is running.
pub proof fn lemma_call(q: QueueView, call: QueueCall)
    requires
        agrees(q.state, q.log),
        call is Push ==> q.state.next_id < u64::MAX,
    ensures
        ({
            let after = q.after_call(call);
            &&& agrees(after.state, after.log)
            &&& after.log == q.log || exists|e: EntryView|
                after.log == #[trigger] q.log.push(e) && (live_in(q.log, e.record.id) || call is Push
                    && e.record.id == q.state.next_id)
        }),
{
    let v = q.state;
    let log = q.log;
    let after = q.after_call(call);
    match call {
        QueueCall::Push { payload, priority, outcome } => {
            if outcome == AppendOutcome::Written {
                law_push_keeps_agreement(v, log, payload, priority);
                lemma_pushed_entry(v, log, created(v.next_id, priority, payload));
            } else {
                law_failed_append_keeps_agreement(
                    v,
                    log,
                    outcome,
                    payload,
                    priority,
                    0,
                    OpType::Nacked,
                    0,
                    0,
                );
            }
        },
        QueueCall::Pop { consumer_id, expire_timestamp, outcome } => {
            if v.ready.len() > 0 {
                let task = v.ready[0];
                assert(waits(log, v.ready[0]));
                if outcome == AppendOutcome::Written {
                    law_lease_keeps_agreement(v, log, consumer_id, expire_timestamp);
                    lemma_pushed_entry(
                        v,
                        log,
                        leasing(task.id, lease_for(task, consumer_id, expire_timestamp)),
                    );
                } else {
                    law_failed_append_keeps_agreement(
                        v,
                        log,
                        outcome,
                        Seq::empty(),
                        0,
                        0,
                        OpType::Nacked,
                        consumer_id,
                        expire_timestamp,
                    );
                }
            }
        },
        QueueCall::Ack { id, consumer_id, outcome } => {
            if v.held_by(id, consumer_id) is Ok {
                assert(holds(log, id, v.leased[id]));
                if outcome == AppendOutcome::Written {
                    law_ack_keeps_agreement(v, log, id);
                    lemma_pushed_entry(v, log, acking(id, v.leased[id].priority));
                } else {
                    law_failed_append_keeps_agreement(
                        v,
                        log,
                        outcome,
                        Seq::empty(),
                        0,
                        id,
                        OpType::Nacked,
                        0,
                        0,
                    );
                }
            }
        },
        QueueCall::Nack { id, consumer_id, outcome } => {
            if v.held_by(id, consumer_id) is Ok {
                lemma_failure(v, log, id, OpType::Nacked, outcome);
            }
        },
        QueueCall::Expire { id, now, outcome } => {
            if v.lease_ended(id, now) {
                lemma_failure(v, log, id, OpType::Expired, outcome);
            }
        },
        QueueCall::Restart { wal, cache_capacity, now } => {
            assert(ids_below(log, u64::MAX)) by {
                assert forall|i: int| 0 <= i < log.len() implies (#[trigger] log[i]).record.id
                    < u64::MAX by {
                    assert(log[i].record.id < v.next_id);
                }
            }
            law_replay_agrees(empty_engine(wal, cache_capacity), log, now);
        },
    }
}

proof fn lemma_pushed_entry(v: EngineView, log: Seq<EntryView>, record: RecordView)
    ensures
        exists|e: EntryView|
            extended(v, log, record) == #[trigger] log.push(e) && e.record == record,
{
    let place = v.wal.next_place();
    let e = EntryView { segment: place.0, offset: place.1, record };
    assert(extended(v, log, record) == log.push(e));
}

proof fn lemma_failure(
    v: EngineView,
    log: Seq<EntryView>,
    id: u64,
    failure: OpType,
    outcome: AppendOutcome,
)
    requires
        agrees(v, log),
        v.leased.contains_key(id),
        failure == OpType::Nacked || failure == OpType::Expired,
    ensures
        ({
            let record = failing(id, v.leased[id], failure);
            let log_after = if outcome == AppendOutcome::Written {
                extended(v, log, record)
            } else {
                log
            };
            &&& agrees(v.failed(id, failure, outcome), log_after)
            &&& live_in(log, id)
            &&& log_after == log || exists|e: EntryView|
                log_after == #[trigger] log.push(e) && e.record == record
        }),
{
    assert(holds(log, id, v.leased[id]));
    if outcome == AppendOutcome::Written {
        law_failure_keeps_agreement(v, log, id, failure);
        lemma_pushed_entry(v, log, failing(id, v.leased[id], failure));
    } else {
        law_failed_append_keeps_agreement(v, log, outcome, Seq::empty(), 0, id, failure, 0, 0);
    }
}

/// The first calls of a run do not run out of ids either.
pub proof fn lemma_has_ids(q: QueueView, calls: Seq<QueueCall>)
    requires
        q.has_ids(calls),
        calls.len() > 0,
    ensures
        q.has_ids(calls.drop_last()),
        calls.last() is Push ==> q.after(calls.drop_last()).state.next_id < u64::MAX,
{
    let head = calls.drop_last();
    assert forall|i: int| 0 <= i < head.len() && (#[trigger] head[i]) is Push implies q.after(
        head.take(i),
    ).state.next_id < u64::MAX by {
        assert(calls[i] is Push);
        assert(head.take(i) =~= calls.take(i));
    }
    assert(calls.take(calls.len() - 1) =~= head);
    assert(calls[calls.len() - 1] == calls.last());
}

/// Whatever is called and however often the program is restarted, the state of the
/// queue agrees with its log.
pub proof fn law_a_run_keeps_agreement(q: QueueView, calls: Seq<QueueCall>)
    requires
        agrees(q.state, q.log),
        q.has_ids(calls),
    ensures
        agrees(q.after(calls).state, q.after(calls).log),
    decreases calls.len(),
{
    if calls.len() > 0 {
        lemma_has_ids(q, calls);
        law_a_run_keeps_agreement(q, calls.drop_last());
        lemma_call(q.after(calls.drop_last()), calls.last());
    }
}

/// Whether a task has come to its end: it was acknowledged or given up.
pub open spec fn is_over(log: Seq<EntryView>, id: u64) -> bool {
    last_entry(log, id) is Some && !live_in(log, id)
}

/// A task that was acknowledged or given up never comes back, whatever is called
/// and however often the program is restarted. It is not put into the queue again,
/// by the expiration of leases or otherwise, and nobody holds it.
pub proof fn law_a_task_that_is_over_stays_over(q: QueueView, calls: Seq<QueueCall>, id: u64)
    requires
        agrees(q.state, q.log),
        q.has_ids(calls),
        is_over(q.log, id),
    ensures
        is_over(q.after(calls).log, id),
        !is_waiting(q.after(calls).state.ready, id),
        !q.after(calls).state.leased.contains_key(id),
    decreases calls.len(),
{
    let after = q.after(calls);
    law_a_run_keeps_agreement(q, calls);
    if calls.len() > 0 {
        let before = q.after(calls.drop_last());
        lemma_has_ids(q, calls);
        law_a_run_keeps_agreement(q, calls.drop_last());
        law_a_task_that_is_over_stays_over(q, calls.drop_last(), id);
        lemma_call(before, calls.last());
        lemma_id_is_below(before.log, before.state.next_id, id);
        if after.log != before.log {
            let e = choose|e: EntryView|
                after.log == #[trigger] before.log.push(e) && (live_in(before.log, e.record.id)
                    || calls.last() is Push && e.record.id == before.state.next_id);
            lemma_append(before.log, e, id);
        }
    }
    if is_waiting(after.state.ready, id) {
        let i = choose|i: int|
            0 <= i < after.state.ready.len() && (#[trigger] after.state.ready[i]).id == id;
        assert(waits(after.log, after.state.ready[i]));
    }
    if after.state.leased.contains_key(id) {
        assert(holds(after.log, id, after.state.leased[id]));
    }
}

/// A task of the log has an id below the next one.
pub proof fn lemma_id_is_below(log: Seq<EntryView>, next_id: u64, id: u64)
    requires
        ids_below(log, next_id),
        last_entry(log, id) is Some,
    ensures
        id < next_id,
{
    lemma_last_entry(log, id);
    let e = last_entry(log, id)->0;
    let i = choose|i: int| 0 <= i < log.len() && log[i] == e;
    assert(log[i].record.id < next_id);
}

/// Completing a task brings it to its end.
pub proof fn law_an_acknowledged_task_is_over(q: QueueView, id: u64, consumer_id: u32)
    requires
        agrees(q.state, q.log),
        q.state.held_by(id, consumer_id) is Ok,
    ensures
        is_over(
            q.after_call(
                QueueCall::Ack { id, consumer_id, outcome: AppendOutcome::Written },
            ).log,
            id,
        ),
{
    let record = acking(id, q.state.leased[id].priority);
    law_ack_keeps_agreement(q.state, q.log, id);
    lemma_extended(q.state, q.log, record);
}

/// How often a task is handed out during some calls.
pub open spec fn hand_outs(q: QueueView, calls: Seq<QueueCall>, id: u64) -> nat
    decreases calls.len(),
{
    if calls.len() == 0 {
        0
    } else {
        hand_outs(q, calls.drop_last(), id) + (if q.after(calls.drop_last()).hands_out(
            calls.last(),
            id,
        ) {
            1nat
        } else {
            0nat
        })
    }
}

/// How often a lease of a task comes to its end during some calls.
pub open spec fn lease_ends(q: QueueView, calls: Seq<QueueCall>, id: u64) -> nat
    decreases calls.len(),
{
    if calls.len() == 0 {
        0
    } else {
        lease_ends(q, calls.drop_last(), id) + (if q.after(calls.drop_last()).ends_lease(
            calls.last(),
            id,
        ) {
            1nat
        } else {
            0nat
        })
    }
}

/// Whether a task is held, as a number.
pub open spec fn held(q: QueueView, id: u64) -> nat {
    if q.state.leased.contains_key(id) {
        1
    } else {
        0
    }
}

/// While the program is not restarted, every lease ends once: of all the times that
/// a task was handed out, each has come to its end by one call, but for the lease
/// that is still running.
pub proof fn law_every_lease_ends_once(q: QueueView, calls: Seq<QueueCall>, id: u64)
    requires
        agrees(q.state, q.log),
        q.has_ids(calls),
        forall|i: int| 0 <= i < calls.len() ==> !((#[trigger] calls[i]) is Restart),
    ensures
        held(q, id) + hand_outs(q, calls, id) == lease_ends(q, calls, id) + held(
            q.after(calls),
            id,
        ),
    decreases calls.len(),
{
    if calls.len() > 0 {
        let head = calls.drop_last();
        let before = q.after(head);
        lemma_has_ids(q, calls);
        assert forall|i: int| 0 <= i < head.len() implies !((#[trigger] head[i]) is Restart) by {
            assert(head[i] == calls[i]);
        }
        law_every_lease_ends_once(q, head, id);
        law_a_run_keeps_agreement(q, head);
        assert(calls[calls.len() - 1] == calls.last());
        if before.state.ready.len() > 0 {
            assert(!before.state.leased.contains_key(before.state.ready[0].id));
        }
    }
}

/// How many tasks are pushed by some calls.
pub open spec fn pushes(calls: Seq<QueueCall>) -> nat
    decreases calls.len(),
{
    if calls.len() == 0 {
        0
    } else {
        pushes(calls.drop_last()) + (if calls.last() is Push {
            1nat
        } else {
            0nat
        })
    }
}

/// Whether the record of every push among some calls is written.
pub open spec fn pushes_are_written(calls: Seq<QueueCall>) -> bool {
    forall|i: int|
        0 <= i < calls.len() ==> ((#[trigger] calls[i]) matches QueueCall::Push { outcome, .. }
            ==> outcome == AppendOutcome::Written)
}

/// The ids are given one by one, over restarts as well: as long as no push fails,
/// the next id is the first one plus the number of pushes since.
pub proof fn law_ids_are_given_one_by_one(q: QueueView, calls: Seq<QueueCall>)
    requires
        agrees(q.state, q.log),
        q.has_ids(calls),
        q.state.next_id == next_id_after(q.log, 1),
        pushes_are_written(calls),
    ensures
        q.after(calls).state.next_id == q.state.next_id + pushes(calls),
        q.after(calls).state.next_id == next_id_after(q.after(calls).log, 1),
    decreases calls.len(),
{
    if calls.len() > 0 {
        let head = calls.drop_last();
        let before = q.after(head);
        let after = q.after(calls);
        lemma_has_ids(q, calls);
        assert forall|i: int| 0 <= i < head.len() implies ((
        #[trigger] head[i]) matches QueueCall::Push { outcome, .. } ==> outcome
            == AppendOutcome::Written) by {
            assert(head[i] == calls[i]);
        }
        law_ids_are_given_one_by_one(q, head);
        law_a_run_keeps_agreement(q, head);
        lemma_call(before, calls.last());
        assert(calls[calls.len() - 1] == calls.last());
        if after.log != before.log {
            let e = choose|e: EntryView|
                after.log == #[trigger] before.log.push(e) && (live_in(before.log, e.record.id)
                    || calls.last() is Push && e.record.id == before.state.next_id);
            assert(after.log.drop_last() =~= before.log);
            if live_in(before.log, e.record.id) {
                lemma_id_is_below(before.log, before.state.next_id, e.record.id);
            }
            if calls.last() is Push {
                lemma_push_is_logged(before, calls.last());
            }
        } else if calls.last() is Push {
            lemma_push_is_logged(before, calls.last());
        }
    }
}

/// A push whose record is written adds a record of the new task to the log.
proof fn lemma_push_is_logged(q: QueueView, call: QueueCall)
    requires
        call matches QueueCall::Push { outcome, .. } && outcome == AppendOutcome::Written,
    ensures
        q.after_call(call).log.len() == q.log.len() + 1,
        q.after_call(call).log.last().record.id == q.state.next_id,
{
}

/// The id of a task that was pushed is never given to another, whatever is called
/// and however often the program is restarted: every later id is higher.
pub proof fn law_no_id_is_given_twice(
    q: QueueView,
    payload: Seq<u8>,
    priority: u8,
    calls: Seq<QueueCall>,
)
    requires
        agrees(q.state, q.log),
        q.state.next_id < u64::MAX,
        q.after_call(
            QueueCall::Push { payload, priority, outcome: AppendOutcome::Written },
        ).has_ids(calls),
    ensures
        ({
            let pushed = q.after_call(
                QueueCall::Push { payload, priority, outcome: AppendOutcome::Written },
            );
            pushed.after(calls).state.next_id > q.state.next_id
        }),
{
    let call = QueueCall::Push { payload, priority, outcome: AppendOutcome::Written };
    let pushed = q.after_call(call);
    let id = q.state.next_id;
    lemma_call(q, call);
    lemma_push_is_logged(q, call);
    assert(last_entry(pushed.log, id) is Some);
    lemma_known_stays_known(pushed, calls, id);
    law_a_run_keeps_agreement(pushed, calls);
    let after = pushed.after(calls);
    lemma_id_is_below(after.log, after.state.next_id, id);
}

/// A task that the log knows stays known.
proof fn lemma_known_stays_known(q: QueueView, calls: Seq<QueueCall>, id: u64)
    requires
        agrees(q.state, q.log),
        q.has_ids(calls),
        last_entry(q.log, id) is Some,
    ensures
        last_entry(q.after(calls).log, id) is Some,
    decreases calls.len(),
{
    if calls.len() > 0 {
        let head = calls.drop_last();
        let before = q.after(head);
        let after = q.after(calls);
        lemma_has_ids(q, calls);
        lemma_known_stays_known(q, head, id);
        law_a_run_keeps_agreement(q, head);
        lemma_call(before, calls.last());
        if after.log != before.log {
            let e = choose|e: EntryView|
                after.log == #[trigger] before.log.push(e) && (live_in(before.log, e.record.id)
                    || calls.last() is Push && e.record.id == before.state.next_id);
            lemma_append(before.log, e, id);
        }
    }
}

} // verus!
