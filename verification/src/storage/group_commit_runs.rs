//! What holds of a whole run of a [`GroupCommit`] and all its callers.
//!
//! A run is the sequence of the calls that the callers make, in the order in which
//! they hold the lock. Between the call that tells a caller to commit and the call
//! that reports the result, the log is being synced.
//!
//! [`GroupCommit`]: super::group_commit::GroupCommit

use super::group_commit::{GroupCommitOptions, GroupCommitView, SyncFailure, SyncStep};
use vstd::prelude::*;

verus! {

/// A call of one of the methods that change a group commit.
pub enum SyncCall {
    /// A caller joins a batch.
    Join(u128),
    /// A caller joins a batch that is not to wait.
    Flush(u128),
    /// A caller of a batch asks what to do.
    Ask(u64, u128),
    /// The caller that was told to commit reports the result of its sync.
    Finish(Result<(), SyncFailure>),
}

/// The state after a call.
pub open spec fn after_call(state: GroupCommitView, call: SyncCall) -> GroupCommitView {
    match call {
        SyncCall::Join(now) => state.joined(now),
        SyncCall::Flush(now) => GroupCommitView { force_flush: true, ..state.joined(now) },
        SyncCall::Ask(batch, now) => if state.step(batch, now) is Commit {
            state.closed()
        } else {
            state
        },
        SyncCall::Finish(result) => state.finished((state.last_synced + 1) as u64, result),
    }
}

/// The state before call number `n` of a run.
pub open spec fn state_at(
    options: GroupCommitOptions,
    calls: Seq<SyncCall>,
    n: int,
) -> GroupCommitView
    decreases n,
{
    if n <= 0 {
        GroupCommitView::idle(options)
    } else {
        after_call(state_at(options, calls, n - 1), calls[n - 1])
    }
}

/// Whether a caller joins a batch with call number `n`.
pub open spec fn joins_at(calls: Seq<SyncCall>, n: int) -> bool {
    0 <= n < calls.len() && (calls[n] is Join || calls[n] is Flush)
}

/// Whether the sync of a batch begins with call number `n`.
pub open spec fn begins_at(
    options: GroupCommitOptions,
    calls: Seq<SyncCall>,
    n: int,
    batch: u64,
) -> bool {
    &&& 0 <= n < calls.len()
    &&& calls[n] matches SyncCall::Ask(b, now) && b == batch && state_at(
        options,
        calls,
        n,
    ).step(b, now) is Commit
}

/// Whether the sync of a batch is over with call number `n`.
pub open spec fn ends_at(
    options: GroupCommitOptions,
    calls: Seq<SyncCall>,
    n: int,
    batch: u64,
) -> bool {
    &&& 0 <= n < calls.len()
    &&& calls[n] is Finish
    &&& state_at(options, calls, n).last_synced + 1 == batch
}

/// Whether a call can be made: the numbers do not run out, a caller that asks has
/// joined its batch before, and a result is reported of a sync that is running.
pub open spec fn possible(options: GroupCommitOptions, calls: Seq<SyncCall>, n: int) -> bool {
    let state = state_at(options, calls, n);
    match calls[n] {
        SyncCall::Join(_) => state.waiters < usize::MAX,
        SyncCall::Flush(_) => state.waiters < usize::MAX,
        SyncCall::Ask(batch, _) => {
            &&& state.collecting < u64::MAX
            &&& exists|j: int|
                #![trigger joins_at(calls, j)]
                0 <= j < n && joins_at(calls, j) && state_at(options, calls, j).collecting == batch
        },
        SyncCall::Finish(_) => state.in_progress,
    }
}

/// Whether all the calls of a run can be made.
pub open spec fn is_run(options: GroupCommitOptions, calls: Seq<SyncCall>) -> bool {
    forall|n: int| 0 <= n < calls.len() ==> #[trigger] possible(options, calls, n)
}

/// How many callers have joined before call number `n`.
pub open spec fn joined_before(calls: Seq<SyncCall>, n: int) -> nat
    decreases n,
{
    if n <= 0 {
        0
    } else {
        joined_before(calls, n - 1) + (if joins_at(calls, n - 1) {
            1nat
        } else {
            0nat
        })
    }
}

/// The state stays valid and keeps its options.
proof fn lemma_run_wf(options: GroupCommitOptions, calls: Seq<SyncCall>, n: int)
    requires
        is_run(options, calls),
        0 <= n <= calls.len(),
    ensures
        state_at(options, calls, n).wf(),
        state_at(options, calls, n).options == options,
    decreases n,
{
    if n > 0 {
        lemma_run_wf(options, calls, n - 1);
        assert(possible(options, calls, n - 1));
    }
}

/// The batches are numbered upwards, and a batch that was joined and is still open
/// has a caller.
proof fn lemma_run_goes_up(options: GroupCommitOptions, calls: Seq<SyncCall>, m: int, n: int)
    requires
        is_run(options, calls),
        0 <= m <= n <= calls.len(),
    ensures
        ({
            let earlier = state_at(options, calls, m);
            let later = state_at(options, calls, n);
            &&& earlier.last_synced <= later.last_synced
            &&& earlier.collecting <= later.collecting
            &&& joins_at(calls, m) && m < n && later.collecting == earlier.collecting
                ==> later.waiters > 0
        }),
    decreases n,
{
    if m < n {
        lemma_run_goes_up(options, calls, m, n - 1);
        lemma_run_wf(options, calls, n - 1);
        assert(possible(options, calls, n - 1));
    }
}

/// Over any run the options stay what they are, the number of synced batches never
/// falls, and it is at most the number of callers that have joined.
pub proof fn law_synced_batches_over_a_run(
    options: GroupCommitOptions,
    calls: Seq<SyncCall>,
    m: int,
    n: int,
)
    requires
        is_run(options, calls),
        0 <= m <= n <= calls.len(),
    ensures
        state_at(options, calls, 0).last_synced == 0,
        state_at(options, calls, n).options == options,
        state_at(options, calls, m).last_synced <= state_at(options, calls, n).last_synced,
        state_at(options, calls, n).last_synced <= joined_before(calls, n),
{
    lemma_run_wf(options, calls, n);
    lemma_run_goes_up(options, calls, m, n);
    lemma_every_batch_has_a_caller(options, calls, n);
}

proof fn lemma_every_batch_has_a_caller(
    options: GroupCommitOptions,
    calls: Seq<SyncCall>,
    n: int,
)
    requires
        is_run(options, calls),
        0 <= n <= calls.len(),
    ensures
        ({
            let state = state_at(options, calls, n);
            joined_before(calls, n) + 1 >= state.collecting + state.waiters
        }),
        state_at(options, calls, n).last_synced <= joined_before(calls, n),
    decreases n,
{
    lemma_run_wf(options, calls, n);
    if n > 0 {
        let before = state_at(options, calls, n - 1);
        lemma_run_wf(options, calls, n - 1);
        lemma_every_batch_has_a_caller(options, calls, n - 1);
        assert(possible(options, calls, n - 1));
        match calls[n - 1] {
            SyncCall::Ask(batch, now) => {
                let j = choose|j: int|
                    #![trigger joins_at(calls, j)]
                    0 <= j < n - 1 && joins_at(calls, j) && state_at(options, calls, j).collecting
                        == batch;
                if before.step(batch, now) is Commit {
                    lemma_run_goes_up(options, calls, j, n - 1);
                }
            },
            _ => {},
        }
    }
}

/// Where callers come one after the other, each with a batch of its own, as many
/// batches have been synced as callers have returned.
pub proof fn law_one_batch_for_each_caller_alone(
    options: GroupCommitOptions,
    calls: Seq<SyncCall>,
    n: int,
)
    requires
        is_run(options, calls),
        0 <= n <= calls.len(),
        forall|j: int|
            0 <= j < n && #[trigger] joins_at(calls, j) ==> {
                let state = state_at(options, calls, j);
                state.waiters == 0 && !state.in_progress
            },
    ensures
        ({
            let state = state_at(options, calls, n);
            &&& joined_before(calls, n) == state.last_synced + (if state.in_progress
                || state.waiters > 0 {
                1int
            } else {
                0int
            })
            &&& state.options == options
            &&& !(state.in_progress && state.waiters > 0)
        }),
    decreases n,
{
    lemma_run_wf(options, calls, n);
    if n > 0 {
        let before = state_at(options, calls, n - 1);
        lemma_run_wf(options, calls, n - 1);
        law_one_batch_for_each_caller_alone(options, calls, n - 1);
        assert(possible(options, calls, n - 1));
        match calls[n - 1] {
            SyncCall::Ask(batch, now) => {
                let j = choose|j: int|
                    #![trigger joins_at(calls, j)]
                    0 <= j < n - 1 && joins_at(calls, j) && state_at(options, calls, j).collecting
                        == batch;
                if before.step(batch, now) is Commit {
                    lemma_run_goes_up(options, calls, j, n - 1);
                }
            },
            _ => {
                assert(joins_at(calls, n - 1) ==> before.waiters == 0 && !before.in_progress);
            },
        }
    }
}

/// When the sync of a batch begins, callers join the next one.
proof fn lemma_batch_is_closed(
    options: GroupCommitOptions,
    calls: Seq<SyncCall>,
    begin: int,
    batch: u64,
)
    requires
        is_run(options, calls),
        begins_at(options, calls, begin, batch),
    ensures
        state_at(options, calls, begin).collecting == batch,
        state_at(options, calls, begin + 1).collecting == batch + 1,
{
    lemma_run_wf(options, calls, begin);
    assert(possible(options, calls, begin));
    assert(state_at(options, calls, begin + 1) == after_call(
        state_at(options, calls, begin),
        calls[begin],
    ));
}

/// A sync that is running has begun, and has not ended.
proof fn lemma_running_sync_has_begun(
    options: GroupCommitOptions,
    calls: Seq<SyncCall>,
    n: int,
) -> (begin: int)
    requires
        is_run(options, calls),
        0 <= n <= calls.len(),
        state_at(options, calls, n).in_progress,
    ensures
        begin < n,
        begins_at(
            options,
            calls,
            begin,
            (state_at(options, calls, n).last_synced + 1) as u64,
        ),
    decreases n,
{
    let before = state_at(options, calls, n - 1);
    lemma_run_wf(options, calls, n - 1);
    assert(possible(options, calls, n - 1));
    if before.in_progress {
        lemma_running_sync_has_begun(options, calls, n - 1)
    } else {
        n - 1
    }
}

/// The sync of a batch, from its begin to its end, with its result.
pub open spec fn synced_between(
    options: GroupCommitOptions,
    calls: Seq<SyncCall>,
    batch: u64,
    begin: int,
    end: int,
) -> bool {
    &&& begin < end
    &&& begins_at(options, calls, begin, batch)
    &&& ends_at(options, calls, end, batch)
}

/// Every batch that counts as synced has been synced, and what is remembered of it
/// is the result of that sync.
proof fn lemma_synced_batch(
    options: GroupCommitOptions,
    calls: Seq<SyncCall>,
    n: int,
    batch: u64,
) -> (span: (int, int))
    requires
        is_run(options, calls),
        0 <= n <= calls.len(),
        1 <= batch <= state_at(options, calls, n).last_synced,
    ensures
        span.1 < n,
        synced_between(options, calls, batch, span.0, span.1),
        state_at(options, calls, n).result_of(batch) == calls[span.1]->Finish_0,
    decreases n,
{
    let before = state_at(options, calls, n - 1);
    lemma_run_wf(options, calls, n - 1);
    assert(possible(options, calls, n - 1));
    if batch <= before.last_synced {
        lemma_synced_batch(options, calls, n - 1, batch)
    } else {
        let begin = lemma_running_sync_has_begun(options, calls, n - 1);
        match calls[n - 1]->Finish_0 {
            Ok(nothing) => {
                assert(nothing == ());
            },
            Err(_) => {},
        }
        (begin, n - 1)
    }
}

/// A caller that is told it is done has been served by a sync of its own batch,
/// which began after the caller had joined and ended before the caller returned,
/// and it gets the result of that sync, whatever became of other batches.
pub proof fn law_every_caller_gets_its_own_sync(
    options: GroupCommitOptions,
    calls: Seq<SyncCall>,
    join: int,
    ask: int,
)
    requires
        is_run(options, calls),
        joins_at(calls, join),
        join < ask < calls.len(),
        ({
            let batch = state_at(options, calls, join).collecting;
            calls[ask] matches SyncCall::Ask(b, now) && b == batch && state_at(
                options,
                calls,
                ask,
            ).step(b, now) is Done
        }),
    ensures
        ({
            let batch = state_at(options, calls, join).collecting;
            let told = state_at(options, calls, ask).step(batch, calls[ask]->Ask_1);
            exists|begin: int, end: int|
                join < begin && end < ask && #[trigger] synced_between(
                    options,
                    calls,
                    batch,
                    begin,
                    end,
                ) && told == SyncStep::Done(calls[end]->Finish_0)
        }),
{
    let batch = state_at(options, calls, join).collecting;
    lemma_run_wf(options, calls, join);
    let (begin, end) = lemma_synced_batch(options, calls, ask, batch);
    lemma_run_wf(options, calls, begin);
    lemma_batch_is_closed(options, calls, begin, batch);
    if begin < join {
        lemma_run_goes_up(options, calls, begin + 1, join);
    }
    assert(synced_between(options, calls, batch, begin, end));
}

/// There is one sync at a time, and one for each batch. When a sync begins, every
/// sync that began before it is over, and the batches have their turns in order.
pub proof fn law_syncs_follow_each_other(
    options: GroupCommitOptions,
    calls: Seq<SyncCall>,
    first: int,
    second: int,
    a: u64,
    b: u64,
)
    requires
        is_run(options, calls),
        first < second,
        begins_at(options, calls, first, a),
        begins_at(options, calls, second, b),
    ensures
        a < b,
        exists|end: int|
            first < end < second && #[trigger] ends_at(options, calls, end, a),
{
    lemma_run_wf(options, calls, second);
    lemma_batch_is_closed(options, calls, first, a);
    lemma_run_goes_up(options, calls, first + 1, second);
    let end = lemma_sync_ends(options, calls, first, second, a);
    assert(ends_at(options, calls, end, a));
}

/// Where a later state has synced a batch whose sync had begun, the sync is over.
proof fn lemma_sync_ends(
    options: GroupCommitOptions,
    calls: Seq<SyncCall>,
    begin: int,
    n: int,
    batch: u64,
) -> (end: int)
    requires
        is_run(options, calls),
        begins_at(options, calls, begin, batch),
        begin < n <= calls.len(),
        !state_at(options, calls, n).in_progress || state_at(options, calls, n).last_synced
            >= batch,
    ensures
        begin < end < n,
        ends_at(options, calls, end, batch),
    decreases n,
{
    let before = state_at(options, calls, n - 1);
    lemma_run_wf(options, calls, begin);
    lemma_run_wf(options, calls, n - 1);
    lemma_run_wf(options, calls, n);
    assert(possible(options, calls, n - 1));
    if begin == n - 1 {
        assert(false);
        n
    } else if before.last_synced >= batch {
        lemma_sync_ends(options, calls, begin, n - 1, batch)
    } else {
        lemma_run_goes_up(options, calls, begin + 1, n - 1);
        if !before.in_progress {
            lemma_sync_ends(options, calls, begin, n - 1, batch)
        } else {
            n - 1
        }
    }
}

} // verus!
