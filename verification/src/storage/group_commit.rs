//! Group commit: many writers share one sync of the log.
//!
//! Callers gather in a batch. A batch closes when it is full, when its window has
//! passed, when nobody has joined it for a while, or when a flush is forced. One
//! of its callers then syncs the log for all of them. There is one sync at a
//! time: a batch that fills up in the meantime waits for its turn.
//!
//! A caller is told of success only if the sync of its own batch succeeded, and
//! that sync began after the caller had joined. So nothing that was confirmed
//! can be lost.
//!
//! The coordinator decides, and the program acts: it holds the lock around each
//! call, waits as it is told, and syncs the active file of the log when a caller
//! is told to commit. Times are nanoseconds since a moment that the program
//! chooses once.

use std::collections::HashMap;
use vstd::prelude::*;

verus! {

/// How a file is synced.
#[derive(Debug, Clone, Copy, PartialEq, Eq, Structural)]
pub enum SyncMode {
    /// A plain `fsync`, which brings the data from the memory of the system to
    /// the storage device. It survives the end of the process.
    Standard,
    /// A flush that also empties the cache of the storage device. It survives
    /// the loss of power.
    FullHardware,
}

/// When a batch closes.
#[derive(Debug, Clone, Copy, PartialEq, Eq, Structural)]
pub struct GroupCommitConfig {
    /// The longest time that a batch stays open, in nanoseconds.
    pub batch_window: u128,
    /// The number of callers at which a batch is full.
    pub max_batch_size: usize,
    /// The time without a new caller after which a batch closes, in nanoseconds.
    pub idle_commit_threshold: u128,
    pub sync_mode: SyncMode,
}

pub type GroupCommitOptions = GroupCommitConfig;

impl Default for GroupCommitConfig {
    /// Two milliseconds, 64 callers, and no waiting for more of them.
    fn default() -> (config: Self)
        ensures
            config == (GroupCommitConfig {
                batch_window: 2_000_000,
                max_batch_size: 64,
                idle_commit_threshold: 0,
                sync_mode: SyncMode::Standard,
            }),
    {
        GroupCommitConfig {
            batch_window: 2_000_000,
            max_batch_size: 64,
            idle_commit_threshold: 0,
            sync_mode: SyncMode::Standard,
        }
    }
}

/// A sync that failed, with the error number of the system.
#[derive(Debug, Clone, Copy, PartialEq, Eq, Structural)]
pub struct SyncFailure {
    pub code: i32,
}

/// What a caller is to do next.
#[derive(Debug, Clone, Copy, PartialEq, Eq)]
pub enum SyncStep {
    /// Return with this result.
    Done(Result<(), SyncFailure>),
    /// Sync the log and report the result with [`GroupCommit::finish`].
    Commit,
    /// Wait until something changes, but no longer than this, and ask again.
    WaitFor(u128),
    /// Wait until something changes, and ask again.
    Wait,
}

/// The coordinator of the batches.
#[derive(Debug)]
pub struct GroupCommit {
    options: GroupCommitOptions,
    collecting_batch_id: u64,
    last_synced_batch_id: u64,
    waiters_in_collecting: usize,
    fsync_in_progress: bool,
    batch_start_time: Option<u128>,
    last_arrival_time: Option<u128>,
    failures: HashMap<u64, SyncFailure>,
    force_flush: bool,
}

/// The value of a [`GroupCommit`].
#[verifier::ext_equal]
pub struct GroupCommitView {
    pub options: GroupCommitOptions,
    /// The batch that callers join.
    pub collecting: u64,
    /// The last batch whose sync is over.
    pub last_synced: u64,
    /// The number of callers in the batch that callers join.
    pub waiters: usize,
    pub in_progress: bool,
    /// When the first caller joined the batch.
    pub started: Option<u128>,
    /// When the latest caller joined the batch.
    pub last_arrival: Option<u128>,
    /// The batches whose sync failed.
    pub failures: Map<u64, SyncFailure>,
    pub force_flush: bool,
}

/// The time from `since` to `now`, or zero if there is none.
pub open spec fn elapsed(since: Option<u128>, now: u128) -> int {
    match since {
        Some(t) => if t <= now {
            now - t
        } else {
            0
        },
        None => 0,
    }
}

/// The lower of two numbers.
pub open spec fn lower(a: int, b: int) -> int {
    if a < b {
        a
    } else {
        b
    }
}

impl GroupCommitView {
    /// The state before anybody has joined.
    pub open spec fn idle(options: GroupCommitOptions) -> GroupCommitView {
        GroupCommitView {
            options,
            collecting: 1,
            last_synced: 0,
            waiters: 0,
            in_progress: false,
            started: None,
            last_arrival: None,
            failures: Map::empty(),
            force_flush: false,
        }
    }

    /// The batches are numbered one by one: the one that callers join follows the
    /// one that is being synced, which follows the last that was.
    pub open spec fn wf(self) -> bool {
        &&& self.collecting == self.last_synced + (if self.in_progress {
            2int
        } else {
            1int
        })
        &&& self.waiters > 0 <==> self.started is Some
        &&& self.waiters > 0 <==> self.last_arrival is Some
        &&& forall|batch: u64| #[trigger]
            self.failures.contains_key(batch) ==> batch <= self.last_synced
    }

    /// Whether the batch that callers join is to be closed.
    pub open spec fn due(self, now: u128) -> bool {
        ||| self.waiters >= self.options.max_batch_size
        ||| elapsed(self.started, now) >= self.options.batch_window
        ||| elapsed(self.last_arrival, now) >= self.options.idle_commit_threshold
        ||| self.force_flush
    }

    /// How long the batch stays open if nobody joins it.
    pub open spec fn time_left(self, now: u128) -> int {
        lower(
            self.options.idle_commit_threshold - elapsed(self.last_arrival, now),
            self.options.batch_window - elapsed(self.started, now),
        )
    }

    /// The result of the sync of a batch.
    pub open spec fn result_of(self, batch: u64) -> Result<(), SyncFailure> {
        if self.failures.contains_key(batch) {
            Err(self.failures[batch])
        } else {
            Ok(())
        }
    }

    /// The state after a caller has joined.
    pub open spec fn joined(self, now: u128) -> GroupCommitView {
        GroupCommitView {
            waiters: (self.waiters + 1) as usize,
            started: if self.started is None {
                Some(now)
            } else {
                self.started
            },
            last_arrival: Some(now),
            ..self
        }
    }

    /// What a caller of a batch is to do.
    pub open spec fn step(self, batch: u64, now: u128) -> SyncStep {
        if batch <= self.last_synced {
            SyncStep::Done(self.result_of(batch))
        } else if self.in_progress || batch != self.last_synced + 1 {
            SyncStep::Wait
        } else if self.due(now) {
            SyncStep::Commit
        } else {
            SyncStep::WaitFor(self.time_left(now) as u128)
        }
    }

    /// The state after the batch that callers join has been closed for its sync.
    pub open spec fn closed(self) -> GroupCommitView {
        GroupCommitView {
            in_progress: true,
            collecting: (self.collecting + 1) as u64,
            waiters: 0,
            started: None,
            last_arrival: None,
            ..self
        }
    }

    /// The state after the sync of a batch.
    pub open spec fn finished(self, batch: u64, result: Result<(), SyncFailure>) -> GroupCommitView {
        GroupCommitView {
            in_progress: false,
            last_synced: batch,
            failures: match result {
                Ok(_) => self.failures,
                Err(failure) => self.failures.insert(batch, failure),
            },
            ..self
        }
    }
}

impl View for GroupCommit {
    type V = GroupCommitView;

    closed spec fn view(&self) -> GroupCommitView {
        GroupCommitView {
            options: self.options,
            collecting: self.collecting_batch_id,
            last_synced: self.last_synced_batch_id,
            waiters: self.waiters_in_collecting,
            in_progress: self.fsync_in_progress,
            started: self.batch_start_time,
            last_arrival: self.last_arrival_time,
            failures: self.failures@,
            force_flush: self.force_flush,
        }
    }
}

fn time_since(since: Option<u128>, now: u128) -> (time: u128)
    ensures
        time == elapsed(since, now),
{
    match since {
        Some(t) => {
            if t <= now {
                now - t
            } else {
                0
            }
        },
        None => 0,
    }
}

impl GroupCommit {
    pub fn new(options: GroupCommitOptions) -> (commit: Self)
        ensures
            commit@.wf(),
            commit@ == GroupCommitView::idle(options),
    {
        GroupCommit {
            options,
            collecting_batch_id: 1,
            last_synced_batch_id: 0,
            waiters_in_collecting: 0,
            fsync_in_progress: false,
            batch_start_time: None,
            last_arrival_time: None,
            failures: HashMap::new(),
            force_flush: false,
        }
    }

    /// Joins a batch, and returns its number. Whoever waits is to be woken.
    pub fn join(&mut self, now: u128) -> (batch: u64)
        requires
            old(self)@.wf(),
            old(self)@.waiters < usize::MAX,
        ensures
            final(self)@.wf(),
            final(self)@ == old(self)@.joined(now),
            batch == old(self)@.collecting,
    {
        self.waiters_in_collecting = self.waiters_in_collecting + 1;
        if self.batch_start_time.is_none() {
            self.batch_start_time = Some(now);
        }
        self.last_arrival_time = Some(now);
        self.collecting_batch_id
    }

    /// What a caller of a batch is to do next. If it is to commit, the batch is
    /// closed.
    pub fn sync(&mut self, batch: u64, now: u128) -> (step: SyncStep)
        requires
            old(self)@.wf(),
            old(self)@.collecting < u64::MAX,
        ensures
            final(self)@.wf(),
            step == old(self)@.step(batch, now),
            final(self)@ == (if step is Commit {
                old(self)@.closed()
            } else {
                old(self)@
            }),
    {
        if self.last_synced_batch_id >= batch {
            return match self.failures.get(&batch) {
                Some(failure) => SyncStep::Done(Err(*failure)),
                None => SyncStep::Done(Ok(())),
            };
        }
        if self.fsync_in_progress || batch != self.last_synced_batch_id + 1 {
            return SyncStep::Wait;
        }
        let total: u128 = time_since(self.batch_start_time, now);
        let idle: u128 = time_since(self.last_arrival_time, now);
        if self.waiters_in_collecting >= self.options.max_batch_size || total
            >= self.options.batch_window || idle >= self.options.idle_commit_threshold
            || self.force_flush {
            self.fsync_in_progress = true;
            self.collecting_batch_id = self.collecting_batch_id + 1;
            self.waiters_in_collecting = 0;
            self.batch_start_time = None;
            self.last_arrival_time = None;
            SyncStep::Commit
        } else {
            let window_left: u128 = self.options.batch_window - total;
            let idle_left: u128 = self.options.idle_commit_threshold - idle;
            if idle_left < window_left {
                SyncStep::WaitFor(idle_left)
            } else {
                SyncStep::WaitFor(window_left)
            }
        }
    }

    /// Reports the result of the sync of a batch. Whoever waits is to be woken.
    pub fn finish(&mut self, batch: u64, result: Result<(), SyncFailure>)
        requires
            old(self)@.wf(),
            old(self)@.in_progress,
            batch == old(self)@.last_synced + 1,
        ensures
            final(self)@.wf(),
            final(self)@ == old(self)@.finished(batch, result),
    {
        self.fsync_in_progress = false;
        self.last_synced_batch_id = batch;
        match result {
            Ok(_) => {},
            Err(failure) => {
                self.failures.insert(batch, failure);
            },
        }
    }

    /// Joins a batch that is not to wait for anything but its turn, and returns
    /// its number. From now on no batch waits to fill up.
    pub fn force_flush_and_wait(&mut self, now: u128) -> (batch: u64)
        requires
            old(self)@.wf(),
            old(self)@.waiters < usize::MAX,
        ensures
            final(self)@.wf(),
            final(self)@ == (GroupCommitView { force_flush: true, ..old(self)@.joined(now) }),
            batch == old(self)@.collecting,
    {
        self.force_flush = true;
        self.join(now)
    }

    pub fn config(&self) -> (config: GroupCommitConfig)
        ensures
            config == self@.options,
    {
        self.options
    }

    /// The number of batches whose sync is over.
    pub fn synced_batches(&self) -> (count: u64)
        ensures
            count == self@.last_synced,
    {
        self.last_synced_batch_id
    }
}

/// While one sync is running, no other is started. When one is started, it is
/// that of the batch that follows the last one, so the batches are synced in
/// order.
pub proof fn law_one_sync_at_a_time(state: GroupCommitView, batch: u64, now: u128)
    requires
        state.wf(),
    ensures
        state.step(batch, now) is Commit ==> {
            &&& !state.in_progress
            &&& batch == state.last_synced + 1
            &&& batch == state.collecting
        },
        state.in_progress ==> !(state.step(batch, now) is Commit),
{
}

/// The sync that a caller waits for begins after the caller has joined: its batch
/// is neither one that has been synced nor the one that is being synced.
pub proof fn law_caller_is_ahead_of_its_sync(state: GroupCommitView, now: u128)
    requires
        state.wf(),
        state.waiters < usize::MAX,
    ensures
        state.collecting > state.last_synced,
        state.in_progress ==> state.collecting > state.last_synced + 1,
        !(state.joined(now).step(state.collecting, now) is Done),
{
}

/// A caller is told the result of the sync of its own batch.
pub proof fn law_caller_gets_the_result_of_its_batch(
    state: GroupCommitView,
    batch: u64,
    result: Result<(), SyncFailure>,
    now: u128,
)
    requires
        state.wf(),
        state.in_progress,
        batch == state.last_synced + 1,
    ensures
        state.finished(batch, result).step(batch, now) == SyncStep::Done(result),
{
    match result {
        Ok(nothing) => {
            assert(nothing == ());
        },
        Err(_) => {},
    }
}

/// The result of a batch that has been synced never changes, whatever becomes of
/// the batches that follow.
pub proof fn law_results_are_final(
    state: GroupCommitView,
    batch: u64,
    later: u64,
    other: Result<(), SyncFailure>,
    now: u128,
)
    requires
        state.wf(),
        batch <= state.last_synced < later,
    ensures
        state.joined(now).result_of(batch) == state.result_of(batch),
        state.closed().result_of(batch) == state.result_of(batch),
        state.finished(later, other).result_of(batch) == state.result_of(batch),
{
}

/// Nobody waits in vain. If no sync is running, a caller whose batch has not been
/// synced is told to commit, or to wait for a while, after which the batch is due
/// even if nobody else joins it.
pub proof fn law_wait_comes_to_an_end(state: GroupCommitView, batch: u64, now: u128)
    requires
        state.wf(),
        !state.in_progress,
        state.last_synced < batch <= state.collecting,
        state.started is Some ==> state.started->0 <= now,
        state.last_arrival is Some ==> state.last_arrival->0 <= now,
        state.waiters > 0,
        now + state.time_left(now) <= u128::MAX,
    ensures
        state.step(batch, now) is Commit || state.step(batch, now) is WaitFor,
        state.step(batch, now) is WaitFor ==> {
            &&& state.step(batch, now)->WaitFor_0 > 0
            &&& state.due((now + state.step(batch, now)->WaitFor_0) as u128)
        },
{
}

/// A forced flush closes the batch without waiting.
pub proof fn law_forced_flush_does_not_wait(state: GroupCommitView, batch: u64, now: u128)
    requires
        state.wf(),
        state.force_flush,
        !state.in_progress,
        batch == state.collecting,
    ensures
        state.step(batch, now) is Commit,
{
}

/// When no sync is running, the batch that callers join is synced as soon as it is
/// full, whatever the size of a full batch is. It is also synced as soon as its window
/// has passed since its first caller, as soon as the idle time has passed since its
/// latest one, and as soon as a flush is forced. Until then a caller waits for the
/// shorter of the two times that are left. While another batch has its turn, a caller
/// waits without a limit. When the turn of its batch is over, it gets the result.
pub proof fn law_a_batch_is_synced_when_it_is_due(state: GroupCommitView, batch: u64, now: u128)
    requires
        state.wf(),
    ensures
        ({
            let step = state.step(batch, now);
            let options = state.options;
            let age = if state.started is Some && state.started->0 <= now {
                now - state.started->0
            } else {
                0
            };
            let quiet = if state.last_arrival is Some && state.last_arrival->0 <= now {
                now - state.last_arrival->0
            } else {
                0
            };
            if batch <= state.last_synced {
                step == SyncStep::Done(
                    if state.failures.contains_key(batch) {
                        Err(state.failures[batch])
                    } else {
                        Ok(())
                    },
                )
            } else if state.in_progress || batch != state.collecting {
                step == SyncStep::Wait
            } else if state.waiters >= options.max_batch_size || age >= options.batch_window || quiet
                >= options.idle_commit_threshold || state.force_flush {
                step == SyncStep::Commit
            } else {
                &&& step is WaitFor
                &&& step->WaitFor_0 > 0
                &&& step->WaitFor_0 <= options.batch_window - age
                &&& step->WaitFor_0 <= options.idle_commit_threshold - quiet
                &&& step->WaitFor_0 == options.batch_window - age || step->WaitFor_0
                    == options.idle_commit_threshold - quiet
            }
        }),
{
}

/// A full batch does not wait, however many callers make it full.
pub proof fn law_a_full_batch_does_not_wait(state: GroupCommitView, now: u128)
    requires
        state.wf(),
        !state.in_progress,
        state.waiters >= state.options.max_batch_size,
    ensures
        state.step(state.collecting, now) is Commit,
{
}

/// A caller that comes alone does not wait where the idle time is zero, as it is by
/// default.
pub proof fn law_a_caller_alone_does_not_wait(state: GroupCommitView, now: u128)
    requires
        state.wf(),
        !state.in_progress,
        state.options.idle_commit_threshold == 0,
    ensures
        state.joined(now).step(state.collecting, now) is Commit,
{
}

/// A caller that joins is counted in the batch that callers join. The batch is as old
/// as its first caller. Closing the batch for its sync starts the next one, without
/// callers. The end of a sync leaves the batch that callers join alone, and is
/// remembered with its number, and with its error if it failed.
pub proof fn law_batches_are_counted(
    state: GroupCommitView,
    now: u128,
    batch: u64,
    result: Result<(), SyncFailure>,
)
    requires
        state.wf(),
        state.waiters < usize::MAX,
        state.collecting < u64::MAX,
    ensures
        ({
            let after = state.joined(now);
            &&& after.waiters == state.waiters + 1
            &&& state.waiters == 0 ==> after.started == Some(now)
            &&& state.waiters > 0 ==> after.started == state.started
            &&& after.last_arrival == Some(now)
            &&& after.options == state.options
            &&& after.collecting == state.collecting
            &&& after.last_synced == state.last_synced
            &&& after.in_progress == state.in_progress
            &&& after.failures == state.failures
            &&& after.force_flush == state.force_flush
        }),
        ({
            let after = state.closed();
            &&& after.in_progress
            &&& after.collecting == state.collecting + 1
            &&& after.waiters == 0
            &&& after.started is None
            &&& after.last_arrival is None
            &&& after.options == state.options
            &&& after.last_synced == state.last_synced
            &&& after.failures == state.failures
            &&& after.force_flush == state.force_flush
        }),
        ({
            let after = state.finished(batch, result);
            &&& !after.in_progress
            &&& after.last_synced == batch
            &&& result is Ok ==> after.failures == state.failures
            &&& result is Err ==> after.failures == state.failures.insert(batch, result->Err_0)
            &&& after.options == state.options
            &&& after.collecting == state.collecting
            &&& after.waiters == state.waiters
            &&& after.started == state.started
            &&& after.last_arrival == state.last_arrival
            &&& after.force_flush == state.force_flush
        }),
{
}

/// A group commit starts with an empty batch, the first one, before any sync.
pub proof fn law_the_first_batch_is_number_one(options: GroupCommitOptions)
    ensures
        ({
            let state = GroupCommitView::idle(options);
            &&& state.options == options
            &&& state.collecting == 1
            &&& state.last_synced == 0
            &&& state.waiters == 0
            &&& !state.in_progress
            &&& state.started is None
            &&& state.last_arrival is None
            &&& state.failures == Map::<u64, SyncFailure>::empty()
            &&& !state.force_flush
        }),
{
}

} // verus!
