//! The rounds in which tasks are taken back whose lease has ended.
//!
//! A round starts with the tasks whose lease has ended, and takes them back one
//! by one, each with a record in the log. The lock of the queue may be released
//! in between, so a task that was completed, refused or handed out anew in the
//! meantime is passed over. A task whose record could not be appended stays with
//! its consumer until a later round.

use super::engine::{failing, retries_after, EngineState, EngineView, MAX_RETRIES};
use super::ids::strictly_ascending;
use super::record::{OpType, Record};
use super::wal::AppendOutcome;
use vstd::prelude::*;

verus! {

/// The time between two rounds, in seconds.
pub const EXPIRATION_INTERVAL_SECS: u64 = 1;

/// A round that is under way.
#[derive(Debug)]
pub struct ExpirationRound {
    ids: Vec<u64>,
    position: usize,
    now: u64,
    re_enqueued: usize,
}

/// The value of an [`ExpirationRound`].
#[verifier::ext_equal]
pub struct RoundView {
    /// The tasks that have not been looked at yet.
    pub pending: Seq<u64>,
    /// The time at which the round started.
    pub now: u64,
    /// How many tasks are back in the queue.
    pub re_enqueued: nat,
}

/// How many of the next tasks of a round are passed over.
pub open spec fn passed_over(pending: Seq<u64>, state: EngineView, now: u64) -> nat
    decreases pending.len(),
{
    if pending.len() == 0 || state.lease_ended(pending[0], now) {
        0
    } else {
        1 + passed_over(pending.skip(1), state, now)
    }
}

impl View for ExpirationRound {
    type V = RoundView;

    closed spec fn view(&self) -> RoundView {
        RoundView {
            pending: self.ids@.skip(self.position as int),
            now: self.now,
            re_enqueued: self.re_enqueued as nat,
        }
    }
}

impl ExpirationRound {
    pub closed spec fn wf(&self) -> bool {
        &&& self.position <= self.ids@.len()
        &&& self.re_enqueued <= self.position
    }

    /// Starts a round with the tasks whose lease has ended.
    pub fn begin(state: &EngineState, now: u64) -> (round: Self)
        ensures
            round.wf(),
            round@.now == now,
            round@.re_enqueued == 0,
            strictly_ascending(round@.pending),
            forall|id: u64| #[trigger]
                round@.pending.contains(id) <==> state@.lease_ended(id, now),
    {
        let ids = state.expired_tasks(now);
        let round = ExpirationRound { ids, position: 0, now, re_enqueued: 0 };
        assert(round@.pending =~= ids@);
        round
    }

    /// The next task that is still to be taken back, and the record that is to be
    /// appended for it. Nothing is left when there is none.
    pub fn next(&mut self, state: &EngineState) -> (task: Option<(u64, Record)>)
        requires
            old(self).wf(),
        ensures
            final(self).wf(),
            ({
                let skipped = passed_over(old(self)@.pending, state@, old(self)@.now) as int;
                &&& skipped <= old(self)@.pending.len()
                &&& final(self)@ == (RoundView {
                    pending: old(self)@.pending.skip(skipped),
                    ..old(self)@
                })
            }),
            match task {
                Some((id, record)) => {
                    &&& final(self)@.pending.len() > 0
                    &&& id == final(self)@.pending[0]
                    &&& state@.lease_ended(id, final(self)@.now)
                    &&& record@ == failing(id, state@.leased[id], OpType::Expired)
                },
                None => final(self)@.pending.len() == 0,
            },
    {
        let ghost start = self@.pending;
        let ghost mut skipped: int = 0;
        assert(start.skip(0) =~= start);
        while self.position < self.ids.len()
            invariant
                self.wf(),
                start == old(self)@.pending,
                0 <= skipped <= start.len(),
                self@ == (RoundView { pending: start.skip(skipped), ..old(self)@ }),
                passed_over(start, state@, self@.now) == skipped + passed_over(
                    start.skip(skipped),
                    state@,
                    self@.now,
                ),
            decreases self.ids@.len() - self.position,
        {
            let id: u64 = self.ids[self.position];
            let ghost rest = start.skip(skipped);
            assert(rest[0] == id);
            match state.expiry_record(id, self.now) {
                Some(record) => {
                    return Some((id, record));
                },
                None => {},
            }
            proof {
                assert(rest.skip(1) =~= start.skip(skipped + 1));
                assert(self.ids@.skip(self.position as int).skip(1) =~= self.ids@.skip(
                    self.position + 1,
                ));
                skipped = skipped + 1;
            }
            self.position = self.position + 1;
        }
        None
    }

    /// Takes the next task back, after an attempt to append its record.
    pub fn settle(&mut self, state: &mut EngineState, outcome: AppendOutcome)
        requires
            old(self).wf(),
            old(self)@.pending.len() > 0,
            old(state).wf(),
            old(state)@.lease_ended(old(self)@.pending[0], old(self)@.now) ==> old(
                state,
            )@.wal.has_room(
                failing(
                    old(self)@.pending[0],
                    old(state)@.leased[old(self)@.pending[0]],
                    OpType::Expired,
                ).encoded().len(),
            ),
            old(state)@.ready.len() < usize::MAX,
        ensures
            final(self).wf(),
            final(state).wf(),
            ({
                let id = old(self)@.pending[0];
                let ended = old(state)@.lease_ended(id, old(self)@.now);
                &&& final(state)@ == (if ended {
                    old(state)@.failed(id, OpType::Expired, outcome)
                } else {
                    old(state)@
                })
                &&& final(self)@ == (RoundView {
                    pending: old(self)@.pending.skip(1),
                    now: old(self)@.now,
                    re_enqueued: old(self)@.re_enqueued + (if ended && outcome
                        == AppendOutcome::Written && retries_after(
                        old(state)@.leased[id].retries,
                    ) < MAX_RETRIES {
                        1nat
                    } else {
                        0nat
                    }),
                })
            }),
    {
        let id: u64 = self.ids[self.position];
        let count: usize = self.ids.len();
        let result = state.expire(id, self.now, outcome);
        assert(self.ids@.skip(self.position as int).skip(1) =~= self.ids@.skip(self.position + 1));
        assert(self.position < count);
        self.position = self.position + 1;
        match result {
            Ok(back) => {
                if back {
                    self.re_enqueued = self.re_enqueued + 1;
                }
            },
            Err(_) => {},
        }
    }

    /// How many tasks are back in the queue. For each of them a consumer that
    /// waits is to be woken.
    pub fn re_enqueued(&self) -> (count: usize)
        ensures
            count == self@.re_enqueued,
    {
        self.re_enqueued
    }
}

/// Taking a task back ends its lease, and ends no other.
pub proof fn law_expiry_ends_one_lease(state: EngineView, id: u64, now: u64, other: u64)
    requires
        state.lease_ended(id, now),
    ensures
        ({
            let after = state.failed(id, OpType::Expired, AppendOutcome::Written);
            &&& !after.lease_ended(id, now)
            &&& other != id ==> after.lease_ended(other, now) == state.lease_ended(other, now)
        }),
{
}

/// A round passes over the tasks in front of the first whose lease has ended, and over
/// no others: that one is next, or there is none left.
pub proof fn law_a_round_stops_at_the_first_ended_lease(
    pending: Seq<u64>,
    state: EngineView,
    now: u64,
)
    ensures
        ({
            let skipped = passed_over(pending, state, now) as int;
            &&& skipped <= pending.len()
            &&& forall|i: int|
                0 <= i < skipped ==> !(state.leased.contains_key(#[trigger] pending[i])
                    && state.leased[pending[i]].expire_timestamp <= now)
            &&& skipped < pending.len() ==> state.leased.contains_key(pending[skipped])
                && state.leased[pending[skipped]].expire_timestamp <= now
        }),
    decreases pending.len(),
{
    if pending.len() > 0 && !state.lease_ended(pending[0], now) {
        let rest = pending.skip(1);
        law_a_round_stops_at_the_first_ended_lease(rest, state, now);
        let skipped = passed_over(pending, state, now) as int;
        assert forall|i: int| 0 <= i < skipped implies !(state.leased.contains_key(
            #[trigger] pending[i],
        ) && state.leased[pending[i]].expire_timestamp <= now) by {
            if i > 0 {
                assert(pending[i] == rest[i - 1]);
            }
        }
    }
}

} // verus!
