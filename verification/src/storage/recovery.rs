//! The replay of a log, and the move of the indexes to a compacted segment.

use super::compaction::segment_views;
use super::engine::{EngineState, EngineView, TaskRef};
use super::ids::{ascending, lists, sorted_keys, strictly_ascending};
use super::priority_queue::{enqueued, lemma_enqueued};
use super::segment::{entries_of, log_of, scan_segment, EntryView, LogEntry, Segment};
use super::task::{is_carrier, is_carrier_in, last_carrier, last_entry, live_in, replay_state, state_after};
use super::task::{lemma_append, LeaseInfo, TaskState};
use super::wal::contains_id;
use std::collections::HashMap;
use vstd::prelude::*;

verus! {

/// The place of a record.
pub open spec fn place_of(entry: EntryView) -> (u64, u64) {
    (entry.segment, entry.offset)
}

/// The id for the next task, when all ids up to `next` are taken and those of a
/// log as well. There is none behind the highest number.
pub open spec fn next_id_after(log: Seq<EntryView>, next: u64) -> u64
    decreases log.len(),
{
    if log.len() == 0 {
        next
    } else {
        let before = next_id_after(log.drop_last(), next);
        let id = log.last().record.id;
        if id < before {
            before
        } else if id == u64::MAX {
            u64::MAX
        } else {
            (id + 1) as u64
        }
    }
}

/// The latest place of every task of a log.
pub open spec fn places(log: Seq<EntryView>) -> Map<u64, (u64, u64)> {
    Map::new(|id: u64| last_entry(log, id) is Some, |id: u64| place_of(last_entry(log, id)->0))
}

/// The latest place of the payload of every task of a log.
pub open spec fn payload_places(log: Seq<EntryView>) -> Map<u64, (u64, u64)> {
    Map::new(|id: u64| last_carrier(log, id) is Some, |id: u64| place_of(last_carrier(log, id)->0))
}

/// What becomes of a task of a log.
pub open spec fn task_state(log: Seq<EntryView>, id: u64, now: u64) -> TaskState {
    state_after((last_entry(log, id)->0).record, now)
}

/// The queue after tasks of a log have returned to it in the given order.
pub open spec fn requeued(ids: Seq<u64>, log: Seq<EntryView>, now: u64) -> Seq<TaskRef>
    decreases ids.len(),
{
    if ids.len() == 0 {
        Seq::empty()
    } else {
        let queue = requeued(ids.drop_last(), log, now);
        let id = ids.last();
        match task_state(log, id, now) {
            TaskState::Ready { retries } => enqueued(
                queue,
                TaskRef { id, priority: (last_entry(log, id)->0).record.priority, retries },
            ),
            _ => queue,
        }
    }
}

/// The state after the replay of a log, on top of an empty one. Of the tasks that
/// are still running, those with a lease that goes on are held, and the others
/// wait, queued by ascending id.
pub open spec fn recovered(empty: EngineView, log: Seq<EntryView>, now: u64) -> EngineView {
    EngineView {
        next_id: next_id_after(log, empty.next_id),
        index: Map::new(
            |id: u64| live_in(log, id),
            |id: u64| place_of(last_entry(log, id)->0),
        ),
        data_index: Map::new(
            |id: u64| live_in(log, id) && last_carrier(log, id) is Some,
            |id: u64| place_of(last_carrier(log, id)->0),
        ),
        ready: requeued(ascending(places(log).dom()), log, now),
        leased: Map::new(
            |id: u64| live_in(log, id) && task_state(log, id, now) is Leased,
            |id: u64| task_state(log, id, now)->Leased_0,
        ),
        ..empty
    }
}

/// Places after a compaction: those in a closed segment for which the compaction
/// wrote a record have moved to segment 1.
pub open spec fn moved(
    map: Map<u64, (u64, u64)>,
    closed: Seq<u64>,
    offsets: Map<u64, u64>,
) -> Map<u64, (u64, u64)> {
    Map::new(
        |id: u64| map.contains_key(id),
        |id: u64|
            if offsets.contains_key(id) && closed.contains(map[id].0) {
                (1u64, offsets[id])
            } else {
                map[id]
            },
    )
}

/// What the replay remembers of the latest record of a task.
struct LastEvent {
    state: TaskState,
    priority: u8,
}

/// What the replay remembers of a log.
spec fn events(log: Seq<EntryView>, now: u64) -> Map<u64, LastEvent> {
    Map::new(
        |id: u64| last_entry(log, id) is Some,
        |id: u64|
            LastEvent {
                state: task_state(log, id, now),
                priority: (last_entry(log, id)->0).record.priority,
            },
    )
}

/// How one more record changes what is known of a log.
proof fn lemma_one_more(log: Seq<EntryView>, entry: EntryView, next: u64, now: u64)
    ensures
        places(log.push(entry)) == places(log).insert(entry.record.id, place_of(entry)),
        payload_places(log.push(entry)) == (if is_carrier(entry) {
            payload_places(log).insert(entry.record.id, place_of(entry))
        } else {
            payload_places(log)
        }),
        events(log.push(entry), now) == events(log, now).insert(
            entry.record.id,
            LastEvent {
                state: state_after(entry.record, now),
                priority: entry.record.priority,
            },
        ),
        log.push(entry).drop_last() == log,
        log.push(entry).last() == entry,
{
    let longer = log.push(entry);
    assert forall|id: u64| true implies #[trigger] last_entry(longer, id) == (if entry.record.id
        == id {
        Some(entry)
    } else {
        last_entry(log, id)
    }) && last_carrier(longer, id) == (if entry.record.id == id && is_carrier(entry) {
        Some(entry)
    } else {
        last_carrier(log, id)
    }) by {
        lemma_append(log, entry, id);
    }
    assert(longer.drop_last() =~= log);
    assert(places(longer) =~= places(log).insert(entry.record.id, place_of(entry)));
    assert forall|id: u64| true implies #[trigger] last_carrier(longer, id) == (if entry.record.id
        == id && is_carrier(entry) {
        Some(entry)
    } else {
        last_carrier(log, id)
    }) by {
        lemma_append(log, entry, id);
    }
    if is_carrier(entry) {
        assert(payload_places(longer) =~= payload_places(log).insert(
            entry.record.id,
            place_of(entry),
        ));
    } else {
        assert(payload_places(longer) =~= payload_places(log));
    }
    assert(events(longer, now) =~= events(log, now).insert(
        entry.record.id,
        LastEvent { state: state_after(entry.record, now), priority: entry.record.priority },
    ));
}

impl EngineState {
    /// Takes note of one more record of the log that is replayed.
    fn replay(
        &mut self,
        events_seen: &mut HashMap<u64, LastEvent>,
        entry: &LogEntry,
        now: u64,
        Ghost(log): Ghost<Seq<EntryView>>,
        Ghost(next): Ghost<u64>,
    )
        requires
            old(self).wf(),
            old(self)@.next_id == next_id_after(log, next),
            old(self)@.index == places(log),
            old(self)@.data_index == payload_places(log),
            old(events_seen)@ == events(log, now),
        ensures
            final(self).wf(),
            final(self)@ == (EngineView {
                next_id: next_id_after(log.push(entry@), next),
                index: places(log.push(entry@)),
                data_index: payload_places(log.push(entry@)),
                ..old(self)@
            }),
            final(events_seen)@ == events(log.push(entry@), now),
    {
        proof {
            lemma_one_more(log, entry@, next, now);
        }
        let id: u64 = entry.record.id();
        if id >= self.next_id {
            self.next_id = if id == u64::MAX {
                u64::MAX
            } else {
                id + 1
            };
        }
        self.index.insert(id, (entry.segment, entry.offset));
        if is_carrier_in(entry.segment, &entry.record) {
            self.data_index.insert(id, (entry.segment, entry.offset));
        }
        let event = LastEvent {
            state: replay_state(&entry.record, now),
            priority: entry.record.priority(),
        };
        events_seen.insert(id, event);
    }

    /// Rebuilds the state of a queue from its log, at the time `now`.
    pub fn recover(&mut self, segments: &Vec<Segment>, now: u64)
        requires
            old(self).wf(),
            old(self)@.index == Map::<u64, (u64, u64)>::empty(),
            old(self)@.data_index == Map::<u64, (u64, u64)>::empty(),
            old(self)@.ready == Seq::<TaskRef>::empty(),
            old(self)@.leased == Map::<u64, LeaseInfo>::empty(),
        ensures
            final(self).wf(),
            final(self)@ == recovered(old(self)@, log_of(segment_views(segments@)), now),
    {
        let ghost start = self@;
        let ghost next = self@.next_id;
        let mut events_seen: HashMap<u64, LastEvent> = HashMap::new();
        let ghost nothing = Seq::<EntryView>::empty();
        proof {
            assert(places(nothing) =~= Map::<u64, (u64, u64)>::empty());
            assert(payload_places(nothing) =~= Map::<u64, (u64, u64)>::empty());
            assert(events(nothing, now) =~= Map::<u64, LastEvent>::empty());
        }
        let mut i: usize = 0;
        while i < segments.len()
            invariant
                i <= segments@.len(),
                self.wf(),
                ({
                    let log = log_of(segment_views(segments@.take(i as int)));
                    &&& self@ == (EngineView {
                        next_id: next_id_after(log, next),
                        index: places(log),
                        data_index: payload_places(log),
                        ..start
                    })
                    &&& events_seen@ == events(log, now)
                }),
            decreases segments@.len() - i,
        {
            let entries = scan_segment(segments[i].id, segments[i].bytes.as_slice());
            let ghost seen = segments@.take(i as int);
            let ghost longer = segments@.take(i + 1);
            let ghost log = log_of(segment_views(seen));
            let ghost fresh = entries_of(segments@[i as int]@);
            proof {
                assert(segment_views(longer).drop_last() =~= segment_views(seen));
                assert(segment_views(longer).last() == segments@[i as int]@);
                assert(log + fresh.take(0) =~= log);
            }
            let mut j: usize = 0;
            while j < entries.len()
                invariant
                    j <= entries@.len(),
                    self.wf(),
                    entries@.map_values(|e: LogEntry| e@) == fresh,
                    self@ == (EngineView {
                        next_id: next_id_after(log + fresh.take(j as int), next),
                        index: places(log + fresh.take(j as int)),
                        data_index: payload_places(log + fresh.take(j as int)),
                        ..start
                    }),
                    events_seen@ == events(log + fresh.take(j as int), now),
                decreases entries@.len() - j,
            {
                let ghost prefix = log + fresh.take(j as int);
                assert(fresh[j as int] == entries@[j as int]@);
                assert(log + fresh.take(j + 1) =~= prefix.push(entries@[j as int]@));
                self.replay(&mut events_seen, &entries[j], now, Ghost(prefix), Ghost(next));
                j = j + 1;
            }
            assert(fresh.take(j as int) =~= fresh);
            i = i + 1;
        }
        let ghost log = log_of(segment_views(segments@));
        assert(segments@.take(i as int) =~= segments@);
        self.settle(&events_seen, now, Ghost(log));
    }

    /// Queues the tasks that wait, holds those that are leased and forgets those
    /// that are finished.
    fn settle(
        &mut self,
        events_seen: &HashMap<u64, LastEvent>,
        now: u64,
        Ghost(log): Ghost<Seq<EntryView>>,
    )
        requires
            old(self).wf(),
            old(self)@.index == places(log),
            old(self)@.data_index == payload_places(log),
            old(self)@.ready == Seq::<TaskRef>::empty(),
            old(self)@.leased == Map::<u64, LeaseInfo>::empty(),
            events_seen@ == events(log, now),
        ensures
            final(self).wf(),
            final(self)@ == (EngineView {
                next_id: old(self)@.next_id,
                ..recovered(old(self)@, log, now)
            }),
    {
        let ids = sorted_keys(&self.index);
        let ghost start = self@;
        let mut i: usize = 0;
        assert(ids@.take(0) =~= Seq::<u64>::empty());
        while i < ids.len()
            invariant
                i <= ids@.len(),
                self.wf(),
                strictly_ascending(ids@),
                lists(ids@, places(log).dom()),
                events_seen@ == events(log, now),
                self@ == (EngineView {
                    index: self@.index,
                    data_index: self@.data_index,
                    ready: requeued(ids@.take(i as int), log, now),
                    leased: self@.leased,
                    ..start
                }),
                self@.ready.len() <= i,
                forall|id: u64| #[trigger]
                    self@.index.contains_key(id) <==> last_entry(log, id) is Some && (
                    ids@.take(i as int).contains(id) ==> live_in(log, id)),
                forall|id: u64| #[trigger]
                    self@.index.contains_key(id) ==> self@.index[id] == place_of(
                        last_entry(log, id)->0,
                    ),
                forall|id: u64| #[trigger]
                    self@.data_index.contains_key(id) <==> last_carrier(log, id) is Some && (
                    ids@.take(i as int).contains(id) ==> live_in(log, id)),
                forall|id: u64| #[trigger]
                    self@.data_index.contains_key(id) ==> self@.data_index[id] == place_of(
                        last_carrier(log, id)->0,
                    ),
                forall|id: u64| #[trigger]
                    self@.leased.contains_key(id) <==> ids@.take(i as int).contains(id) && live_in(
                        log,
                        id,
                    ) && task_state(log, id, now) is Leased,
                forall|id: u64| #[trigger]
                    self@.leased.contains_key(id) ==> self@.leased[id] == task_state(
                        log,
                        id,
                        now,
                    )->Leased_0,
            decreases ids@.len() - i,
        {
            let id: u64 = ids[i];
            let ghost before = ids@.take(i as int);
            let ghost after = ids@.take(i + 1);
            proof {
                assert(ids@.contains(id));
                assert(after.drop_last() =~= before);
                assert(after.last() == id);
                assert forall|x: u64| #[trigger] after.contains(x) <==> before.contains(x) || x
                    == id by {
                    if before.contains(x) {
                        let k = choose|k: int| 0 <= k < before.len() && before[k] == x;
                        assert(after[k] == x);
                    }
                    if x == id {
                        assert(after[i as int] == x);
                    }
                    if after.contains(x) && x != id {
                        let k = choose|k: int| 0 <= k < after.len() && after[k] == x;
                        assert(before[k] == x);
                    }
                }
                assert(!before.contains(id)) by {
                    if before.contains(id) {
                        let k = choose|k: int| 0 <= k < before.len() && before[k] == id;
                        assert(ids@[k] < ids@[i as int]);
                    }
                }
            }
            match events_seen.get(&id) {
                Some(event) => {
                    match event.state {
                        TaskState::Ready { retries } => {
                            let task = TaskRef { id, priority: event.priority, retries };
                            proof {
                                lemma_enqueued(self@.ready, task);
                            }
                            self.ready_queue.push(task);
                        },
                        TaskState::Leased(lease) => {
                            self.leased.insert(id, lease);
                        },
                        TaskState::Finished => {
                            self.data_index.remove(&id);
                            self.index.remove(&id);
                        },
                    }
                },
                None => {
                    assert(false);
                },
            }
            i = i + 1;
        }
        proof {
            assert(ids@.take(i as int) =~= ids@);
            let goal = recovered(start, log, now);
            assert forall|id: u64| #[trigger] ids@.contains(id) <==> last_entry(log, id) is Some by {
                assert(ids@.contains(id) <==> places(log).dom().contains(id));
            }
            assert forall|id: u64| last_carrier(log, id) is Some implies last_entry(log, id)
                is Some by {
                lemma_carrier_is_entry(log, id);
            }
            assert(self@.index =~= goal.index);
            assert(self@.data_index =~= goal.data_index);
            assert(self@.leased =~= goal.leased);
        }
    }

    /// Moves the indexes to a compacted segment, once it has taken the place of
    /// segment 1. A task that was changed since the closed segments were read
    /// has its latest record in another segment, and keeps it.
    pub fn apply_compaction(
        &mut self,
        closed: &Vec<u64>,
        new_offsets: &HashMap<u64, u64>,
        payload_offsets: &HashMap<u64, u64>,
    )
        requires
            old(self).wf(),
        ensures
            final(self).wf(),
            final(self)@ == (EngineView {
                index: moved(old(self)@.index, closed@, new_offsets@),
                data_index: moved(old(self)@.data_index, closed@, payload_offsets@),
                ..old(self)@
            }),
    {
        move_places(&mut self.index, closed, new_offsets);
        move_places(&mut self.data_index, closed, payload_offsets);
    }
}

/// Moves places to a compacted segment.
fn move_places(
    map: &mut HashMap<u64, (u64, u64)>,
    closed: &Vec<u64>,
    new_offsets: &HashMap<u64, u64>,
)
    ensures
        final(map)@ == moved(old(map)@, closed@, new_offsets@),
{
    let ids = sorted_keys(new_offsets);
    let ghost start = map@;
    let mut i: usize = 0;
    while i < ids.len()
        invariant
            i <= ids@.len(),
            strictly_ascending(ids@),
            lists(ids@, new_offsets@.dom()),
            map@.dom() =~= start.dom(),
            forall|id: u64| #[trigger]
                map@.contains_key(id) ==> map@[id] == (if ids@.take(i as int).contains(id)
                    && closed@.contains(start[id].0) {
                    (1u64, new_offsets@[id])
                } else {
                    start[id]
                }),
        decreases ids@.len() - i,
    {
        let id: u64 = ids[i];
        let ghost before = ids@.take(i as int);
        let ghost after = ids@.take(i + 1);
        proof {
            assert(ids@.contains(id));
            assert forall|x: u64| #[trigger] after.contains(x) <==> before.contains(x) || x == id by {
                if before.contains(x) {
                    let k = choose|k: int| 0 <= k < before.len() && before[k] == x;
                    assert(after[k] == x);
                }
                if x == id {
                    assert(after[i as int] == x);
                }
                if after.contains(x) && x != id {
                    let k = choose|k: int| 0 <= k < after.len() && after[k] == x;
                    assert(before[k] == x);
                }
            }
            assert(!before.contains(id)) by {
                if before.contains(id) {
                    let k = choose|k: int| 0 <= k < before.len() && before[k] == id;
                    assert(ids@[k] < ids@[i as int]);
                }
            }
        }
        match new_offsets.get(&id) {
            Some(offset) => {
                let in_closed: bool = match map.get(&id) {
                    Some(place) => contains_id(closed, place.0),
                    None => false,
                };
                if in_closed {
                    map.insert(id, (1, *offset));
                }
            },
            None => {
                assert(false);
            },
        }
        i = i + 1;
    }
    proof {
        assert(ids@.take(i as int) =~= ids@);
        assert forall|id: u64| #[trigger] ids@.contains(id) <==> new_offsets@.contains_key(id) by {
            assert(ids@.contains(id) <==> new_offsets@.dom().contains(id));
        }
        assert(map@ =~= moved(start, closed@, new_offsets@));
    }
}

/// A record with the payload of a task is a record of the task.
pub proof fn lemma_carrier_is_entry(log: Seq<EntryView>, id: u64)
    ensures
        last_carrier(log, id) is Some ==> last_entry(log, id) is Some && (last_carrier(
            log,
            id,
        )->0).record.id == id && is_carrier(last_carrier(log, id)->0),
    decreases log.len(),
{
    if log.len() > 0 {
        lemma_carrier_is_entry(log.drop_last(), id);
    }
}

/// After a replay the next id is behind every id of the log and not below the one that
/// the replay started with, and no id in between is left out.
pub proof fn law_the_next_id_follows_the_highest(log: Seq<EntryView>, next: u64)
    requires
        forall|i: int| 0 <= i < log.len() ==> (#[trigger] log[i]).record.id < u64::MAX,
    ensures
        next_id_after(log, next) >= next,
        forall|i: int|
            0 <= i < log.len() ==> (#[trigger] log[i]).record.id < next_id_after(log, next),
        next_id_after(log, next) == next || exists|i: int|
            0 <= i < log.len() && (#[trigger] log[i]).record.id + 1 == next_id_after(log, next),
    decreases log.len(),
{
    if log.len() > 0 {
        let head = log.drop_last();
        assert forall|i: int| 0 <= i < head.len() implies (#[trigger] head[i]).record.id
            < u64::MAX by {
            assert(head[i] == log[i]);
        }
        assert(log.last() == log[log.len() - 1]);
        law_the_next_id_follows_the_highest(head, next);
        assert forall|i: int| 0 <= i < log.len() implies (#[trigger] log[i]).record.id
            < next_id_after(log, next) by {
            if i < head.len() {
                assert(head[i] == log[i]);
            }
        }
        if next_id_after(log, next) != next {
            if log.last().record.id + 1 != next_id_after(log, next) {
                let i = choose|i: int|
                    0 <= i < head.len() && (#[trigger] head[i]).record.id + 1 == next_id_after(
                        head,
                        next,
                    );
                assert(log[i] == head[i]);
            }
        }
    }
}

/// A compaction moves the place of a task to segment 1 exactly if the place is in one
/// of the segments that were compacted and the new segment has a record of the task. No
/// task loses its place, and none gets one.
pub proof fn law_a_compaction_moves_places(
    map: Map<u64, (u64, u64)>,
    closed: Seq<u64>,
    offsets: Map<u64, u64>,
    id: u64,
)
    ensures
        moved(map, closed, offsets).contains_key(id) == map.contains_key(id),
        map.contains_key(id) && closed.contains(map[id].0) && offsets.contains_key(id) ==> moved(
            map,
            closed,
            offsets,
        )[id] == (1u64, offsets[id]),
        map.contains_key(id) && !closed.contains(map[id].0) ==> moved(map, closed, offsets)[id]
            == map[id],
        map.contains_key(id) && !offsets.contains_key(id) ==> moved(map, closed, offsets)[id]
            == map[id],
{
}

} // verus!
