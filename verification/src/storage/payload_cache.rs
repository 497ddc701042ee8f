//! The payloads that are kept in memory.

use std::collections::HashMap;
use std::collections::VecDeque;
use std::sync::Arc;
use vstd::prelude::*;

verus! {

pub const DEFAULT_PAYLOAD_CACHE_CAPACITY: usize = 10_000;

/// A bounded cache of the payloads of recently pushed tasks.
///
/// A payload is cached after it has been appended to the log, and the log alone
/// is the durable truth: a payload that is not here, because it was evicted or
/// because the program was restarted, is read from the log.
#[derive(Debug)]
pub struct PayloadCache {
    capacity: usize,
    entries: HashMap<u64, Arc<Vec<u8>>>,
    order: VecDeque<u64>,
    hits: u64,
    misses: u64,
    evictions: u64,
}

/// The value of a [`PayloadCache`].
#[verifier::ext_equal]
pub struct CacheView {
    /// How many payloads are kept at most.
    pub capacity: usize,
    /// The payloads that are kept, by task id.
    pub entries: Map<u64, Seq<u8>>,
    /// The ids that are kept, in the order in which they entered.
    pub order: Seq<u64>,
    pub hits: u64,
    pub misses: u64,
    pub evictions: u64,
}

/// Some ids without one of them.
pub open spec fn without(ids: Seq<u64>, id: u64) -> Seq<u64> {
    ids.filter(|x: u64| x != id)
}

/// A call of one of the methods that change a [`PayloadCache`].
pub enum CacheCall {
    Insert(u64, Seq<u8>),
    Get(u64),
    Remove(u64),
    Clear,
}

impl CacheView {
    /// A new cache.
    pub open spec fn fresh(capacity: usize) -> CacheView {
        CacheView {
            capacity,
            entries: Map::empty(),
            order: Seq::empty(),
            hits: 0,
            misses: 0,
            evictions: 0,
        }
    }

    /// No more payloads are kept than the capacity allows, and the order names
    /// each of them once and nothing else.
    pub open spec fn wf(self) -> bool {
        &&& self.order.no_duplicates()
        &&& self.entries.dom() == self.order.to_set()
        &&& self.order.len() <= self.capacity
    }

    /// The cache after `id` has entered, before anything is evicted.
    pub open spec fn admitted(self, id: u64, payload: Seq<u8>) -> CacheView {
        CacheView {
            entries: self.entries.insert(id, payload),
            order: if self.entries.contains_key(id) {
                self.order
            } else {
                self.order.push(id)
            },
            ..self
        }
    }

    /// The cache after its oldest entry has left, if it held one too many.
    pub open spec fn trimmed(self) -> CacheView {
        if self.order.len() > self.capacity {
            CacheView {
                entries: self.entries.remove(self.order[0]),
                order: self.order.skip(1),
                evictions: (self.evictions + 1) as u64,
                ..self
            }
        } else {
            self
        }
    }

    /// The cache after a look-up, which counts as a hit or a miss.
    pub open spec fn looked_up(self, id: u64) -> CacheView {
        if self.entries.contains_key(id) {
            CacheView { hits: (self.hits + 1) as u64, ..self }
        } else {
            CacheView { misses: (self.misses + 1) as u64, ..self }
        }
    }

    /// The cache after an insertion. A cache of capacity zero stays empty.
    pub open spec fn inserted(self, id: u64, payload: Seq<u8>) -> CacheView {
        if self.capacity == 0 {
            self
        } else {
            self.admitted(id, payload).trimmed()
        }
    }

    /// The cache after the payload of a task has been dropped.
    pub open spec fn removed(self, id: u64) -> CacheView {
        CacheView { entries: self.entries.remove(id), order: without(self.order, id), ..self }
    }

    /// The cache after every payload has been dropped. The counters stay.
    pub open spec fn cleared(self) -> CacheView {
        CacheView { entries: Map::empty(), order: Seq::empty(), ..self }
    }

    /// The cache after a call.
    pub open spec fn after_call(self, call: CacheCall) -> CacheView {
        match call {
            CacheCall::Insert(id, payload) => self.inserted(id, payload),
            CacheCall::Get(id) => self.looked_up(id),
            CacheCall::Remove(id) => self.removed(id),
            CacheCall::Clear => self.cleared(),
        }
    }

    /// The cache after some calls, one after the other.
    pub open spec fn after(self, calls: Seq<CacheCall>) -> CacheView
        decreases calls.len(),
    {
        if calls.len() == 0 {
            self
        } else {
            self.after(calls.drop_last()).after_call(calls.last())
        }
    }
}

/// Calls `Arc::clone`, which makes another pointer to the same allocation, so
/// that both lead to equal values.
#[verifier::external_body]
fn share(payload: &Arc<Vec<u8>>) -> (shared: Arc<Vec<u8>>)
    ensures
        shared == *payload,
{
    Arc::clone(payload)
}

impl View for PayloadCache {
    type V = CacheView;

    closed spec fn view(&self) -> CacheView {
        CacheView {
            capacity: self.capacity,
            entries: self.entries@.map_values(|p: Arc<Vec<u8>>| p@),
            order: self.order@,
            hits: self.hits,
            misses: self.misses,
            evictions: self.evictions,
        }
    }
}

impl PayloadCache {
    /// The value of the cache is well formed.
    pub open spec fn wf(&self) -> bool {
        self@.wf()
    }

    pub fn new(capacity: usize) -> (cache: Self)
        ensures
            cache.wf(),
            cache@ == CacheView::fresh(capacity),
    {
        let room: usize = if capacity < 1024 {
            capacity
        } else {
            1024
        };
        let cache = PayloadCache {
            capacity,
            entries: HashMap::with_capacity(room),
            order: VecDeque::with_capacity(room),
            hits: 0,
            misses: 0,
            evictions: 0,
        };
        assert(cache@ =~= CacheView::fresh(capacity));
        assert(cache@.entries.dom() =~= cache@.order.to_set());
        cache
    }

    /// Looks a payload up, and counts a hit or a miss.
    pub fn get(&mut self, id: u64) -> (payload: Option<Arc<Vec<u8>>>)
        requires
            old(self).wf(),
            old(self)@.hits < u64::MAX,
            old(self)@.misses < u64::MAX,
        ensures
            final(self).wf(),
            final(self)@ == old(self)@.looked_up(id),
            match payload {
                Some(p) => old(self)@.entries.contains_key(id) && p@ == old(self)@.entries[id],
                None => !old(self)@.entries.contains_key(id),
            },
    {
        match self.entries.get(&id) {
            Some(payload) => {
                let shared = share(payload);
                self.hits = self.hits + 1;
                Some(shared)
            },
            None => {
                self.misses = self.misses + 1;
                None
            },
        }
    }

    /// Caches a payload. When there is one too many, the oldest entry leaves.
    pub fn insert(&mut self, id: u64, payload: Arc<Vec<u8>>)
        requires
            old(self).wf(),
            old(self)@.evictions < u64::MAX,
        ensures
            final(self).wf(),
            final(self)@ == old(self)@.inserted(id, payload@),
    {
        if self.capacity == 0 {
            return;
        }
        let replaced = self.entries.insert(id, payload);
        if replaced.is_none() {
            self.order.push_back(id);
        }
        let ghost before = old(self)@;
        proof {
            assert(self@ =~= before.admitted(id, payload@));
            lemma_admitted(before, id, payload@);
        }
        if self.order.len() > self.capacity {
            self.evict_oldest();
        }
    }

    /// Removes the oldest entry.
    fn evict_oldest(&mut self)
        requires
            old(self)@.order.no_duplicates(),
            old(self)@.entries.dom() == old(self)@.order.to_set(),
            old(self)@.order.len() == old(self)@.capacity + 1,
            old(self)@.evictions < u64::MAX,
        ensures
            final(self).wf(),
            final(self)@ == old(self)@.trimmed(),
    {
        let ghost before = self@;
        if let Some(id) = self.order.pop_front() {
            self.entries.remove(&id);
            self.evictions = self.evictions + 1;
            proof {
                assert(before.order.subrange(1, before.order.len() as int) =~= before.order.skip(1));
                assert(self@ =~= before.trimmed());
                lemma_trimmed(before);
            }
        }
    }

    /// Drops a payload, whose task has come to its end.
    pub fn remove(&mut self, id: u64) -> (payload: Option<Arc<Vec<u8>>>)
        requires
            old(self).wf(),
        ensures
            final(self).wf(),
            final(self)@ == old(self)@.removed(id),
            match payload {
                Some(p) => old(self)@.entries.contains_key(id) && p@ == old(self)@.entries[id],
                None => !old(self)@.entries.contains_key(id),
            },
    {
        let ghost before = self@;
        let payload = self.entries.remove(&id);
        proof {
            lemma_removed(before, id);
        }
        if payload.is_some() {
            let n: usize = self.order.len();
            let mut i: usize = 0;
            while self.order[i] != id
                invariant
                    i < n,
                    n == self.order@.len(),
                    self.order@ == before.order,
                    before.order.contains(id),
                    forall|j: int| 0 <= j < i ==> #[trigger] before.order[j] != id,
                decreases n - i,
            {
                proof {
                    let k = choose|k: int| 0 <= k < before.order.len() && before.order[k] == id;
                    assert(k > i);
                }
                i = i + 1;
            }
            self.order.remove(i);
            proof {
                lemma_without(before.order, id);
                lemma_without_one(before.order, i as int);
            }
        } else {
            proof {
                lemma_without(before.order, id);
            }
        }
        assert(self@ =~= before.removed(id));
        payload
    }

    /// Drops every payload. The counters stay.
    pub fn clear(&mut self)
        requires
            old(self).wf(),
        ensures
            final(self).wf(),
            final(self)@ == old(self)@.cleared(),
    {
        self.entries.clear();
        self.order.clear();
        assert(self@ =~= old(self)@.cleared());
        assert(self@.entries.dom() =~= self@.order.to_set());
    }

    pub fn len(&self) -> (len: usize)
        ensures
            len == self@.entries.len(),
    {
        assert(self@.entries.dom() =~= self.entries@.dom());
        self.entries.len()
    }

    pub fn capacity(&self) -> (capacity: usize)
        ensures
            capacity == self@.capacity,
    {
        self.capacity
    }

    /// The number of hits, misses and evictions so far.
    pub fn stats(&self) -> (stats: (u64, u64, u64))
        ensures
            stats == (self@.hits, self@.misses, self@.evictions),
    {
        (self.hits, self.misses, self.evictions)
    }
}

impl Default for PayloadCache {
    fn default() -> (cache: Self)
        ensures
            cache.wf(),
            cache@ == CacheView::fresh(DEFAULT_PAYLOAD_CACHE_CAPACITY),
            cache@.capacity == 10_000,
    {
        PayloadCache::new(DEFAULT_PAYLOAD_CACHE_CAPACITY)
    }
}

/// An id that enters stands last in the order.
proof fn lemma_admitted(cache: CacheView, id: u64, payload: Seq<u8>)
    requires
        cache.wf(),
    ensures
        ({
            let after = cache.admitted(id, payload);
            &&& after.order.no_duplicates()
            &&& after.entries.dom() == after.order.to_set()
            &&& after.order.len() <= cache.capacity + 1
        }),
{
    let after = cache.admitted(id, payload);
    assert(cache.entries.contains_key(id) <==> cache.order.contains(id));
    if !cache.entries.contains_key(id) {
        assert forall|k: u64| #[trigger] after.order.contains(k) <==> cache.order.contains(k) || k
            == id by {
            if cache.order.contains(k) {
                let i = choose|i: int| 0 <= i < cache.order.len() && cache.order[i] == k;
                assert(after.order[i] == k);
            }
            if k == id {
                assert(after.order[after.order.len() - 1] == k);
            }
        }
        assert forall|i: int, j: int|
            0 <= i < after.order.len() && 0 <= j < after.order.len() && i
                != j implies #[trigger] after.order[i] != #[trigger] after.order[j] by {
            if i < cache.order.len() {
                assert(cache.order.contains(cache.order[i]));
            }
            if j < cache.order.len() {
                assert(cache.order.contains(cache.order[j]));
            }
        }
    }
    assert(after.entries.dom() =~= after.order.to_set());
}

/// The first id of the order leaves, and the others stay.
proof fn lemma_trimmed(cache: CacheView)
    requires
        cache.order.no_duplicates(),
        cache.entries.dom() == cache.order.to_set(),
        cache.order.len() <= cache.capacity + 1,
    ensures
        cache.trimmed().wf(),
{
    if cache.order.len() > cache.capacity {
        let after = cache.trimmed();
        assert forall|k: u64| #[trigger] after.order.contains(k) <==> cache.order.contains(k) && k
            != cache.order[0] by {
            if after.order.contains(k) {
                let i = choose|i: int| 0 <= i < after.order.len() && after.order[i] == k;
                assert(cache.order[i + 1] == k);
            }
            if cache.order.contains(k) && k != cache.order[0] {
                let i = choose|i: int| 0 <= i < cache.order.len() && cache.order[i] == k;
                assert(after.order[i - 1] == k);
            }
        }
        assert(after.entries.dom() =~= after.order.to_set());
    }
}

/// Taking an id out of others that are all different leaves the others.
proof fn lemma_without(ids: Seq<u64>, id: u64)
    requires
        ids.no_duplicates(),
    ensures
        without(ids, id).no_duplicates(),
        forall|k: u64| #[trigger] without(ids, id).contains(k) <==> ids.contains(k) && k != id,
        ids.contains(id) ==> without(ids, id).len() == ids.len() - 1,
        !ids.contains(id) ==> without(ids, id) == ids,
    decreases ids.len(),
{
    reveal(Seq::filter);
    if ids.len() > 0 {
        let head = ids.drop_last();
        let last = ids.last();
        lemma_without(head, id);
        assert forall|k: u64| #[trigger] ids.contains(k) <==> head.contains(k) || k == last by {
            if ids.contains(k) && k != last {
                let i = choose|i: int| 0 <= i < ids.len() && ids[i] == k;
                assert(head[i] == k);
            }
            if head.contains(k) {
                let i = choose|i: int| 0 <= i < head.len() && head[i] == k;
                assert(ids[i] == k);
            }
            assert(ids[ids.len() - 1] == last);
        }
        assert(!head.contains(last));
        let kept = without(head, id);
        if last != id {
            assert(without(ids, id) == kept.push(last));
            assert forall|k: u64| #[trigger] kept.push(last).contains(k) <==> kept.contains(k) || k
                == last by {
                if kept.contains(k) {
                    let i = choose|i: int| 0 <= i < kept.len() && kept[i] == k;
                    assert(kept.push(last)[i] == k);
                }
                assert(kept.push(last)[kept.len() as int] == last);
            }
            assert(!kept.contains(last));
            assert forall|i: int, j: int|
                0 <= i < kept.len() + 1 && 0 <= j < kept.len() + 1 && i
                    != j implies #[trigger] kept.push(last)[i] != #[trigger] kept.push(last)[j] by {
                if i < kept.len() {
                    assert(kept.contains(kept[i]));
                }
                if j < kept.len() {
                    assert(kept.contains(kept[j]));
                }
            }
            assert(head.push(last) =~= ids);
        } else {
            assert(without(ids, id) == kept);
        }
    }
}

/// Taking out the id at a place leaves what stands before and behind it.
proof fn lemma_without_one(ids: Seq<u64>, i: int)
    requires
        ids.no_duplicates(),
        0 <= i < ids.len(),
    ensures
        without(ids, ids[i]) == ids.remove(i),
    decreases ids.len(),
{
    reveal(Seq::filter);
    let id = ids[i];
    let head = ids.drop_last();
    if i == ids.len() - 1 {
        assert(!head.contains(id));
        lemma_without(head, id);
        assert(head =~= ids.remove(i));
    } else {
        assert(head[i] == id);
        lemma_without_one(head, i);
        assert(head.remove(i).push(ids.last()) =~= ids.remove(i));
    }
}

/// What stays after a removal.
proof fn lemma_removed(cache: CacheView, id: u64)
    requires
        cache.wf(),
    ensures
        cache.removed(id).wf(),
        cache.entries.contains_key(id) <==> cache.order.contains(id),
{
    lemma_without(cache.order, id);
    assert(cache.removed(id).entries.dom() =~= cache.removed(id).order.to_set());
}

/// The cache holds as many payloads as the order names ids, and no more than its
/// capacity.
proof fn lemma_cache_len(cache: CacheView)
    requires
        cache.wf(),
    ensures
        cache.entries.dom().finite(),
        cache.entries.len() == cache.order.len(),
        cache.entries.len() <= cache.capacity,
{
    cache.order.unique_seq_to_set();
}

/// A payload that has just been inserted is found, unless the cache keeps nothing
/// at all.
pub proof fn law_inserted_payload_is_found(cache: CacheView, id: u64, payload: Seq<u8>)
    requires
        cache.capacity > 0,
        cache.wf(),
    ensures
        cache.inserted(id, payload).entries.contains_key(id),
        cache.inserted(id, payload).entries[id] == payload,
{
    let admitted = cache.admitted(id, payload);
    lemma_admitted(cache, id, payload);
    if admitted.order.len() > cache.capacity {
        assert(admitted.order[admitted.order.len() - 1] == id);
    }
}

/// Only the oldest entry ever leaves on an insertion, and only if the cache is
/// full and the id is new: every other payload that was cached stays cached.
pub proof fn law_only_the_oldest_is_evicted(
    cache: CacheView,
    id: u64,
    payload: Seq<u8>,
    other: u64,
)
    requires
        cache.wf(),
        cache.entries.contains_key(other),
        other != id,
    ensures
        ({
            let after = cache.inserted(id, payload);
            let full = cache.order.len() == cache.capacity && !cache.entries.contains_key(id);
            if full && other == cache.order[0] {
                !after.entries.contains_key(other)
            } else {
                after.entries.contains_key(other) && after.entries[other] == cache.entries[other]
            }
        }),
{
    let admitted = cache.admitted(id, payload);
    assert(cache.order.contains(other));
    if admitted.order.len() > cache.capacity {
        assert(admitted.order[0] == cache.order[0]);
    }
}

/// After any calls in any order, the cache holds no more than its capacity, and
/// the capacity is what it was.
pub proof fn law_capacity_is_never_exceeded(cache: CacheView, calls: Seq<CacheCall>)
    requires
        cache.wf(),
    ensures
        cache.after(calls).wf(),
        cache.after(calls).capacity == cache.capacity,
        cache.after(calls).entries.dom().finite(),
        cache.after(calls).entries.len() <= cache.capacity,
    decreases calls.len(),
{
    if calls.len() > 0 {
        let before = cache.after(calls.drop_last());
        law_capacity_is_never_exceeded(cache, calls.drop_last());
        match calls.last() {
            CacheCall::Insert(id, payload) => {
                lemma_admitted(before, id, payload);
                lemma_trimmed(before.admitted(id, payload));
            },
            CacheCall::Get(id) => {},
            CacheCall::Remove(id) => {
                lemma_removed(before, id);
            },
            CacheCall::Clear => {
                assert(before.cleared().entries.dom() =~= before.cleared().order.to_set());
            },
        }
    }
    lemma_cache_len(cache.after(calls));
}

/// The insertions among some calls.
pub open spec fn insertions(calls: Seq<CacheCall>) -> Seq<(u64, Seq<u8>)>
    decreases calls.len(),
{
    if calls.len() == 0 {
        Seq::empty()
    } else {
        match calls.last() {
            CacheCall::Insert(id, payload) => insertions(calls.drop_last()).push((id, payload)),
            _ => insertions(calls.drop_last()),
        }
    }
}

/// The ids of some insertions.
pub open spec fn inserted_ids(insertions: Seq<(u64, Seq<u8>)>) -> Seq<u64> {
    insertions.map_values(|i: (u64, Seq<u8>)| i.0)
}

/// Whether there are only insertions and look-ups among some calls.
pub open spec fn inserts_and_gets(calls: Seq<CacheCall>) -> bool {
    forall|i: int| 0 <= i < calls.len() ==> (#[trigger] calls[i] is Insert || calls[i] is Get)
}

/// How many of some calls insert.
proof fn lemma_insertions_are_calls(calls: Seq<CacheCall>)
    ensures
        insertions(calls).len() <= calls.len(),
    decreases calls.len(),
{
    if calls.len() > 0 {
        lemma_insertions_are_calls(calls.drop_last());
    }
}

/// After insertions of different ids into a new cache, with look-ups in between,
/// the cache holds exactly the ids that were inserted last, as many as it has room
/// for, each with its own payload. All others have been evicted.
pub proof fn law_the_last_inserted_are_held(capacity: usize, calls: Seq<CacheCall>)
    requires
        capacity > 0,
        inserts_and_gets(calls),
        inserted_ids(insertions(calls)).no_duplicates(),
        calls.len() <= u64::MAX,
    ensures
        ({
            let after = CacheView::fresh(capacity).after(calls);
            let all = insertions(calls);
            let gone = if all.len() > capacity {
                all.len() - capacity
            } else {
                0
            };
            &&& after.evictions == gone
            &&& after.entries.len() == all.len() - gone
            &&& after.order == inserted_ids(all).skip(gone)
            &&& forall|i: int|
                0 <= i < all.len() ==> {
                    if i < gone {
                        !after.entries.contains_key((#[trigger] all[i]).0)
                    } else {
                        after.entries.contains_key(all[i].0) && after.entries[all[i].0] == all[i].1
                    }
                }
            &&& forall|id: u64| #[trigger]
                after.entries.contains_key(id) ==> inserted_ids(all).skip(gone).contains(id)
        }),
    decreases calls.len(),
{
    let fresh = CacheView::fresh(capacity);
    let after = fresh.after(calls);
    let all = insertions(calls);
    assert(fresh.entries.dom() =~= fresh.order.to_set());
    law_capacity_is_never_exceeded(fresh, calls);
    lemma_insertions_are_calls(calls);
    if calls.len() == 0 {
        assert(inserted_ids(all).skip(0) =~= after.order);
    } else {
        let head = calls.drop_last();
        let before = fresh.after(head);
        let some = insertions(head);
        law_capacity_is_never_exceeded(fresh, head);
        assert(inserts_and_gets(head)) by {
            assert forall|i: int| 0 <= i < head.len() implies (#[trigger] head[i] is Insert
                || head[i] is Get) by {
                assert(head[i] == calls[i]);
            }
        }
        assert(calls[calls.len() - 1] == calls.last());
        match calls.last() {
            CacheCall::Insert(id, payload) => {
                let ids = inserted_ids(all);
                assert(inserted_ids(some) =~= ids.drop_last());
                assert(inserted_ids(some).no_duplicates());
                law_the_last_inserted_are_held(capacity, head);
                assert(ids.last() == id);
                assert forall|i: int| 0 <= i < some.len() implies (#[trigger] some[i]).0 != id by {
                    assert(ids[i] == some[i].0);
                    assert(ids[some.len() as int] == id);
                }
                if before.entries.contains_key(id) {
                    let i = choose|i: int| 0 <= i < before.order.len() && before.order[i] == id;
                    let gone = if some.len() > capacity {
                        some.len() - capacity
                    } else {
                        0
                    };
                    assert(inserted_ids(some)[gone + i] == some[gone + i].0);
                    assert(false);
                }
                let gone = if all.len() > capacity {
                    all.len() - capacity
                } else {
                    0
                };
                assert(after.order =~= ids.skip(gone));
                assert forall|i: int| 0 <= i < all.len() implies ({
                    if i < gone {
                        !after.entries.contains_key((#[trigger] all[i]).0)
                    } else {
                        after.entries.contains_key(all[i].0) && after.entries[all[i].0] == all[i].1
                    }
                }) by {
                    assert(ids[i] == all[i].0);
                    if i < some.len() {
                        assert(all[i] == some[i]);
                    }
                    if gone > 0 {
                        assert(before.order[0] == ids[gone - 1]);
                    }
                }
            },
            _ => {
                law_the_last_inserted_are_held(capacity, head);
            },
        }
    }
    lemma_cache_len(after);
    assert forall|id: u64| #[trigger] after.entries.contains_key(id) implies after.order.contains(
        id,
    ) by {}
}

/// A cache that has just been cleared holds nothing, keeps its counters, and from
/// then on does to every call what a new cache of its capacity does. The counters
/// go on from where they were.
pub proof fn law_clear_starts_anew(cache: CacheView, calls: Seq<CacheCall>)
    requires
        cache.hits + calls.len() <= u64::MAX,
        cache.misses + calls.len() <= u64::MAX,
        cache.evictions + calls.len() <= u64::MAX,
    ensures
        cache.cleared().entries == Map::<u64, Seq<u8>>::empty(),
        cache.cleared().entries.len() == 0,
        cache.cleared().capacity == cache.capacity,
        cache.cleared().hits == cache.hits,
        cache.cleared().misses == cache.misses,
        cache.cleared().evictions == cache.evictions,
        ({
            let anew = CacheView::fresh(cache.capacity).after(calls);
            &&& anew.hits <= calls.len()
            &&& anew.misses <= calls.len()
            &&& anew.evictions <= calls.len()
            &&& cache.cleared().after(calls) == (CacheView {
                hits: (cache.hits + anew.hits) as u64,
                misses: (cache.misses + anew.misses) as u64,
                evictions: (cache.evictions + anew.evictions) as u64,
                ..anew
            })
        }),
    decreases calls.len(),
{
    if calls.len() > 0 {
        law_clear_starts_anew(cache, calls.drop_last());
    }
}

/// What some calls did to a cache.
pub struct CacheTally {
    /// Look-ups that found their payload.
    pub found: nat,
    /// Look-ups that found nothing.
    pub missed: nat,
    /// Insertions of ids that were not held.
    pub entered: nat,
    /// Removals that found their payload.
    pub removed: nat,
    /// Payloads that were held when the cache was cleared.
    pub dropped: nat,
}

/// What some calls do to a cache, one after the other.
pub open spec fn tally(cache: CacheView, calls: Seq<CacheCall>) -> CacheTally
    decreases calls.len(),
{
    if calls.len() == 0 {
        CacheTally { found: 0, missed: 0, entered: 0, removed: 0, dropped: 0 }
    } else {
        let so_far = tally(cache, calls.drop_last());
        let held = cache.after(calls.drop_last()).entries;
        match calls.last() {
            CacheCall::Get(id) => if held.contains_key(id) {
                CacheTally { found: so_far.found + 1, ..so_far }
            } else {
                CacheTally { missed: so_far.missed + 1, ..so_far }
            },
            CacheCall::Insert(id, _) => if held.contains_key(id) {
                so_far
            } else {
                CacheTally { entered: so_far.entered + 1, ..so_far }
            },
            CacheCall::Remove(id) => if held.contains_key(id) {
                CacheTally { removed: so_far.removed + 1, ..so_far }
            } else {
                so_far
            },
            CacheCall::Clear => CacheTally { dropped: so_far.dropped + held.len(), ..so_far },
        }
    }
}

/// The counters of a cache count what happened to it. Every payload that entered
/// is still there, or was evicted, removed or cleared away.
pub proof fn law_the_counters_balance(capacity: usize, calls: Seq<CacheCall>)
    requires
        capacity > 0,
        calls.len() <= u64::MAX,
    ensures
        ({
            let after = CacheView::fresh(capacity).after(calls);
            let sum = tally(CacheView::fresh(capacity), calls);
            &&& after.hits == sum.found
            &&& after.misses == sum.missed
            &&& sum.entered == after.entries.len() + after.evictions + sum.removed + sum.dropped
            &&& after.hits <= calls.len()
            &&& after.misses <= calls.len()
            &&& after.evictions <= calls.len()
        }),
    decreases calls.len(),
{
    let fresh = CacheView::fresh(capacity);
    assert(fresh.entries.dom() =~= fresh.order.to_set());
    law_capacity_is_never_exceeded(fresh, calls);
    lemma_cache_len(fresh.after(calls));
    if calls.len() > 0 {
        let head = calls.drop_last();
        let before = fresh.after(head);
        law_the_counters_balance(capacity, head);
        law_capacity_is_never_exceeded(fresh, head);
        lemma_cache_len(before);
        match calls.last() {
            CacheCall::Remove(id) => {
                lemma_without(before.order, id);
                lemma_removed(before, id);
            },
            _ => {},
        }
    }
}

/// No counter of a cache ever falls.
pub proof fn law_counters_never_fall(
    capacity: usize,
    calls: Seq<CacheCall>,
    more: Seq<CacheCall>,
)
    requires
        calls.len() + more.len() <= u64::MAX,
    ensures
        ({
            let earlier = CacheView::fresh(capacity).after(calls);
            let later = CacheView::fresh(capacity).after(calls + more);
            &&& earlier.hits <= later.hits <= calls.len() + more.len()
            &&& earlier.misses <= later.misses <= calls.len() + more.len()
            &&& earlier.evictions <= later.evictions <= calls.len() + more.len()
        }),
    decreases calls.len() + more.len(),
{
    if more.len() > 0 {
        assert((calls + more).drop_last() =~= calls + more.drop_last());
        law_counters_never_fall(capacity, calls, more.drop_last());
    } else {
        assert(calls + more =~= calls);
        if calls.len() > 0 {
            let head = calls.drop_last();
            assert(head + Seq::<CacheCall>::empty() =~= head);
            law_counters_never_fall(capacity, head, Seq::empty());
        }
    }
}

/// An insertion keeps every entry but the one that has to leave. An id that was there
/// keeps its place and gets the new payload. A new id comes last, and if the cache was
/// full, the first leaves. Nothing enters a cache of capacity zero.
pub proof fn law_insertion_keeps_the_order(cache: CacheView, id: u64, payload: Seq<u8>)
    requires
        cache.wf(),
        cache.evictions < u64::MAX,
    ensures
        ({
            let after = cache.inserted(id, payload);
            &&& after.capacity == cache.capacity
            &&& after.hits == cache.hits
            &&& after.misses == cache.misses
            &&& cache.capacity == 0 ==> after == cache
            &&& cache.capacity > 0 && cache.entries.contains_key(id) ==> {
                &&& after.order == cache.order
                &&& after.entries == cache.entries.insert(id, payload)
                &&& after.evictions == cache.evictions
            }
            &&& cache.capacity > 0 && !cache.entries.contains_key(id) && cache.order.len()
                < cache.capacity ==> {
                &&& after.order == cache.order.push(id)
                &&& after.entries == cache.entries.insert(id, payload)
                &&& after.evictions == cache.evictions
            }
            &&& cache.capacity > 0 && !cache.entries.contains_key(id) && cache.order.len()
                == cache.capacity ==> {
                &&& after.order == cache.order.skip(1).push(id)
                &&& after.entries == cache.entries.insert(id, payload).remove(cache.order[0])
                &&& after.evictions == cache.evictions + 1
            }
        }),
{
    let after = cache.inserted(id, payload);
    let admitted = cache.admitted(id, payload);
    if cache.capacity > 0 && admitted.order.len() > cache.capacity {
        assert(admitted.order[0] == cache.order[0]);
        assert(admitted.order.skip(1) =~= cache.order.skip(1).push(id));
    }
}

/// A look-up changes one counter and nothing else: the hits if the payload is there, the
/// misses if not. A removal takes out its own entry and nothing else, and is not
/// counted. Clearing takes out every entry and leaves the rest.
pub proof fn law_other_calls_leave_the_rest(cache: CacheView, id: u64, other: u64)
    requires
        cache.wf(),
        cache.hits < u64::MAX,
        cache.misses < u64::MAX,
    ensures
        ({
            let after = cache.looked_up(id);
            &&& after.entries == cache.entries
            &&& after.order == cache.order
            &&& after.capacity == cache.capacity
            &&& after.evictions == cache.evictions
            &&& after.hits == cache.hits + (if cache.entries.contains_key(id) {
                1int
            } else {
                0
            })
            &&& after.misses == cache.misses + (if cache.entries.contains_key(id) {
                0int
            } else {
                1
            })
        }),
        ({
            let after = cache.removed(id);
            &&& !after.entries.contains_key(id)
            &&& other != id ==> after.entries.contains_key(other) == cache.entries.contains_key(
                other,
            )
            &&& other != id && cache.entries.contains_key(other) ==> after.entries[other]
                == cache.entries[other]
            &&& !cache.order.contains(id) ==> after.order == cache.order
            &&& forall|i: int|
                0 <= i < cache.order.len() && #[trigger] cache.order[i] == id ==> after.order
                    == cache.order.remove(i)
            &&& after.capacity == cache.capacity
            &&& after.hits == cache.hits
            &&& after.misses == cache.misses
            &&& after.evictions == cache.evictions
        }),
        ({
            let after = cache.cleared();
            &&& !after.entries.contains_key(id)
            &&& after.order.len() == 0
            &&& after.capacity == cache.capacity
            &&& after.hits == cache.hits
            &&& after.misses == cache.misses
            &&& after.evictions == cache.evictions
        }),
{
    lemma_without(cache.order, id);
    assert forall|i: int| 0 <= i < cache.order.len() && #[trigger] cache.order[i] == id implies
        cache.removed(id).order == cache.order.remove(i) by {
        lemma_without_one(cache.order, i);
    }
}

/// A new cache is empty, and has counted nothing.
pub proof fn law_a_new_cache_is_empty(capacity: usize, id: u64)
    ensures
        ({
            let cache = CacheView::fresh(capacity);
            &&& cache.wf()
            &&& cache.capacity == capacity
            &&& !cache.entries.contains_key(id)
            &&& cache.order.len() == 0
            &&& cache.hits == 0
            &&& cache.misses == 0
            &&& cache.evictions == 0
        }),
{
    let cache = CacheView::fresh(capacity);
    assert(cache.entries.dom() =~= cache.order.to_set());
}

} // verus!
