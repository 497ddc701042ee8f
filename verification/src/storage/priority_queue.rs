//! The queue of ready tasks.

use super::engine::TaskRef;
use std::collections::VecDeque;
use vstd::prelude::*;

verus! {

/// One bucket for each value of a `u8`.
const NUM_PRIORITIES: usize = 256;

/// A priority queue for discrete 8-bit priorities.
///
/// There is one FIFO bucket for each priority, and a bitmap of 256 bits that
/// marks the buckets that hold a task. Both `push` and `pop` take constant time:
/// the highest bucket in use is found with at most four bit scans.
///
/// The view of the queue is the sequence of its tasks in the order in which they
/// will be popped.
#[derive(Debug, Clone)]
pub struct PriorityBucketQueue {
    buckets: Vec<VecDeque<TaskRef>>,
    bitmap: [u64; 4],
    len: usize,
}

/// The number of tasks at the head of `tasks` whose priority is at least
/// `priority`.
pub open spec fn rank(tasks: Seq<TaskRef>, priority: u8) -> nat
    decreases tasks.len(),
{
    if tasks.len() == 0 || tasks[0].priority < priority {
        0
    } else {
        1 + rank(tasks.skip(1), priority)
    }
}

/// The tasks after `task` has joined them: behind every task of its own or a
/// higher priority, ahead of every task of a lower one.
pub open spec fn enqueued(tasks: Seq<TaskRef>, task: TaskRef) -> Seq<TaskRef> {
    tasks.insert(rank(tasks, task.priority) as int, task)
}

/// Higher priorities stand ahead of lower ones.
pub open spec fn by_priority(tasks: Seq<TaskRef>) -> bool {
    forall|i: int, j: int|
        #![trigger tasks[i], tasks[j]]
        0 <= i <= j < tasks.len() ==> tasks[i].priority >= tasks[j].priority
}

/// A task that joins the others makes one more.
pub proof fn lemma_enqueued(tasks: Seq<TaskRef>, task: TaskRef)
    ensures
        rank(tasks, task.priority) <= tasks.len(),
        enqueued(tasks, task).len() == tasks.len() + 1,
    decreases tasks.len(),
{
    if tasks.len() > 0 {
        lemma_enqueued(tasks.skip(1), task);
    }
}

/// Whether bit `p` of the bitmap is set.
spec fn marked(bitmap: Seq<u64>, p: int) -> bool {
    (bitmap[p / 64] >> ((p % 64) as u64)) & 1u64 == 1u64
}

/// The tasks of the buckets below `n`, highest bucket first.
spec fn drained(buckets: Seq<VecDeque<TaskRef>>, n: nat) -> Seq<TaskRef>
    decreases n,
{
    if n == 0 {
        Seq::empty()
    } else {
        buckets[n - 1]@ + drained(buckets, (n - 1) as nat)
    }
}

/// Every task stands in the bucket of its priority.
spec fn sorted_in(buckets: Seq<VecDeque<TaskRef>>) -> bool {
    forall|p: int, i: int|
        #![trigger buckets[p]@[i]]
        0 <= p < buckets.len() && 0 <= i < buckets[p]@.len() ==> buckets[p]@[i].priority == p
}

impl View for PriorityBucketQueue {
    type V = Seq<TaskRef>;

    closed spec fn view(&self) -> Seq<TaskRef> {
        drained(self.buckets@, 256)
    }
}

impl PriorityBucketQueue {
    /// There are 256 buckets, each task is in the bucket of its priority, the
    /// bitmap marks the buckets that are not empty, and `len` counts the tasks.
    pub closed spec fn wf(&self) -> bool {
        &&& self.buckets@.len() == 256
        &&& sorted_in(self.buckets@)
        &&& forall|p: int|
            #![trigger self.buckets@[p]]
            0 <= p < 256 ==> (marked(self.bitmap@, p) <==> self.buckets@[p]@.len() > 0)
        &&& self.len == self@.len()
    }

    /// The empty queue.
    pub fn new() -> (queue: Self)
        ensures
            queue.wf(),
            queue@ == Seq::<TaskRef>::empty(),
    {
        let mut buckets: Vec<VecDeque<TaskRef>> = Vec::with_capacity(NUM_PRIORITIES);
        let mut i: usize = 0;
        while i < NUM_PRIORITIES
            invariant
                i <= NUM_PRIORITIES,
                buckets@.len() == i,
                forall|p: int| 0 <= p < i ==> #[trigger] buckets@[p]@ == Seq::<TaskRef>::empty(),
            decreases NUM_PRIORITIES - i,
        {
            buckets.push(VecDeque::new());
            i = i + 1;
        }
        let queue = PriorityBucketQueue { buckets, bitmap: [0u64; 4], len: 0 };
        proof {
            lemma_drained_empty(queue.buckets@, 256);
            assert forall|p: int| 0 <= p < 256 implies !marked(queue.bitmap@, p) by {
                let b = (p % 64) as u64;
                assert((0u64 >> b) & 1u64 == 0u64) by (bit_vector);
            }
        }
        queue
    }

    /// Adds a task behind the tasks of its own or a higher priority.
    pub fn push(&mut self, task: TaskRef)
        requires
            old(self).wf(),
            old(self)@.len() < usize::MAX,
        ensures
            final(self).wf(),
            final(self)@ == enqueued(old(self)@, task),
    {
        let p: usize = task.priority as usize;
        let ghost before = self.buckets@;
        let ghost bits = self.bitmap@;
        self.buckets[p].push_back(task);
        let word: u64 = self.bitmap[p / 64];
        let bit: u64 = (p % 64) as u64;
        self.bitmap[p / 64] = word | (1u64 << bit);
        self.len = self.len + 1;
        proof {
            lemma_drained_push(before, self.buckets@, task, 256);
            lemma_rank(before, 256, task.priority);
            assert forall|q: int| 0 <= q < 256 implies (marked(self.bitmap@, q) <==> (#[trigger]
            self.buckets@[q])@.len() > 0) by {
                lemma_set_bit(word, bit, (q % 64) as u64);
                assert(before[q]@.len() > 0 <==> marked(bits, q));
                if q / 64 == p / 64 {
                    assert(q % 64 == p % 64 ==> q == p);
                }
            }
        }
    }

    /// The highest bucket in use.
    fn top(&self) -> (bucket: Option<usize>)
        requires
            self.wf(),
        ensures
            match bucket {
                Some(p) => {
                    &&& p < 256
                    &&& self.buckets@[p as int]@.len() > 0
                    &&& forall|q: int| p < q < 256 ==> (#[trigger] self.buckets@[q])@.len() == 0
                },
                None => forall|q: int| 0 <= q < 256 ==> (#[trigger] self.buckets@[q])@.len() == 0,
            },
    {
        let mut w: usize = 4;
        while w > 0
            invariant
                w <= 4,
                self.wf(),
                forall|q: int| w * 64 <= q < 256 ==> (#[trigger] self.buckets@[q])@.len() == 0,
            decreases w,
        {
            w = w - 1;
            let word: u64 = self.bitmap[w];
            if word != 0 {
                let zeros: u32 = word.leading_zeros();
                proof {
                    vstd::std_specs::bits::axiom_u64_leading_zeros(word);
                }
                let bit: u64 = 63 - zeros as u64;
                let p: usize = w * 64 + bit as usize;
                proof {
                    let found = (word >> bit) & 1u64;
                    assert(found == 0 || found == 1) by (bit_vector)
                        requires
                            found == (word >> bit) & 1u64,
                    ;
                    assert(marked(self.bitmap@, p as int));
                    assert forall|q: int| p < q < 256 implies (#[trigger] self.buckets@[q])@.len()
                        == 0 by {
                        if q < (w + 1) * 64 {
                            let j = (q % 64) as u64;
                            assert((word >> j) & 1u64 == 0u64);
                            assert(!marked(self.bitmap@, q));
                        }
                    }
                }
                return Some(p);
            }
            proof {
                assert forall|q: int| w * 64 <= q < 256 implies (#[trigger] self.buckets@[q])@.len()
                    == 0 by {
                    if q < (w + 1) * 64 {
                        let b = (q % 64) as u64;
                        assert((0u64 >> b) & 1u64 == 0u64) by (bit_vector);
                        assert(!marked(self.bitmap@, q));
                    }
                }
            }
        }
        None
    }

    /// The task at the head, which `pop` would take.
    pub fn peek(&self) -> (task: Option<TaskRef>)
        requires
            self.wf(),
        ensures
            match task {
                Some(t) => self@.len() > 0 && t == self@[0],
                None => self@.len() == 0,
            },
    {
        match self.top() {
            Some(p) => {
                proof {
                    lemma_drained_head(self.buckets@, p as int, 256);
                }
                Some(self.buckets[p][0])
            },
            None => {
                proof {
                    lemma_drained_empty(self.buckets@, 256);
                }
                None
            },
        }
    }

    /// Takes the task at the head: of the highest priority, and among those the
    /// one that was pushed first.
    pub fn pop(&mut self) -> (task: Option<TaskRef>)
        requires
            old(self).wf(),
        ensures
            final(self).wf(),
            match task {
                Some(t) => {
                    &&& old(self)@.len() > 0
                    &&& t == old(self)@[0]
                    &&& final(self)@ == old(self)@.skip(1)
                },
                None => old(self)@.len() == 0 && final(self)@ == old(self)@,
            },
    {
        let p: usize = match self.top() {
            Some(p) => p,
            None => {
                proof {
                    lemma_drained_empty(self.buckets@, 256);
                }
                return None;
            },
        };
        let w: usize = p / 64;
        let bit: u64 = (p % 64) as u64;
        let word: u64 = self.bitmap[w];
        let ghost before = self.buckets@;
        let ghost bits = self.bitmap@;
        let task = self.buckets[p].pop_front();
        if self.buckets[p].len() == 0 {
            self.bitmap[w] = word & !(1u64 << bit);
        }
        proof {
            lemma_drained_pop(before, self.buckets@, p as int, 256);
        }
        self.len = self.len - 1;
        proof {
            assert forall|q: int| 0 <= q < 256 implies (marked(self.bitmap@, q) <==> (#[trigger]
            self.buckets@[q])@.len() > 0) by {
                lemma_clear_bit(word, bit, (q % 64) as u64);
                assert(before[q]@.len() > 0 <==> marked(bits, q));
                if q / 64 == w as int {
                    assert(q % 64 == bit ==> q == p);
                }
            }
        }
        task
    }

    pub fn len(&self) -> (len: usize)
        requires
            self.wf(),
        ensures
            len == self@.len(),
    {
        self.len
    }

    pub fn is_empty(&self) -> (empty: bool)
        requires
            self.wf(),
        ensures
            empty == (self@.len() == 0),
    {
        self.len == 0
    }

    /// Drops every task.
    pub fn clear(&mut self)
        requires
            old(self).wf(),
        ensures
            final(self).wf(),
            final(self)@ == Seq::<TaskRef>::empty(),
    {
        let mut i: usize = 0;
        while i < NUM_PRIORITIES
            invariant
                i <= NUM_PRIORITIES,
                self.buckets@.len() == 256,
                forall|p: int|
                    0 <= p < i ==> #[trigger] self.buckets@[p]@ == Seq::<TaskRef>::empty(),
            decreases NUM_PRIORITIES - i,
        {
            self.buckets[i].clear();
            i = i + 1;
        }
        self.bitmap = [0u64; 4];
        self.len = 0;
        proof {
            lemma_drained_empty(self.buckets@, 256);
            assert forall|p: int| 0 <= p < 256 implies !marked(self.bitmap@, p) by {
                let b = (p % 64) as u64;
                assert((0u64 >> b) & 1u64 == 0u64) by (bit_vector);
            }
        }
    }
}

impl Default for PriorityBucketQueue {
    fn default() -> (queue: Self)
        ensures
            queue.wf(),
            queue@ == Seq::<TaskRef>::empty(),
    {
        PriorityBucketQueue::new()
    }
}

proof fn lemma_set_bit(word: u64, bit: u64, other: u64)
    requires
        bit < 64,
        other < 64,
    ensures
        ((word | (1u64 << bit)) >> other) & 1u64 == if bit == other {
            1u64
        } else {
            (word >> other) & 1u64
        },
{
    assert(bit < 64 && other < 64 ==> ((word | (1u64 << bit)) >> other) & 1u64 == if bit == other {
        1u64
    } else {
        (word >> other) & 1u64
    }) by (bit_vector);
}

proof fn lemma_clear_bit(word: u64, bit: u64, other: u64)
    requires
        bit < 64,
        other < 64,
    ensures
        ((word & !(1u64 << bit)) >> other) & 1u64 == if bit == other {
            0u64
        } else {
            (word >> other) & 1u64
        },
{
    assert(bit < 64 && other < 64 ==> ((word & !(1u64 << bit)) >> other) & 1u64 == if bit == other {
        0u64
    } else {
        (word >> other) & 1u64
    }) by (bit_vector);
}

proof fn lemma_drained_empty(buckets: Seq<VecDeque<TaskRef>>, n: nat)
    requires
        n <= buckets.len(),
        forall|p: int| 0 <= p < n ==> (#[trigger] buckets[p])@.len() == 0,
    ensures
        drained(buckets, n) == Seq::<TaskRef>::empty(),
    decreases n,
{
    if n > 0 {
        lemma_drained_empty(buckets, (n - 1) as nat);
        assert(buckets[n - 1]@.len() == 0);
        assert(drained(buckets, n) =~= Seq::<TaskRef>::empty());
    }
}

/// Buckets that agree below `n` drain to the same tasks.
proof fn lemma_drained_same(a: Seq<VecDeque<TaskRef>>, b: Seq<VecDeque<TaskRef>>, n: nat)
    requires
        n <= a.len(),
        a.len() == b.len(),
        forall|p: int| 0 <= p < n ==> #[trigger] a[p]@ == b[p]@,
    ensures
        drained(a, n) == drained(b, n),
    decreases n,
{
    if n > 0 {
        lemma_drained_same(a, b, (n - 1) as nat);
        assert(a[n - 1]@ == b[n - 1]@);
    }
}

/// A task below `n` has a priority below `n`.
proof fn lemma_drained_below(buckets: Seq<VecDeque<TaskRef>>, n: nat)
    requires
        n <= buckets.len(),
        sorted_in(buckets),
    ensures
        forall|i: int|
            0 <= i < drained(buckets, n).len() ==> (#[trigger] drained(buckets, n)[i]).priority
                < n,
    decreases n,
{
    if n > 0 {
        lemma_drained_below(buckets, (n - 1) as nat);
        let head = buckets[n - 1]@;
        let tail = drained(buckets, (n - 1) as nat);
        assert forall|i: int| 0 <= i < drained(buckets, n).len() implies (#[trigger] drained(
            buckets,
            n,
        )[i]).priority < n by {
            if i < head.len() {
                assert(head[i].priority == n - 1);
            } else {
                assert(drained(buckets, n)[i] == tail[i - head.len()]);
            }
        }
    }
}

/// The number of tasks in the buckets from `from` up to `n`.
spec fn population(buckets: Seq<VecDeque<TaskRef>>, from: int, n: nat) -> nat
    decreases n,
{
    if n <= from || n == 0 {
        0
    } else {
        buckets[n - 1]@.len() + population(buckets, from, (n - 1) as nat)
    }
}

/// The rank of a priority counts the tasks of the buckets from it on.
proof fn lemma_rank(buckets: Seq<VecDeque<TaskRef>>, n: nat, priority: u8)
    requires
        n <= buckets.len(),
        sorted_in(buckets),
    ensures
        rank(drained(buckets, n), priority) == population(buckets, priority as int, n),
    decreases n,
{
    if n == 0 {
    } else if n <= priority {
        lemma_drained_below(buckets, n);
        let all = drained(buckets, n);
        if all.len() > 0 {
            assert(all[0].priority < n);
        }
    } else {
        lemma_rank(buckets, (n - 1) as nat, priority);
        let head = buckets[n - 1]@;
        assert forall|i: int| 0 <= i < head.len() implies (#[trigger] head[i]).priority
            >= priority by {
            assert(buckets[n - 1]@[i].priority == n - 1);
        }
        lemma_rank_prefix(head, drained(buckets, (n - 1) as nat), priority);
    }
}

/// Tasks of a priority that is high enough all count toward the rank.
proof fn lemma_rank_prefix(head: Seq<TaskRef>, tail: Seq<TaskRef>, priority: u8)
    requires
        forall|i: int| 0 <= i < head.len() ==> (#[trigger] head[i]).priority >= priority,
    ensures
        rank(head + tail, priority) == head.len() + rank(tail, priority),
    decreases head.len(),
{
    if head.len() == 0 {
        assert(head + tail =~= tail);
    } else {
        let rest = head.skip(1);
        assert((head + tail).skip(1) =~= rest + tail);
        assert((head + tail)[0] == head[0]);
        assert forall|i: int| 0 <= i < rest.len() implies (#[trigger] rest[i]).priority
            >= priority by {
            assert(rest[i] == head[i + 1]);
        }
        lemma_rank_prefix(rest, tail, priority);
    }
}

/// Pushing to a bucket inserts the task behind the buckets from its own on.
proof fn lemma_drained_push(
    before: Seq<VecDeque<TaskRef>>,
    after: Seq<VecDeque<TaskRef>>,
    task: TaskRef,
    n: nat,
)
    requires
        before.len() == 256,
        after.len() == 256,
        n <= 256,
        after[task.priority as int]@ == before[task.priority as int]@.push(task),
        forall|p: int| 0 <= p < 256 && p != task.priority ==> #[trigger] after[p]@ == before[p]@,
    ensures
        n <= task.priority ==> drained(after, n) == drained(before, n),
        n > task.priority ==> population(before, task.priority as int, n) <= drained(
            before,
            n,
        ).len(),
        n > task.priority ==> drained(after, n) == drained(before, n).insert(
            population(before, task.priority as int, n) as int,
            task,
        ),
    decreases n,
{
    if n > 0 {
        lemma_drained_push(before, after, task, (n - 1) as nat);
        let k = task.priority as int;
        let tail = drained(before, (n - 1) as nat);
        if n - 1 == k {
            assert(population(before, k, (n - 1) as nat) == 0);
            assert(population(before, k, n) == before[k]@.len());
            assert(drained(after, n) =~= drained(before, n).insert(
                before[k]@.len() as int,
                task,
            ));
        } else if n - 1 > k {
            let at = population(before, k, (n - 1) as nat) as int;
            assert(after[n - 1]@ == before[n - 1]@);
            assert(drained(after, n) =~= drained(before, n).insert(
                before[n - 1]@.len() + at,
                task,
            ));
        } else {
            assert(after[n - 1]@ == before[n - 1]@);
        }
    }
}

/// The first task is the first of the highest bucket in use.
proof fn lemma_drained_head(buckets: Seq<VecDeque<TaskRef>>, p: int, n: nat)
    requires
        buckets.len() == 256,
        0 <= p < n <= 256,
        buckets[p]@.len() > 0,
        forall|q: int| p < q < 256 ==> (#[trigger] buckets[q])@.len() == 0,
    ensures
        drained(buckets, n).len() > 0,
        drained(buckets, n)[0] == buckets[p]@[0],
    decreases n,
{
    if n - 1 > p {
        lemma_drained_head(buckets, p, (n - 1) as nat);
        assert(buckets[n - 1]@.len() == 0);
        assert(drained(buckets, n) =~= drained(buckets, (n - 1) as nat));
    }
}

/// Popping from the highest bucket in use removes the first task.
proof fn lemma_drained_pop(
    before: Seq<VecDeque<TaskRef>>,
    after: Seq<VecDeque<TaskRef>>,
    p: int,
    n: nat,
)
    requires
        before.len() == 256,
        after.len() == 256,
        0 <= p < n <= 256,
        before[p]@.len() > 0,
        after[p]@ == before[p]@.subrange(1, before[p]@.len() as int),
        forall|q: int| 0 <= q < 256 && q != p ==> #[trigger] after[q]@ == before[q]@,
        forall|q: int| p < q < 256 ==> (#[trigger] before[q])@.len() == 0,
    ensures
        drained(before, n).len() > 0,
        drained(before, n)[0] == before[p]@[0],
        drained(after, n) == drained(before, n).skip(1),
    decreases n,
{
    if n - 1 == p {
        lemma_drained_same(before, after, p as nat);
        assert(drained(after, n) =~= drained(before, n).skip(1));
    } else {
        lemma_drained_pop(before, after, p, (n - 1) as nat);
        assert(before[n - 1]@.len() == 0);
        assert(after[n - 1]@ == before[n - 1]@);
        assert(drained(before, n) =~= drained(before, (n - 1) as nat));
        assert(drained(after, n) =~= drained(after, (n - 1) as nat));
    }
}

/// A queue hands out its tasks by priority: no task is popped while one of a
/// higher priority waits.
pub proof fn law_pops_by_priority(queue: PriorityBucketQueue)
    requires
        queue.wf(),
    ensures
        by_priority(queue@),
{
    lemma_drained_sorted(queue.buckets@, 256);
}

proof fn lemma_drained_sorted(buckets: Seq<VecDeque<TaskRef>>, n: nat)
    requires
        n <= buckets.len(),
        sorted_in(buckets),
    ensures
        by_priority(drained(buckets, n)),
    decreases n,
{
    if n > 0 {
        lemma_drained_sorted(buckets, (n - 1) as nat);
        lemma_drained_below(buckets, (n - 1) as nat);
        let head = buckets[n - 1]@;
        let tail = drained(buckets, (n - 1) as nat);
        let all = drained(buckets, n);
        assert forall|i: int, j: int|
            #![trigger all[i], all[j]]
            0 <= i <= j < all.len() implies all[i].priority >= all[j].priority by {
            if i < head.len() {
                assert(head[i].priority == n - 1);
            } else {
                assert(all[i] == tail[i - head.len()]);
            }
            if j < head.len() {
                assert(head[j].priority == n - 1);
            } else {
                assert(all[j] == tail[j - head.len()]);
            }
        }
    }
}

/// Within a priority the queue is first in, first out: a new task stands behind
/// every task of its own priority that is already there, and the tasks already
/// there keep their order.
pub proof fn law_fifo_within_priority(tasks: Seq<TaskRef>, task: TaskRef)
    requires
        by_priority(tasks),
    ensures
        by_priority(enqueued(tasks, task)),
        rank(tasks, task.priority) <= tasks.len(),
        enqueued(tasks, task)[rank(tasks, task.priority) as int] == task,
        enqueued(tasks, task).remove(rank(tasks, task.priority) as int) == tasks,
        forall|i: int|
            0 <= i < tasks.len() ==> ((#[trigger] tasks[i]).priority >= task.priority <==> i < rank(
                tasks,
                task.priority,
            )),
    decreases tasks.len(),
{
    lemma_rank_splits(tasks, task.priority);
    let k = rank(tasks, task.priority) as int;
    let after = enqueued(tasks, task);
    assert(after.remove(k) =~= tasks);
    assert forall|i: int, j: int|
        #![trigger after[i], after[j]]
        0 <= i <= j < after.len() implies after[i].priority >= after[j].priority by {
        let a = if i < k { i } else { i - 1 };
        let b = if j < k { j } else { j - 1 };
        if i != k {
            assert(after[i] == tasks[a]);
        }
        if j != k {
            assert(after[j] == tasks[b]);
        }
    }
}

proof fn lemma_rank_splits(tasks: Seq<TaskRef>, priority: u8)
    requires
        by_priority(tasks),
    ensures
        rank(tasks, priority) <= tasks.len(),
        forall|i: int|
            0 <= i < tasks.len() ==> ((#[trigger] tasks[i]).priority >= priority <==> i < rank(
                tasks,
                priority,
            )),
    decreases tasks.len(),
{
    if tasks.len() == 0 {
    } else if tasks[0].priority < priority {
    } else {
        let rest = tasks.skip(1);
        assert forall|i: int, j: int|
            #![trigger rest[i], rest[j]]
            0 <= i <= j < rest.len() implies rest[i].priority >= rest[j].priority by {
            assert(rest[i] == tasks[i + 1] && rest[j] == tasks[j + 1]);
        }
        lemma_rank_splits(rest, priority);
        assert forall|i: int| 0 <= i < tasks.len() implies ((#[trigger] tasks[i]).priority
            >= priority <==> i < rank(tasks, priority)) by {
            if i > 0 {
                assert(tasks[i] == rest[i - 1]);
            }
        }
    }
}

/// A task joins the others behind the last of the first ones that have its own or a
/// higher priority, and all others stay in their order.
pub proof fn law_a_task_joins_behind_its_equals(tasks: Seq<TaskRef>, task: TaskRef)
    ensures
        exists|k: int|
            0 <= k <= tasks.len() && enqueued(tasks, task) == #[trigger] tasks.insert(k, task) && (
            forall|i: int| 0 <= i < k ==> (#[trigger] tasks[i]).priority >= task.priority) && (k
                < tasks.len() ==> tasks[k].priority < task.priority),
{
    let k = rank(tasks, task.priority) as int;
    lemma_enqueued(tasks, task);
    lemma_rank_is_first(tasks, task.priority);
    assert(enqueued(tasks, task) == tasks.insert(k, task));
}

/// The first tasks have the priority, and the next has not.
proof fn lemma_rank_is_first(tasks: Seq<TaskRef>, priority: u8)
    ensures
        forall|i: int|
            0 <= i < rank(tasks, priority) ==> (#[trigger] tasks[i]).priority >= priority,
        rank(tasks, priority) < tasks.len() ==> tasks[rank(tasks, priority) as int].priority
            < priority,
        rank(tasks, priority) <= tasks.len(),
    decreases tasks.len(),
{
    if tasks.len() > 0 && tasks[0].priority >= priority {
        let rest = tasks.skip(1);
        lemma_rank_is_first(rest, priority);
        assert forall|i: int| 0 <= i < rank(tasks, priority) implies (
        #[trigger] tasks[i]).priority >= priority by {
            if i > 0 {
                assert(tasks[i] == rest[i - 1]);
            }
        }
    }
}

} // verus!
