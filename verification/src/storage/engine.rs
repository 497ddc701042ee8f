//! The lease engine of a queue.
//!
//! Every change to a task is first appended to the log and then made in memory.
//! The operations come in pairs: the first gives the record that is to be
//! appended, or the error that the operation ends with; the second is told how
//! the appending went and makes the change. Both are to be called under the lock
//! of the queue.

use super::ids::{lists, sorted_keys, strictly_ascending};
use super::payload_cache::{CacheView, PayloadCache, DEFAULT_PAYLOAD_CACHE_CAPACITY};
use super::priority_queue::{enqueued, PriorityBucketQueue};
use super::record::{OpType, Record, RecordView};
use super::segment::ReadError;
use super::task::{carries_payload, encode_lease, extract_task_payload, has_payload, lease_bytes, task_payload};
use super::wal::{AppendOutcome, Wal, WalView};
use std::collections::HashMap;
use std::sync::Arc;
use vstd::prelude::*;
use vstd::std_specs::cmp::{PartialEqSpec, PartialOrdSpec};

pub use super::group_commit::{GroupCommit, GroupCommitConfig, GroupCommitOptions, SyncMode};
pub use super::task::LeaseInfo;

verus! {

/// A task that waits in the ready queue.
#[derive(Debug, Clone, Copy)]
pub struct TaskRef {
    pub id: u64,
    pub priority: u8,
    pub retries: u8,
}

impl PartialEq for TaskRef {
    fn eq(&self, other: &Self) -> (same: bool) {
        self.id == other.id && self.priority == other.priority
    }
}

impl Eq for TaskRef {

}

impl vstd::std_specs::cmp::PartialEqSpecImpl for TaskRef {
    open spec fn obeys_eq_spec() -> bool {
        true
    }

    open spec fn eq_spec(&self, other: &Self) -> bool {
        self.id == other.id && self.priority == other.priority
    }
}

impl PartialOrd for TaskRef {
    fn partial_cmp(&self, other: &Self) -> (order: Option<core::cmp::Ordering>) {
        if self.priority < other.priority {
            Some(core::cmp::Ordering::Less)
        } else if self.priority > other.priority {
            Some(core::cmp::Ordering::Greater)
        } else if other.id < self.id {
            Some(core::cmp::Ordering::Less)
        } else if other.id > self.id {
            Some(core::cmp::Ordering::Greater)
        } else {
            Some(core::cmp::Ordering::Equal)
        }
    }
}

impl vstd::std_specs::cmp::PartialOrdSpecImpl for TaskRef {
    open spec fn obeys_partial_cmp_spec() -> bool {
        true
    }

    /// A task is greater than another when it is to be handed out before it: by
    /// priority first, then by the lower id.
    open spec fn partial_cmp_spec(&self, other: &Self) -> Option<core::cmp::Ordering> {
        if self.priority < other.priority {
            Some(core::cmp::Ordering::Less)
        } else if self.priority > other.priority {
            Some(core::cmp::Ordering::Greater)
        } else if other.id < self.id {
            Some(core::cmp::Ordering::Less)
        } else if other.id > self.id {
            Some(core::cmp::Ordering::Greater)
        } else {
            Some(core::cmp::Ordering::Equal)
        }
    }
}

/// A task that has failed this often is given up.
pub const MAX_RETRIES: u8 = 3;

/// The kinds of errors that a caller tells apart.
#[derive(Debug, Clone, Copy, PartialEq, Eq, Structural)]
pub enum ErrorKind {
    NotFound,
    PermissionDenied,
    InvalidData,
    /// The log could not be written.
    Io,
}

/// Why an operation of the engine failed.
#[derive(Debug, Clone, Copy, PartialEq, Eq, Structural)]
pub enum EngineError {
    /// No consumer holds the task.
    NotLeased,
    /// Another consumer holds the task.
    LeasedToAnother,
    /// It is not known where in the log the payload of the task is.
    MissingDataOffset,
    /// There is no record where the payload of the task should be.
    RecordNotFound,
    /// The record could not be appended to the log.
    AppendFailed,
}

impl EngineError {
    pub open spec fn kind_spec(self) -> ErrorKind {
        match self {
            EngineError::NotLeased => ErrorKind::NotFound,
            EngineError::LeasedToAnother => ErrorKind::PermissionDenied,
            EngineError::MissingDataOffset => ErrorKind::NotFound,
            EngineError::RecordNotFound => ErrorKind::InvalidData,
            EngineError::AppendFailed => ErrorKind::Io,
        }
    }

    pub open spec fn message_spec(self) -> Seq<char> {
        match self {
            EngineError::NotLeased => "Task not found or not leased"@,
            EngineError::LeasedToAnother => "Task leased to another consumer"@,
            EngineError::MissingDataOffset => "Missing data offset"@,
            EngineError::RecordNotFound => "Record not found at offset"@,
            EngineError::AppendFailed => "Append to the log failed"@,
        }
    }

    pub fn kind(&self) -> (kind: ErrorKind)
        ensures
            kind == self.kind_spec(),
    {
        match self {
            EngineError::NotLeased => ErrorKind::NotFound,
            EngineError::LeasedToAnother => ErrorKind::PermissionDenied,
            EngineError::MissingDataOffset => ErrorKind::NotFound,
            EngineError::RecordNotFound => ErrorKind::InvalidData,
            EngineError::AppendFailed => ErrorKind::Io,
        }
    }

    pub fn message(&self) -> (message: &'static str)
        ensures
            message@ == self.message_spec(),
    {
        match self {
            EngineError::NotLeased => "Task not found or not leased",
            EngineError::LeasedToAnother => "Task leased to another consumer",
            EngineError::MissingDataOffset => "Missing data offset",
            EngineError::RecordNotFound => "Record not found at offset",
            EngineError::AppendFailed => "Append to the log failed",
        }
    }
}

impl ReadError {
    pub open spec fn message_spec(self) -> Seq<char> {
        match self {
            ReadError::CorruptedMagicByte => "Corrupted magic byte"@,
            ReadError::CorruptedPayloadLength => "Corrupted payload length"@,
        }
    }

    /// A place that cannot be read holds invalid data.
    pub fn kind(&self) -> (kind: ErrorKind)
        ensures
            kind == ErrorKind::InvalidData,
    {
        ErrorKind::InvalidData
    }

    pub fn message(&self) -> (message: &'static str)
        ensures
            message@ == self.message_spec(),
    {
        match self {
            ReadError::CorruptedMagicByte => "Corrupted magic byte",
            ReadError::CorruptedPayloadLength => "Corrupted payload length",
        }
    }
}

/// Where the payload of a task that was handed out is.
#[derive(Debug)]
pub enum PayloadSource {
    /// In memory.
    Cached(Arc<Vec<u8>>),
    /// In the log, at this place.
    Stored { segment: u64, offset: u64 },
}

/// A task that was handed out, before its payload has been fetched.
#[derive(Debug)]
pub struct PoppedTask {
    pub id: u64,
    pub priority: u8,
    pub retries: u8,
    pub source: PayloadSource,
}

/// The state of a queue.
#[derive(Debug)]
pub struct EngineState {
    pub wal: Wal,
    /// The id of the next task.
    pub next_id: u64,
    /// Where the latest record of each task is: segment and offset.
    pub index: HashMap<u64, (u64, u64)>,
    /// Where the record with the payload of each running task is.
    pub data_index: HashMap<u64, (u64, u64)>,
    /// The tasks that wait to be handed out.
    pub ready_queue: PriorityBucketQueue,
    /// The tasks that a consumer holds.
    pub leased: HashMap<u64, LeaseInfo>,
    pub payload_cache: PayloadCache,
}

/// The value of an [`EngineState`].
#[verifier::ext_equal]
pub struct EngineView {
    pub wal: WalView,
    pub next_id: u64,
    pub index: Map<u64, (u64, u64)>,
    pub data_index: Map<u64, (u64, u64)>,
    pub ready: Seq<TaskRef>,
    pub leased: Map<u64, LeaseInfo>,
    pub cache: CacheView,
}

impl View for EngineState {
    type V = EngineView;

    open spec fn view(&self) -> EngineView {
        EngineView {
            wal: self.wal@,
            next_id: self.next_id,
            index: self.index@,
            data_index: self.data_index@,
            ready: self.ready_queue@,
            leased: self.leased@,
            cache: self.payload_cache@,
        }
    }
}

/// The record of a new task.
pub open spec fn created(id: u64, priority: u8, payload: Seq<u8>) -> RecordView {
    RecordView { id, op_type: OpType::Created, priority, payload }
}

/// The record of a lease.
pub open spec fn leasing(id: u64, lease: LeaseInfo) -> RecordView {
    RecordView {
        id,
        op_type: OpType::Leased,
        priority: lease.priority,
        payload: lease_bytes(lease),
    }
}

/// The record of a task that was completed.
pub open spec fn acking(id: u64, priority: u8) -> RecordView {
    RecordView { id, op_type: OpType::Acked, priority, payload: Seq::empty() }
}

/// The number of retries after one more failure.
pub open spec fn retries_after(retries: u8) -> u8 {
    if retries == 255 {
        255
    } else {
        (retries + 1) as u8
    }
}

/// The record of a failure. A task that has failed too often is given up.
pub open spec fn failing(id: u64, lease: LeaseInfo, failure: OpType) -> RecordView {
    let retries = retries_after(lease.retries);
    RecordView {
        id,
        op_type: if retries >= MAX_RETRIES {
            OpType::DeadLettered
        } else {
            failure
        },
        priority: lease.priority,
        payload: seq![retries],
    }
}

/// The lease of a task that is handed out.
pub open spec fn lease_for(task: TaskRef, consumer_id: u32, expire_timestamp: u64) -> LeaseInfo {
    LeaseInfo { consumer_id, expire_timestamp, retries: task.retries, priority: task.priority }
}

/// The record that hands out a payload that was found in the log.
pub open spec fn delivered(r: RecordView) -> RecordView {
    if carries_payload(r) {
        created(r.id, r.priority, task_payload(r))
    } else {
        r
    }
}

impl EngineView {
    /// The log after an attempt to append `record`.
    pub open spec fn logged(self, record: RecordView, outcome: AppendOutcome) -> EngineView {
        EngineView { wal: self.wal.after(record.encoded().len(), outcome), ..self }
    }

    /// The state after an attempt to push a task. The id is used up in any case.
    pub open spec fn pushed(self, payload: Seq<u8>, priority: u8, outcome: AppendOutcome) -> EngineView {
        let id = self.next_id;
        let tried = EngineView { next_id: (id + 1) as u64, ..self }.logged(
            created(id, priority, payload),
            outcome,
        );
        let place = self.wal.next_place();
        if outcome == AppendOutcome::Written {
            EngineView {
                index: self.index.insert(id, place),
                data_index: self.data_index.insert(id, place),
                ready: enqueued(self.ready, TaskRef { id, priority, retries: 0 }),
                cache: self.cache.inserted(id, payload),
                ..tried
            }
        } else {
            tried
        }
    }

    /// The state after an attempt to hand out the task at the head of the queue.
    /// The task leaves the queue in any case. Whether its payload is cached is
    /// looked up only where its place in the log is known.
    pub open spec fn handed_out(
        self,
        consumer_id: u32,
        expire_timestamp: u64,
        outcome: AppendOutcome,
    ) -> EngineView {
        let task = self.ready[0];
        let lease = lease_for(task, consumer_id, expire_timestamp);
        let tried = EngineView { ready: self.ready.skip(1), ..self }.logged(
            leasing(task.id, lease),
            outcome,
        );
        if outcome == AppendOutcome::Written {
            EngineView {
                index: self.index.insert(task.id, self.wal.next_place()),
                leased: self.leased.insert(task.id, lease),
                cache: if self.data_index.contains_key(task.id) {
                    self.cache.looked_up(task.id)
                } else {
                    self.cache
                },
                ..tried
            }
        } else {
            tried
        }
    }

    /// The state after an attempt to acknowledge a task that is held.
    pub open spec fn acknowledged(self, id: u64, outcome: AppendOutcome) -> EngineView {
        let tried = self.logged(acking(id, self.leased[id].priority), outcome);
        if outcome == AppendOutcome::Written {
            EngineView {
                index: self.index.insert(id, self.wal.next_place()),
                leased: self.leased.remove(id),
                data_index: self.data_index.remove(id),
                cache: self.cache.removed(id),
                ..tried
            }
        } else {
            tried
        }
    }

    /// The state after an attempt to take note that a task that is held failed:
    /// it returns to the queue, or is given up.
    pub open spec fn failed(self, id: u64, failure: OpType, outcome: AppendOutcome) -> EngineView {
        let record = failing(id, self.leased[id], failure);
        let tried = self.logged(record, outcome);
        if outcome == AppendOutcome::Written {
            let freed = EngineView {
                index: self.index.insert(id, self.wal.next_place()),
                leased: self.leased.remove(id),
                ..tried
            };
            if record.op_type == OpType::DeadLettered {
                EngineView {
                    data_index: self.data_index.remove(id),
                    cache: self.cache.removed(id),
                    ..freed
                }
            } else {
                EngineView {
                    ready: enqueued(
                        self.ready,
                        TaskRef {
                            id,
                            priority: self.leased[id].priority,
                            retries: retries_after(self.leased[id].retries),
                        },
                    ),
                    ..freed
                }
            }
        } else {
            tried
        }
    }

    /// Whether a consumer may complete or refuse a task, and if not, why.
    pub open spec fn held_by(self, id: u64, consumer_id: u32) -> Result<(), EngineError> {
        if !self.leased.contains_key(id) {
            Err(EngineError::NotLeased)
        } else if self.leased[id].consumer_id != consumer_id {
            Err(EngineError::LeasedToAnother)
        } else {
            Ok(())
        }
    }

    /// Whether the lease of a task has ended.
    pub open spec fn lease_ended(self, id: u64, now: u64) -> bool {
        self.leased.contains_key(id) && now >= self.leased[id].expire_timestamp
    }
}

impl EngineState {
    /// The parts of the state are well formed.
    pub open spec fn wf(&self) -> bool {
        &&& self.ready_queue.wf()
        &&& self.payload_cache.wf()
    }

    /// An empty queue on top of a log.
    pub fn new(wal: Wal) -> (state: Self)
        ensures
            state.wf(),
            state@ == empty_engine(wal@, DEFAULT_PAYLOAD_CACHE_CAPACITY),
            state@.cache.capacity == 10_000,
    {
        EngineState::new_with_cache_capacity(wal, DEFAULT_PAYLOAD_CACHE_CAPACITY)
    }

    pub fn new_with_cache_capacity(wal: Wal, cache_capacity: usize) -> (state: Self)
        ensures
            state.wf(),
            state@ == empty_engine(wal@, cache_capacity),
    {
        EngineState {
            wal,
            next_id: 1,
            index: HashMap::new(),
            data_index: HashMap::new(),
            ready_queue: PriorityBucketQueue::new(),
            leased: HashMap::new(),
            payload_cache: PayloadCache::new(cache_capacity),
        }
    }

    /// The record that pushing a task appends.
    pub fn push_record(&self, payload: &Vec<u8>, priority: u8) -> (record: Record)
        ensures
            record@ == created(self@.next_id, priority, payload@),
    {
        let copy = payload.clone();
        assert(copy@ =~= payload@);
        Record::new(self.next_id, OpType::Created, priority, copy)
    }

    /// Pushes a task.
    pub fn push(&mut self, payload: Vec<u8>, priority: u8, outcome: AppendOutcome) -> (result:
        Result<u64, EngineError>)
        requires
            old(self).wf(),
            old(self)@.next_id < u64::MAX,
            old(self)@.wal.has_room(
                created(old(self)@.next_id, priority, payload@).encoded().len(),
            ),
            old(self)@.ready.len() < usize::MAX,
            old(self)@.cache.evictions < u64::MAX,
        ensures
            final(self).wf(),
            final(self)@ == old(self)@.pushed(payload@, priority, outcome),
            result == (if outcome == AppendOutcome::Written {
                Ok(old(self)@.next_id)
            } else {
                Err(EngineError::AppendFailed)
            }),
    {
        let record = self.push_record(&payload, priority);
        let id: u64 = self.next_id;
        self.next_id = id + 1;
        match self.wal.append(&record, outcome) {
            Some(place) => {
                self.index.insert(id, place);
                self.data_index.insert(id, place);
                self.payload_cache.insert(id, Arc::new(payload));
                self.ready_queue.push(TaskRef { id, priority, retries: 0 });
                Ok(id)
            },
            None => Err(EngineError::AppendFailed),
        }
    }

    /// The record that handing out the next task appends, if one waits.
    pub fn lease_record(&self, consumer_id: u32, lease_ttl_secs: u64, now: u64) -> (record: Option<
        Record,
    >)
        requires
            self.wf(),
            now + lease_ttl_secs <= u64::MAX,
        ensures
            match record {
                Some(r) => self@.ready.len() > 0 && r@ == leasing(
                    self@.ready[0].id,
                    lease_for(self@.ready[0], consumer_id, (now + lease_ttl_secs) as u64),
                ),
                None => self@.ready.len() == 0,
            },
    {
        match self.ready_queue.peek() {
            Some(task) => {
                let lease = LeaseInfo {
                    consumer_id,
                    expire_timestamp: now + lease_ttl_secs,
                    retries: task.retries,
                    priority: task.priority,
                };
                Some(Record::new(task.id, OpType::Leased, task.priority, encode_lease(&lease)))
            },
            None => None,
        }
    }

    /// Hands the next task out to a consumer, until `lease_ttl_secs` from `now`.
    pub fn pop_and_lease(
        &mut self,
        consumer_id: u32,
        lease_ttl_secs: u64,
        now: u64,
        outcome: AppendOutcome,
    ) -> (result: Result<Option<PoppedTask>, EngineError>)
        requires
            old(self).wf(),
            now + lease_ttl_secs <= u64::MAX,
            old(self)@.ready.len() > 0 ==> old(self)@.wal.has_room(
                leasing(
                    old(self)@.ready[0].id,
                    lease_for(
                        old(self)@.ready[0],
                        consumer_id,
                        (now + lease_ttl_secs) as u64,
                    ),
                ).encoded().len(),
            ),
            old(self)@.cache.hits < u64::MAX,
            old(self)@.cache.misses < u64::MAX,
        ensures
            final(self).wf(),
            final(self)@ == (if old(self)@.ready.len() == 0 {
                old(self)@
            } else {
                old(self)@.handed_out(consumer_id, (now + lease_ttl_secs) as u64, outcome)
            }),
            match result {
                Ok(None) => old(self)@.ready.len() == 0,
                Ok(Some(popped)) => {
                    let task = old(self)@.ready[0];
                    &&& old(self)@.ready.len() > 0
                    &&& outcome == AppendOutcome::Written
                    &&& old(self)@.data_index.contains_key(task.id)
                    &&& popped.id == task.id
                    &&& popped.priority == task.priority
                    &&& popped.retries == task.retries
                    &&& match popped.source {
                        PayloadSource::Cached(payload) => {
                            &&& old(self)@.cache.entries.contains_key(task.id)
                            &&& payload@ == old(self)@.cache.entries[task.id]
                        },
                        PayloadSource::Stored { segment, offset } => {
                            &&& !old(self)@.cache.entries.contains_key(task.id)
                            &&& (segment, offset) == old(self)@.data_index[task.id]
                        },
                    }
                },
                Err(e) => {
                    &&& old(self)@.ready.len() > 0
                    &&& e == if outcome != AppendOutcome::Written {
                        EngineError::AppendFailed
                    } else {
                        EngineError::MissingDataOffset
                    }
                    &&& outcome == AppendOutcome::Written ==> !old(
                        self,
                    )@.data_index.contains_key(old(self)@.ready[0].id)
                },
            },
    {
        let record = match self.lease_record(consumer_id, lease_ttl_secs, now) {
            Some(record) => record,
            None => {
                return Ok(None);
            },
        };
        let task = match self.ready_queue.pop() {
            Some(task) => task,
            None => {
                return Ok(None);
            },
        };
        let place = match self.wal.append(&record, outcome) {
            Some(place) => place,
            None => {
                return Err(EngineError::AppendFailed);
            },
        };
        let lease = LeaseInfo {
            consumer_id,
            expire_timestamp: now + lease_ttl_secs,
            retries: task.retries,
            priority: task.priority,
        };
        self.index.insert(task.id, place);
        self.leased.insert(task.id, lease);
        let (segment, offset) = match self.data_index.get(&task.id) {
            Some(place) => *place,
            None => {
                return Err(EngineError::MissingDataOffset);
            },
        };
        let source = match self.payload_cache.get(task.id) {
            Some(payload) => PayloadSource::Cached(payload),
            None => PayloadSource::Stored { segment, offset },
        };
        Ok(Some(PoppedTask { id: task.id, priority: task.priority, retries: task.retries, source }))
    }

    /// The record that completing a task appends, or why it cannot be completed.
    pub fn ack_record(&self, id: u64, consumer_id: u32) -> (result: Result<Record, EngineError>)
        ensures
            match result {
                Ok(r) => self@.held_by(id, consumer_id) is Ok && r@ == acking(
                    id,
                    self@.leased[id].priority,
                ),
                Err(e) => self@.held_by(id, consumer_id) == Err::<(), EngineError>(e),
            },
    {
        match self.leased.get(&id) {
            Some(lease) => {
                if lease.consumer_id != consumer_id {
                    return Err(EngineError::LeasedToAnother);
                }
                let payload: Vec<u8> = Vec::new();
                Ok(Record::new(id, OpType::Acked, lease.priority, payload))
            },
            None => Err(EngineError::NotLeased),
        }
    }

    /// Completes a task that the consumer holds.
    pub fn ack(&mut self, id: u64, consumer_id: u32, outcome: AppendOutcome) -> (result: Result<
        (),
        EngineError,
    >)
        requires
            old(self).wf(),
            old(self)@.held_by(id, consumer_id) is Ok ==> old(self)@.wal.has_room(
                acking(id, old(self)@.leased[id].priority).encoded().len(),
            ),
        ensures
            final(self).wf(),
            match old(self)@.held_by(id, consumer_id) {
                Ok(_) => {
                    &&& final(self)@ == old(self)@.acknowledged(id, outcome)
                    &&& result == (if outcome == AppendOutcome::Written {
                        Ok::<(), EngineError>(())
                    } else {
                        Err(EngineError::AppendFailed)
                    })
                },
                Err(e) => final(self)@ == old(self)@ && result == Err::<(), EngineError>(e),
            },
    {
        let record = match self.ack_record(id, consumer_id) {
            Ok(record) => record,
            Err(e) => {
                return Err(e);
            },
        };
        match self.wal.append(&record, outcome) {
            Some(place) => {
                self.index.insert(id, place);
                self.leased.remove(&id);
                self.data_index.remove(&id);
                self.payload_cache.remove(id);
                Ok(())
            },
            None => Err(EngineError::AppendFailed),
        }
    }

    /// The record that a failure of a task that is held appends.
    fn failure_record(id: u64, lease: &LeaseInfo, failure: OpType) -> (record: Record)
        ensures
            record@ == failing(id, *lease, failure),
    {
        let retries: u8 = if lease.retries == 255 {
            255
        } else {
            lease.retries + 1
        };
        let op = if retries >= MAX_RETRIES {
            OpType::DeadLettered
        } else {
            failure
        };
        let mut payload: Vec<u8> = Vec::new();
        payload.push(retries);
        assert(payload@ =~= seq![retries]);
        Record::new(id, op, lease.priority, payload)
    }

    /// Takes note that a task that is held failed. Returns whether the task is
    /// back in the queue.
    fn process_task_failure(
        &mut self,
        id: u64,
        lease: LeaseInfo,
        failure: OpType,
        outcome: AppendOutcome,
    ) -> (result: Result<bool, EngineError>)
        requires
            old(self).wf(),
            old(self)@.leased.contains_key(id),
            old(self)@.leased[id] == lease,
            failure != OpType::DeadLettered,
            old(self)@.wal.has_room(failing(id, lease, failure).encoded().len()),
            old(self)@.ready.len() < usize::MAX,
        ensures
            final(self).wf(),
            final(self)@ == old(self)@.failed(id, failure, outcome),
            result == (if outcome == AppendOutcome::Written {
                Ok(retries_after(lease.retries) < MAX_RETRIES)
            } else {
                Err(EngineError::AppendFailed)
            }),
    {
        let record = Self::failure_record(id, &lease, failure);
        let op = record.op_type();
        let place = match self.wal.append(&record, outcome) {
            Some(place) => place,
            None => {
                return Err(EngineError::AppendFailed);
            },
        };
        self.index.insert(id, place);
        self.leased.remove(&id);
        if op == OpType::DeadLettered {
            self.data_index.remove(&id);
            self.payload_cache.remove(id);
            Ok(false)
        } else {
            let retries: u8 = if lease.retries == 255 {
                255
            } else {
                lease.retries + 1
            };
            self.ready_queue.push(TaskRef { id, priority: lease.priority, retries });
            Ok(true)
        }
    }

    /// The record that refusing a task appends, or why it cannot be refused.
    pub fn nack_record(&self, id: u64, consumer_id: u32) -> (result: Result<Record, EngineError>)
        ensures
            match result {
                Ok(r) => self@.held_by(id, consumer_id) is Ok && r@ == failing(
                    id,
                    self@.leased[id],
                    OpType::Nacked,
                ),
                Err(e) => self@.held_by(id, consumer_id) == Err::<(), EngineError>(e),
            },
    {
        match self.leased.get(&id) {
            Some(lease) => {
                if lease.consumer_id != consumer_id {
                    return Err(EngineError::LeasedToAnother);
                }
                Ok(Self::failure_record(id, lease, OpType::Nacked))
            },
            None => Err(EngineError::NotLeased),
        }
    }

    /// Refuses a task that the consumer holds. Returns whether the task is back
    /// in the queue.
    pub fn nack(&mut self, id: u64, consumer_id: u32, outcome: AppendOutcome) -> (result: Result<
        bool,
        EngineError,
    >)
        requires
            old(self).wf(),
            old(self)@.held_by(id, consumer_id) is Ok ==> old(self)@.wal.has_room(
                failing(id, old(self)@.leased[id], OpType::Nacked).encoded().len(),
            ),
            old(self)@.ready.len() < usize::MAX,
        ensures
            final(self).wf(),
            match old(self)@.held_by(id, consumer_id) {
                Ok(_) => {
                    &&& final(self)@ == old(self)@.failed(id, OpType::Nacked, outcome)
                    &&& result == (if outcome == AppendOutcome::Written {
                        Ok(retries_after(old(self)@.leased[id].retries) < MAX_RETRIES)
                    } else {
                        Err(EngineError::AppendFailed)
                    })
                },
                Err(e) => final(self)@ == old(self)@ && result == Err::<bool, EngineError>(e),
            },
    {
        let lease = match self.leased.get(&id) {
            Some(lease) => *lease,
            None => {
                return Err(EngineError::NotLeased);
            },
        };
        if lease.consumer_id != consumer_id {
            return Err(EngineError::LeasedToAnother);
        }
        self.process_task_failure(id, lease, OpType::Nacked, outcome)
    }

    /// The tasks whose lease has ended, by ascending id.
    pub fn expired_tasks(&self, now: u64) -> (ids: Vec<u64>)
        ensures
            strictly_ascending(ids@),
            forall|id: u64| #[trigger] ids@.contains(id) <==> self@.lease_ended(id, now),
    {
        let all = sorted_keys(&self.leased);
        let mut ids: Vec<u64> = Vec::new();
        let mut i: usize = 0;
        while i < all.len()
            invariant
                i <= all@.len(),
                strictly_ascending(all@),
                lists(all@, self.leased@.dom()),
                strictly_ascending(ids@),
                forall|k: int| #![trigger ids@[k]] 0 <= k < ids@.len() && i < all@.len() ==> ids@[k] < all@[i as int],
                forall|id: u64| #[trigger]
                    ids@.contains(id) <==> self@.lease_ended(id, now) && all@.take(
                        i as int,
                    ).contains(id),
            decreases all@.len() - i,
        {
            let id: u64 = all[i];
            assert(all@.contains(id));
            let ghost before = ids@;
            let ghost seen = all@.take(i as int);
            let ghost now_seen = all@.take(i + 1);
            let ended: bool = match self.leased.get(&id) {
                Some(lease) => now >= lease.expire_timestamp,
                None => false,
            };
            if ended {
                ids.push(id);
            }
            proof {
                assert(now_seen =~= seen.push(id));
                assert forall|x: u64| #[trigger]
                    ids@.contains(x) <==> self@.lease_ended(x, now) && now_seen.contains(x) by {
                    assert(before.contains(x) <==> self@.lease_ended(x, now) && seen.contains(x));
                    if ids@.contains(x) {
                        let k = choose|k: int| 0 <= k < ids@.len() && ids@[k] == x;
                        if k < before.len() {
                            assert(before[k] == x);
                            assert(before.contains(x));
                            let j = choose|j: int| 0 <= j < seen.len() && seen[j] == x;
                            assert(now_seen[j] == x);
                        } else {
                            assert(now_seen[i as int] == x);
                        }
                    }
                    if self@.lease_ended(x, now) && now_seen.contains(x) {
                        let j = choose|j: int| 0 <= j < now_seen.len() && now_seen[j] == x;
                        if j < i {
                            assert(seen[j] == x);
                            assert(before.contains(x));
                            let k = choose|k: int| 0 <= k < before.len() && before[k] == x;
                            assert(ids@[k] == x);
                        } else {
                            assert(ids@[ids@.len() - 1] == x);
                        }
                    }
                }
            }
            i = i + 1;
        }
        proof {
            assert(all@.take(i as int) =~= all@);
            assert forall|id: u64| #[trigger]
                ids@.contains(id) <==> self@.lease_ended(id, now) by {
                assert(all@.contains(id) <==> self.leased@.dom().contains(id));
            }
        }
        ids
    }

    /// The record that the end of a lease appends, if it has ended.
    pub fn expiry_record(&self, id: u64, now: u64) -> (record: Option<Record>)
        ensures
            match record {
                Some(r) => self@.lease_ended(id, now) && r@ == failing(
                    id,
                    self@.leased[id],
                    OpType::Expired,
                ),
                None => !self@.lease_ended(id, now),
            },
    {
        match self.leased.get(&id) {
            Some(lease) => {
                if now >= lease.expire_timestamp {
                    Some(Self::failure_record(id, lease, OpType::Expired))
                } else {
                    None
                }
            },
            None => None,
        }
    }

    /// Takes a task back whose lease has ended. A task that was completed or
    /// handed out anew in the meantime is left alone. Returns whether the task
    /// is back in the queue.
    pub fn expire(&mut self, id: u64, now: u64, outcome: AppendOutcome) -> (result: Result<
        bool,
        EngineError,
    >)
        requires
            old(self).wf(),
            old(self)@.lease_ended(id, now) ==> old(self)@.wal.has_room(
                failing(id, old(self)@.leased[id], OpType::Expired).encoded().len(),
            ),
            old(self)@.ready.len() < usize::MAX,
        ensures
            final(self).wf(),
            if old(self)@.lease_ended(id, now) {
                &&& final(self)@ == old(self)@.failed(id, OpType::Expired, outcome)
                &&& result == (if outcome == AppendOutcome::Written {
                    Ok(retries_after(old(self)@.leased[id].retries) < MAX_RETRIES)
                } else {
                    Err(EngineError::AppendFailed)
                })
            } else {
                final(self)@ == old(self)@ && result == Ok::<bool, EngineError>(false)
            },
    {
        let lease = match self.leased.get(&id) {
            Some(lease) => *lease,
            None => {
                return Ok(false);
            },
        };
        if now < lease.expire_timestamp {
            return Ok(false);
        }
        self.process_task_failure(id, lease, OpType::Expired, outcome)
    }

    /// The number of tasks that wait and of tasks that are held.
    pub fn status(&self) -> (counts: (usize, usize))
        requires
            self.wf(),
        ensures
            counts.0 == self@.ready.len(),
            counts.1 == self@.leased.len(),
    {
        (self.ready_queue.len(), self.leased.len())
    }

    /// The hits, misses and evictions of the payload cache.
    pub fn payload_cache_stats(&self) -> (stats: (u64, u64, u64))
        ensures
            stats == (self@.cache.hits, self@.cache.misses, self@.cache.evictions),
    {
        self.payload_cache.stats()
    }

    /// Drops the cached payloads.
    pub fn clear_payload_cache(&mut self)
        requires
            old(self).wf(),
        ensures
            final(self).wf(),
            final(self)@ == (EngineView {
                cache: old(self)@.cache.cleared(),
                ..old(self)@
            }),
    {
        self.payload_cache.clear();
    }
}

/// A queue without tasks.
pub open spec fn empty_engine(wal: WalView, cache_capacity: usize) -> EngineView {
    EngineView {
        wal,
        next_id: 1,
        index: Map::empty(),
        data_index: Map::empty(),
        ready: Seq::empty(),
        leased: Map::empty(),
        cache: CacheView::fresh(cache_capacity),
    }
}

impl PoppedTask {
    /// The record and the number of retries that the consumer gets. Where the
    /// payload is not in memory, `read` is what the log holds at its place.
    pub fn deliver(self, read: Option<Record>) -> (result: Result<(Record, u8), EngineError>)
        ensures
            match self.source {
                PayloadSource::Cached(payload) => {
                    &&& result is Ok
                    &&& (result->Ok_0).0@ == created(self.id, self.priority, payload@)
                    &&& (result->Ok_0).1 == self.retries
                },
                PayloadSource::Stored { .. } => match read {
                    Some(r) => {
                        &&& result is Ok
                        &&& (result->Ok_0).0@ == delivered(r@)
                        &&& (result->Ok_0).1 == self.retries
                    },
                    None => result == Err::<(Record, u8), EngineError>(EngineError::RecordNotFound),
                },
            },
    {
        match self.source {
            PayloadSource::Cached(payload) => {
                let mut copy: Vec<u8> = Vec::new();
                let bytes: &Vec<u8> = &payload;
                super::bytes::push_range(&mut copy, bytes.as_slice(), 0, bytes.len());
                assert(copy@ =~= payload@);
                Ok((Record::new(self.id, OpType::Created, self.priority, copy), self.retries))
            },
            PayloadSource::Stored { segment: _, offset: _ } => {
                match read {
                    Some(record) => {
                        if has_payload(&record) {
                            let payload = extract_task_payload(&record);
                            Ok(
                                (
                                    Record::new(
                                        record.id(),
                                        OpType::Created,
                                        record.priority(),
                                        payload,
                                    ),
                                    self.retries,
                                ),
                            )
                        } else {
                            Ok((record, self.retries))
                        }
                    },
                    None => Err(EngineError::RecordNotFound),
                }
            },
        }
    }
}

/// A task of a higher priority comes before one of a lower, and of two tasks of one
/// priority the one that was pushed first. The retries do not count.
pub proof fn law_tasks_are_ordered(a: TaskRef, b: TaskRef)
    ensures
        a.eq_spec(&b) <==> a.id == b.id && a.priority == b.priority,
        a.partial_cmp_spec(&b) == Some(core::cmp::Ordering::Greater) <==> a.priority > b.priority
            || a.priority == b.priority && a.id < b.id,
        a.partial_cmp_spec(&b) == Some(core::cmp::Ordering::Less) <==> b.priority > a.priority
            || b.priority == a.priority && b.id < a.id,
        a.partial_cmp_spec(&b) == Some(core::cmp::Ordering::Equal) <==> a.id == b.id && a.priority
            == b.priority,
{
}

/// What went wrong, in words.
pub proof fn law_errors_have_messages(e: EngineError, r: ReadError)
    ensures
        e == EngineError::NotLeased ==> e.message_spec() == "Task not found or not leased"@,
        e == EngineError::LeasedToAnother ==> e.message_spec()
            == "Task leased to another consumer"@,
        e == EngineError::MissingDataOffset ==> e.message_spec() == "Missing data offset"@,
        e == EngineError::RecordNotFound ==> e.message_spec() == "Record not found at offset"@,
        e == EngineError::AppendFailed ==> e.message_spec() == "Append to the log failed"@,
        r == ReadError::CorruptedMagicByte ==> r.message_spec() == "Corrupted magic byte"@,
        r == ReadError::CorruptedPayloadLength ==> r.message_spec() == "Corrupted payload length"@,
{
}

} // verus!
