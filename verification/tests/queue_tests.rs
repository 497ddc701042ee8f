//! Queues on a disk in memory.

use nesso::storage::compaction::CompactionStats;
use nesso::storage::engine::{EngineError, EngineState, ErrorKind, GroupCommit, GroupCommitConfig, LeaseInfo, PayloadSource, SyncMode, TaskRef};
use nesso::storage::expiration::ExpirationRound;
use nesso::storage::names::{compacting_file_name, is_leftover, parse_segment_name, segment_file_name};
use nesso::storage::priority_queue::PriorityBucketQueue;
use nesso::storage::record::{OpType, Record, HEADER_SIZE, MAGIC_BYTE};
use nesso::storage::segment::{ReadError, Segment};
use nesso::storage::wal::{AppendOutcome, Wal, WalIteratorAll, WalReader, WalStep};
use std::cell::RefCell;
use std::collections::{BTreeMap, HashMap};
use std::rc::Rc;

// ---------------------------------------------------------------------------
// A directory in memory: names lead to files, and an open file stays what it is
// when its name is given to another.
// ---------------------------------------------------------------------------

#[derive(Default)]
struct Disk {
    names: BTreeMap<String, u64>,
    files: HashMap<u64, Vec<u8>>,
    next_file: u64,
}

type Dir = Rc<RefCell<Disk>>;

fn temp_dir() -> Dir {
    Rc::new(RefCell::new(Disk::default()))
}

impl Disk {
    fn has(&self, name: &str) -> bool {
        self.names.contains_key(name)
    }

    fn list(&self) -> Vec<String> {
        self.names.keys().cloned().collect()
    }

    fn open(&self, name: &str) -> Option<u64> {
        self.names.get(name).copied()
    }

    fn read(&self, name: &str) -> Option<Vec<u8>> {
        self.open(name).map(|file| self.files[&file].clone())
    }

    fn create(&mut self, name: &str) -> u64 {
        if let Some(file) = self.open(name) {
            return file;
        }
        let file = self.next_file;
        self.next_file += 1;
        self.names.insert(name.to_string(), file);
        self.files.insert(file, Vec::new());
        file
    }

    fn write(&mut self, name: &str, bytes: &[u8]) {
        let file = self.create(name);
        self.files.insert(file, bytes.to_vec());
    }

    fn append(&mut self, name: &str, bytes: &[u8]) {
        let file = self.create(name);
        self.files.get_mut(&file).unwrap().extend_from_slice(bytes);
    }

    fn truncate(&mut self, name: &str, len: u64) {
        let file = self.open(name).unwrap();
        self.files.get_mut(&file).unwrap().truncate(len as usize);
    }

    fn remove(&mut self, name: &str) {
        self.names.remove(name);
    }

    fn rename(&mut self, from: &str, to: &str) {
        let file = self.names.remove(from).unwrap();
        self.names.insert(to.to_string(), file);
    }

    fn len(&self, name: &str) -> u64 {
        self.read(name).unwrap().len() as u64
    }
}

fn segment_ids(dir: &Dir) -> Vec<u64> {
    Wal::survey(&dir.borrow().list()).segment_ids
}

fn segments(dir: &Dir, ids: &[u64]) -> Vec<Segment> {
    ids.iter()
        .map(|&id| Segment { id, bytes: dir.borrow().read(&segment_file_name(id)).unwrap() })
        .collect()
}

/// Opens a log as a program does: what a crash left behind is removed, and the
/// active segment is cut back to its last whole frame.
fn open_wal(dir: &Dir, max_segment_size: Option<u64>) -> Wal {
    let names = dir.borrow().list();
    let survey = Wal::survey(&names);
    for &i in &survey.leftovers {
        dir.borrow_mut().remove(&names[i]);
    }
    let plan = Wal::plan_open(&segments(dir, &survey.segment_ids));
    for &id in &plan.obsolete {
        dir.borrow_mut().remove(&segment_file_name(id));
    }
    let name = segment_file_name(plan.active_segment_id);
    dir.borrow_mut().create(&name);
    let bytes = dir.borrow().read(&name).unwrap();
    let wal = Wal::open(plan.active_segment_id, &bytes, max_segment_size);
    dir.borrow_mut().truncate(&name, wal.current_size());
    wal
}

fn write_frame(dir: &Dir, wal: &Wal, record: &Record) {
    let plan = wal.plan_append();
    dir.borrow_mut().append(&segment_file_name(plan.segment), &record.encode());
}

fn iter_all(dir: &Dir) -> Vec<(u64, u64, Record)> {
    let mut iter = WalIteratorAll::new(segment_ids(dir));
    let mut records = Vec::new();
    loop {
        match iter.next() {
            WalStep::Open(id) => {
                let bytes = dir.borrow().read(&segment_file_name(id)).unwrap();
                iter.opened(bytes);
            }
            WalStep::Item(entry) => records.push((entry.segment, entry.offset, entry.record)),
            WalStep::Done => return records,
        }
    }
}

fn swap_in(dir: &Dir, closed: &Vec<u64>) {
    dir.borrow_mut().rename(&compacting_file_name(), &segment_file_name(1));
    for id in Wal::execute_compaction_phase2(closed) {
        dir.borrow_mut().remove(&segment_file_name(id));
    }
}

struct Log {
    dir: Dir,
    wal: Wal,
}

impl Log {
    fn open(dir: &Dir, max_segment_size: Option<u64>) -> Log {
        Log { dir: dir.clone(), wal: open_wal(dir, max_segment_size) }
    }

    fn append(&mut self, record: &Record) -> (u64, u64) {
        write_frame(&self.dir, &self.wal, record);
        self.wal.append(record, AppendOutcome::Written).unwrap()
    }

    fn compact(&mut self) -> Option<CompactionStats> {
        let names = self.dir.borrow().list();
        let closed = Wal::plan_compaction(&names, self.wal.active_segment_id())?;
        let compaction = Wal::execute_compaction_phase1(&segments(&self.dir, &closed));
        self.dir.borrow_mut().write(&compacting_file_name(), &compaction.bytes);
        swap_in(&self.dir, &closed);
        Some(compaction.stats)
    }
}

#[derive(Debug, PartialEq)]
enum ReadFailure {
    NotFound,
    Corrupted(ReadError),
}

impl ReadFailure {
    fn kind(&self) -> ErrorKind {
        match self {
            ReadFailure::NotFound => ErrorKind::NotFound,
            ReadFailure::Corrupted(e) => e.kind(),
        }
    }
}

struct Reader {
    dir: Dir,
    lru: WalReader,
    open: HashMap<u64, u64>,
}

impl Reader {
    fn new(dir: &Dir) -> Reader {
        Reader { dir: dir.clone(), lru: WalReader::new(), open: HashMap::new() }
    }

    fn read_at(&mut self, segment: u64, offset: u64) -> Result<Option<Record>, ReadFailure> {
        if !self.lru.touch(segment) {
            let file = self.dir.borrow().open(&segment_file_name(segment)).ok_or(ReadFailure::NotFound)?;
            if let Some(evicted) = self.lru.keep_open(segment) {
                self.open.remove(&evicted);
            }
            self.open.insert(segment, file);
        }
        let disk = self.dir.borrow();
        let bytes = &disk.files[&self.open[&segment]];
        WalReader::read_at(bytes, offset).map_err(ReadFailure::Corrupted)
    }

    fn clear_cache(&mut self) {
        self.lru.clear_cache();
        self.open.clear();
    }
}

struct Queue {
    dir: Dir,
    state: EngineState,
    reader: Reader,
    now: u64,
}

impl Queue {
    /// A queue on top of a log that is not replayed.
    fn fresh(dir: &Dir, max_segment_size: Option<u64>) -> Queue {
        let state = EngineState::new(open_wal(dir, max_segment_size));
        Queue { dir: dir.clone(), state, reader: Reader::new(dir), now: 1_000_000 }
    }

    fn open_at(dir: &Dir, now: u64) -> Queue {
        let mut queue = Queue::fresh(dir, None);
        queue.now = now;
        let log = segments(dir, &segment_ids(dir));
        queue.state.recover(&log, now);
        queue
    }

    fn open(dir: &Dir) -> Queue {
        Queue::open_at(dir, 1_000_000)
    }

    fn push(&mut self, payload: Vec<u8>, priority: u8) -> u64 {
        let record = self.state.push_record(&payload, priority);
        write_frame(&self.dir, &self.state.wal, &record);
        self.state.push(payload, priority, AppendOutcome::Written).unwrap()
    }

    fn try_pop(&mut self, consumer_id: u32, ttl: u64) -> Result<Option<(Record, u8)>, EngineError> {
        if let Some(record) = self.state.lease_record(consumer_id, ttl, self.now) {
            write_frame(&self.dir, &self.state.wal, &record);
        }
        let popped = match self.state.pop_and_lease(consumer_id, ttl, self.now, AppendOutcome::Written)? {
            Some(popped) => popped,
            None => return Ok(None),
        };
        let read = match popped.source {
            PayloadSource::Cached(_) => None,
            PayloadSource::Stored { segment, offset } => self.reader.read_at(segment, offset).unwrap(),
        };
        popped.deliver(read).map(Some)
    }

    fn pop_and_lease(&mut self, consumer_id: u32, ttl: u64) -> Option<(Record, u8)> {
        self.try_pop(consumer_id, ttl).unwrap()
    }

    fn ack(&mut self, id: u64, consumer_id: u32) -> Result<(), EngineError> {
        if let Ok(record) = self.state.ack_record(id, consumer_id) {
            write_frame(&self.dir, &self.state.wal, &record);
        }
        self.state.ack(id, consumer_id, AppendOutcome::Written)
    }

    fn nack(&mut self, id: u64, consumer_id: u32) -> Result<bool, EngineError> {
        if let Ok(record) = self.state.nack_record(id, consumer_id) {
            write_frame(&self.dir, &self.state.wal, &record);
        }
        self.state.nack(id, consumer_id, AppendOutcome::Written)
    }

    /// One round of taking back tasks whose lease has ended.
    fn expire_leases(&mut self) -> usize {
        let mut round = ExpirationRound::begin(&self.state, self.now);
        while let Some((_, record)) = round.next(&self.state) {
            write_frame(&self.dir, &self.state.wal, &record);
            round.settle(&mut self.state, AppendOutcome::Written);
        }
        round.re_enqueued()
    }

    fn status(&self) -> (usize, usize) {
        self.state.status()
    }

    fn compact(&mut self) -> bool {
        let names = self.dir.borrow().list();
        let closed = match Wal::plan_compaction(&names, self.state.wal.active_segment_id()) {
            Some(closed) => closed,
            None => return false,
        };
        let compaction = Wal::execute_compaction_phase1(&segments(&self.dir, &closed));
        self.dir.borrow_mut().write(&compacting_file_name(), &compaction.bytes);
        swap_in(&self.dir, &closed);
        self.state.apply_compaction(&closed, &compaction.new_offsets, &compaction.payload_offsets);
        self.reader.clear_cache();
        true
    }

    fn drain(&mut self) -> Vec<u64> {
        let mut ids = Vec::new();
        while let Some((rec, _)) = self.pop_and_lease(1, 60) {
            ids.push(rec.id());
        }
        ids
    }
}

// ---------------------------------------------------------------------------
// The log
// ---------------------------------------------------------------------------

#[test]
fn test_append_and_read_at() {
    let dir = temp_dir();
    let mut wal = Log::open(&dir, None);

    let rec = Record::new(1, OpType::Created, 5, b"data".to_vec());
    let (seg, offset) = wal.append(&rec);

    let read_rec = Reader::new(&dir).read_at(seg, offset).unwrap().unwrap();
    assert_eq!(read_rec.id(), 1);
    assert_eq!(read_rec.payload(), b"data");
}

#[test]
fn test_multiple_append_and_read() {
    let dir = temp_dir();
    let mut wal = Log::open(&dir, None);

    let mut offsets = Vec::new();
    for i in 0..5 {
        let rec = Record::new(i, OpType::Created, 1, format!("data{}", i).into_bytes());
        offsets.push(wal.append(&rec));
    }

    for (i, &(seg, offset)) in offsets.iter().enumerate() {
        let rec = Reader::new(&dir).read_at(seg, offset).unwrap().unwrap();
        assert_eq!(rec.id(), i as u64);
        assert_eq!(rec.payload(), format!("data{}", i).as_bytes());
    }
}

#[test]
fn test_iter_all_empty_dir() {
    let dir = temp_dir();
    let _wal = Log::open(&dir, None);
    assert!(iter_all(&dir).is_empty());
}

#[test]
fn test_iter_all_valid_records() {
    let dir = temp_dir();
    let mut wal = Log::open(&dir, None);

    for i in 0..3 {
        wal.append(&Record::new(i, OpType::Created, 1, b"hi".to_vec()));
    }

    let records = iter_all(&dir);
    assert_eq!(records.len(), 3);
    for (i, (_, _, rec)) in records.iter().enumerate() {
        assert_eq!(rec.id(), i as u64);
    }
}

#[test]
fn test_append_exceeding_threshold() {
    let dir = temp_dir();
    let mut wal = Log::open(&dir, Some(100)); // Threshold 100 bytes

    let rec1 = Record::new(1, OpType::Created, 1, vec![0; 90]);
    let (seg1, _) = wal.append(&rec1);
    assert_eq!(seg1, 1);

    // This second write should trigger rotation
    let rec2 = Record::new(2, OpType::Created, 1, vec![0; 50]);
    let (seg2, _) = wal.append(&rec2);
    assert_eq!(seg2, 2);
}

#[test]
fn test_read_at_past_segment() {
    let dir = temp_dir();
    let mut wal = Log::open(&dir, Some(100));

    let rec1 = Record::new(1, OpType::Created, 1, vec![1; 90]);
    let (seg1, off1) = wal.append(&rec1);

    let rec2 = Record::new(2, OpType::Created, 1, vec![2; 90]);
    let (seg2, _off2) = wal.append(&rec2); // Triggers segment 2

    assert_eq!(seg1, 1);
    assert_eq!(seg2, 2);

    let read_rec = Reader::new(&dir).read_at(seg1, off1).unwrap().unwrap();
    assert_eq!(read_rec.id(), 1);
}

#[test]
fn test_iter_all_multiple_segments() {
    let dir = temp_dir();
    let mut wal = Log::open(&dir, Some(100));

    wal.append(&Record::new(1, OpType::Created, 1, vec![0; 90])); // seg 1
    wal.append(&Record::new(2, OpType::Created, 1, vec![0; 90])); // seg 2
    wal.append(&Record::new(3, OpType::Created, 1, vec![0; 90])); // seg 3

    let records = iter_all(&dir);
    assert_eq!(records.len(), 3);
    assert_eq!(records[0].0, 1);
    assert_eq!(records[1].0, 2);
    assert_eq!(records[2].0, 3);
}

#[test]
fn test_reopen_wal_detects_highest_id() {
    let dir = temp_dir();
    {
        let mut wal = Log::open(&dir, Some(100));
        wal.append(&Record::new(1, OpType::Created, 1, vec![0; 90]));
        wal.append(&Record::new(2, OpType::Created, 1, vec![0; 90])); // creates segment 2
    }

    {
        let mut wal = Log::open(&dir, Some(100));
        let rec3 = Record::new(3, OpType::Created, 1, vec![0; 10]);
        let (seg3, _) = wal.append(&rec3);
        assert_eq!(seg3, 3); // Should rotate to segment 3 because segment 2 is already at 109 bytes
    }
}

#[test]
fn test_iter_with_truncated_intermediate_segment() {
    let dir = temp_dir();
    let mut wal = Log::open(&dir, Some(100));
    wal.append(&Record::new(1, OpType::Created, 1, vec![1; 20]));

    // Corrupt segment 1 explicitly
    dir.borrow_mut().append("nesso.00001.wal", &[0x00, 0x01]); // Partial write

    // Create segment 2 natively
    wal.append(&Record::new(99, OpType::Created, 1, vec![0; 200]));
    wal.append(&Record::new(2, OpType::Created, 1, vec![2; 20]));

    let records = iter_all(&dir);
    assert_eq!(records.len(), 2);
    assert_eq!(records[0].0, 1); // From seg 1
    assert_eq!(records[1].0, 2); // From seg 2
}

#[test]
fn test_iter_with_corrupt_magic_byte_full_header() {
    let dir = temp_dir();
    let mut wal = Log::open(&dir, Some(150));
    wal.append(&Record::new(1, OpType::Created, 1, vec![1; 20])); // seg 1

    // Corrupt segment 1 explicitly with a FULL header but bad magic byte
    let mut bad_record = vec![0u8; 19 + 10]; // 19 header + 10 payload
    bad_record[0] = 0x99; // BAD MAGIC BYTE!
    bad_record[15..19].copy_from_slice(&(10u32).to_be_bytes()); // valid payload len
    dir.borrow_mut().append("nesso.00001.wal", &bad_record);

    // Force rotation by writing more bytes natively
    wal.append(&Record::new(99, OpType::Created, 1, vec![0; 200]));
    wal.append(&Record::new(2, OpType::Created, 1, vec![2; 20])); // triggers seg 2

    // It should skip the corrupted part of seg 1, and read seg 2 perfectly.
    let records = iter_all(&dir);
    assert_eq!(records.len(), 2);
    assert_eq!(records[0].0, 1);
    assert_eq!(records[1].0, 2);
}

#[test]
fn test_engine_e2e_segment_recovery() {
    let dir = temp_dir();

    {
        // A small threshold to force segmentation quickly
        let mut engine = Queue::fresh(&dir, Some(150));

        // Push 3 tasks, spanning multiple segments
        engine.push(vec![0; 80], 1);
        engine.push(vec![0; 80], 1);
        engine.push(vec![0; 80], 1);

        // Lease one task to mutate state
        engine.pop_and_lease(100, 10);
    }

    {
        // Reopen with standard 64MB limit, testing cross-segment recovery
        let engine = Queue::open(&dir);
        let state = &engine.state;

        assert_eq!(state.ready_queue.len(), 2);
        assert_eq!(state.leased.len(), 1);
        assert_eq!(state.data_index.len(), 3);
        assert_eq!(state.index.len(), 3);
    }
}

#[test]
fn test_recovery_expires_stale_lease_spanning_segments() {
    let dir = temp_dir();
    let id = {
        let mut engine = Queue::fresh(&dir, Some(100));
        let id = engine.push(vec![1, 2, 3], 5); // Seg 1
        engine.push(vec![0; 80], 1); // Forces rotation to Seg 2
        engine.pop_and_lease(42, 1); // Leases `id` from Seg 1, but writes Leased event to Seg 2
        id
    };

    let engine = Queue::open_at(&dir, 1_000_002); // Lease expires offline

    assert!(!engine.state.leased.contains_key(&id));

    // One from the lease recovering into ready, one from the task pushed to force rotation
    assert_eq!(engine.state.ready_queue.len(), 2);
}

#[test]
fn test_failed_appends_leave_the_log_usable() {
    let dir = temp_dir();
    let mut log = Log::open(&dir, Some(50));
    let rec = Record::new(1, OpType::Created, 1, vec![7; 40]);
    assert_eq!(log.append(&rec), (1, 0));

    // The segment is full, so the next record asks for a new one.
    assert!(log.wal.plan_append().rotate);
    assert_eq!(log.wal.append(&rec, AppendOutcome::RotationSyncFailed), None);
    assert_eq!((log.wal.active_segment_id(), log.wal.current_size()), (1, 59));
    assert_eq!(log.wal.append(&rec, AppendOutcome::RotationOpenFailed), None);
    assert_eq!((log.wal.active_segment_id(), log.wal.current_size()), (2, 59));
    assert_eq!(log.wal.append(&rec, AppendOutcome::WriteFailed), None);
    assert_eq!((log.wal.active_segment_id(), log.wal.current_size()), (3, 0));
    assert_eq!(log.append(&rec), (3, 0));
    assert_eq!(log.wal.current_size(), 59);
    assert_eq!(log.wal.max_segment_size(), 50);
}

#[test]
fn test_default_segment_size() {
    let wal = Wal::open(1, &[], None);
    assert_eq!(wal.max_segment_size(), 64 * 1024 * 1024);
}

#[test]
fn test_reader_closes_the_segment_used_longest_ago() {
    let mut reader = WalReader::new();
    for id in 1..=8 {
        assert!(!reader.touch(id));
        assert_eq!(reader.keep_open(id), None);
    }
    assert!(reader.touch(1));
    assert_eq!(reader.keep_open(9), Some(2));
    assert_eq!(reader.cached_segments(), vec![3, 4, 5, 6, 7, 8, 1, 9]);
    assert_eq!(reader.cached_count(), 8);
    reader.clear_cache();
    assert_eq!(reader.cached_count(), 0);
}

#[test]
fn test_segment_names() {
    assert_eq!(segment_file_name(7), "nesso.00007.wal");
    assert_eq!(segment_file_name(123456), "nesso.123456.wal");
    assert_eq!(compacting_file_name(), "nesso.00001.compacting");
    assert_eq!(parse_segment_name("nesso.00007.wal"), Some(7));
    assert_eq!(parse_segment_name("nesso.7.wal"), Some(7));
    assert_eq!(parse_segment_name("nesso.+7.wal"), Some(7));
    assert_eq!(parse_segment_name("nesso..wal"), None);
    assert_eq!(parse_segment_name("nesso.x.wal"), None);
    assert_eq!(parse_segment_name("nesso.7.tmp"), None);
    assert_eq!(parse_segment_name("other.7.wal"), None);
    assert_eq!(parse_segment_name("nesso.18446744073709551615.wal"), Some(u64::MAX));
    assert_eq!(parse_segment_name("nesso.18446744073709551616.wal"), None);
    assert!(is_leftover("nesso.00001.compacting"));
    assert!(is_leftover("anything.tmp"));
    assert!(!is_leftover("nesso.00001.wal"));
}

// ---------------------------------------------------------------------------
// The engine
// ---------------------------------------------------------------------------

#[test]
fn test_happy_path() {
    let dir = temp_dir();
    let mut engine = Queue::open(&dir);
    let _id = engine.push(b"test".to_vec(), 1);
    let (rec, _) = engine.pop_and_lease(42, 10).unwrap();
    engine.ack(rec.id(), 42).unwrap();

    assert!(engine.state.ready_queue.is_empty());
    assert!(engine.state.leased.is_empty());
    assert!(engine.state.data_index.is_empty());
}

#[test]
fn engine_tests_test_priority_ordering() {
    let dir = temp_dir();
    let mut engine = Queue::open(&dir);
    engine.push(b"low".to_vec(), 1);
    engine.push(b"high".to_vec(), 10);
    engine.push(b"mid".to_vec(), 5);

    assert_eq!(engine.pop_and_lease(1, 10).unwrap().0.payload(), b"high");
    assert_eq!(engine.pop_and_lease(1, 10).unwrap().0.payload(), b"mid");
    assert_eq!(engine.pop_and_lease(1, 10).unwrap().0.payload(), b"low");
}

#[test]
fn engine_tests_test_fifo_same_priority() {
    let dir = temp_dir();
    let mut engine = Queue::open(&dir);
    let id1 = engine.push(b"first".to_vec(), 5);
    let id2 = engine.push(b"second".to_vec(), 5);

    assert_eq!(engine.pop_and_lease(1, 10).unwrap().0.id(), id1);
    assert_eq!(engine.pop_and_lease(1, 10).unwrap().0.id(), id2);
}

#[test]
fn test_nack_retries() {
    let dir = temp_dir();
    let mut engine = Queue::open(&dir);
    let id = engine.push(b"test".to_vec(), 1);

    let (rec, _) = engine.pop_and_lease(1, 10).unwrap();
    engine.nack(rec.id(), 1).unwrap();

    let (rec2, _) = engine.pop_and_lease(2, 10).unwrap();
    assert_eq!(rec2.id(), id); // Returned to queue
}

#[test]
fn test_dead_letter_max_retries() {
    let dir = temp_dir();
    let mut engine = Queue::open(&dir);
    engine.push(b"test".to_vec(), 1);

    for _ in 0..3 {
        let (rec, _) = engine.pop_and_lease(1, 10).unwrap();
        engine.nack(rec.id(), 1).unwrap();
    }

    assert!(engine.pop_and_lease(1, 10).is_none());
}

#[test]
fn test_wrong_consumer_ack() {
    let dir = temp_dir();
    let mut engine = Queue::open(&dir);
    let id = engine.push(b"test".to_vec(), 1);

    engine.pop_and_lease(1, 10);

    let res = engine.ack(id, 99);
    assert_eq!(res.unwrap_err().kind(), ErrorKind::PermissionDenied);
}

#[test]
fn test_ack_unleased_task() {
    let dir = temp_dir();
    let mut engine = Queue::open(&dir);
    let res = engine.ack(999, 1);
    assert_eq!(res.unwrap_err().kind(), ErrorKind::NotFound);
}

#[test]
fn test_pop_empty() {
    let dir = temp_dir();
    let mut engine = Queue::open(&dir);
    assert!(engine.pop_and_lease(1, 10).is_none());
}

#[test]
fn test_mutex_poison_recovery_simulated() {
    let dir = temp_dir();
    let mut engine = Queue::open(&dir);
    engine.push(b"data".to_vec(), 1);

    assert!(engine.ack(999, 1).is_err()); // Error returned safely
    assert!(engine.pop_and_lease(1, 10).is_some()); // Engine still fully functional
}

#[test]
fn test_expiration_background() {
    let dir = temp_dir();
    let mut engine = Queue::open(&dir);
    let id = engine.push(b"test".to_vec(), 1);

    engine.pop_and_lease(1, 1);
    engine.now += 2;
    assert_eq!(engine.expire_leases(), 1);

    let (rec, _) = engine.pop_and_lease(2, 10).unwrap();
    assert_eq!(rec.id(), id);
}

#[test]
fn test_recovery_never_leased() {
    let dir = temp_dir();
    {
        let mut engine = Queue::open(&dir);
        engine.push(b"test".to_vec(), 1);
    }
    {
        let engine = Queue::open(&dir);
        assert_eq!(engine.state.ready_queue.len(), 1);
    }
}

#[test]
fn test_recovery_active_lease() {
    let dir = temp_dir();
    {
        let mut engine = Queue::open(&dir);
        engine.push(b"test".to_vec(), 1);
        engine.pop_and_lease(1, 100);
    }
    {
        let engine = Queue::open(&dir);
        assert_eq!(engine.state.leased.len(), 1);
        assert!(engine.state.ready_queue.is_empty());
        assert_eq!(
            engine.state.leased.get(&1),
            Some(&LeaseInfo { consumer_id: 1, expire_timestamp: 1_000_100, retries: 0, priority: 1 })
        );
    }
}

#[test]
fn test_recovery_expired_offline() {
    let dir = temp_dir();
    {
        let mut engine = Queue::open(&dir);
        engine.push(b"test".to_vec(), 1);
        engine.pop_and_lease(1, 1);
    }
    {
        let engine = Queue::open_at(&dir, 1_000_002);
        assert_eq!(engine.state.ready_queue.len(), 1);
        assert!(engine.state.leased.is_empty());
    }
}

#[test]
fn test_errors_of_the_engine() {
    let dir = temp_dir();
    let mut engine = Queue::open(&dir);
    assert_eq!(engine.nack(5, 1), Err(EngineError::NotLeased));
    let id = engine.push(b"x".to_vec(), 1);
    engine.pop_and_lease(7, 10);
    assert_eq!(engine.nack(id, 8), Err(EngineError::LeasedToAnother));
    assert_eq!(engine.state.ack(id, 7, AppendOutcome::WriteFailed), Err(EngineError::AppendFailed));
    // The task is still held, and can be completed later.
    assert_eq!(engine.ack(id, 7), Ok(()));

    assert_eq!(EngineError::NotLeased.message(), "Task not found or not leased");
    assert_eq!(EngineError::LeasedToAnother.message(), "Task leased to another consumer");
    assert_eq!(EngineError::MissingDataOffset.message(), "Missing data offset");
    assert_eq!(EngineError::RecordNotFound.message(), "Record not found at offset");
    assert_eq!(EngineError::MissingDataOffset.kind(), ErrorKind::NotFound);
    assert_eq!(EngineError::RecordNotFound.kind(), ErrorKind::InvalidData);
    assert_eq!(EngineError::AppendFailed.kind(), ErrorKind::Io);
    assert_eq!(ReadError::CorruptedMagicByte.message(), "Corrupted magic byte");
    assert_eq!(ReadError::CorruptedPayloadLength.message(), "Corrupted payload length");
}

#[test]
fn test_missing_payload_is_an_error() {
    let dir = temp_dir();
    let mut engine = Queue::open(&dir);
    let id = engine.push(b"x".to_vec(), 1);
    engine.state.data_index.remove(&id);
    assert_eq!(engine.try_pop(1, 10).unwrap_err(), EngineError::MissingDataOffset);

    let other = engine.push(b"y".to_vec(), 1);
    engine.state.clear_payload_cache();
    engine.state.data_index.insert(other, (1, 1_000_000));
    assert_eq!(engine.try_pop(1, 10).unwrap_err(), EngineError::RecordNotFound);
}

#[test]
fn test_failed_push_uses_up_an_id() {
    let dir = temp_dir();
    let mut engine = Queue::open(&dir);
    assert_eq!(
        engine.state.push(b"lost".to_vec(), 1, AppendOutcome::WriteFailed),
        Err(EngineError::AppendFailed)
    );
    assert_eq!(engine.status(), (0, 0));
    assert_eq!(engine.push(b"kept".to_vec(), 1), 2);
}

#[test]
fn test_task_that_could_not_be_leased_comes_back_after_a_restart() {
    let dir = temp_dir();
    let mut engine = Queue::open(&dir);
    let id = engine.push(b"x".to_vec(), 1);
    let now = engine.now;
    assert!(engine.state.pop_and_lease(1, 10, now, AppendOutcome::WriteFailed).is_err());
    assert_eq!(engine.status(), (0, 0));
    let mut again = Queue::open(&dir);
    assert_eq!(again.drain(), vec![id]);
}

#[test]
fn test_lease_ends_at_its_time_and_not_before() {
    let dir = temp_dir();
    let mut engine = Queue::open(&dir);
    engine.push(b"x".to_vec(), 1);
    engine.pop_and_lease(1, 10);
    engine.now += 9;
    assert_eq!(engine.expire_leases(), 0);
    assert_eq!(engine.status(), (0, 1));
    engine.now += 1;
    assert_eq!(engine.expire_leases(), 1);
    assert_eq!(engine.status(), (1, 0));
}

#[test]
fn test_expiry_whose_record_was_not_written_is_tried_again() {
    let dir = temp_dir();
    let mut engine = Queue::open(&dir);
    let id = engine.push(b"x".to_vec(), 1);
    engine.pop_and_lease(1, 1);
    engine.now += 1;
    let mut round = ExpirationRound::begin(&engine.state, engine.now);
    let (next, record) = round.next(&engine.state).unwrap();
    assert_eq!(next, id);
    assert_eq!(record.op_type(), OpType::Expired);
    assert_eq!(record.payload(), &[1]);
    round.settle(&mut engine.state, AppendOutcome::WriteFailed);
    assert!(round.next(&engine.state).is_none());
    assert_eq!(round.re_enqueued(), 0);
    assert_eq!(engine.status(), (0, 1));
    assert_eq!(engine.expire_leases(), 1);
}

#[test]
fn test_toctou_expiration_vs_ack_race() {
    let dir = temp_dir();
    let mut engine = Queue::open(&dir);

    let mut missing_data_offset_count = 0;
    let mut resurrected_tasks = Vec::new();

    for iter in 0..10 {
        let num_tasks = 400;
        let mut task_ids = Vec::new();

        for i in 0..num_tasks {
            let payload = format!("toctou_iter_{}_task_{}", iter, i).into_bytes();
            task_ids.push(engine.push(payload, 50));
        }

        // Lease all tasks with TTL = 1s
        for &id in &task_ids {
            assert!(engine.pop_and_lease(id as u32, 1).is_some());
        }

        // Tasks are completed between the moment at which the expired ones are
        // found and the moment at which each of them is taken back.
        engine.now += 1;
        let mut acked = Vec::new();
        let mut round = ExpirationRound::begin(&engine.state, engine.now);
        let mut turn = 0;
        loop {
            for &id in task_ids.iter().skip(turn % 3).step_by(7).take(turn) {
                if engine.ack(id, id as u32).is_ok() {
                    acked.push(id);
                }
            }
            turn += 1;
            match round.next(&engine.state) {
                Some((_, record)) => {
                    write_frame(&engine.dir, &engine.state.wal, &record);
                    round.settle(&mut engine.state, AppendOutcome::Written);
                }
                None => break,
            }
        }
        assert!(!acked.is_empty());
        assert_eq!(round.re_enqueued(), num_tasks - acked.len());
        assert_eq!(engine.status(), (num_tasks - acked.len(), 0));

        // Drain the ready queue and check for missing offsets or resurrected tasks
        loop {
            match engine.try_pop(9999, 10) {
                Ok(Some((rec, _))) => {
                    if acked.contains(&rec.id()) {
                        resurrected_tasks.push(rec.id());
                    }
                    let _ = engine.ack(rec.id(), 9999);
                }
                Ok(None) => break,
                Err(e) => {
                    if e == EngineError::MissingDataOffset {
                        missing_data_offset_count += 1;
                    }
                    break;
                }
            }
        }
    }

    assert_eq!(missing_data_offset_count, 0);
    assert!(
        resurrected_tasks.is_empty(),
        "ACKed tasks were resurrected back into ready_queue: {:?}",
        resurrected_tasks
    );
}

#[test]
fn test_hot_path_payload_cache_hits() {
    let dir = temp_dir();
    let mut engine = Queue::open(&dir);

    // Push 100 tasks
    for i in 0..100 {
        engine.push(format!("task_payload_{}", i).into_bytes(), 5);
    }

    // Pop all 100 tasks
    for i in 0..100 {
        let (rec, retries) = engine.pop_and_lease(1, 60).expect("expected task");
        assert_eq!(retries, 0);
        let expected_payload = format!("task_payload_{}", i).into_bytes();
        assert_eq!(rec.payload(), expected_payload.as_slice());
    }

    let (hits, misses, _) = engine.state.payload_cache_stats();
    assert_eq!(hits, 100, "All 100 tasks should hit the in-memory payload cache");
    assert_eq!(misses, 0, "There should be 0 cache misses for freshly pushed tasks");
}

#[test]
fn test_cold_read_fallback_after_engine_restart() {
    let dir = temp_dir();
    {
        let mut engine = Queue::open(&dir);
        engine.push(b"cold_payload_alpha".to_vec(), 10);
        engine.push(b"cold_payload_beta".to_vec(), 20);
    }
    {
        let mut engine = Queue::open(&dir);
        let (hits_init, misses_init, _) = engine.state.payload_cache_stats();
        assert_eq!(hits_init, 0);
        assert_eq!(misses_init, 0);

        let (rec_beta, _) = engine.pop_and_lease(1, 60).expect("expected beta");
        assert_eq!(rec_beta.payload(), b"cold_payload_beta");

        let (rec_alpha, _) = engine.pop_and_lease(1, 60).expect("expected alpha");
        assert_eq!(rec_alpha.payload(), b"cold_payload_alpha");

        let (hits, misses, _) = engine.state.payload_cache_stats();
        assert_eq!(hits, 0, "Cold restart should not have in-memory hits");
        assert_eq!(misses, 2, "Cold restart should fall back to disk read on miss");
    }
}

#[test]
fn test_terminal_eviction_on_ack_and_dead_letter() {
    let dir = temp_dir();
    let mut engine = Queue::open(&dir);

    let id1 = engine.push(b"payload_1".to_vec(), 1);
    let id2 = engine.push(b"payload_2".to_vec(), 1);
    assert_eq!(engine.state.payload_cache.len(), 2);

    // Pop and ack id1
    let (rec1, _) = engine.pop_and_lease(42, 60).unwrap();
    assert_eq!(rec1.id(), id1);
    engine.ack(id1, 42).unwrap();
    assert_eq!(engine.state.payload_cache.len(), 1);

    // Pop and nack id2 until it is given up
    let (rec2, _) = engine.pop_and_lease(42, 60).unwrap();
    assert_eq!(rec2.id(), id2);
    assert_eq!(engine.nack(id2, 42), Ok(true));
    assert_eq!(engine.state.payload_cache.len(), 1, "Retried task should remain cached");

    let _ = engine.pop_and_lease(42, 60).unwrap();
    assert_eq!(engine.nack(id2, 42), Ok(true));

    let _ = engine.pop_and_lease(42, 60).unwrap();
    assert_eq!(engine.nack(id2, 42), Ok(false));

    assert_eq!(engine.state.payload_cache.len(), 0, "Dead-lettered task must be evicted");
}

// ---------------------------------------------------------------------------
// Compaction
// ---------------------------------------------------------------------------

#[test]
fn test_compaction_logical_correctness() {
    let dir = temp_dir();

    // Threshold 100 bytes
    {
        let mut wal = Log::open(&dir, Some(100));

        // Seg 1: Task 1 (Created -> Acked, terminal: must be purged)
        wal.append(&Record::new(1, OpType::Created, 1, vec![1; 120])); // size 139 > 100
        wal.append(&Record::new(1, OpType::Acked, 1, vec![])); // triggers Seg 2

        // Seg 2: Task 2 (Created -> DeadLettered, terminal: must be purged)
        wal.append(&Record::new(2, OpType::Created, 1, vec![2; 120])); // triggers Seg 3
        wal.append(&Record::new(2, OpType::DeadLettered, 1, vec![3]));

        // Seg 3: Task 3 (Created) + Task 4 (Created -> Leased)
        wal.append(&Record::new(3, OpType::Created, 1, vec![3; 10]));
        wal.append(&Record::new(4, OpType::Created, 1, vec![4; 10]));
        wal.append(&Record::new(4, OpType::Leased, 1, vec![0; 10]));

        // Seg 4: Active segment (not compacted)
        wal.append(&Record::new(99, OpType::Created, 1, vec![99; 50])); // triggers Seg 4 (active)
        assert_eq!(wal.wal.active_segment_id(), 4);

        // Execute compaction on closed segments
        wal.compact().unwrap();
    }

    // Verify records present in compacted segment 1
    let _wal = Log::open(&dir, Some(100));
    let all_records = iter_all(&dir);

    let compacted_records: Vec<_> =
        all_records.iter().filter(|(seg, _, _)| *seg == 1).map(|(_, _, rec)| rec.clone()).collect();

    let compacted_ids: Vec<u64> = compacted_records.iter().map(|r| r.id()).collect();

    // Task 1 and Task 2 (terminal) must be ABSENT
    assert!(!compacted_ids.contains(&1), "Task 1 (Acked) should be purged");
    assert!(!compacted_ids.contains(&2), "Task 2 (DeadLettered) should be purged");

    // Task 3 must be present with OpType::Created
    let rec3 = compacted_records.iter().find(|r| r.id() == 3).expect("Task 3 missing");
    assert_eq!(rec3.op_type(), OpType::Created);

    // Task 4 must be present with only the latest event (OpType::Leased)
    let rec4 = compacted_records.iter().find(|r| r.id() == 4).expect("Task 4 missing");
    assert_eq!(rec4.op_type(), OpType::Leased);
}

#[test]
fn test_compaction_payload_preservation() {
    let dir = temp_dir();
    let original_payload = b"test_payload_intact_1234567890_bytes_check".to_vec();

    {
        let mut wal = Log::open(&dir, Some(50));
        // Write to segment 1 (payload 42 bytes + 19 header = 61 bytes > 50)
        let rec = Record::new(42, OpType::Created, 2, original_payload.clone());
        wal.append(&rec);

        // Second write forces rotation to segment 2 (active)
        wal.append(&Record::new(999, OpType::Created, 1, vec![0; 60]));
        assert_eq!(wal.wal.active_segment_id(), 2);

        // Compact segment 1
        wal.compact().unwrap();
    }

    // Read after compaction
    let _wal = Log::open(&dir, Some(50));
    let records = iter_all(&dir);

    let rec42 = records
        .iter()
        .find(|(_, _, r)| r.id() == 42)
        .map(|(_, _, r)| r)
        .expect("Task 42 must be present after compaction");

    assert_eq!(rec42.payload(), &original_payload[..], "Payload must match byte-for-byte");
}

#[test]
fn test_compaction_deduplication_intermediate_events() {
    let dir = temp_dir();

    {
        let mut wal = Log::open(&dir, Some(100));
        // ID 10 receives Created then Leased in the same segment 1
        wal.append(&Record::new(10, OpType::Created, 1, vec![1; 20]));
        wal.append(&Record::new(10, OpType::Leased, 1, vec![2; 80])); // size > 100

        // Force rotation to segment 2 (active)
        wal.append(&Record::new(999, OpType::Created, 1, vec![0; 100]));
        assert_eq!(wal.wal.active_segment_id(), 2);

        wal.compact().unwrap();
    }

    let _wal = Log::open(&dir, Some(100));
    let records = iter_all(&dir);

    // Count how many times ID 10 appears in compacted segment 1
    let id_10_records: Vec<_> =
        records.iter().filter(|(seg, _, r)| *seg == 1 && r.id() == 10).collect();

    assert_eq!(id_10_records.len(), 1, "Expected exactly one consolidated record for ID 10");
    assert_eq!(
        id_10_records[0].2.op_type(),
        OpType::Leased,
        "The consolidated record must be the latest event"
    );
}

#[test]
fn test_compaction_active_segment_isolation() {
    let dir = temp_dir();
    let mut engine = Queue::fresh(&dir, Some(60));

    // Task 1: 50 bytes + 19 header = 69 bytes > 60 -> Seg 1
    let id1 = engine.push(vec![1; 50], 1);
    // Task 2: Rotates to segment 2 (active)
    let id2 = engine.push(vec![2; 50], 1);
    // Task 3: Rotates to segment 3 (active)
    let id3 = engine.push(vec![3; 50], 1);

    // Compact closed segments (1 and 2)
    let compacted = engine.compact();
    assert!(compacted, "Compaction should execute on closed segments");

    // Write to active segment 3 after compaction
    let id4 = engine.push(b"task4_post_compaction".to_vec(), 1);

    // Verify all tasks are present in ready queue
    let (ready, _) = engine.status();
    assert_eq!(ready, 4, "All tasks in ready queue must be intact");

    assert_eq!(engine.pop_and_lease(1, 10).unwrap().0.id(), id1);
    assert_eq!(engine.pop_and_lease(1, 10).unwrap().0.id(), id2);
    assert_eq!(engine.pop_and_lease(1, 10).unwrap().0.id(), id3);
    assert_eq!(engine.pop_and_lease(1, 10).unwrap().0.id(), id4);
}

#[test]
fn test_compaction_no_op_single_segment() {
    let dir = temp_dir();
    let mut wal = Log::open(&dir, None);

    wal.append(&Record::new(1, OpType::Created, 1, vec![1, 2, 3]));
    assert_eq!(wal.wal.active_segment_id(), 1);

    // Only active segment 1 exists: no closed segments to compact
    assert!(wal.compact().is_none(), "Must return None (no-op)");
}

#[test]
fn test_compaction_crash_during_write() {
    let dir = temp_dir();

    {
        let mut wal = Log::open(&dir, Some(50));
        wal.append(&Record::new(1, OpType::Created, 1, vec![1; 40]));
        wal.append(&Record::new(2, OpType::Created, 1, vec![2; 40])); // seg 2
        wal.append(&Record::new(3, OpType::Created, 1, vec![3; 40])); // seg 3
    }

    // A partial `.compacting` file left from a crash
    dir.borrow_mut().write("nesso.00001.compacting", &[0x4E, 0x00, 0x01]);

    // On open, temporary leftovers are cleaned up and all original segments recovered
    let _wal = Log::open(&dir, Some(50));
    assert_eq!(iter_all(&dir).len(), 3, "All 3 original records must survive");
    assert!(
        !dir.borrow().has("nesso.00001.compacting"),
        "Temporary .compacting file must be cleaned up on open"
    );
}

#[test]
fn test_compaction_crash_before_rename() {
    let dir = temp_dir();

    {
        let mut wal = Log::open(&dir, Some(50));
        wal.append(&Record::new(10, OpType::Created, 1, vec![1; 40]));
        wal.append(&Record::new(20, OpType::Created, 1, vec![2; 40]));
        wal.append(&Record::new(30, OpType::Created, 1, vec![3; 40]));
    }

    // A valid temporary file not yet renamed
    let rec = Record::new(10, OpType::Created, 1, vec![1; 40]);
    dir.borrow_mut().write("nesso.00001.compacting", &rec.encode());

    let _wal = Log::open(&dir, Some(50));
    assert_eq!(
        iter_all(&dir).len(),
        3,
        "Original closed segments must remain truth before rename"
    );
}

#[test]
fn test_compaction_atomic_rename() {
    let dir = temp_dir();

    let mut wal = Log::open(&dir, Some(50));
    wal.append(&Record::new(1, OpType::Created, 1, vec![1; 40])); // size 59 > 50
    wal.append(&Record::new(2, OpType::Created, 1, vec![2; 40])); // triggers seg 2 (active)
    assert_eq!(wal.wal.active_segment_id(), 2);

    // Execute compaction
    let stats = wal.compact().expect("Compaction should succeed");
    assert!(stats.surviving_records >= 1);
    assert_eq!(stats.new_segment_id, 1);

    // The file nesso.00001.compacting must no longer exist
    assert!(!dir.borrow().has("nesso.00001.compacting"));
    // The file nesso.00001.wal must exist and be valid
    assert!(dir.borrow().has("nesso.00001.wal"));
}

#[test]
fn test_compaction_engine_index_remapping() {
    let dir = temp_dir();
    let mut engine = Queue::fresh(&dir, Some(50));

    let id1 = engine.push(b"first_payload".to_vec(), 1);
    // Rotate segment with a second large push
    let _id2 = engine.push(vec![2; 50], 1);

    // Trigger compaction
    engine.compact();

    let new_offset = *engine.state.data_index.get(&id1).unwrap();

    // In-memory offset must be updated to point to compacted segment 1
    assert_eq!(new_offset.0, 1, "Must be in segment 1");
    // Verify that read_at at the new coordinates retrieves the exact payload
    let read_rec = engine.reader.read_at(new_offset.0, new_offset.1).unwrap().unwrap();
    assert_eq!(read_rec.payload(), b"first_payload");
}

#[test]
fn test_compaction_engine_recovery() {
    let dir = temp_dir();

    let id1;
    let id2;
    {
        let mut engine = Queue::fresh(&dir, Some(50));
        id1 = engine.push(b"task_1_payload".to_vec(), 1);
        id2 = engine.push(vec![2; 60], 2);

        // Trigger compaction
        engine.compact();
    }

    let mut recovered_engine = Queue::open(&dir);
    let (ready, leased) = recovered_engine.status();
    assert_eq!(ready, 2);
    assert_eq!(leased, 0);

    // Pop and verify priority ordering and payload integrity
    let (rec2, _) = recovered_engine.pop_and_lease(10, 10).unwrap();
    assert_eq!(rec2.id(), id2);
    assert_eq!(rec2.payload(), &vec![2; 60][..]);

    let (rec1, _) = recovered_engine.pop_and_lease(10, 10).unwrap();
    assert_eq!(rec1.id(), id1);
    assert_eq!(rec1.payload(), b"task_1_payload");
}

#[test]
fn test_compaction_multi_segment_global_dedup() {
    let dir = temp_dir();

    // Threshold 60 bytes for rapid rotations
    {
        let mut wal = Log::open(&dir, Some(60));

        // Seg 1:
        // Task 10: Created (global survivor)
        // Task 20: Created (will be Acked in Seg 3)
        wal.append(&Record::new(10, OpType::Created, 1, vec![10; 10]));
        wal.append(&Record::new(20, OpType::Created, 1, vec![20; 50])); // size > 60

        // Seg 2:
        // Task 10 receives Leased in Seg 2 (supersedes Created in Seg 1)
        // Task 30: Created (will be DeadLettered in Seg 3)
        wal.append(&Record::new(10, OpType::Leased, 1, vec![10; 10])); // triggers Seg 2
        wal.append(&Record::new(30, OpType::Created, 1, vec![30; 50])); // size > 60

        // Seg 3:
        // Task 20 receives Acked (terminal, started in Seg 1)
        // Task 30 receives DeadLettered (terminal, started in Seg 2)
        // Task 10 receives Expired in Seg 3 (supersedes Leased in Seg 2: global latest state)
        wal.append(&Record::new(20, OpType::Acked, 1, vec![])); // triggers Seg 3
        wal.append(&Record::new(30, OpType::DeadLettered, 1, vec![1]));
        wal.append(&Record::new(10, OpType::Expired, 1, vec![1]));
        wal.append(&Record::new(40, OpType::Created, 1, vec![40; 50])); // size > 60

        // Seg 4: Active segment (not compacted)
        wal.append(&Record::new(99, OpType::Created, 1, vec![99; 20])); // triggers Seg 4 (active)
        assert_eq!(wal.wal.active_segment_id(), 4);

        // Execute compaction on closed segments (1, 2, 3)
        let stats = wal.compact().expect("Compaction should produce stats");
        assert_eq!(stats.closed_segments_compacted, 3);
        assert_eq!(stats.surviving_records, 2); // Task 10 and Task 40
    }

    // Segments 2 and 3 must have been removed
    assert!(!dir.borrow().has("nesso.00002.wal"));
    assert!(!dir.borrow().has("nesso.00003.wal"));
    // Segment 1 must exist (compacted) and Segment 4 must exist (intact active segment)
    assert!(dir.borrow().has("nesso.00001.wal"));
    assert!(dir.borrow().has("nesso.00004.wal"));

    // Verify records inside compacted segment 1
    let _wal = Log::open(&dir, Some(60));
    let all_records = iter_all(&dir);

    let seg1_records: Vec<_> =
        all_records.iter().filter(|(seg, _, _)| *seg == 1).map(|(_, _, r)| r.clone()).collect();

    let seg1_ids: Vec<u64> = seg1_records.iter().map(|r| r.id()).collect();

    // Task 20 (Acked in seg 3) and Task 30 (DeadLettered in seg 3) must be ABSENT
    assert!(!seg1_ids.contains(&20), "Task 20 must be purged globally");
    assert!(!seg1_ids.contains(&30), "Task 30 must be purged globally");

    // Task 10 must appear exactly ONCE, reflecting its latest global state (Expired)
    let task10_entries: Vec<_> = seg1_records.iter().filter(|r| r.id() == 10).collect();
    assert_eq!(task10_entries.len(), 1, "Task 10 must appear exactly once");
    assert_eq!(
        task10_entries[0].op_type(),
        OpType::Expired,
        "Task 10 must have global latest state (Expired)"
    );

    // Task 40 must be present with Created
    let task40_entries: Vec<_> = seg1_records.iter().filter(|r| r.id() == 40).collect();
    assert_eq!(task40_entries.len(), 1);
    assert_eq!(task40_entries[0].op_type(), OpType::Created);

    // Active segment 4: must only contain Task 99
    let seg4_records: Vec<_> =
        all_records.iter().filter(|(seg, _, _)| *seg == 4).map(|(_, _, r)| r.clone()).collect();
    assert_eq!(seg4_records.len(), 1);
    assert_eq!(seg4_records[0].id(), 99);
}

#[test]
fn test_compaction_lru_cache_invalidation_stale_inode() {
    let dir = temp_dir();
    let mut engine = Queue::fresh(&dir, Some(100));

    // 1. Task 2 (priority 2, filler task to be acked) written at offset 0
    let id2 = engine.push(b"filler_to_ack".to_vec(), 2);
    // 2. Task 1 (priority 1, target keeper task) written at offset > 0
    let id1 = engine.push(b"target_to_keep".to_vec(), 1);

    let (old_seg1, old_off1) = *engine.state.data_index.get(&id1).unwrap();
    assert_eq!(old_seg1, 1);
    assert!(old_off1 > 0, "Task 1 must be at offset > 0 in original segment");

    // Warm up the reader, which opens the original file of segment 1.
    let warm_read = engine.reader.read_at(old_seg1, old_off1).unwrap().unwrap();
    assert_eq!(warm_read.payload(), b"target_to_keep");

    // Pop and ack Task 2 within segment 1 (exceeding the 100 bytes threshold)
    let (pop_rec, _) = engine.pop_and_lease(42, 10).unwrap();
    assert_eq!(pop_rec.id(), id2);
    engine.ack(id2, 42).unwrap();

    // Subsequent write forces segment rotation to segment 2 (active, not compacted)
    let _id_seg2 = engine.push(vec![99; 50], 1);
    assert_eq!(engine.state.wal.active_segment_id(), 2);

    assert!(engine.compact());

    // Verify new in-memory offset for id1: must now be 0
    let (new_seg1, new_off1) = *engine.state.data_index.get(&id1).unwrap();
    assert_eq!(new_seg1, 1);
    assert_eq!(new_off1, 0, "Task 1 must now be at offset 0 in compacted segment");

    // The old file held Task 2 at offset 0; the new file holds Task 1 there.
    let fresh_read = engine.reader.read_at(new_seg1, new_off1).unwrap().expect("Record must exist");
    assert_eq!(fresh_read.id(), id1, "Must read id1 from fresh inode, NOT stale id2 from old fd");
    assert_eq!(fresh_read.payload(), b"target_to_keep");

    // Verify pop_and_lease end-to-end
    let (pop_final, _) = engine.pop_and_lease(99, 10).unwrap();
    assert_eq!(pop_final.id(), id1);
    assert_eq!(pop_final.payload(), b"target_to_keep");
}

#[test]
fn test_compaction_repeated_cycles() {
    let dir = temp_dir();

    let mut surviving_tasks = Vec::new();

    {
        let mut engine = Queue::fresh(&dir, Some(80));

        for cycle in 0..5 {
            // 1. Create a task that will be completed (Acked) with priority 3
            let doomed_payload = format!("doomed_cycle_{}", cycle).into_bytes();
            let doomed_id = engine.push(doomed_payload, 3);

            // 2. Create a keeper task that must survive with priority 2
            let keeper_payload = format!("keeper_cycle_{}", cycle).into_bytes();
            let keeper_id = engine.push(keeper_payload.clone(), 2);
            surviving_tasks.push((keeper_id, keeper_payload));

            // 3. Pop and ack the doomed task (priority 3 popped first)
            let (popped, _) = engine.pop_and_lease(42, 10).unwrap();
            assert_eq!(popped.id(), doomed_id);
            engine.ack(doomed_id, 42).unwrap();

            // 4. Force segment rotation with a priority 1 transition task to seal current segment
            let _rot_id = engine.push(vec![cycle as u8; 50], 1);

            // 5. Execute compaction on closed segments
            let compacted = engine.compact();
            assert!(compacted, "Compaction should succeed on closed segments in cycle {}", cycle);

            // 6. Verify that all accumulated keepers are readable using updated offsets
            for &(k_id, ref k_payload) in &surviving_tasks {
                let (seg, off) = *engine.state.data_index.get(&k_id).unwrap();
                let rec = engine.reader.read_at(seg, off).unwrap().expect("Keeper must be readable");
                assert_eq!(rec.id(), k_id);
                assert_eq!(rec.payload(), &k_payload[..]);
            }
        }
    }

    // 7. Cold restart: verify full crash recovery after all compaction cycles
    let mut recovered_engine = Queue::open(&dir);
    let (ready_count, leased_count) = recovered_engine.status();
    // ready_count must contain all keepers (5 with pri 2) + the 5 rotation records (with pri 1)
    assert_eq!(leased_count, 0);
    assert_eq!(ready_count, 10);

    // Pop the 5 highest priority tasks (the keepers with priority 2)
    for _ in 0..5 {
        let (rec, _) = recovered_engine.pop_and_lease(99, 10).unwrap();
        assert_eq!(rec.priority(), 2);
        let pos = surviving_tasks
            .iter()
            .position(|(id, _)| *id == rec.id())
            .expect("Popped task must be a keeper");
        let (_, expected_payload) = surviving_tasks.remove(pos);
        assert_eq!(rec.payload(), &expected_payload[..]);
    }
    assert!(surviving_tasks.is_empty(), "All keeper tasks must be recovered and consumed intact");
}

#[test]
fn test_compaction_ack_during_phase1_no_resurrection() {
    let dir = temp_dir();
    let mut engine = Queue::fresh(&dir, Some(100));

    // Create Task 1 in segment 1 (priority 3, so popped first)
    let id_target = engine.push(b"target_task_to_ack_concurrently".to_vec(), 3);

    // Force rotation by creating filler tasks into segment 2 and 3
    let _id_filler1 = engine.push(vec![1; 90], 1);
    let _id_filler2 = engine.push(vec![2; 90], 1);
    let _id_filler3 = engine.push(vec![3; 90], 1);

    assert!(engine.state.wal.active_segment_id() >= 3, "Active segment should be at least 3");

    let names = dir.borrow().list();
    let closed_segments = Wal::plan_compaction(&names, engine.state.wal.active_segment_id())
        .expect("Should have closed segments");

    // Phase 1 scans closed segments: at this moment id_target is NOT yet acked!
    let compaction = Wal::execute_compaction_phase1(&segments(&dir, &closed_segments));
    dir.borrow_mut().write(&compacting_file_name(), &compaction.bytes);
    assert!(
        compaction.new_offsets.contains_key(&id_target),
        "Phase 1 captured id_target as live survivor"
    );

    // NOW, client pops and ACKs id_target on the active segment (before Phase 2)!
    let (popped, _) = engine.pop_and_lease(42, 10).unwrap();
    assert_eq!(popped.id(), id_target);
    engine.ack(id_target, 42).unwrap();
    assert!(!engine.state.data_index.contains_key(&id_target));

    // NOW execute Phase 2:
    swap_in(&dir, &closed_segments);
    engine.state.apply_compaction(
        &closed_segments,
        &compaction.new_offsets,
        &compaction.payload_offsets,
    );
    engine.reader.clear_cache();

    assert!(
        !engine.state.data_index.contains_key(&id_target),
        "Task MUST NOT be resurrected in data_index"
    );
    let (ack_seg, _) = engine.state.index.get(&id_target).copied().unwrap();
    assert!(
        !closed_segments.contains(&ack_seg),
        "Task index must still point to active segment Acked record"
    );

    // Calling pop_and_lease must NOT return id_target
    let (pop_next, _) = engine.pop_and_lease(42, 10).unwrap();
    assert_ne!(pop_next.id(), id_target, "Popped task must not be the acked task");
    engine.ack(pop_next.id(), 42).unwrap();

    // Cold crash recovery
    let mut recovered_engine = Queue::open(&dir);
    let (ready, leased) = recovered_engine.status();
    assert_eq!(leased, 0);
    // Should only have the remaining filler tasks, id_target must NOT exist
    for _ in 0..ready {
        let (rec, _) = recovered_engine.pop_and_lease(99, 10).unwrap();
        assert_ne!(rec.id(), id_target, "Recovered engine must not pop acked task");
    }
}

#[test]
fn test_compaction_segment_rotation_during_phase1() {
    let dir = temp_dir();
    let mut engine = Queue::fresh(&dir, Some(80));

    // Create tasks in Segment 1 and Segment 2
    let id_early1 = engine.push(b"early_task_1".to_vec(), 1);
    let id_early2 = engine.push(vec![1; 70], 1); // forces Seg 1 over threshold
    let _id_seg2 = engine.push(vec![2; 70], 1); // rotates to Seg 2, forces Seg 2 over threshold
    let _id_seg3 = engine.push(vec![3; 70], 1); // rotates to Seg 3 (active)

    let active_seg = engine.state.wal.active_segment_id();
    assert_eq!(active_seg, 3);

    // Plan closed segments: [1, 2]
    let names = dir.borrow().list();
    let closed_segments = Wal::plan_compaction(&names, active_seg).unwrap();
    assert_eq!(closed_segments, vec![1, 2]);

    // Run Phase 1
    let compaction = Wal::execute_compaction_phase1(&segments(&dir, &closed_segments));
    dir.borrow_mut().write(&compacting_file_name(), &compaction.bytes);

    // WHILE Phase 1 has completed its scan, writers cause MULTIPLE rotations!
    // Seg 3 -> Seg 4 -> Seg 5
    let id_mid1 = engine.push(vec![4; 70], 1); // forces Seg 4
    let id_mid2 = engine.push(vec![5; 70], 1); // forces Seg 5 (now active)
    assert_eq!(engine.state.wal.active_segment_id(), 5);

    // Now run Phase 2 (atomic rename of Seg 1, unlinking of Seg 2)
    swap_in(&dir, &closed_segments);
    engine.state.apply_compaction(
        &closed_segments,
        &compaction.new_offsets,
        &compaction.payload_offsets,
    );
    engine.reader.clear_cache();

    // Seg 1 exists (compacted), Seg 2 was unlinked, Seg 3, 4, 5 MUST STILL EXIST!
    assert!(dir.borrow().has("nesso.00001.wal"));
    assert!(!dir.borrow().has("nesso.00002.wal"));
    assert!(dir.borrow().has("nesso.00003.wal"));
    assert!(dir.borrow().has("nesso.00004.wal"));
    assert!(dir.borrow().has("nesso.00005.wal"));

    // Verify that early tasks point to Seg 1
    assert_eq!(engine.state.data_index.get(&id_early1).unwrap().0, 1);
    assert_eq!(engine.state.data_index.get(&id_early2).unwrap().0, 1);
    // Verify mid tasks still point to their rotated segments
    let (seg_mid1, _) = *engine.state.data_index.get(&id_mid1).unwrap();
    let (seg_mid2, _) = *engine.state.data_index.get(&id_mid2).unwrap();
    assert!(seg_mid1 >= 3, "Must not be overwritten to segment 1");
    assert!(seg_mid2 >= 3, "Must not be overwritten to segment 1");

    // Cold restart
    let recovered_engine = Queue::open(&dir);
    let (ready, _) = recovered_engine.status();
    assert_eq!(ready, 6); // id_early1, id_early2, _id_seg2, _id_seg3, id_mid1, id_mid2
}

#[test]
fn test_reproduce_compaction_empty_payload_defect() {
    let dir = temp_dir();
    let mut engine = Queue::fresh(&dir, Some(150));

    // Push task with EMPTY payload
    let empty_payload = Vec::new();
    let id = engine.push(empty_payload.clone(), 10);

    // Pop and lease the task
    let (rec, _) = engine.pop_and_lease(100, 3600).unwrap();
    assert_eq!(rec.id(), id);
    assert_eq!(rec.payload(), &empty_payload[..]);

    // Push filler to force segment rollover
    let filler = vec![0xAA; 120];
    let _ = engine.push(filler.clone(), 1);
    let _ = engine.push(filler.clone(), 1);

    assert!(engine.state.wal.active_segment_id() >= 2);

    // Compact closed segments
    assert!(engine.compact());

    // Clear payload cache to force cold disk read
    engine.state.clear_payload_cache();

    // Nack the task: returns to ready queue
    engine.nack(id, 100).unwrap();

    // Pop the task again
    let (rec2, retries) = engine.pop_and_lease(200, 60).unwrap();
    assert_eq!(rec2.id(), id);
    assert_eq!(retries, 1);
    assert_eq!(rec2.payload(), &empty_payload[..], "Popped payload must be empty (0 bytes)");
}

#[test]
fn test_compaction_non_contiguous_interleaved_states() {
    let dir = temp_dir();

    // A small segment size (180 bytes) forces rotation across 4+ segments
    let mut engine = Queue::fresh(&dir, Some(180));

    let mut expected_payloads: HashMap<u64, Vec<u8>> = HashMap::new();
    let mut expected_retries: HashMap<u64, u8> = HashMap::new();

    let mut group_b_ids = Vec::new();
    let mut group_c_ids = Vec::new();
    let mut group_d_ids = Vec::new();
    let mut group_e_ids = Vec::new();
    let mut group_a_ids = Vec::new();

    let mut filler_ids = Vec::new();

    // Push tasks with rotation-forcing filler interleaved so they span 4+ segments
    for cycle in 0..4 {
        // Group B: will be Leased
        let p_b = format!("payload_b_leased_cycle_{}_bytes_data", cycle).into_bytes();
        let id_b = engine.push(p_b.clone(), 20);
        expected_payloads.insert(id_b, p_b);
        expected_retries.insert(id_b, 0);
        group_b_ids.push(id_b);

        // Group C: will be Nacked
        let p_c = format!("payload_c_nacked_cycle_{}_bytes_data", cycle).into_bytes();
        let id_c = engine.push(p_c.clone(), 20);
        expected_payloads.insert(id_c, p_c);
        expected_retries.insert(id_c, 1);
        group_c_ids.push(id_c);

        // Group D: will be Expired
        let p_d = format!("payload_d_expired_cycle_{}_bytes_data", cycle).into_bytes();
        let id_d = engine.push(p_d.clone(), 20);
        expected_payloads.insert(id_d, p_d);
        expected_retries.insert(id_d, 1);
        group_d_ids.push(id_d);

        // Group E: will be Acked
        let p_e = format!("payload_e_acked_cycle_{}_bytes_data", cycle).into_bytes();
        let id_e = engine.push(p_e, 20);
        group_e_ids.push(id_e);

        // Group A: remains Created (priority 10 so it isn't popped during the transition phase)
        let p_a = format!("payload_a_created_cycle_{}_bytes_data", cycle).into_bytes();
        let id_a = engine.push(p_a.clone(), 10);
        expected_payloads.insert(id_a, p_a);
        expected_retries.insert(id_a, 0);
        group_a_ids.push(id_a);

        // Force segment rotation with filler
        let filler = vec![0xDD; 90];
        let id_f = engine.push(filler, 1);
        filler_ids.push(id_f);
    }

    // Now transition Group B, C, D, E (they have priority 20, so they pop before Group A)
    for _ in 0..16 {
        let (rec, _retries) = engine.pop_and_lease(100, 3600).unwrap();
        let id = rec.id();
        if group_b_ids.contains(&id) {
            // Keep active lease (TTL 3600s)
        } else if group_c_ids.contains(&id) {
            // Nack: retries becomes 1, re-enqueued
            engine.nack(id, 100).unwrap();
        } else if group_d_ids.contains(&id) {
            // Expire: record expired event, retries becomes 1, re-enqueued
            let late = engine.now + 3600;
            let record = engine.state.expiry_record(id, late).unwrap();
            assert_eq!((record.op_type(), record.payload()), (OpType::Expired, &[1u8][..]));
            write_frame(&engine.dir, &engine.state.wal, &record);
            assert_eq!(engine.state.expire(id, late, AppendOutcome::Written), Ok(true));
        } else if group_e_ids.contains(&id) {
            // Ack: terminal state
            engine.ack(id, 100).unwrap();
        }
    }

    // Push more filler to force rotation so earlier segments (1..=4) are completely closed
    for _ in 0..6 {
        let filler = vec![0xEE; 90];
        let id_f = engine.push(filler, 1);
        filler_ids.push(id_f);
    }

    let active_seg = engine.state.wal.active_segment_id();
    assert!(
        active_seg >= 5,
        "Expected active segment >= 5 across multiple rollovers, got {}",
        active_seg
    );

    // Execute compaction across closed segments (1..=active_seg-1)
    assert!(engine.compact(), "Compaction should execute successfully");

    // FORCIBLY clear the in-memory PayloadCache
    engine.state.clear_payload_cache();
    for &id in expected_payloads.keys() {
        assert!(
            engine.state.payload_cache.get(id).is_none(),
            "PayloadCache must be empty for task {}",
            id
        );
    }

    // Now pop all currently ready tasks from the queue
    let mut popped_ids = Vec::new();
    while let Some((rec, retries)) = engine.pop_and_lease(200, 60) {
        let id = rec.id();
        if filler_ids.contains(&id) {
            engine.ack(id, 200).unwrap();
            continue;
        }
        assert!(expected_payloads.contains_key(&id), "Popped unexpected task {}", id);
        let exp_payload = &expected_payloads[&id];
        assert_eq!(rec.payload(), &exp_payload[..], "Payload must match bit-exact for task {}", id);
        assert_eq!(
            retries, expected_retries[&id],
            "Retries must match expected count for task {}",
            id
        );
        popped_ids.push(id);
        engine.ack(id, 200).unwrap();
    }

    // Verify Group A, C, D were all popped and verified
    for id in group_a_ids.iter().chain(group_c_ids.iter()).chain(group_d_ids.iter()) {
        assert!(popped_ids.contains(id), "Task {} should have been popped and verified", id);
    }

    // Ack Group B tasks
    for &id in &group_b_ids {
        engine.ack(id, 100).unwrap();
    }

    let recovered_engine = Queue::open(&dir);
    let (_ready, leased) = recovered_engine.status();
    assert_eq!(leased, 0, "No active leases should remain after all were acked");
}

#[test]
fn test_compaction_wal_reader_all_lru_slots_invalidation() {
    let dir = temp_dir();

    // Threshold 80 bytes
    let mut engine = Queue::fresh(&dir, Some(80));

    // Create segments 1 through 9 (8 closed segments + segment 9 active)
    let mut seg_task_offsets = HashMap::new();
    for seg in 1..=8 {
        let payload = format!("target_task_in_segment_{}", seg).into_bytes();
        let id = engine.push(payload, 1);
        // Push filler to force rotation to next segment
        let filler = vec![0xAB; 70];
        let _ = engine.push(filler, 1);

        let (task_seg, task_off) = engine.state.data_index[&id];
        seg_task_offsets.insert(task_seg, (id, task_off));
    }

    // Trigger rotation to segment 9 so segments 1..=8 are ALL closed
    let _ = engine.push(vec![0xCC; 20], 1);

    let active_seg = engine.state.wal.active_segment_id();
    assert!(active_seg >= 9, "Expected active segment >= 9, got {}", active_seg);

    // Warm the reader across 8 distinct closed segments: filling all 8 LRU slots!
    for seg in 1..=8 {
        let &(id, off) = seg_task_offsets.get(&seg).unwrap();
        let record = engine.reader.read_at(seg, off).unwrap().expect("Record must be present");
        assert_eq!(record.id(), id);
    }

    // Verify all 8 slots in the LRU cache are populated
    assert_eq!(engine.reader.lru.cached_count(), 8, "All 8 LRU slots must be occupied");
    let cached_segs = engine.reader.lru.cached_segments();
    assert_eq!(cached_segs.len(), 8);
    for seg in 1..=8 {
        assert!(cached_segs.contains(&seg), "Segment {} must be cached", seg);
    }

    // Run compaction: consolidates closed segments 1..8 into segment 1
    assert!(engine.compact(), "Compaction must execute");

    // All 8 cached file handles must have been dropped!
    assert_eq!(
        engine.reader.lru.cached_count(),
        0,
        "clear_cache() must evict all 8 LRU slots post-compaction"
    );

    // Verify segments 2..8 have been deleted from disk
    for seg in 2..=8 {
        assert!(
            !dir.borrow().has(&segment_file_name(seg)),
            "Obsolete segment {} must be unlinked from filesystem",
            seg
        );
    }

    // Read surviving tasks from the new segment 1
    let first_id = seg_task_offsets.get(&1).unwrap().0;
    let (new_seg, new_off) = engine.state.data_index[&first_id];
    assert_eq!(new_seg, 1, "Compacted data_index must point to segment 1");

    let rec = engine
        .reader
        .read_at(1, new_off)
        .unwrap()
        .expect("Record must be readable from new segment 1");
    assert_eq!(rec.payload(), b"target_task_in_segment_1");

    // Reading segment 1 must populate exactly 1 LRU slot
    assert_eq!(engine.reader.lru.cached_count(), 1);
    assert_eq!(engine.reader.lru.cached_segments(), vec![1]);

    // A read of the deleted segment 2 must not reach a stale open file
    let err = engine.reader.read_at(2, 0).unwrap_err();
    assert_eq!(
        err.kind(),
        ErrorKind::NotFound,
        "Attempting to read deleted segment must return NotFound"
    );
}

#[test]
fn test_compaction_payload_cache_eviction_fallback() {
    let dir = temp_dir();

    // A small PayloadCache capacity of 5 entries
    let wal = open_wal(&dir, Some(150));
    let state = EngineState::new_with_cache_capacity(wal, 5);
    let mut engine = Queue { dir: dir.clone(), state, reader: Reader::new(&dir), now: 1_000_000 };

    // Push 4 tasks (IDs 1..=4) with distinct payloads
    let mut initial_payloads = HashMap::new();
    for i in 1..=4 {
        let p = format!("payload_cache_test_target_task_{}_unique_string", i).into_bytes();
        let id = engine.push(p.clone(), 10);
        initial_payloads.insert(id, p);
    }

    // Force segment rotation to close segment 1
    let filler = vec![0xCC; 100];
    let _ = engine.push(filler.clone(), 1);
    let _ = engine.push(filler, 1);

    assert!(engine.state.wal.active_segment_id() >= 2, "Must have closed segments");

    // Run compaction on closed segments
    assert!(engine.compact(), "Compaction must succeed");

    // Cause cache eviction: push 10 filler tasks to overflow the 5-entry capacity
    for i in 100..110 {
        let filler_payload = format!("filler_payload_to_cause_overflow_{}", i).into_bytes();
        let _ = engine.push(filler_payload, 1);
    }

    // Verify evictions occurred in PayloadCache
    let (_hits, misses_before, evictions) = engine.state.payload_cache_stats();
    assert!(evictions >= 5, "Expected at least 5 evictions, got {}", evictions);

    // Verify initial tasks (1..=4) are completely absent from PayloadCache
    for &id in initial_payloads.keys() {
        assert!(
            engine.state.payload_cache.get(id).is_none(),
            "Task {} must be evicted from PayloadCache",
            id
        );
    }

    // Pop the initial tasks (they have priority 10, higher than filler priority 1)
    for _ in 1..=4 {
        let (rec, retries) = engine.pop_and_lease(777, 60).expect("Task must be popped");
        let id = rec.id();
        assert!(
            initial_payloads.contains_key(&id),
            "Popped task {} must be one of the initial tasks",
            id
        );
        assert_eq!(
            rec.payload(),
            &initial_payloads[&id][..],
            "Payload must match bit-exact via disk fallback for task {}",
            id
        );
        assert_eq!(retries, 0);
        engine.ack(id, 777).unwrap();
    }

    // Assert that misses increased due to the fallback disk reads
    let (_hits, misses_after, _) = engine.state.payload_cache_stats();
    assert!(
        misses_after > misses_before,
        "Cache misses must increase when reading evicted payloads from disk"
    );
}

#[test]
fn test_compaction_keeps_what_a_restart_finds() {
    let dir = temp_dir();
    let mut engine = Queue::fresh(&dir, Some(120));
    for i in 0..12u8 {
        engine.push(vec![i; i as usize], i % 4);
    }
    for i in 0..6u32 {
        let (rec, _) = engine.pop_and_lease(i, 100 + i as u64).unwrap();
        match i % 3 {
            0 => engine.ack(rec.id(), i).unwrap(),
            1 => assert!(engine.nack(rec.id(), i).unwrap()),
            _ => {}
        }
    }
    engine.push(vec![0xFF; 120], 0);
    engine.push(vec![0xFE; 1], 0);

    let before = Queue::open(&dir);
    assert!(engine.compact());
    let after = Queue::open(&dir);
    assert_eq!(before.status(), after.status());
    assert_eq!(before.state.leased, after.state.leased);
    assert_eq!(before.state.next_id, after.state.next_id);

    let mut before = before;
    let mut after = after;
    assert!(before.state.index != after.state.index);
    // What waits comes out in the same order with the same retries, and the
    // payloads of the compacted log are the ones that were pushed.
    let mut fresh = Queue::open(&dir);
    loop {
        let a = before.state.ready_queue.pop();
        let b = after.pop_and_lease(9, 9);
        match (a, b) {
            (Some(task), Some((rec, retries))) => {
                assert_eq!((task.id, task.priority, task.retries), (rec.id(), rec.priority(), retries));
                let expected: Vec<u8> = match rec.id() {
                    13 => vec![0xFF; 120],
                    14 => vec![0xFE; 1],
                    id => vec![(id - 1) as u8; (id - 1) as usize],
                };
                assert_eq!(rec.payload(), &expected[..]);
            }
            (None, None) => break,
            _ => panic!("one queue is longer than the other"),
        }
    }
    fresh.state.clear_payload_cache();
    assert_eq!(fresh.status().0, 10);
}

// ---------------------------------------------------------------------------
// Crashes and corruption
// ---------------------------------------------------------------------------

#[test]
fn test_crash_phase1_partial_compacting_variants() {
    let dir = temp_dir();

    {
        let mut engine = Queue::open(&dir);
        engine.push(b"task-1-data".to_vec(), 10);
        engine.push(b"task-2-data".to_vec(), 20);
    }

    // Variant A: 0-byte .compacting file
    dir.borrow_mut().write("nesso.00001.compacting", &[]);
    {
        let mut engine = Queue::open(&dir);
        assert!(
            !dir.borrow().has("nesso.00001.compacting"),
            "0-byte .compacting file must be unlinked"
        );

        let t1 = engine.pop_and_lease(1, 60).expect("Task with priority 20 should pop");
        assert_eq!(t1.0.priority(), 20);
        assert_eq!(t1.0.payload(), b"task-2-data");

        let t2 = engine.pop_and_lease(1, 60).expect("Task with priority 10 should pop");
        assert_eq!(t2.0.priority(), 10);
        assert_eq!(t2.0.payload(), b"task-1-data");
    }

    // Variant B: Truncated header (10 bytes) in .compacting and an uncleaned .tmp file
    dir.borrow_mut().write(
        "nesso.00001.compacting",
        &[MAGIC_BYTE, 0x01, 0x02, 0x03, 0x04, 0x00, 0x01, 0x00, 0x00, 0x00],
    );
    dir.borrow_mut().write("nesso.00001.tmp", b"temporary unfinished state");
    {
        let _engine = Queue::open(&dir);
        assert!(
            !dir.borrow().has("nesso.00001.compacting"),
            "Truncated .compacting must be unlinked"
        );
        assert!(!dir.borrow().has("nesso.00001.tmp"), "Leftover .tmp file must be unlinked");
    }

    // Variant C: Full valid record in .compacting but before rename
    let rec = Record::new(999, OpType::Created, 100, b"uncommitted-record".to_vec());
    dir.borrow_mut().write("nesso.00001.compacting", &rec.encode());
    {
        let _engine = Queue::open(&dir);
        assert!(
            !dir.borrow().has("nesso.00001.compacting"),
            ".compacting before rename must be dropped"
        );

        // Uncommitted record 999 must NOT be in the system
        for (_, _, rec) in iter_all(&dir) {
            assert_ne!(rec.id(), 999, "Uncommitted compaction record must not be recovered");
        }
    }
}

#[test]
fn test_crash_phase2_post_rename_pre_unlink() {
    let dir = temp_dir();

    {
        let mut wal = Log::open(&dir, Some(50)); // 50 bytes threshold forces rotation

        // Segment 1: Task 1 (created), Task 2 (created)
        wal.append(&Record::new(1, OpType::Created, 10, vec![1; 20]));
        wal.append(&Record::new(2, OpType::Created, 10, vec![2; 20]));

        // Segment 2: Task 1 (acked), Task 3 (created)
        wal.append(&Record::new(1, OpType::Acked, 10, vec![]));
        wal.append(&Record::new(3, OpType::Created, 10, vec![3; 20]));

        // Segment 3: Task 3 (acked), Task 4 (created)
        wal.append(&Record::new(3, OpType::Acked, 10, vec![]));
        wal.append(&Record::new(4, OpType::Created, 10, vec![4; 20]));

        // Segment 4 (active): Task 5 (created)
        wal.append(&Record::new(5, OpType::Created, 10, vec![5; 20]));

        assert_eq!(wal.wal.active_segment_id(), 4);
    }

    // Execute Phase 1 on closed segments [1, 2, 3]
    let closed_segments = vec![1, 2, 3];
    let compaction = Wal::execute_compaction_phase1(&segments(&dir, &closed_segments));
    assert_eq!(compaction.stats.surviving_records, 2); // Task 2 and Task 4 survive
    assert_eq!(
        compaction.stats,
        CompactionStats { closed_segments_compacted: 3, surviving_records: 2, new_segment_id: 1 }
    );
    assert_eq!(compaction.new_offsets, HashMap::from([(2, 0), (4, 39)]));
    let mut survivors = Record::new(2, OpType::Created, 10, vec![2; 20]).encode();
    survivors.extend(Record::new(4, OpType::Created, 10, vec![4; 20]).encode());
    assert_eq!(survivors.len(), 78);
    assert_eq!(compaction.bytes, survivors, "The new segment holds the surviving records only");
    assert!(compaction.new_offsets.contains_key(&2));
    assert!(compaction.new_offsets.contains_key(&4));
    assert!(!compaction.new_offsets.contains_key(&1));
    assert!(!compaction.new_offsets.contains_key(&3));

    // The rename succeeds, BUT the crash occurs before the closed segments > 1 are removed
    dir.borrow_mut().write("nesso.00001.compacting", &compaction.bytes);
    dir.borrow_mut().rename("nesso.00001.compacting", "nesso.00001.wal");
    assert!(dir.borrow().has("nesso.00001.wal"));
    assert!(dir.borrow().has("nesso.00002.wal"));
    assert!(dir.borrow().has("nesso.00003.wal"));

    // Reopen: must clean up obsolete segments 2 and 3 and avoid resurrecting acked tasks 1 and 3
    let mut engine = Queue::open(&dir);

    assert!(!dir.borrow().has("nesso.00002.wal"), "Segment 2 must be unlinked post-crash");
    assert!(!dir.borrow().has("nesso.00003.wal"), "Segment 3 must be unlinked post-crash");

    assert_eq!(
        engine.drain(),
        vec![2, 4, 5],
        "Only active tasks 2, 4, 5 must be recovered; acked tasks 1 and 3 must not be resurrected"
    );
}

fn created(id: u64) -> Record {
    Record::new(id, OpType::Created, 10, vec![id as u8; 20])
}

fn acked(id: u64) -> Record {
    Record::new(id, OpType::Acked, 10, vec![])
}

fn segment_of(id: u64, records: &[Record]) -> Segment {
    Segment { id, bytes: records.iter().flat_map(|r| r.encode()).collect() }
}

#[test]
fn test_open_plan_goes_by_what_the_segments_hold() {
    let one = || segment_of(1, &[created(2), created(4)]);
    let two = || segment_of(2, &[acked(1), created(3)]);
    let three = || segment_of(3, &[acked(3), created(4)]);
    let four = || segment_of(4, &[created(5)]);

    // Task 4 is known to segment 1 and created in segment 3.
    let plan = Wal::plan_open(&vec![one(), two(), three(), four()]);
    assert_eq!(plan.obsolete, vec![2, 3]);
    assert_eq!(plan.active_segment_id, 4);

    // One of them has been deleted already.
    let plan = Wal::plan_open(&vec![one(), three(), four()]);
    assert_eq!(plan.obsolete, vec![3]);
    assert_eq!(plan.active_segment_id, 4);

    // All of them have.
    let plan = Wal::plan_open(&vec![one(), four()]);
    assert!(plan.obsolete.is_empty());
    assert_eq!(plan.active_segment_id, 4);

    // The last segment stays, whatever the segments hold: two that hold the same
    // record are no trace of a compaction.
    let plan = Wal::plan_open(&vec![segment_of(1, &[created(1)]), segment_of(2, &[created(1)])]);
    assert!(plan.obsolete.is_empty());
    assert_eq!(plan.active_segment_id, 2);

    // Segment 1 is not what a compaction makes of the others: it lacks task 6.
    let more = segment_of(3, &[acked(3), created(4), created(6)]);
    let plan = Wal::plan_open(&vec![one(), two(), more, four()]);
    assert!(plan.obsolete.is_empty());
    assert_eq!(plan.active_segment_id, 4);

    // It is not in the form of a compacted segment.
    let untidy = segment_of(1, &[created(4), created(2)]);
    let plan = Wal::plan_open(&vec![untidy, two(), three(), four()]);
    assert!(plan.obsolete.is_empty());
    assert_eq!(plan.active_segment_id, 4);

    // Nothing was compacted.
    let before = segment_of(1, &[created(1), created(2)]);
    let plan = Wal::plan_open(&vec![before, two(), three(), four()]);
    assert!(plan.obsolete.is_empty());
    assert_eq!(plan.active_segment_id, 4);

    // An empty directory, and one without the first segment.
    let plan = Wal::plan_open(&vec![]);
    assert!(plan.obsolete.is_empty());
    assert_eq!(plan.active_segment_id, 1);
    let plan = Wal::plan_open(&vec![two(), three()]);
    assert!(plan.obsolete.is_empty());
    assert_eq!(plan.active_segment_id, 3);
}

#[test]
fn test_opening_keeps_the_segments_of_an_ordinary_log() {
    // Two runs over one directory, of which the second did not replay the first.
    let dir = temp_dir();
    Log::open(&dir, Some(1)).append(&created(1));
    let mut log = Log::open(&dir, Some(1));
    assert_eq!(log.append(&created(1)), (2, 0));
    let lengths = [dir.borrow().len("nesso.00001.wal"), dir.borrow().len("nesso.00002.wal")];

    let log = Log::open(&dir, Some(1));
    assert_eq!(log.wal.active_segment_id(), 2);
    assert_eq!(log.wal.current_size(), lengths[1]);
    assert_eq!(dir.borrow().len("nesso.00001.wal"), lengths[0]);
    assert_eq!(iter_all(&dir).len(), 2);
}

#[test]
fn test_a_mark_counts_in_the_first_segment_only() {
    // A lease record with a byte behind the lease that looks like the mark of a
    // payload. No compaction writes to segment 2, so it is none.
    let mut lease = vec![0u8; 13];
    lease.extend_from_slice(b"P what follows");
    let log = vec![
        segment_of(1, &[created(1)]),
        segment_of(2, &[created(2), Record::new(2, OpType::Leased, 10, lease)]),
        segment_of(3, &[created(3)]),
    ];
    let dir = temp_dir();
    for segment in &log {
        dir.borrow_mut().write(&segment_file_name(segment.id), &segment.bytes);
    }
    let mut queue = Queue::open(&dir);
    assert_eq!(queue.state.data_index.get(&2), Some(&(2, 0)));
    assert!(queue.compact());
    assert_eq!(queue.state.data_index.get(&2), Some(&(1, 39)));
    queue = Queue::open(&dir);
    for id in 1..=3u64 {
        let (record, _) = queue.pop_and_lease(1, 60).unwrap();
        assert_eq!((record.id(), record.payload()), (id, &[id as u8; 20][..]));
    }
}

#[test]
fn test_payloads_move_with_their_records() {
    let log = vec![segment_of(1, &[created(1), created(2), acked(1)]), segment_of(2, &[created(3)])];
    let compaction = Wal::execute_compaction_phase1(&log);
    assert_eq!(compaction.new_offsets, HashMap::from([(2, 0), (3, 39)]));
    assert_eq!(compaction.payload_offsets, compaction.new_offsets);
}

#[test]
fn test_a_segment_is_listed_for_each_of_its_files() {
    let names: Vec<String> = ["nesso.00002.wal", "nesso.1.wal", "nesso.00001.wal", "nesso.00003.wal"]
        .iter()
        .map(|name| name.to_string())
        .collect();
    assert_eq!(Wal::survey(&names).segment_ids, vec![1, 1, 2, 3]);
    assert_eq!(Wal::plan_compaction(&names, 3), Some(vec![1, 1, 2]));
    assert_eq!(Wal::plan_compaction(&names, 1), None);
}

#[test]
fn test_closed_segments_that_stay_change_nothing() {
    // Tasks 1 and 3 have ended, task 2 is held. Nothing shows that segments 2 and 3
    // are superseded, and reading them once more changes nothing.
    let lease = |consumer: u32, retries: u8| {
        let mut payload = consumer.to_be_bytes().to_vec();
        payload.extend_from_slice(&u64::MAX.to_be_bytes());
        payload.push(retries);
        Record::new(2, OpType::Leased, 10, payload)
    };
    let log = [
        segment_of(1, &[created(1), created(2)]),
        segment_of(2, &[lease(7, 0), acked(1), created(3)]),
        segment_of(3, &[Record::new(2, OpType::Nacked, 10, vec![1]), lease(8, 1), acked(3)]),
        segment_of(4, &[created(5)]),
    ];
    let closed: Vec<Segment> =
        log[..3].iter().map(|s| Segment { id: s.id, bytes: s.bytes.clone() }).collect();
    let compaction = Wal::execute_compaction_phase1(&closed);
    assert_eq!(compaction.stats.surviving_records, 1);

    for from in 1..=3usize {
        let dir = temp_dir();
        dir.borrow_mut().write(&segment_file_name(1), &compaction.bytes);
        for segment in &log[from..] {
            dir.borrow_mut().write(&segment_file_name(segment.id), &segment.bytes);
        }
        let mut queue = Queue::open(&dir);
        assert_eq!(segment_ids(&dir).last(), Some(&4));
        assert_eq!(queue.status(), (1, 1));
        assert_eq!(queue.drain(), vec![5]);
        assert!(queue.nack(2, 8).unwrap());
        let (record, retries) = queue.pop_and_lease(1, 60).unwrap();
        assert_eq!((record.id(), record.payload(), retries), (2, &[2u8; 20][..], 2));
    }
}

#[test]
fn test_a_long_lease_record_carries_no_payload() {
    let dir = temp_dir();
    {
        let mut log = Log::open(&dir, None);
        assert_eq!(log.append(&Record::new(10, OpType::Created, 1, vec![7])), (1, 0));
        assert_eq!(log.append(&Record::new(10, OpType::Leased, 1, vec![2; 80])), (1, 20));
        assert_eq!(log.append(&Record::new(11, OpType::Created, 1, vec![8])), (1, 119));
        log.append(&Record::new(11, OpType::Nacked, 1, vec![1, 2, 3]));
    }
    // The lease is still running at first and has ended later.
    let mut queue = Queue::open_at(&dir, u64::MAX);
    assert_eq!(queue.state.data_index.get(&10), Some(&(1, 0)));
    assert_eq!(queue.state.data_index.get(&11), Some(&(1, 119)));
    queue.now = 1_000_000;
    let (record, _) = queue.pop_and_lease(1, 60).unwrap();
    assert_eq!((record.id(), record.payload()), (10, &[7u8][..]));
    let (record, retries) = queue.pop_and_lease(1, 60).unwrap();
    assert_eq!((record.id(), record.payload(), retries), (11, &[8u8][..], 1));
}

#[test]
fn test_torn_write_active_segment_tail_truncation() {
    let dir = temp_dir();

    // Push 5 valid tasks to active segment
    {
        let mut engine = Queue::open(&dir);
        for i in 1..=5 {
            engine.push(format!("payload-{}", i).into_bytes(), 10);
        }
    }

    let valid_len = dir.borrow().len("nesso.00001.wal");

    // A valid 19-byte header declaring payload_len = 120, but only 35 bytes of payload written
    let torn_rec = Record::new(999, OpType::Created, 10, vec![0xEE; 120]);
    let encoded = torn_rec.encode(); // 19 + 120 = 139 bytes
    let torn_slice = &encoded[..54]; // 19 header + 35 payload (partial)
    dir.borrow_mut().append("nesso.00001.wal", torn_slice);
    assert_eq!(dir.borrow().len("nesso.00001.wal"), valid_len + 54);

    // Reopen: the torn tail is detected and the file cut back to valid_len
    {
        let mut engine = Queue::open(&dir);
        assert_eq!(
            dir.borrow().len("nesso.00001.wal"),
            valid_len,
            "Active segment must be truncated to last valid frame offset"
        );

        // Push 3 new records: IDs 6, 7, 8
        for i in 6..=8 {
            engine.push(format!("payload-{}", i).into_bytes(), 10);
        }
    }

    // Reopen again: all 8 records must be recovered with zero loss
    {
        let mut engine = Queue::open(&dir);
        let mut popped = Vec::new();
        while let Some((rec, _)) = engine.pop_and_lease(1, 60) {
            popped.push((rec.id(), rec.payload().to_vec()));
        }

        assert_eq!(popped.len(), 8, "All 8 valid records must be recovered");
        for (idx, (id, payload)) in popped.iter().enumerate() {
            let expected_id = (idx + 1) as u64;
            let expected_payload = format!("payload-{}", expected_id).into_bytes();
            assert_eq!(*id, expected_id);
            assert_eq!(*payload, expected_payload);
        }
    }
}

#[test]
fn test_torn_write_closed_segment_boundary() {
    let dir = temp_dir();

    // Closed segment 1 with 3 valid records, plus 8 bytes of incomplete header at tail
    for i in 1..=3 {
        let rec = Record::new(i, OpType::Created, 5, format!("seg1-{}", i).into_bytes());
        dir.borrow_mut().append("nesso.00001.wal", &rec.encode());
    }
    dir.borrow_mut()
        .append("nesso.00001.wal", &[MAGIC_BYTE, 0x11, 0x22, 0x33, 0x44, 0x00, 0x05, 0x99]);

    // Closed segment 2 with 2 valid records, plus truncated payload at tail
    for i in 4..=5 {
        let rec = Record::new(i, OpType::Created, 5, format!("seg2-{}", i).into_bytes());
        dir.borrow_mut().append("nesso.00002.wal", &rec.encode());
    }
    let torn = Record::new(888, OpType::Created, 5, vec![0xAA; 60]);
    dir.borrow_mut().append("nesso.00002.wal", &torn.encode()[..34]); // 19 header + 15 payload

    // Active segment 3 with 2 valid records
    for i in 6..=7 {
        let rec = Record::new(i, OpType::Created, 5, format!("seg3-{}", i).into_bytes());
        dir.borrow_mut().append("nesso.00003.wal", &rec.encode());
    }

    // The replay skips partial bytes at segment boundaries
    let wal = Log::open(&dir, None);
    assert_eq!(wal.wal.active_segment_id(), 3);

    let all_records = iter_all(&dir);
    assert_eq!(
        all_records.len(),
        7,
        "Must recover all 7 valid records across the 3 segments"
    );

    let ids: Vec<u64> = all_records.iter().map(|(_, _, r)| r.id()).collect();
    assert_eq!(ids, vec![1, 2, 3, 4, 5, 6, 7]);

    // Verify engine recovery
    let mut engine = Queue::open(&dir);
    assert_eq!(engine.drain(), vec![1, 2, 3, 4, 5, 6, 7]);
}

#[test]
fn test_corrupted_header_magic_byte_variations() {
    let dir = temp_dir();
    let mut reader = Reader::new(&dir);

    // Case A: Magic byte corruption at segment start
    {
        let rec = Record::new(1, OpType::Created, 1, b"start-record".to_vec());
        let mut enc = rec.encode();
        enc[0] = 0x00; // Invalid magic byte
        dir.borrow_mut().write("nesso.00001.wal", &enc);

        let res = reader.read_at(1, 0);
        assert!(res.is_err(), "Invalid magic byte must return Err");
        let err = res.unwrap_err();
        assert_eq!(err.kind(), ErrorKind::InvalidData);
        assert_eq!(err, ReadFailure::Corrupted(ReadError::CorruptedMagicByte));
        assert!(Record::decode(&enc).is_none());
    }

    // Case B: Magic byte corruption in middle of segment
    {
        let rec1 = Record::new(1, OpType::Created, 1, b"rec-1".to_vec());
        let rec2 = Record::new(2, OpType::Created, 1, b"rec-2".to_vec());
        let rec3 = Record::new(3, OpType::Created, 1, b"rec-3".to_vec());

        let enc1 = rec1.encode();
        let mut enc2 = rec2.encode();
        enc2[0] = 0xFF; // Bad magic byte
        let enc3 = rec3.encode();

        let mut buf = Vec::new();
        let off1 = 0u64;
        buf.extend_from_slice(&enc1);
        let off2 = buf.len() as u64;
        buf.extend_from_slice(&enc2);
        let off3 = buf.len() as u64;
        buf.extend_from_slice(&enc3);
        dir.borrow_mut().write("nesso.00001.wal", &buf);

        let r1 = reader.read_at(1, off1).unwrap().expect("Record 1 should be readable");
        assert_eq!(r1.id(), 1);

        let r2 = reader.read_at(1, off2);
        assert!(r2.is_err());
        assert_eq!(r2.unwrap_err().kind(), ErrorKind::InvalidData);

        let r3 = reader.read_at(1, off3).unwrap().expect("Record 3 should be readable");
        assert_eq!(r3.id(), 3);
    }

    // Case C: Magic byte corruption at segment tail
    {
        let rec1 = Record::new(10, OpType::Created, 1, b"rec-10".to_vec());
        let rec2 = Record::new(20, OpType::Created, 1, b"rec-20".to_vec());
        let enc1 = rec1.encode();
        let mut enc2 = rec2.encode();
        enc2[0] = 0x4D; // Corrupt magic byte at tail

        let mut buf = Vec::new();
        buf.extend_from_slice(&enc1);
        buf.extend_from_slice(&enc2);
        dir.borrow_mut().write("nesso.00001.wal", &buf);

        // Opening truncates the tail corrupted record cleanly
        let wal = Log::open(&dir, None);
        assert_eq!(wal.wal.current_size(), enc1.len() as u64);
        assert_eq!(dir.borrow().len("nesso.00001.wal"), enc1.len() as u64);
    }
}

#[test]
fn test_corrupted_header_huge_payload_length_alloc_bound() {
    let dir = temp_dir();
    let mut reader = Reader::new(&dir);

    // Frame with payload_len = u32::MAX
    let mut header_u32_max = [0u8; HEADER_SIZE];
    header_u32_max[0] = MAGIC_BYTE;
    header_u32_max[5] = OpType::Created.to_byte();
    header_u32_max[6] = 1; // priority
    header_u32_max[7..15].copy_from_slice(&100u64.to_be_bytes());
    header_u32_max[15..19].copy_from_slice(&u32::MAX.to_be_bytes());

    // Frame with payload_len = 2 GB (0x80000000)
    let mut header_2gb = [0u8; HEADER_SIZE];
    header_2gb[0] = MAGIC_BYTE;
    header_2gb[5] = OpType::Created.to_byte();
    header_2gb[6] = 1;
    header_2gb[7..15].copy_from_slice(&200u64.to_be_bytes());
    header_2gb[15..19].copy_from_slice(&(2 * 1024 * 1024 * 1024u32).to_be_bytes());

    let mut buf = Vec::new();
    let off_u32_max = 0u64;
    buf.extend_from_slice(&header_u32_max);
    let off_2gb = buf.len() as u64;
    buf.extend_from_slice(&header_2gb);
    dir.borrow_mut().write("nesso.00001.wal", &buf);

    // 1. Bounds check of the reader
    let res1 = reader.read_at(1, off_u32_max);
    assert!(res1.is_err(), "u32::MAX payload_len must return Err");
    let err1 = res1.unwrap_err();
    assert_eq!(err1.kind(), ErrorKind::InvalidData);
    assert_eq!(err1, ReadFailure::Corrupted(ReadError::CorruptedPayloadLength));

    let res2 = reader.read_at(1, off_2gb);
    assert!(res2.is_err(), "2 GB payload_len must return Err");
    assert_eq!(res2.unwrap_err().kind(), ErrorKind::InvalidData);

    // 2. Record::decode bounds check
    assert!(
        Record::decode(&header_u32_max).is_none(),
        "Record::decode must reject u32::MAX without OOM"
    );
    assert!(Record::decode(&header_2gb).is_none(), "Record::decode must reject 2 GB without OOM");

    // 3. Bounds check of the replay
    let _wal = Log::open(&dir, None);
    assert!(iter_all(&dir).is_empty(), "Iter should skip corrupted frames without panicking");
}

#[test]
fn test_torn_payload_below_two_gigabytes_reads_as_nothing() {
    for (len, torn) in [
        (64 * 1024 * 1024u32, true),
        (64 * 1024 * 1024 + 1, true),
        (0x7fff_ffff, true),
        (0x8000_0000, false),
    ] {
        let mut header = [0u8; HEADER_SIZE];
        header[0] = MAGIC_BYTE;
        header[15..19].copy_from_slice(&len.to_be_bytes());
        if torn {
            assert!(matches!(WalReader::read_at(&header, 0), Ok(None)), "{len}");
        } else {
            assert!(matches!(
                WalReader::read_at(&header, 0),
                Err(ReadError::CorruptedPayloadLength)
            ));
        }
    }
}

#[test]
fn test_short_torn_payload_reads_as_nothing() {
    let frame = Record::new(1, OpType::Created, 1, vec![5; 100]).encode();
    for len in 0..frame.len() {
        assert!(matches!(WalReader::read_at(&frame[..len], 0), Ok(None)));
    }
    assert!(matches!(WalReader::read_at(&frame, 0), Ok(Some(_))));
    assert!(matches!(WalReader::read_at(&frame, u64::MAX), Ok(None)));
}

#[test]
fn test_cold_reboot_exact_fifo_interleaved_lifecycle() {
    let dir = temp_dir();

    let priorities = [0u8, 50u8, 128u8, 255u8];

    {
        let mut engine = Queue::open(&dir);

        // Push 50 tasks
        for i in 0..50 {
            let prio = priorities[i % priorities.len()];
            let payload = format!("task-payload-{:03}-prio-{}", i, prio).into_bytes();
            engine.push(payload, prio);
        }

        // Group 2: Pop 10 tasks with long TTL = 3600s (active lease)
        for _ in 0..10 {
            let _ = engine.pop_and_lease(103, 3600).unwrap();
        }

        // Group 3: Pop 10 tasks with short TTL = 1s (will expire offline)
        for _ in 0..10 {
            let _ = engine.pop_and_lease(102, 1).unwrap();
        }

        // Group 5: Pop 10 tasks and ACK them (terminal)
        for _ in 0..10 {
            let (rec, _) = engine.pop_and_lease(100, 60).unwrap();
            engine.ack(rec.id(), 100).unwrap();
        }

        // Group 4: Pop 10 tasks and NACK them (re-enqueued)
        for _ in 0..10 {
            let (rec, _) = engine.pop_and_lease(101, 60).unwrap();
            engine.nack(rec.id(), 101).unwrap();
        }

        // Remaining 10 tasks (Group 1) are untouched in ready queue
    }

    // Cold reboot, two seconds later, so Group 3 leases have expired
    let mut engine = Queue::open_at(&dir, 1_000_002);

    // Verify Active leases (Group 2): exactly 10 tasks in leased map
    assert_eq!(
        engine.state.leased.len(),
        10,
        "10 active leases must be preserved across reboot"
    );
    for lease in engine.state.leased.values() {
        assert_eq!(lease.consumer_id, 103);
        assert!(
            lease.expire_timestamp > engine.now,
            "Active lease expire_timestamp must be in the future"
        );
    }

    // Total ready tasks must be exactly 30 (10 Unleased + 10 Nacked + 10 Expired)
    let mut popped_tasks = Vec::new();
    while let Some((rec, retries)) = engine.pop_and_lease(200, 60) {
        popped_tasks.push((rec.id(), rec.priority(), rec.payload().to_vec(), retries));
    }

    assert_eq!(
        popped_tasks.len(),
        30,
        "Exactly 30 ready tasks must be popped (10 unleased, 10 nacked, 10 expired)"
    );

    // Verify priority monotonicity: higher priority tasks must pop first
    for i in 1..popped_tasks.len() {
        let prev_prio = popped_tasks[i - 1].1;
        let curr_prio = popped_tasks[i].1;
        assert!(
            prev_prio >= curr_prio,
            "Priority ordering violated: task {} has prio {} after prio {}",
            popped_tasks[i].0,
            curr_prio,
            prev_prio
        );
    }

    // Verify payload data integrity: each payload must match its format
    for (id, prio, payload, _) in &popped_tasks {
        let payload_str = String::from_utf8(payload.clone()).unwrap();
        assert!(
            payload_str.starts_with("task-payload-"),
            "Payload corrupted for task {}: {}",
            id,
            payload_str
        );
        assert!(
            payload_str.ends_with(&format!("-prio-{}", prio)),
            "Priority mismatch in payload for task {}: {}",
            id,
            payload_str
        );
    }

    // Queue must now be empty
    assert!(engine.pop_and_lease(200, 60).is_none());
}

#[test]
fn test_stress_torn_writes_exhaustive_byte_offsets() {
    let rec_valid = Record::new(1, OpType::Created, 10, b"valid-seed-record-payload".to_vec());
    let valid_bytes = rec_valid.encode();

    let torn_rec = Record::new(999, OpType::Created, 10, vec![0xFE; 50]);
    let torn_encoded = torn_rec.encode(); // 19 header + 50 payload = 69 bytes
    let total_torn_len = torn_encoded.len();

    for cut_offset in 1..total_torn_len {
        let dir = temp_dir();
        dir.borrow_mut().append("nesso.00001.wal", &valid_bytes);
        dir.borrow_mut().append("nesso.00001.wal", &torn_encoded[..cut_offset]);

        // Opening must detect the torn frame and truncate back to valid_bytes.len()
        let wal = Log::open(&dir, None);
        assert_eq!(
            wal.wal.current_size(),
            valid_bytes.len() as u64,
            "Failed at cut offset {}",
            cut_offset
        );
        drop(wal);

        // Open engine, append new task, verify durability
        let mut engine = Queue::open(&dir);
        let new_id = engine.push(b"new-task-after-torn-recovery".to_vec(), 10);
        assert_eq!(new_id, 2);

        let (t1, _) = engine.pop_and_lease(100, 60).unwrap();
        assert_eq!(t1.id(), 1);
        assert_eq!(t1.payload(), b"valid-seed-record-payload");

        let (t2, _) = engine.pop_and_lease(100, 60).unwrap();
        assert_eq!(t2.id(), 2);
        assert_eq!(t2.payload(), b"new-task-after-torn-recovery");
    }
}

#[test]
fn test_stress_closed_segment_corruption_matrix() {
    let dir = temp_dir();

    // Segment 1: 3 valid records, 1 record with invalid magic byte in middle, 1 valid record
    for i in 1..=3 {
        let r = Record::new(i, OpType::Created, 1, format!("seg1-{}", i).into_bytes());
        dir.borrow_mut().append("nesso.00001.wal", &r.encode());
    }
    let bad_magic_r = Record::new(991, OpType::Created, 1, b"corrupted-magic".to_vec());
    let mut bad_enc = bad_magic_r.encode();
    bad_enc[0] = 0xAA; // bad magic
    dir.borrow_mut().append("nesso.00001.wal", &bad_enc);
    let r5 = Record::new(5, OpType::Created, 1, b"seg1-5".to_vec());
    dir.borrow_mut().append("nesso.00001.wal", &r5.encode());

    // Segment 2: 2 valid records, 1 record with corrupted CRC32, 1 valid record
    for i in 6..=7 {
        let r = Record::new(i, OpType::Created, 1, format!("seg2-{}", i).into_bytes());
        dir.borrow_mut().append("nesso.00002.wal", &r.encode());
    }
    let bad_crc_r = Record::new(992, OpType::Created, 1, b"corrupted-crc".to_vec());
    let mut bad_crc_enc = bad_crc_r.encode();
    bad_crc_enc[1] ^= 0xFF; // flip bits in checksum
    dir.borrow_mut().append("nesso.00002.wal", &bad_crc_enc);
    let r9 = Record::new(9, OpType::Created, 1, b"seg2-9".to_vec());
    dir.borrow_mut().append("nesso.00002.wal", &r9.encode());

    // Active segment 3: 2 valid records
    for i in 10..=11 {
        let r = Record::new(i, OpType::Created, 1, format!("seg3-{}", i).into_bytes());
        dir.borrow_mut().append("nesso.00003.wal", &r.encode());
    }

    let _wal = Log::open(&dir, None);

    // Verify corrupted records (991, 992) were not recovered
    for (_, _, rec) in iter_all(&dir) {
        assert_ne!(rec.id(), 991, "Corrupted magic byte record must be skipped");
        assert_ne!(rec.id(), 992, "Corrupted CRC record must be skipped");
    }

    let mut engine = Queue::open(&dir);
    let popped_ids = engine.drain();
    assert!(
        !popped_ids.contains(&991) && !popped_ids.contains(&992),
        "Corrupted records must never be popped"
    );
    // Behind a wrong magic byte nothing is read; a wrong checksum costs one record.
    assert_eq!(popped_ids, vec![1, 2, 3, 6, 7, 9, 10, 11]);
}

#[test]
fn test_stress_cold_reboot_non_contiguous_fifo() {
    let dir = temp_dir();

    {
        let mut engine = Queue::fresh(&dir, Some(100)); // force frequent rollovers

        // Push 30 tasks with non-contiguous priorities
        let priorities = [10u8, 50u8, 100u8];
        for prio in priorities {
            for i in 0..10 {
                engine.push(format!("task_prio_{}_idx_{}", prio, i).into_bytes(), prio);
            }
        }

        // Run compaction
        let _ = engine.compact();
    }

    // Reopen from cold reboot
    let mut recovered_engine = Queue::open(&dir);

    let mut popped = Vec::new();
    while let Some((rec, _)) = recovered_engine.pop_and_lease(1, 60) {
        popped.push((rec.id(), rec.priority(), rec.payload().to_vec()));
    }

    assert_eq!(popped.len(), 30, "All 30 tasks must be recovered");

    // Group popped by priority: 100 first, then 50, then 10
    for (start, prio) in [(0, 100u8), (10, 50), (20, 10)] {
        for (idx, item) in popped[start..start + 10].iter().enumerate() {
            assert_eq!(item.1, prio);
            assert_eq!(item.2, format!("task_prio_{}_idx_{}", prio, idx).into_bytes());
        }
    }
}

// ---------------------------------------------------------------------------
// Priorities and leases
// ---------------------------------------------------------------------------

#[test]
fn test_extreme_alternating_priority_bursts_and_churn() {
    let dir = temp_dir();
    let mut engine = Queue::open(&dir);

    let burst_priorities = [255u8, 0, 191, 64, 128, 127, 192, 63];
    let tasks_per_burst = 200;

    for cycle in 0..5 {
        // Burst push across alternating extremes
        for &p in &burst_priorities {
            for seq in 0..tasks_per_burst {
                let payload = format!("c_{}_p_{}_s_{}", cycle, p, seq).into_bytes();
                engine.push(payload, p);
            }
        }

        let total_in_burst = burst_priorities.len() * tasks_per_burst;
        let (ready, leased) = engine.status();
        assert_eq!(ready, total_in_burst);
        assert_eq!(leased, 0);

        // Pop in strict priority order (descending):
        // 255, 192, 191, 128, 127, 64, 63, 0
        let mut sorted_priorities = burst_priorities;
        sorted_priorities.sort_by(|a, b| b.cmp(a));

        for &expected_p in &sorted_priorities {
            for expected_seq in 0..tasks_per_burst {
                let (rec, _) = engine.pop_and_lease(1, 60).expect("task must exist");
                assert_eq!(
                    rec.priority(),
                    expected_p,
                    "Cycle {}: expected priority {} but got {}",
                    cycle,
                    expected_p,
                    rec.priority()
                );
                let payload = String::from_utf8(rec.payload().to_vec()).unwrap();
                assert_eq!(
                    payload,
                    format!("c_{}_p_{}_s_{}", cycle, expected_p, expected_seq),
                    "Cycle {}: FIFO violation at priority {}",
                    cycle,
                    expected_p
                );
                engine.ack(rec.id(), 1).unwrap();
            }
        }

        assert_eq!(engine.status(), (0, 0));
    }
}

#[test]
fn test_strict_priority_dispatch_ordering() {
    let dir = temp_dir();
    let mut engine = Queue::open(&dir);

    // Push tasks with varying priorities
    let p_list = [10u8, 255u8, 0u8, 128u8, 50u8, 255u8, 0u8, 128u8];
    for (i, &p) in p_list.iter().enumerate() {
        engine.push(format!("task_{}_{}", p, i).into_bytes(), p);
    }

    let mut popped_priorities = Vec::new();
    while let Some((rec, _)) = engine.pop_and_lease(1, 60) {
        popped_priorities.push(rec.priority());
        engine.ack(rec.id(), 1).unwrap();
    }

    assert_eq!(popped_priorities, vec![255, 255, 128, 128, 50, 10, 0, 0]);
}

#[test]
fn test_priority_spectrum_full_gamut_monotonicity() {
    let dir = temp_dir();
    let mut engine = Queue::open(&dir);

    // Round 1: Push 0..=255 in ascending order (lowest priority first)
    for p in 0..=255u8 {
        engine.push(format!("r1_p_{}", p).into_bytes(), p);
    }

    // Round 2: Push 0..=255 in a deterministic permutation
    for i in 0..256 {
        let p = ((i * 101 + 37) % 256) as u8;
        engine.push(format!("r2_p_{}", p).into_bytes(), p);
    }

    let (ready, leased) = engine.status();
    assert_eq!(ready, 512);
    assert_eq!(leased, 0);

    let mut popped_priorities = Vec::with_capacity(512);
    let mut round1_popped = [false; 256];

    while let Some((rec, _)) = engine.pop_and_lease(1, 60) {
        let p = rec.priority();
        popped_priorities.push(p);

        let payload_str = String::from_utf8(rec.payload().to_vec()).unwrap();
        if payload_str.starts_with("r1_") {
            round1_popped[p as usize] = true;
        } else if payload_str.starts_with("r2_") {
            assert!(
                round1_popped[p as usize],
                "FIFO violation: Round 2 task popped before Round 1 task at priority {}",
                p
            );
        } else {
            panic!("Unexpected payload prefix: {}", payload_str);
        }

        engine.ack(rec.id(), 1).unwrap();
    }

    assert_eq!(popped_priorities.len(), 512);

    // Verify non-increasing order: each popped priority must be <= previous popped priority
    for i in 1..popped_priorities.len() {
        assert!(
            popped_priorities[i - 1] >= popped_priorities[i],
            "Priority inversion detected: popped[{}] = {} followed by popped[{}] = {}",
            i - 1,
            popped_priorities[i - 1],
            i,
            popped_priorities[i]
        );
    }

    // Verify exactly two tasks per priority, from 255 down to 0
    let mut expected_sequence = Vec::with_capacity(512);
    for p in (0..=255u8).rev() {
        expected_sequence.push(p);
        expected_sequence.push(p);
    }
    assert_eq!(popped_priorities, expected_sequence);

    let (ready_end, leased_end) = engine.status();
    assert_eq!(ready_end, 0);
    assert_eq!(leased_end, 0);
}

#[test]
fn test_hardware_bitmap_word_boundaries_exact_bits() {
    // Part A: Test PriorityBucketQueue data structure directly
    {
        let mut pq = PriorityBucketQueue::new();
        let boundary_pairs = [(63u8, 64u8), (127u8, 128u8), (191u8, 192u8), (0u8, 255u8)];

        for &(low, high) in &boundary_pairs {
            // Push low then high
            pq.push(TaskRef { id: 1, priority: low, retries: 0 });
            pq.push(TaskRef { id: 2, priority: high, retries: 0 });

            // High must pop first
            let t1 = pq.pop().expect("high task must pop first");
            assert_eq!(t1.priority, high);
            assert_eq!(t1.id, 2);

            // Low must pop second
            let t2 = pq.pop().expect("low task must pop second");
            assert_eq!(t2.priority, low);
            assert_eq!(t2.id, 1);

            assert!(pq.pop().is_none());

            // Reverse push order: high then low
            pq.push(TaskRef { id: 10, priority: high, retries: 0 });
            pq.push(TaskRef { id: 20, priority: low, retries: 0 });

            let t3 = pq.pop().expect("high task must pop first");
            assert_eq!(t3.priority, high);
            assert_eq!(t3.id, 10);

            let t4 = pq.pop().expect("low task must pop second");
            assert_eq!(t4.priority, low);
            assert_eq!(t4.id, 20);

            assert!(pq.pop().is_none());
        }

        // Test multi-bit clusters spanning word boundaries
        let cluster = [62u8, 63, 64, 65, 126, 127, 128, 129, 190, 191, 192, 193];

        for &p in &cluster {
            pq.push(TaskRef { id: p as u64, priority: p, retries: 0 });
        }

        let mut expected_descending = cluster.to_vec();
        expected_descending.sort_by(|a, b| b.cmp(a));

        for &expected_p in &expected_descending {
            let task = pq.pop().unwrap();
            assert_eq!(task.priority, expected_p);
            assert_eq!(task.id, expected_p as u64);
        }

        assert!(pq.is_empty());
        assert_eq!(pq.len(), 0);
    }

    // Part B: Test word boundaries end-to-end with WAL persistence
    {
        let dir = temp_dir();
        let mut engine = Queue::open(&dir);

        let test_priorities = [0u8, 63, 64, 127, 128, 191, 192, 255];
        for &p in &test_priorities {
            engine.push(format!("boundary_{}", p).into_bytes(), p);
        }

        let mut popped = Vec::new();
        while let Some((rec, _)) = engine.pop_and_lease(42, 60) {
            popped.push(rec.priority());
            engine.ack(rec.id(), 42).unwrap();
        }

        assert_eq!(popped, vec![255, 192, 191, 128, 127, 64, 63, 0]);
        assert_eq!(engine.status(), (0, 0));
    }
}

#[test]
fn test_empty_queue_and_drain_boundary_conditions() {
    let dir = temp_dir();
    let mut engine = Queue::open(&dir);

    // 1. Calling pop on freshly initialized empty queue
    for _ in 0..100 {
        let res = engine.pop_and_lease(1, 10);
        assert!(res.is_none(), "Expected None on empty queue pop");
    }
    assert_eq!(engine.status(), (0, 0));

    // 2. Push 10 tasks across diverse priorities
    for i in 0..10 {
        let p = (i * 25) as u8;
        engine.push(format!("payload_{}", i).into_bytes(), p);
    }
    assert_eq!(engine.status(), (10, 0));

    // 3. Drain all 10 tasks
    let mut drained_count = 0;
    while let Some((rec, _)) = engine.pop_and_lease(1, 30) {
        engine.ack(rec.id(), 1).unwrap();
        drained_count += 1;
    }
    assert_eq!(drained_count, 10);
    assert_eq!(engine.status(), (0, 0));

    // 4. Calling pop after full drain must return None idempotently
    for _ in 0..100 {
        let res = engine.pop_and_lease(1, 10);
        assert!(res.is_none(), "Expected None after full drain");
    }
    assert_eq!(engine.status(), (0, 0));

    // 5. Re-pushing after drain must resume normal queue operations
    let re_id = engine.push(b"re_pushed".to_vec(), 200);
    assert_eq!(engine.status(), (1, 0));

    let (rec, _) = engine.pop_and_lease(1, 10).expect("re-pushed task must pop");
    assert_eq!(rec.id(), re_id);
    assert_eq!(rec.payload(), b"re_pushed");
    engine.ack(rec.id(), 1).unwrap();

    assert_eq!(engine.status(), (0, 0));
    assert!(engine.pop_and_lease(1, 10).is_none());
}

#[test]
fn test_alternating_priority_traffic_patterns() {
    let dir = temp_dir();
    let mut engine = Queue::open(&dir);

    // push(0), push(255) -> pop gives 255
    let id_0 = engine.push(b"task_0".to_vec(), 0);
    let id_255a = engine.push(b"task_255a".to_vec(), 255);

    let (rec1, _) = engine.pop_and_lease(1, 60).unwrap();
    assert_eq!(rec1.id(), id_255a);
    assert_eq!(rec1.priority(), 255);
    engine.ack(rec1.id(), 1).unwrap();

    // push(128) -> pop gives 128
    let id_128 = engine.push(b"task_128".to_vec(), 128);
    let (rec2, _) = engine.pop_and_lease(1, 60).unwrap();
    assert_eq!(rec2.id(), id_128);
    assert_eq!(rec2.priority(), 128);
    engine.ack(rec2.id(), 1).unwrap();

    // push(64) -> pop gives 64
    let id_64 = engine.push(b"task_64".to_vec(), 64);
    let (rec3, _) = engine.pop_and_lease(1, 60).unwrap();
    assert_eq!(rec3.id(), id_64);
    assert_eq!(rec3.priority(), 64);
    engine.ack(rec3.id(), 1).unwrap();

    // push(255) -> pop gives 255
    let id_255b = engine.push(b"task_255b".to_vec(), 255);
    let (rec4, _) = engine.pop_and_lease(1, 60).unwrap();
    assert_eq!(rec4.id(), id_255b);
    assert_eq!(rec4.priority(), 255);
    engine.ack(rec4.id(), 1).unwrap();

    // Interleave multiple priorities: 192, 127, 191, 63
    let id_192 = engine.push(b"task_192".to_vec(), 192);
    let id_127 = engine.push(b"task_127".to_vec(), 127);
    let id_191 = engine.push(b"task_191".to_vec(), 191);
    let id_63 = engine.push(b"task_63".to_vec(), 63);

    // Now pop the remaining 5 tasks in strict priority order
    let expected_rem = [(id_192, 192), (id_191, 191), (id_127, 127), (id_63, 63), (id_0, 0)];

    for (exp_id, exp_p) in expected_rem {
        let (rec, _) = engine.pop_and_lease(1, 60).expect("task must exist");
        assert_eq!(rec.id(), exp_id);
        assert_eq!(rec.priority(), exp_p);
        engine.ack(rec.id(), 1).unwrap();
    }

    assert_eq!(engine.status(), (0, 0));

    // Dynamic zig-zag traffic pattern
    for i in 0..100 {
        let _p_low_id = engine.push(format!("low_{}", i).into_bytes(), 15);
        let p_high_id = engine.push(format!("high_{}", i).into_bytes(), 225);

        let (popped_high, _) = engine.pop_and_lease(1, 60).unwrap();
        assert_eq!(popped_high.id(), p_high_id);
        assert_eq!(popped_high.priority(), 225);
        engine.ack(popped_high.id(), 1).unwrap();

        let p_mid_id = engine.push(format!("mid_{}", i).into_bytes(), 115);

        let (popped_mid, _) = engine.pop_and_lease(1, 60).unwrap();
        assert_eq!(popped_mid.id(), p_mid_id);
        assert_eq!(popped_mid.priority(), 115);
        engine.ack(popped_mid.id(), 1).unwrap();
    }

    // After 100 cycles, exactly 100 low tasks (priority 15) must remain in strict FIFO order
    assert_eq!(engine.status(), (100, 0));

    for i in 0..100 {
        let (rec, _) = engine.pop_and_lease(1, 60).unwrap();
        assert_eq!(rec.priority(), 15);
        let payload = String::from_utf8(rec.payload().to_vec()).unwrap();
        assert_eq!(payload, format!("low_{}", i));
        engine.ack(rec.id(), 1).unwrap();
    }

    assert_eq!(engine.status(), (0, 0));
}

#[test]
fn test_fifo_integrity_within_identical_priorities() {
    let dir = temp_dir();
    let mut engine = Queue::open(&dir);

    let priorities = [0u8, 63, 64, 127, 128, 191, 192, 255];
    let tasks_per_priority = 50;

    // Push 50 tasks for each priority
    for &p in &priorities {
        for seq in 0..tasks_per_priority {
            engine.push(format!("p_{}_seq_{}", p, seq).into_bytes(), p);
        }
    }

    assert_eq!(engine.status(), (priorities.len() * tasks_per_priority, 0));

    for &p in priorities.iter().rev() {
        for expected_seq in 0..tasks_per_priority {
            let (rec, _) = engine.pop_and_lease(1, 60).expect("task must exist");
            assert_eq!(rec.priority(), p, "Unexpected priority popped");

            let expected_payload = format!("p_{}_seq_{}", p, expected_seq);
            let actual_payload = String::from_utf8(rec.payload().to_vec()).unwrap();
            assert_eq!(
                actual_payload, expected_payload,
                "FIFO violation at priority {}: expected seq {} but got {}",
                p, expected_seq, actual_payload
            );

            engine.ack(rec.id(), 1).unwrap();
        }
    }

    assert_eq!(engine.status(), (0, 0));
}

#[test]
fn test_lease_late_ack_and_nack_rejection() {
    let dir = temp_dir();
    let mut engine = Queue::open(&dir);

    let task_id = engine.push(b"important_job".to_vec(), 10);

    // 1. Consumer 1 leases Task 1 with TTL = 1s
    let (rec, retries) = engine.pop_and_lease(101, 1).unwrap();
    assert_eq!(rec.id(), task_id);
    assert_eq!(retries, 0);

    assert_eq!(engine.status(), (0, 1));

    // 2. The lease expires
    engine.now += 1;
    assert_eq!(engine.expire_leases(), 1);

    // Once expired, task is back in ready queue with retries = 1
    assert_eq!(engine.status(), (1, 0));

    // 3. Consumer 2 leases Task 1
    let (rec2, retries2) = engine.pop_and_lease(102, 60).unwrap();
    assert_eq!(rec2.id(), task_id);
    assert_eq!(retries2, 1);
    assert_eq!(engine.status(), (0, 1));

    // 4. Consumer 1 attempts late ACK -> MUST return PermissionDenied
    assert_eq!(engine.ack(task_id, 101).unwrap_err().kind(), ErrorKind::PermissionDenied);

    // 5. Consumer 1 attempts late NACK -> MUST return PermissionDenied
    assert_eq!(engine.nack(task_id, 101).unwrap_err().kind(), ErrorKind::PermissionDenied);

    // 6. Consumer 2 (current valid lease holder) calls ACK -> MUST succeed
    assert!(engine.ack(task_id, 102).is_ok(), "Valid lease holder ACK should succeed");

    assert_eq!(engine.status(), (0, 0));

    // 7. Subsequent ACK or NACK on completed task -> MUST return NotFound
    assert_eq!(engine.ack(task_id, 102).unwrap_err().kind(), ErrorKind::NotFound);
    assert_eq!(engine.nack(task_id, 102).unwrap_err().kind(), ErrorKind::NotFound);

    // 8. ACK or NACK on non-existent task ID -> MUST return NotFound
    assert_eq!(engine.ack(99999, 102).unwrap_err().kind(), ErrorKind::NotFound);
    assert_eq!(engine.nack(99999, 102).unwrap_err().kind(), ErrorKind::NotFound);
}

#[test]
fn test_lease_dead_letter_after_max_retries() {
    let dir = temp_dir();

    // Part A: DeadLetter via 3 consecutive expirations
    {
        let mut engine = Queue::open(&dir);
        let id_exp = engine.push(b"expire_me".to_vec(), 10);

        // Round 1: Lease (retry 0) -> expire -> retry 1
        let (r1, retries1) = engine.pop_and_lease(1, 1).unwrap();
        assert_eq!(r1.id(), id_exp);
        assert_eq!(retries1, 0);
        engine.now += 1;
        engine.expire_leases();
        assert_eq!(engine.status(), (1, 0));

        // Round 2: Lease (retry 1) -> expire -> retry 2
        let (r2, retries2) = engine.pop_and_lease(2, 1).unwrap();
        assert_eq!(r2.id(), id_exp);
        assert_eq!(retries2, 1);
        engine.now += 1;
        engine.expire_leases();
        assert_eq!(engine.status(), (1, 0));

        // Round 3: Lease (retry 2) -> expire -> given up
        let (r3, retries3) = engine.pop_and_lease(3, 1).unwrap();
        assert_eq!(r3.id(), id_exp);
        assert_eq!(retries3, 2);
        engine.now += 1;
        assert_eq!(engine.expire_leases(), 0);

        // Queue and active leases must now be completely empty!
        assert_eq!(engine.status(), (0, 0));
        assert!(engine.pop_and_lease(4, 10).is_none());

        // Part B: DeadLetter via 3 consecutive NACKs
        let id_nack = engine.push(b"nack_me".to_vec(), 10);

        for expected_retry in 0..3u8 {
            let (rn, retries) = engine.pop_and_lease(10, 10).unwrap();
            assert_eq!(rn.id(), id_nack);
            assert_eq!(retries, expected_retry);
            engine.nack(rn.id(), 10).unwrap();
        }

        // After 3rd NACK, task is DeadLettered
        assert_eq!(engine.status(), (0, 0));
        assert!(engine.pop_and_lease(10, 10).is_none());
    }

    // Part C: Cold reboot - verify dead lettered tasks are never resurrected
    {
        let mut engine = Queue::open(&dir);
        assert_eq!(
            engine.status(),
            (0, 0),
            "DeadLettered tasks must not be resurrected on recovery"
        );
        assert!(engine.pop_and_lease(1, 10).is_none());

        // New task push and pop works cleanly
        let new_id = engine.push(b"fresh_task".to_vec(), 5);
        assert_eq!(engine.status(), (1, 0));
        let (rec, _) = engine.pop_and_lease(1, 10).unwrap();
        assert_eq!(rec.id(), new_id);
        engine.ack(rec.id(), 1).unwrap();
        assert_eq!(engine.status(), (0, 0));
    }
}

#[test]
fn test_crash_recovery_with_custom_config() {
    let dir = temp_dir();
    let custom_cfg = GroupCommitConfig {
        batch_window: 5_000_000,
        max_batch_size: 16,
        idle_commit_threshold: 300_000,
        sync_mode: SyncMode::Standard,
    };

    // Phase 1: Push tasks and acknowledge one
    {
        let mut engine = Queue::open(&dir);
        for i in 0..10 {
            engine.push(format!("custom_task_{}", i).into_bytes(), (i % 3) as u8);
        }
        let (popped, _) = engine.pop_and_lease(1, 30).unwrap();
        engine.ack(popped.id(), 1).unwrap();
    }

    // Phase 2: Recover with explicit custom config
    {
        let mut recovered_engine = Queue::open(&dir);
        assert_eq!(GroupCommit::new(custom_cfg).config(), custom_cfg);
        assert_eq!(recovered_engine.status(), (9, 0));

        // Verify remaining 9 tasks can be leased
        for _ in 0..9 {
            assert!(recovered_engine.pop_and_lease(2, 30).is_some());
        }
    }

    // Phase 3: Recover with default config
    {
        let default_engine = Queue::open(&dir);
        assert_eq!(GroupCommit::new(Default::default()).config(), GroupCommitConfig::default());
        assert_eq!(default_engine.status(), (0, 9));
    }
}

#[test]
fn test_write_all_completed_before_group_commit_join() {
    let dir = temp_dir();
    let mut engine = Queue::open(&dir);
    let mut commit = GroupCommit::new(GroupCommitConfig {
        batch_window: 10_000_000,
        max_batch_size: 64,
        idle_commit_threshold: 250_000,
        sync_mode: SyncMode::Standard,
    });

    let num_threads = 8;
    for i in 0..num_threads {
        let payload = format!("ordered_write_payload_{}", i).into_bytes();

        // 1. push() completes the write to the log and updates the memory index
        let task_id = engine.push(payload.clone(), 5);

        // 2. Before the batch is joined, the record already exists on disk
        let (seg_id, offset) =
            *engine.state.data_index.get(&task_id).expect("Record must be in data_index");
        let disk_record = engine
            .reader
            .read_at(seg_id, offset)
            .expect("I/O error reading WAL")
            .expect("Record must exist at offset");
        assert_eq!(disk_record.id(), task_id);
        assert_eq!(disk_record.payload(), &payload[..]);

        // 3. Only now join the group commit
        assert_eq!(commit.join(i as u128), 1);
    }

    let (ready, leased) = engine.status();
    assert_eq!(ready, num_threads);
    assert_eq!(leased, 0);
}

#[test]
fn test_sync_mode_execution() {
    for (prefix, sync_mode) in [("std", SyncMode::Standard), ("full", SyncMode::FullHardware)] {
        let dir = temp_dir();
        let cfg = GroupCommitConfig {
            batch_window: 5_000_000,
            max_batch_size: 16,
            idle_commit_threshold: 0,
            sync_mode,
        };
        assert_eq!(GroupCommit::new(cfg).config().sync_mode, sync_mode);
        {
            let mut engine = Queue::open(&dir);
            for i in 0..5 {
                engine.push(format!("{}_task_{}", prefix, i).into_bytes(), 1);
            }
        }
        {
            let mut recovered = Queue::open(&dir);
            let (ready, _) = recovered.status();
            assert_eq!(ready, 5);
            for i in 0..5 {
                let (record, _) = recovered.pop_and_lease(1, 30).unwrap();
                assert_eq!(record.payload(), format!("{}_task_{}", prefix, i).as_bytes());
            }
        }
    }
}

#[test]
fn test_rapid_churn_burst_push_pop_without_sync() {
    let dir = temp_dir();
    let total_tasks = 1000;

    // Phase 1: High-speed burst push and pop
    {
        let mut engine = Queue::open(&dir);
        for i in 0..total_tasks {
            engine.push(format!("burst_data_{}", i).into_bytes(), (i % 256) as u8);
        }

        let (ready, leased) = engine.status();
        assert_eq!(ready, total_tasks);
        assert_eq!(leased, 0);

        let mut popped_count = 0;
        while let Some((rec, _)) = engine.pop_and_lease(1, 60) {
            engine.ack(rec.id(), 1).unwrap();
            popped_count += 1;
        }

        assert_eq!(popped_count, total_tasks);
        assert_eq!(engine.status(), (0, 0));
    }

    // Phase 2: Cold reboot verification
    {
        let mut engine = Queue::open(&dir);
        assert_eq!(
            engine.status(),
            (0, 0),
            "Cold reboot must reflect complete drain of all burst tasks"
        );
        assert!(engine.pop_and_lease(1, 10).is_none());

        // Subsequent pushes and pops operate normally
        let id = engine.push(b"post_reboot".to_vec(), 10);
        assert_eq!(id, (total_tasks + 1) as u64);

        let (rec, _) = engine.pop_and_lease(1, 10).unwrap();
        assert_eq!(rec.id(), id);
        assert_eq!(rec.payload(), b"post_reboot");
        engine.ack(rec.id(), 1).unwrap();

        assert_eq!(engine.status(), (0, 0));
    }
}

#[test]
fn test_rapid_churn_partial_drain_and_durability() {
    let dir = temp_dir();

    // Phase 1: Push 2,000 tasks
    {
        let mut engine = Queue::open(&dir);
        for &p in &[200u8, 150, 100, 50] {
            for seq in 0..500 {
                engine.push(format!("p_{}_seq_{}", p, seq).into_bytes(), p);
            }
        }
        assert_eq!(engine.status(), (2000, 0));

        // Must pop all 500 of priority 200, then all 500 of priority 150!
        for expected_p in [200u8, 150] {
            for expected_seq in 0..500 {
                let (rec, _) = engine.pop_and_lease(1, 60).expect("task must exist");
                assert_eq!(rec.priority(), expected_p);
                let expected_payload = format!("p_{}_seq_{}", expected_p, expected_seq);
                assert_eq!(rec.payload(), expected_payload.as_bytes());
                engine.ack(rec.id(), 1).unwrap();
            }
        }
        assert_eq!(engine.status(), (1000, 0));
    }

    // Phase 2: Cold reboot recovery
    {
        let mut engine = Queue::open(&dir);
        assert_eq!(
            engine.status(),
            (1000, 0),
            "Exactly 1,000 tasks must be recovered post-restart"
        );

        for expected_p in [100u8, 50] {
            for expected_seq in 0..500 {
                let (rec, _) = engine.pop_and_lease(1, 60).expect("task must exist");
                assert_eq!(rec.priority(), expected_p);
                let expected_payload = format!("p_{}_seq_{}", expected_p, expected_seq);
                assert_eq!(rec.payload(), expected_payload.as_bytes());
                engine.ack(rec.id(), 1).unwrap();
            }
        }

        assert_eq!(engine.status(), (0, 0));
        assert!(engine.pop_and_lease(1, 10).is_none());
    }
}

#[test]
fn test_rapid_churn_with_segment_rollover() {
    let dir = temp_dir();
    let segment_threshold = 15 * 1024; // 15 KB threshold

    // Phase 1: Heavy churn triggering multi-segment rotation
    {
        let mut engine = Queue::fresh(&dir, Some(segment_threshold));

        for i in 0..500 {
            let payload = format!("rollover_burst_msg_{:04}_{:080}", i, i).into_bytes();
            engine.push(payload, (i % 64) as u8);
        }
        for _ in 0..250 {
            let (rec, _) = engine.pop_and_lease(1, 60).unwrap();
            engine.ack(rec.id(), 1).unwrap();
        }
        for i in 500..750 {
            let payload = format!("rollover_burst_msg_{:04}_{:080}", i, i).into_bytes();
            engine.push(payload, (i % 64) as u8);
        }
        for _ in 0..250 {
            let (rec, _) = engine.pop_and_lease(1, 60).unwrap();
            engine.ack(rec.id(), 1).unwrap();
        }

        let wal_count = dir.borrow().list().iter().filter(|name| name.ends_with(".wal")).count();
        assert!(
            wal_count >= 3,
            "Expected >= 3 WAL segments due to small threshold, found {}",
            wal_count
        );
    }

    // Phase 2: Cold reboot recovery across all rotated segments
    {
        let mut engine = Queue::fresh(&dir, Some(segment_threshold));
        let log = segments(&dir, &segment_ids(&dir));
        engine.state.recover(&log, engine.now);

        // Remaining tasks: 750 pushed - 500 acked = 250 tasks
        assert_eq!(
            engine.status(),
            (250, 0),
            "Expected 250 unleased tasks to be recovered across segments"
        );

        let mut drained = 0;
        while let Some((rec, _)) = engine.pop_and_lease(1, 60) {
            assert!(!rec.payload().is_empty());
            engine.ack(rec.id(), 1).unwrap();
            drained += 1;
        }

        assert_eq!(drained, 250);
        assert_eq!(engine.status(), (0, 0));
    }
}

#[test]
fn test_written_records_stay_readable_at_their_places() {
    let dir = temp_dir();
    let mut log = Log::open(&dir, Some(100));
    let mut reader = Reader::new(&dir);
    let mut places: Vec<(u64, u64)> = Vec::new();
    for id in 1..=30u64 {
        let record = Record::new(id, OpType::Created, id as u8, vec![id as u8; id as usize]);
        let place = log.append(&record);
        assert!(!places.contains(&place), "a place is given once");
        places.push(place);
        for (i, &(segment, offset)) in places.iter().enumerate() {
            let read = reader.read_at(segment, offset).unwrap().unwrap();
            assert_eq!(read.id(), i as u64 + 1);
            assert_eq!(read.payload(), vec![i as u8 + 1; i + 1]);
        }
    }
    assert!(log.wal.active_segment_id() > 5);
}

#[test]
fn test_an_acknowledged_task_never_comes_back() {
    let dir = temp_dir();
    let mut queue = Queue::open(&dir);
    for id in 1..=3u64 {
        assert_eq!(queue.push(vec![id as u8], 5), id);
    }
    for _ in 0..3 {
        queue.pop_and_lease(7, 10).unwrap();
    }
    queue.ack(2, 7).unwrap();

    // The leases of the other two end. The task that was completed stays away.
    queue.now += 11;
    assert_eq!(queue.expire_leases(), 2);
    assert_eq!(queue.expire_leases(), 0);
    assert_eq!(queue.drain(), vec![1, 3]);

    // It stays away over restarts, too.
    for _ in 0..3 {
        let now = queue.now + 1_000;
        queue = Queue::open_at(&dir, now);
        assert_eq!(queue.expire_leases(), 0);
        assert_eq!(queue.drain(), vec![1, 3]);
        assert_eq!(queue.ack(2, 7), Err(EngineError::NotLeased));
    }
}

#[test]
fn test_every_lease_ends_once() {
    let dir = temp_dir();
    let mut queue = Queue::open(&dir);
    queue.push(b"task".to_vec(), 5);

    // Refused, then taken back, then completed: each lease ends by one call.
    let mut ends = 0;
    for hand_outs in 1..=3 {
        assert!(queue.pop_and_lease(7, 10).is_some());
        assert!(queue.pop_and_lease(8, 10).is_none());
        match hand_outs {
            1 => {
                assert_eq!(queue.nack(1, 7), Ok(true));
                ends += 1;
            }
            2 => {
                queue.now += 11;
                assert_eq!(queue.expire_leases(), 1);
                ends += 1;
            }
            _ => {
                queue.ack(1, 7).unwrap();
                ends += 1;
            }
        }
        assert_eq!(queue.nack(1, 7), Err(EngineError::NotLeased));
        assert_eq!(queue.ack(1, 7), Err(EngineError::NotLeased));
        assert_eq!(queue.expire_leases(), 0);
        assert_eq!(ends, hand_outs);
    }
    assert_eq!(queue.status(), (0, 0));
}

#[test]
fn test_ids_are_given_one_by_one_over_restarts() {
    let dir = temp_dir();
    let mut next = 1;
    for round in 0..4u64 {
        let mut queue = Queue::open_at(&dir, 1_000_000 + round * 1_000);
        for _ in 0..3 {
            assert_eq!(queue.push(vec![1], 5), next);
            next += 1;
        }
        let (record, _) = queue.pop_and_lease(1, 10).unwrap();
        queue.ack(record.id(), 1).unwrap();
        queue.pop_and_lease(1, 10).unwrap();
    }
    assert_eq!(next, 13);
}
