# Nesso

A persistent task queue for one machine. Tasks have a priority and a payload,
are handed out to consumers under a lease, and come back when a consumer refuses
them or lets its lease run out. A task that fails three times is given up. Every
change is appended to a segmented log before it takes effect, so that a queue is
rebuilt from its log after a crash.

The library holds the rules of the queue and is verified with Verus. It does no
input or output: it says which bytes are to be written and which files are to be
read, and is told how that went. The program in `app/` owns the files, the
threads and the HTTP interface.

## Layout

- `src/storage/record.rs`, `checksum.rs`, `segment.rs`, `names.rs`: the frames of
  the log and their checksum, the segments they stand in, and the names of their
  files.
- `src/storage/wal.rs`: the books of the log, its replay, and the readers.
- `src/storage/task.rs`, `engine.rs`, `recovery.rs`, `expiration.rs`: the life of
  a task, the operations of a queue, its replay, and the end of leases.
- `src/storage/compaction.rs`, `opening.rs`: the compaction of closed segments, and
  what is left of it to do when a log is opened.
- `src/storage/priority_queue.rs`, `payload_cache.rs`: the queue of ready tasks
  and the payloads that are kept in memory.
- `src/storage/group_commit.rs`: how callers share the syncs of a log.
- `src/storage/laws.rs`: what always holds between a queue and its log.
- `src/storage/log_runs.rs`, `queue_runs.rs`, `group_commit_runs.rs`: what holds
  over any number of calls.
- `src/server.rs`, `payload_text.rs`: the answers of the HTTP interface.
- `src/cli.rs`, `bench.rs`, `text.rs`: options, the benchmark's plan, numbers.

## What is not proved

The library trusts the contracts of the calls into `crc32fast` (checksums),
`base64` (payloads as text) and a few functions of the standard library. Each
stands behind a small function whose comment says what is claimed of it.
