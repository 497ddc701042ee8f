//! The storage engine of a queue.

pub mod bytes;
pub mod checksum;
pub mod compaction;
pub mod engine;
pub mod expiration;
pub mod group_commit;
pub mod group_commit_runs;
pub mod ids;
pub mod laws;
pub mod log_runs;
pub mod names;
pub mod opening;
pub mod operations;
pub mod payload_cache;
pub mod priority_queue;
pub mod queue_order;
pub mod queue_runs;
pub mod record;
pub mod recovery;
pub mod segment;
pub mod task;
pub mod wal;
