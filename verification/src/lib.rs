//! Nesso: a persistent, lease-based task queue.
//!
//! The crate holds the logic of the queue: the log's frame format, the
//! segmented write-ahead log, the priority queue, the payload cache, the lease
//! engine, group commit, and the decisions of the HTTP front end. Files,
//! sockets, clocks and threads belong to the program around it, which hands in
//! what it read and carries out what it is told to.

pub mod bench;
pub mod cli;
pub mod payload_text;
pub mod server;
pub mod storage;
pub mod text;
