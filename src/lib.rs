//! An embeddable, ordered key-value store built as a leveled LSM-tree:
//! a memtable of recent writes journaled to a write-ahead log, immutable
//! key-ordered table files organised into levels and tracked by a
//! manifest, compaction, a block cache and a write-stall controller.

pub mod cache;
pub mod checkpoint;
pub mod compaction;
pub mod db;
pub mod error;
pub mod events;
pub mod laws;
pub mod manifest;
pub mod model;
pub mod options;
pub mod order;
pub mod perf;
pub mod sst_file_manager;
pub mod table_properties;
pub mod types;
pub mod wal;
pub mod write_buffer_manager;
pub mod write_controller;
