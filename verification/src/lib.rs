//! Checkpoints of operator state in Parquet files.
//!
//! A subtask collects what is written to its tables ([`batch`], [`flusher`]) and at each
//! checkpoint stores it in one Parquet file per table ([`columns`], [`paths`]). A checkpoint
//! lists the files that are still needed ([`files`], [`tables`]). A subtask that is restarted
//! takes over the files that concern it and reads them ([`backend`], [`triples`]). Checkpoints
//! that are no longer needed are removed ([`compaction`], [`checkpoints`]).
//!
//! What holds of all this together is stated in [`recovery`] and [`durability`].
pub mod backend;
pub mod batch;
pub mod checkpoints;
pub mod columns;
pub mod compaction;
pub mod decimal;
pub mod durability;
pub mod files;
pub mod flusher;
pub mod ordered;
pub mod paths;
pub mod recovery;
pub mod storage;
pub mod tables;
pub mod triples;
pub mod types;
