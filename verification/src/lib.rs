//! A verified core for an external, distributed sort of fixed-size binary
//! records: the record codec, the 256-way bucketer, the incremental per-bucket
//! merge buffer, and the manager/worker protocol logic.

pub mod bucketer;
pub mod codec;
pub mod manager;
pub mod merge;
pub mod error;
pub mod protocol;
pub mod record;
pub mod sorted_entries;
pub mod sorting;
pub mod worker;
