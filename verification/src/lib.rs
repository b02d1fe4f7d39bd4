//! The verified core of a virtual warehouse: the operation log formats, the
//! deduplication and balance state, recovery, replication replay and fencing.

pub mod codec;
pub mod text;
pub mod model;
pub mod binary;
pub mod digest;
pub mod wal;
pub mod snapshot;
pub mod checkpoint;
pub mod table;
pub mod sharded;
pub mod balances;
pub mod dedup;
pub mod dedup_laws;
pub mod order;
pub mod state;
pub mod recovery;
pub mod store_laws;
pub mod overlap_laws;
pub mod bloom;
pub mod dedup_disk;
pub mod history;
pub mod cluster;
pub mod lease;
pub mod startup;
pub mod replay;
pub mod config;
pub mod api;
pub mod workload;
pub mod metrics;
