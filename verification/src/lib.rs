//! Verified core of a small distributed file vault: content-addressed
//! chunking, chunk verification, replica placement, peer bookkeeping and
//! the merge of file listings across a cluster.

pub mod chunker;
pub mod config;
pub mod cluster;
pub mod files;
pub mod hashing;
pub mod models;
pub mod order;
pub mod paths;
pub mod placement;
pub mod policy;
pub mod registry;
pub mod replication;
pub mod text;
