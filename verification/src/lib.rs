//! A personal append-only log node: each identity signs hash-chained
//! operations, merges locally created and remotely received operations
//! through one ingestion funnel, and materializes them into a queryable
//! social feed projection.
pub mod backend;
pub mod bytesutil;
pub mod codec;
pub mod funnel;
pub mod gossip;
pub mod header;
pub mod operation;
pub mod store;
pub mod topic;
