//! Core logic of a command-line client for an object-storage bucket:
//! walking a local tree, partitioning the files among upload workers,
//! deriving remote object keys, and tallying what the workers report.

pub mod chunks;
pub mod keys;
pub mod walk;
pub mod upload;
pub mod config;
pub mod cli;
