//! Finds the K filesystem entries with the most extreme modification time
//! (newest or oldest) among one or more roots searched recursively, with
//! optional extension filtering and optional inclusion of directories.
//!
//! The library works on an in-memory snapshot of the part of the filesystem
//! that a scan visits: a tree of [`walk::FsNode`] values built by the caller.
//! Every decision the scan makes — visiting order, classification, extension
//! filtering, bounded top-K retention, error handling — is verified here;
//! reading directories and metadata into the snapshot is the caller's job.

pub mod filter;
pub mod results;
pub mod scan;
pub mod time;
pub mod walk;
