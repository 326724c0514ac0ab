//! Three-way file synchronization engine.
//!
//! The crate reconciles the state of a project's files across three views:
//! a freshly scanned working directory (`local`), the last synchronized
//! snapshot persisted beside the project (`baseline`), and a remote store
//! (`remote`).  Each view is a [`manifest::Manifest`]: a list of file
//! entries with content fingerprints plus the known subdirectories.  The
//! classifier compares the three views path by path, the planner turns the
//! classification into upload/download/delete actions, and the codec
//! renders and parses the manifest file that records the baseline.

pub mod classify;
pub mod codec;
pub mod hashing;
pub mod manifest;
pub mod order;
pub mod plan;
pub mod resolve;
pub mod scan;
