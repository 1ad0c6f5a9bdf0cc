//! The virtual filesystem layer of a user-space NFSv3 mirror server.
//!
//! The crate keeps the bidirectional map between NFS file ids and interned
//! symbolic paths, resolves symbolic paths through the mount table, reconciles
//! cached attributes with what the host reports, and decides the outcome of each
//! NFS operation. It performs no I/O itself: every function takes what was
//! observed on the host as plain values and says what to do next.

pub mod attr;
pub mod cli;
pub mod config;
pub mod fsmap;
pub mod interner;
pub mod laws;
pub mod mirrorfs;
pub mod model;
pub mod ops;
pub mod pathmap;
pub mod upkeep;
