//! Core services of a minimal bare-metal execution environment: physical
//! frame reclamation, page-table mapping, an exception-vector model, an
//! in-memory virtual filesystem with handle semantics, and the decision
//! logic of a POSIX-like system-call shim.

pub mod frames;
pub mod heap;
pub mod paging;
pub mod records;
pub mod shim;
pub mod vectors;
pub mod vfs;
