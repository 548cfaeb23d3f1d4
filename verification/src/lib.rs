//! A verified core for a module-deployment runtime.
//!
//! The library holds the logic of the system: a keyed record store for
//! deployed modules (`store`), the classification of external process
//! outcomes (`runner`), and the scheduling state of a fixed worker pool
//! with a FIFO task queue, an idle-worker registry and single-resolution
//! result handles (`runtime`). The surrounding process — threads, the
//! on-disk database and the ingestion transport — drives these functions
//! and performs no decisions of its own.

pub mod runner;
pub mod runtime;
pub mod store;
