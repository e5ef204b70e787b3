//! The persistent core of a multi-tenant job queue.
//!
//! Producers enqueue jobs, workers lease them with a lock token, keep the lease
//! alive with heartbeats and record progress with patches; a janitor reclaims
//! leases whose heartbeat has lapsed and purges old finished jobs, keeping only
//! aggregate counts of what it removed.
//!
//! Every operation on [`JobStore`] that needs the time comes in two forms. The
//! form whose name ends in `_at` takes the current instant (and, where it needs
//! them, the fresh identifiers) as arguments and has an exact contract. The plain
//! form reads the clock and draws the identifiers itself, then does the same work.
//!
//! The contracts are stated over the rows of the store as a sequence of job
//! values. What holds of them whatever the rows, the clock and the tokens is
//! proved in [`laws`].

pub mod dequeue;
pub mod error;
pub mod ident;
pub mod janitor;
pub mod job;
pub mod laws;
pub mod query;
pub mod report;
pub mod state;
pub mod store;
pub mod time;
pub mod update;

pub use error::StoreError;
pub use ident::Id;
pub use job::{Bytes, Job, JobInit};
pub use query::{Clause, JobFilter, JobQuery};
pub use report::{AggregatedDelete, DeleteSet};
pub use state::JobState;
pub use store::JobStore;
pub use time::Timestamp;
pub use update::{FieldUpdate, JobUpdate};
