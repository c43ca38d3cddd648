//! Grouping of access-log records by request signature.
//!
//! A log is a sequence of [`Record`]s. The records that come from one target
//! address are grouped by their [`Payload`] (the six header fields that
//! identify a request pattern); every group that reaches a minimum size is
//! reported as one [`Output`] with its size and its first and last timestamp
//! in input order.
//!
//! The mathematical description of a run is in [`model`]; the executable
//! types prove their results equal to it.
pub mod aggregator;
pub mod group;
pub mod laws;
mod lemmas;
pub mod model;
pub mod record;

pub use aggregator::{digest, Aggregator, Flow, Line};
pub use group::{summarize, Group, Output};
pub use record::{Payload, PayloadView, Record, RecordView};
