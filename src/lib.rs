//! Ingestion, ordering, routing and query of structured log entries.
//!
//! A write is normalized and sequenced (`sequencer`), checked, filtered by
//! exclusion rules, stored, offered to sinks (`routing`) and counted in
//! logs-based metrics (`metrics`), all by the `pipeline`. Filters are
//! compiled once (`parse`, against the grammar in `grammar`) and evaluated
//! in three-valued logic (`filter`). Queries page through stored entries in
//! key order (`query`).
pub mod civil;
pub mod entry;
pub mod extract;
pub mod filter;
pub mod grammar;
pub mod metrics;
pub mod parse;
pub mod pipeline;
pub mod query;
pub mod routing;
pub mod scope;
pub mod sequencer;
pub mod text;
