//! A verified engine for a live viewer of per-dataset I/O activity.
//!
//! Raw kernel counter fields stream in unordered; the assembler groups them
//! into per-dataset [`snapshot::Snapshot`] records, the data source diffs two
//! generations of those records into per-interval rate records, and the view
//! state filters and sorts the records for display.  Collection, rendering
//! and event handling stay outside; this crate holds the logic and its
//! proofs.

pub mod assemble;
pub mod datasource;
pub mod filter;
pub mod objset;
pub mod snapshot;
pub mod sorting;
pub mod strutil;
pub mod viewstate;
