//! Verified core of a sold-listing price tracker for collectible cards:
//! exact fixed-point money, the extraction decisions for one item-variant
//! (row filtering, watermark early-stop, identifier and format reading),
//! the checkpointed persistence model with idempotent, all-or-nothing
//! commits, sweep planning with crash resumption, outlier-filtered price
//! statistics, and the two-task lifecycle coordination.
//!
//! Everything that performs I/O — the browser transport, the database, the
//! HTTP server — is an external collaborator; it hands these modules plain
//! values and carries their decisions out.

pub mod catalog;
pub mod coord;
pub mod extract;
pub mod money;
pub mod stats;
pub mod store;
pub mod sweep;
pub mod text;
