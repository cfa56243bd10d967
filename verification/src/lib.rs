//! Set reconciliation between two peers, and the traffic counters that price it.
//!
//! Two peers holding overlapping sets discover their difference by exchanging
//! bytes proportional to that difference rather than to the size of the sets.

pub mod metrics;
pub mod reconcile;
