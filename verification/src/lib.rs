//! Classification of the peers of a validator's transaction-ingest path.
//!
//! Events that describe how remote peers use the ingest path are turned into
//! per-peer measurements; thresholds over sliding windows of those
//! measurements place peers in named groups whose memberships expire.

pub mod classification;
pub mod clock;
pub mod config;
pub mod decision;
pub mod error;
pub mod group;
pub mod key;
pub mod state;
pub mod table;
pub mod threshold;
