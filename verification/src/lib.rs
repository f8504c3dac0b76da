//! Aggregation of BGP routing-table snapshots.
//!
//! A single pass over a decoded route stream builds, per snapshot,
//! per-peer statistics, prefix-to-origin counts and tier-1-anchored
//! AS-relationship inferences; further stages merge per-snapshot
//! outputs into daily summaries and a keyed time-series store.

pub mod dedup;
pub mod types;
pub mod tier1;
pub mod relmodel;
pub mod relacc;
pub mod countmap;
pub mod peermodel;
pub mod aggregate;
pub mod strutil;
pub mod merge;
pub mod store;
pub mod orchestrate;

pub use aggregate::aggregate_records;
pub use aggregate::RibAggregator;
pub use dedup::dedup_path;
pub use tier1::Tier1Config;
pub use types::As2Rel;
pub use types::As2RelCount;
pub use types::PeerInfo;
pub use types::PeerIp;
pub use types::Prefix2As;
pub use types::Prefix2AsCount;
pub use types::RibPeerInfo;
pub use types::RouteRecord;
pub use types::REL_ADJACENT;
pub use types::REL_PROVIDER_TO_CUSTOMER;
