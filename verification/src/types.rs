//! Data carried through one snapshot's aggregation pass.
//!
//! A route-update record arrives from the decoding collaborator already
//! reduced to plain values: the vantage peer (address and AS number),
//! the announced prefix in its canonical text form together with its
//! address family, and the AS path when one was present.  The output
//! documents mirror the records serialised after a pass: per-peer
//! statistics, prefix-to-origin counts and AS-relationship counts.

use vstd::prelude::*;

verus! {

/// Relationship code: the two AS numbers are path neighbours, direction
/// unknown.
pub const REL_ADJACENT: u8 = 0;

/// Relationship code: the first AS number is the inferred provider of
/// the second.
pub const REL_PROVIDER_TO_CUSTOMER: u8 = 1;

/// A vantage peer's address, reduced to its address family and its
/// numeric value (IPv4 addresses occupy the low 32 bits).
#[derive(Debug, Clone, Copy, PartialEq, Eq, Hash, Structural)]
pub struct PeerIp {
    pub v4: bool,
    pub addr: u128,
}

/// One decoded route-update record.
pub struct RouteRecord {
    /// Address of the peer that announced the route.
    pub peer_ip: PeerIp,
    /// AS number of that peer, as reported by the collector.
    pub peer_asn: u32,
    /// Canonical text of the announced prefix.
    pub prefix: String,
    /// Whether the prefix is an IPv4 network.
    pub prefix_v4: bool,
    /// AS path from the collector-adjacent hop to the origin, when the
    /// record carried one.
    pub as_path: Option<Vec<u32>>,
}

/// The mathematical shape of a record: the prefix as a character
/// sequence, the path as a number sequence.
pub struct RouteRecordV {
    pub peer_ip: PeerIp,
    pub peer_asn: u32,
    pub prefix: Seq<char>,
    pub prefix_v4: bool,
    pub as_path: Option<Seq<u32>>,
}

impl View for RouteRecord {
    type V = RouteRecordV;

    open spec fn view(&self) -> RouteRecordV {
        RouteRecordV {
            peer_ip: self.peer_ip,
            peer_asn: self.peer_asn,
            prefix: self.prefix@,
            prefix_v4: self.prefix_v4,
            as_path: match self.as_path {
                Some(p) => Some(p@),
                None => None,
            },
        }
    }
}

/// The views of a sequence of strings.
pub open spec fn string_views(s: Seq<String>) -> Seq<Seq<char>> {
    s.map_values(|x: String| x@)
}

/// The views of a sequence of records.
pub open spec fn record_views(s: Seq<RouteRecord>) -> Seq<RouteRecordV> {
    s.map_values(|x: RouteRecord| x@)
}

/// Finalised statistics for one vantage peer.
#[derive(Debug, Clone, Copy, PartialEq, Eq, Structural)]
pub struct PeerInfo {
    pub ip: PeerIp,
    pub asn: u32,
    pub num_v4_pfxs: usize,
    pub num_v6_pfxs: usize,
    pub num_connected_asns: usize,
}

/// Per-peer statistics document for one snapshot.
#[derive(Debug, Clone)]
pub struct RibPeerInfo {
    pub project: String,
    pub collector: String,
    pub rib_dump_url: String,
    pub peers: Vec<PeerInfo>,
}

/// One prefix-to-origin entry: how many records within the snapshot
/// announced `prefix` with `asn` as the origin.
#[derive(Debug, Clone, PartialEq)]
pub struct Prefix2AsCount {
    pub prefix: String,
    pub asn: u32,
    pub count: usize,
}

/// Prefix-to-origin document for one snapshot.
#[derive(Debug, Clone)]
pub struct Prefix2As {
    pub project: String,
    pub collector: String,
    pub rib_dump_url: String,
    pub pfx2as: Vec<Prefix2AsCount>,
}

/// One AS-relationship entry.
#[derive(Debug, Clone, Copy, PartialEq, Eq, Structural)]
pub struct As2RelCount {
    pub asn1: u32,
    pub asn2: u32,
    /// `REL_ADJACENT`, or `REL_PROVIDER_TO_CUSTOMER` with `asn1` the
    /// inferred provider of `asn2`.
    pub rel: u8,
    /// Number of records whose path showed this relationship.
    pub paths_count: usize,
    /// Number of distinct peers observing it.
    pub peers_count: usize,
}

/// AS-relationship document for one snapshot (one per family scope).
#[derive(Debug, Clone)]
pub struct As2Rel {
    pub project: String,
    pub collector: String,
    pub rib_dump_url: String,
    pub as2rel: Vec<As2RelCount>,
}

} // verus!
