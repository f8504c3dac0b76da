//! Tier-1 AS reference lists: fixed configuration injected into the
//! aggregation pass as inference anchors.
//!
//! The per-family variants differ from the global list by one sentinel
//! substitution; the discrepancy is preserved exactly as configured.

use vstd::prelude::*;

verus! {

/// The global tier-1 anchor list.
pub open spec fn tier1_global_spec() -> Seq<u32> {
    seq![
        6762u32, 12956, 2914, 3356, 6453, 1239, 701, 6461, 3257, 1299, 3491, 7018, 3320, 5511,
        6830, 174, 6939,
    ]
}

/// The IPv4-scope anchor list: the global list with its last entry
/// replaced by a sentinel.
pub open spec fn tier1_v4_spec() -> Seq<u32> {
    seq![
        6762u32, 12956, 2914, 3356, 6453, 1239, 701, 6461, 3257, 1299, 3491, 7018, 3320, 5511,
        6830, 174, 0,
    ]
}

/// The IPv6-scope anchor list.
pub open spec fn tier1_v6_spec() -> Seq<u32> {
    seq![
        6762u32, 12956, 2914, 3356, 6453, 1239, 701, 6461, 3257, 1299, 3491, 7018, 3320, 5511,
        6830, 174, 6939,
    ]
}

/// The three tier-1 anchor lists, one per relationship scope.
pub struct Tier1Config {
    pub global: Vec<u32>,
    pub v4: Vec<u32>,
    pub v6: Vec<u32>,
}

impl Tier1Config {
    /// The standard anchor configuration.
    pub fn standard() -> (c: Tier1Config)
        ensures
            c.global@ == tier1_global_spec(),
            c.v4@ == tier1_v4_spec(),
            c.v6@ == tier1_v6_spec(),
    {
        let global: Vec<u32> = vec![
            6762u32, 12956, 2914, 3356, 6453, 1239, 701, 6461, 3257, 1299, 3491, 7018, 3320, 5511,
            6830, 174, 6939,
        ];
        let v4: Vec<u32> = vec![
            6762u32, 12956, 2914, 3356, 6453, 1239, 701, 6461, 3257, 1299, 3491, 7018, 3320, 5511,
            6830, 174, 0,
        ];
        let v6: Vec<u32> = vec![
            6762u32, 12956, 2914, 3356, 6453, 1239, 701, 6461, 3257, 1299, 3491, 7018, 3320, 5511,
            6830, 174, 6939,
        ];
        proof {
            assert(global@ =~= tier1_global_spec());
            assert(v4@ =~= tier1_v4_spec());
            assert(v6@ =~= tier1_v6_spec());
        }
        Tier1Config { global, v4, v6 }
    }
}

} // verus!
