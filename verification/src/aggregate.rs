//! The RIB-stream aggregation engine.
//!
//! One forward pass over a decoded route stream simultaneously builds
//! per-peer statistics, prefix-to-origin counts and three
//! AS-relationship maps (global, IPv4-only, IPv6-only, each with its
//! own tier-1 anchor list).  The aggregator's contents always equal
//! the mathematical fold of the records absorbed so far, so every
//! property of the fold holds of the finalised documents.

use vstd::prelude::*;
use crate::countmap::{pfx_add, pfx_counts_match, PfxCountMap, PfxModel};
use crate::dedup::{dedup_of, dedup_seq};
use crate::peermodel::{lemma_peers_run_snoc, peers_run, peers_step, PeerModel};
use crate::relacc::{counts_match, RelAccumulator};
use crate::relmodel::{lemma_rel_run_snoc, record_bumps, rel_run, rel_step, RelModel, RelScope};
use crate::tier1::Tier1Config;
use crate::types::{
    string_views, record_views, As2Rel, As2RelCount, PeerInfo, PeerIp, Prefix2As, Prefix2AsCount,
    RibPeerInfo, RouteRecord, RouteRecordV,
};

verus! {

/// One peer's accumulated raw data.
pub struct PeerEntry {
    pub ip: PeerIp,
    pub asn: u32,
    pub v4_prefixes: Vec<String>,
    pub v6_prefixes: Vec<String>,
    pub connected: Vec<u32>,
}

/// The statistics an entry describes.
pub open spec fn peer_entry_model(e: PeerEntry) -> PeerModel {
    PeerModel {
        asn: e.asn,
        v4: string_views(e.v4_prefixes@).to_set(),
        v6: string_views(e.v6_prefixes@).to_set(),
        connected: e.connected@.to_set(),
    }
}

/// The per-entry soundness: each list holds pairwise-distinct values.
pub open spec fn peer_entry_wf(e: PeerEntry) -> bool {
    &&& string_views(e.v4_prefixes@).no_duplicates()
    &&& string_views(e.v6_prefixes@).no_duplicates()
    &&& e.connected@.no_duplicates()
}

/// The peer map described by a sequence of entries.
pub open spec fn peers_model_of(s: Seq<PeerEntry>) -> Map<PeerIp, PeerModel>
    decreases s.len(),
{
    if s.len() == 0 {
        Map::<PeerIp, PeerModel>::empty()
    } else {
        peers_model_of(s.drop_last()).insert(s.last().ip, peer_entry_model(s.last()))
    }
}

/// No two entries describe the same peer.
pub open spec fn peer_keys_distinct(s: Seq<PeerEntry>) -> bool {
    forall|i: int, j: int|
        0 <= i < j < s.len() ==> (#[trigger] s[i]).ip != (#[trigger] s[j]).ip
}

/// With distinct peers, the map holds exactly the entries.
proof fn lemma_peers_model_index(s: Seq<PeerEntry>)
    requires
        peer_keys_distinct(s),
    ensures
        forall|i: int|
            0 <= i < s.len() ==> peers_model_of(s).dom().contains((#[trigger] s[i]).ip)
                && peers_model_of(s)[s[i].ip] == peer_entry_model(s[i]),
        forall|ip: PeerIp|
            peers_model_of(s).dom().contains(ip) ==> exists|i: int|
                0 <= i < s.len() && (#[trigger] s[i]).ip == ip,
    decreases s.len(),
{
    if s.len() > 0 {
        assert(peer_keys_distinct(s.drop_last()));
        lemma_peers_model_index(s.drop_last());
        assert forall|i: int| 0 <= i < s.len() implies peers_model_of(s).dom().contains(
            (#[trigger] s[i]).ip,
        ) && peers_model_of(s)[s[i].ip] == peer_entry_model(s[i]) by {
            if i < s.len() - 1 {
                assert(s.drop_last()[i] == s[i]);
                assert(s[i].ip != s.last().ip);
            }
        }
        assert forall|ip: PeerIp| peers_model_of(s).dom().contains(ip) implies exists|i: int|
            0 <= i < s.len() && (#[trigger] s[i]).ip == ip by {
            if ip != s.last().ip {
                assert(peers_model_of(s.drop_last()).dom().contains(ip));
                let i = choose|i: int|
                    0 <= i < s.drop_last().len() && (#[trigger] s.drop_last()[i]).ip == ip;
                assert(s.drop_last()[i] == s[i]);
                assert(s[i].ip == ip);
            } else {
                assert(s[s.len() - 1].ip == ip);
            }
        }
    }
}

/// Replacing an entry by one for the same peer updates the map at that
/// peer alone.
proof fn lemma_peers_model_update(s: Seq<PeerEntry>, i: int, e: PeerEntry)
    requires
        peer_keys_distinct(s),
        0 <= i < s.len(),
        e.ip == s[i].ip,
    ensures
        peers_model_of(s.update(i, e)) == peers_model_of(s).insert(e.ip, peer_entry_model(e)),
    decreases s.len(),
{
    let t = s.update(i, e);
    if i == s.len() - 1 {
        assert(t.drop_last() =~= s.drop_last());
        assert(t.last() == e);
        assert(peers_model_of(t) =~~= peers_model_of(s).insert(e.ip, peer_entry_model(e)));
    } else {
        assert(t.drop_last() =~= s.drop_last().update(i, e));
        assert(t.last() == s.last());
        assert(peer_keys_distinct(s.drop_last()));
        assert(s.drop_last()[i] == s[i]);
        lemma_peers_model_update(s.drop_last(), i, e);
        assert(e.ip != s.last().ip);
        assert(peers_model_of(s.drop_last()).insert(e.ip, peer_entry_model(e)).insert(
            s.last().ip,
            peer_entry_model(s.last()),
        ) =~~= peers_model_of(s.drop_last()).insert(s.last().ip, peer_entry_model(s.last()))
            .insert(e.ip, peer_entry_model(e)));
    }
}

/// The prefix-to-origin counts after absorbing one record: when the
/// record has a non-empty path, the pair of its prefix and the
/// collapsed path's last AS (the origin) counts one more message.
pub open spec fn pfx_step_of(m: PfxModel, r: RouteRecordV) -> PfxModel {
    match r.as_path {
        Some(p) => {
            let d = dedup_seq(p);
            if d.len() > 0 {
                pfx_add(m, (r.prefix, d.last()), 1nat)
            } else {
                m
            }
        },
        None => m,
    }
}

/// The counts after absorbing a record stream, starting from `m`.
pub open spec fn pfx_run_from(m: PfxModel, records: Seq<RouteRecordV>) -> PfxModel
    decreases records.len(),
{
    if records.len() == 0 {
        m
    } else {
        pfx_run_from(pfx_step_of(m, records[0]), records.drop_first())
    }
}

/// The counts after absorbing a record stream, starting empty.
pub open spec fn pfx_run(records: Seq<RouteRecordV>) -> PfxModel {
    pfx_run_from(Map::<(Seq<char>, u32), nat>::empty(), records)
}

/// Absorbing one more record steps the folded counts.
proof fn lemma_pfx_run_snoc(m: PfxModel, records: Seq<RouteRecordV>, r: RouteRecordV)
    ensures
        pfx_run_from(m, records.push(r)) == pfx_step_of(pfx_run_from(m, records), r),
    decreases records.len(),
{
    if records.len() == 0 {
        assert(records.push(r)[0] == r);
        assert(records.push(r).drop_first() =~= Seq::<RouteRecordV>::empty());
        assert(pfx_run_from(m, records.push(r)) == pfx_run_from(
            pfx_step_of(m, r),
            records.push(r).drop_first(),
        ));
        assert(pfx_run_from(pfx_step_of(m, r), records.push(r).drop_first()) == pfx_step_of(
            m,
            r,
        ));
        assert(pfx_run_from(m, records) == m);
    } else {
        assert(records.push(r)[0] == records[0]);
        assert(records.push(r).drop_first() =~= records.drop_first().push(r));
        assert(pfx_run_from(m, records.push(r)) == pfx_run_from(
            pfx_step_of(m, records[0]),
            records.drop_first().push(r),
        ));
        assert(pfx_run_from(m, records) == pfx_run_from(
            pfx_step_of(m, records[0]),
            records.drop_first(),
        ));
        lemma_pfx_run_snoc(pfx_step_of(m, records[0]), records.drop_first(), r);
    }
}

/// How many prefix-to-origin messages one record contributes.
pub open spec fn pfx_delta(r: RouteRecordV) -> nat {
    match r.as_path {
        Some(p) => if dedup_seq(p).len() > 0 {
            1nat
        } else {
            0nat
        },
        None => 0nat,
    }
}

/// Prefix-to-origin messages of a whole stream.
pub open spec fn pfx_total(records: Seq<RouteRecordV>) -> nat
    decreases records.len(),
{
    if records.len() == 0 {
        0nat
    } else {
        pfx_total(records.drop_last()) + pfx_delta(records.last())
    }
}

/// Relationship observations of a whole stream for one map.
pub open spec fn rel_total(records: Seq<RouteRecordV>, t1: Seq<u32>, scope: RelScope) -> nat
    decreases records.len(),
{
    if records.len() == 0 {
        0nat
    } else {
        rel_total(records.drop_last(), t1, scope) + record_bumps(records.last(), t1, scope).len()
    }
}

/// One pass is append-only for prefix-to-origin counts: absorbing a
/// record never removes a key and never lowers a count.
pub proof fn lemma_pfx_step_append_only(m: PfxModel, r: RouteRecordV, k: (Seq<char>, u32))
    ensures
        m.dom().contains(k) ==> pfx_step_of(m, r).dom().contains(k),
        crate::countmap::pfx_lookup(pfx_step_of(m, r), k) >= crate::countmap::pfx_lookup(m, k),
{
}

/// Everything one snapshot's pass derives.
pub struct SnapshotModel {
    pub peers: Map<PeerIp, PeerModel>,
    pub pfx2as: PfxModel,
    pub rel_global: RelModel,
    pub rel_v4: RelModel,
    pub rel_v6: RelModel,
}

/// The complete outcome of absorbing a record stream under the given
/// anchor lists.
pub open spec fn snapshot_run(
    records: Seq<RouteRecordV>,
    t1_global: Seq<u32>,
    t1_v4: Seq<u32>,
    t1_v6: Seq<u32>,
) -> SnapshotModel {
    SnapshotModel {
        peers: peers_run(records),
        pfx2as: pfx_run(records),
        rel_global: rel_run(records, t1_global, RelScope::Global),
        rel_v4: rel_run(records, t1_v4, RelScope::V4Only),
        rel_v6: rel_run(records, t1_v6, RelScope::V6Only),
    }
}

/// Inserts `x` unless an equal value is present.
#[verifier::loop_isolation(false)]
fn insert_unique_u32(v: &mut Vec<u32>, x: u32)
    requires
        old(v)@.no_duplicates(),
    ensures
        final(v)@.no_duplicates(),
        final(v)@.to_set() == old(v)@.to_set().insert(x),
{
    let mut seen = false;
    let mut j: usize = 0;
    while !seen && j < v.len()
        invariant
            0 <= j <= v@.len(),
            v@ == old(v)@,
            !seen ==> forall|l: int| 0 <= l < j ==> v@[l] != x,
            seen ==> v@.contains(x),
        decreases v@.len() - j + (if seen { 0int } else { 1int }),
    {
        if v[j] == x {
            seen = true;
        } else {
            j += 1;
        }
    }
    if seen {
        proof {
            assert(v@.to_set().contains(x));
            assert(v@.to_set() =~= old(v)@.to_set().insert(x));
        }
    } else {
        proof {
            assert(!v@.contains(x)) by {
                if v@.contains(x) {
                    let l = choose|l: int| 0 <= l < v@.len() && v@[l] == x;
                    assert(false);
                }
            }
        }
        v.push(x);
        proof {
            let np = v@;
            assert(np =~= old(v)@.push(x));
            assert forall|y: u32| np.to_set().contains(y) <==> old(v)@.to_set().insert(x).contains(
                y,
            ) by {
                if np.contains(y) {
                    let l = choose|l: int| 0 <= l < np.len() && np[l] == y;
                    if l < old(v)@.len() {
                        assert(old(v)@[l] == y);
                    } else {
                        assert(y == x);
                    }
                }
                if old(v)@.contains(y) {
                    let l = choose|l: int| 0 <= l < old(v)@.len() && old(v)@[l] == y;
                    assert(np[l] == y);
                }
                if y == x {
                    assert(np[np.len() - 1] == y);
                }
            }
            assert(np.to_set() =~= old(v)@.to_set().insert(x));
        }
    }
}

/// Inserts a copy of `s` unless a string with equal contents is
/// present.
#[verifier::loop_isolation(false)]
fn insert_unique_string(v: &mut Vec<String>, s: &String)
    requires
        string_views(old(v)@).no_duplicates(),
    ensures
        string_views(final(v)@).no_duplicates(),
        string_views(final(v)@).to_set() == string_views(old(v)@).to_set().insert(s@),
{
    let ghost ovs = string_views(old(v)@);
    let mut seen = false;
    let mut j: usize = 0;
    while !seen && j < v.len()
        invariant
            0 <= j <= v@.len(),
            v@ == old(v)@,
            !seen ==> forall|l: int| 0 <= l < j ==> ovs[l] != s@,
            seen ==> ovs.contains(s@),
        decreases v@.len() - j + (if seen { 0int } else { 1int }),
    {
        if v[j] == *s {
            seen = true;
            proof {
                assert(ovs[j as int] == v@[j as int]@);
            }
        } else {
            proof {
                assert(ovs[j as int] == v@[j as int]@);
            }
            j += 1;
        }
    }
    if seen {
        proof {
            assert(ovs.to_set().contains(s@));
            assert(string_views(v@).to_set() =~= ovs.to_set().insert(s@));
        }
    } else {
        proof {
            assert(!ovs.contains(s@)) by {
                if ovs.contains(s@) {
                    let l = choose|l: int| 0 <= l < ovs.len() && ovs[l] == s@;
                    assert(false);
                }
            }
        }
        let c = s.clone();
        v.push(c);
        proof {
            let np = string_views(v@);
            assert(v@ =~= old(v)@.push(c));
            assert(np =~= ovs.push(s@)) by {
                assert(np.len() == ovs.len() + 1);
                assert forall|l: int| 0 <= l < np.len() implies np[l] == ovs.push(s@)[l] by {
                    if l < ovs.len() {
                        assert(np[l] == old(v)@[l]@);
                    } else {
                        assert(np[l] == c@);
                    }
                }
            }
            assert forall|y: Seq<char>| np.to_set().contains(y) <==> ovs.to_set().insert(
                s@,
            ).contains(y) by {
                if np.contains(y) {
                    let l = choose|l: int| 0 <= l < np.len() && np[l] == y;
                    if l < ovs.len() {
                        assert(ovs[l] == y);
                    } else {
                        assert(y == s@);
                    }
                }
                if ovs.contains(y) {
                    let l = choose|l: int| 0 <= l < ovs.len() && ovs[l] == y;
                    assert(np[l] == y);
                }
                if y == s@ {
                    assert(np[np.len() - 1] == y);
                }
            }
            assert(np.to_set() =~= ovs.to_set().insert(s@));
            assert(np.no_duplicates());
        }
    }
}

/// The running aggregation state for one snapshot.
pub struct RibAggregator {
    pub peers: Vec<PeerEntry>,
    pub pfx: PfxCountMap,
    pub rel_global: RelAccumulator,
    pub rel_v4: RelAccumulator,
    pub rel_v6: RelAccumulator,
    /// The records absorbed so far, in order.
    pub history: Ghost<Seq<RouteRecordV>>,
}

impl RibAggregator {
    /// The global anchor list.
    pub open spec fn t1_global(self) -> Seq<u32> {
        self.rel_global.tier1@
    }

    /// The IPv4-scope anchor list.
    pub open spec fn t1_v4(self) -> Seq<u32> {
        self.rel_v4.tier1@
    }

    /// The IPv6-scope anchor list.
    pub open spec fn t1_v6(self) -> Seq<u32> {
        self.rel_v6.tier1@
    }

    /// Everything accumulated so far.
    pub open spec fn model(self) -> SnapshotModel {
        SnapshotModel {
            peers: peers_model_of(self.peers@),
            pfx2as: self.pfx.model(),
            rel_global: self.rel_global.model(),
            rel_v4: self.rel_v4.model(),
            rel_v6: self.rel_v6.model(),
        }
    }

    /// Soundness: the parts are sound and together they equal the fold
    /// of the absorbed records.
    pub open spec fn wf(self) -> bool {
        &&& peer_keys_distinct(self.peers@)
        &&& forall|i: int| 0 <= i < self.peers@.len() ==> peer_entry_wf(#[trigger] self.peers@[i])
        &&& self.pfx.wf()
        &&& self.rel_global.wf()
        &&& self.rel_v4.wf()
        &&& self.rel_v6.wf()
        &&& self.model() == snapshot_run(
            self.history@,
            self.t1_global(),
            self.t1_v4(),
            self.t1_v6(),
        )
        &&& self.pfx.total@ == pfx_total(self.history@)
        &&& self.rel_global.total@ == rel_total(self.history@, self.t1_global(), RelScope::Global)
        &&& self.rel_v4.total@ == rel_total(self.history@, self.t1_v4(), RelScope::V4Only)
        &&& self.rel_v6.total@ == rel_total(self.history@, self.t1_v6(), RelScope::V6Only)
    }

    /// Room for one more record within machine limits.
    pub open spec fn can_absorb(self, r: RouteRecordV) -> bool {
        &&& self.pfx.total@ + pfx_delta(r) <= usize::MAX
        &&& self.rel_global.total@ + record_bumps(r, self.t1_global(), RelScope::Global).len()
            <= usize::MAX
        &&& self.rel_v4.total@ + record_bumps(r, self.t1_v4(), RelScope::V4Only).len()
            <= usize::MAX
        &&& self.rel_v6.total@ + record_bumps(r, self.t1_v6(), RelScope::V6Only).len()
            <= usize::MAX
    }

    /// An empty aggregation state under the given anchor configuration.
    pub fn new(cfg: Tier1Config) -> (r: RibAggregator)
        ensures
            r.wf(),
            r.history@ == Seq::<RouteRecordV>::empty(),
            r.t1_global() == cfg.global@,
            r.t1_v4() == cfg.v4@,
            r.t1_v6() == cfg.v6@,
    {
        let Tier1Config { global, v4, v6 } = cfg;
        let r = RibAggregator {
            peers: Vec::new(),
            pfx: PfxCountMap::new(),
            rel_global: RelAccumulator::new(global),
            rel_v4: RelAccumulator::new(v4),
            rel_v6: RelAccumulator::new(v6),
            history: Ghost(Seq::empty()),
        };
        proof {
            assert(peers_model_of(r.peers@) =~= Map::<PeerIp, PeerModel>::empty());
        }
        r
    }

    /// Absorbs one record, in stream order: first-seen AS number for a
    /// new peer, family prefix bookkeeping, and — when a path is
    /// present — second-hop, origin-count and relationship updates on
    /// the collapsed path.
    #[verifier::loop_isolation(false)]
    pub fn process_record(&mut self, rec: &RouteRecord)
        requires
            old(self).wf(),
            old(self).can_absorb(rec@),
        ensures
            final(self).wf(),
            final(self).history@ == old(self).history@.push(rec@),
            final(self).t1_global() == old(self).t1_global(),
            final(self).t1_v4() == old(self).t1_v4(),
            final(self).t1_v6() == old(self).t1_v6(),
    {
        let ghost r = rec@;
        let ghost h0 = self.history@;
        let ghost m0 = self.model();
        let ghost t1g = self.t1_global();
        let ghost t14 = self.t1_v4();
        let ghost t16 = self.t1_v6();
        proof {
            lemma_peers_run_snoc(Map::empty(), h0, r);
            lemma_pfx_run_snoc(Map::<(Seq<char>, u32), nat>::empty(), h0, r);
            lemma_rel_run_snoc(Map::empty(), h0, r, t1g, RelScope::Global);
            lemma_rel_run_snoc(Map::empty(), h0, r, t14, RelScope::V4Only);
            lemma_rel_run_snoc(Map::empty(), h0, r, t16, RelScope::V6Only);
            assert(h0.push(r).drop_last() =~= h0);
            assert(h0.push(r).last() == r);
            assert(pfx_total(h0.push(r)) == pfx_total(h0) + pfx_delta(r));
            assert(rel_total(h0.push(r), t1g, RelScope::Global) == rel_total(h0, t1g, RelScope::Global)
                + record_bumps(r, t1g, RelScope::Global).len());
            assert(rel_total(h0.push(r), t14, RelScope::V4Only) == rel_total(h0, t14, RelScope::V4Only)
                + record_bumps(r, t14, RelScope::V4Only).len());
            assert(rel_total(h0.push(r), t16, RelScope::V6Only) == rel_total(h0, t16, RelScope::V6Only)
                + record_bumps(r, t16, RelScope::V6Only).len());
        }
        let mut second_hop: Option<u32> = None;
        let ghost d: Seq<u32> = match r.as_path {
            Some(p) => dedup_seq(p),
            None => Seq::<u32>::empty(),
        };
        match &rec.as_path {
            Some(p) => {
                let cleaned = dedup_of(p);
                proof {
                    assert(r.as_path == Some(p@));
                    assert(cleaned@ == d);
                    assert(record_bumps(r, t1g, RelScope::Global) == crate::relmodel::path_bumps(
                        d,
                        r.peer_ip,
                        t1g,
                    ));
                }
                if cleaned.len() >= 2 {
                    second_hop = Some(cleaned[1]);
                }
                if cleaned.len() > 0 {
                    proof {
                        assert(pfx_delta(r) == 1nat);
                        assert(d.last() == cleaned@[cleaned@.len() - 1]);
                    }
                    self.pfx.add(&rec.prefix, cleaned[cleaned.len() - 1], 1);
                }
                self.rel_global.observe_path(rec.peer_ip, &cleaned);
                if rec.prefix_v4 {
                    proof {
                        assert(record_bumps(r, t14, RelScope::V4Only)
                            == crate::relmodel::path_bumps(d, r.peer_ip, t14));
                    }
                    self.rel_v4.observe_path(rec.peer_ip, &cleaned);
                    proof {
                        assert(record_bumps(r, t16, RelScope::V6Only)
                            =~= Seq::<crate::relmodel::RelBump>::empty());
                        assert(self.rel_v6.model() == rel_step(m0.rel_v6, r, t16, RelScope::V6Only));
                    }
                } else {
                    proof {
                        assert(record_bumps(r, t16, RelScope::V6Only)
                            == crate::relmodel::path_bumps(d, r.peer_ip, t16));
                    }
                    self.rel_v6.observe_path(rec.peer_ip, &cleaned);
                    proof {
                        assert(record_bumps(r, t14, RelScope::V4Only)
                            =~= Seq::<crate::relmodel::RelBump>::empty());
                        assert(self.rel_v4.model() == rel_step(m0.rel_v4, r, t14, RelScope::V4Only));
                    }
                }
            },
            None => {
                proof {
                    assert(r.as_path is None);
                    assert(record_bumps(r, t1g, RelScope::Global)
                        =~= Seq::<crate::relmodel::RelBump>::empty());
                    assert(record_bumps(r, t14, RelScope::V4Only)
                        =~= Seq::<crate::relmodel::RelBump>::empty());
                    assert(record_bumps(r, t16, RelScope::V6Only)
                        =~= Seq::<crate::relmodel::RelBump>::empty());
                    assert(self.rel_global.model() == rel_step(m0.rel_global, r, t1g, RelScope::Global));
                    assert(self.rel_v4.model() == rel_step(m0.rel_v4, r, t14, RelScope::V4Only));
                    assert(self.rel_v6.model() == rel_step(m0.rel_v6, r, t16, RelScope::V6Only));
                }
            },
        }
        proof {
            assert(self.pfx.model() == pfx_step_of(m0.pfx2as, r));
            assert(self.pfx.total@ == pfx_total(h0) + pfx_delta(r));
            assert(self.rel_global.model() == rel_step(m0.rel_global, r, t1g, RelScope::Global));
            assert(second_hop == (if r.as_path is Some && d.len() >= 2 {
                Some(d[1])
            } else {
                None::<u32>
            }));
        }
        // find or create the peer entry
        let ghost peers0 = self.peers@;
        let mut found = false;
        let mut pi: usize = 0;
        let mut i: usize = 0;
        while !found && i < self.peers.len()
            invariant
                0 <= i <= self.peers@.len(),
                self.peers@ == peers0,
                !found ==> forall|j: int| 0 <= j < i ==> (#[trigger] peers0[j]).ip != rec.peer_ip,
                found ==> pi < peers0.len() && peers0[pi as int].ip == rec.peer_ip,
            decreases peers0.len() - i + (if found { 0int } else { 1int }),
        {
            if self.peers[i].ip == rec.peer_ip {
                found = true;
                pi = i;
            } else {
                i += 1;
            }
        }
        let ghost base: PeerModel = if found {
            peer_entry_model(peers0[pi as int])
        } else {
            PeerModel {
                asn: r.peer_asn,
                v4: Set::<Seq<char>>::empty(),
                v6: Set::<Seq<char>>::empty(),
                connected: Set::<u32>::empty(),
            }
        };
        proof {
            lemma_peers_model_index(peers0);
            if found {
                assert(peers_model_of(peers0).dom().contains(r.peer_ip));
                assert(peers_model_of(peers0)[r.peer_ip] == base);
            } else {
                assert(!peers_model_of(peers0).dom().contains(r.peer_ip)) by {
                    if peers_model_of(peers0).dom().contains(r.peer_ip) {
                        let j = choose|j: int|
                            0 <= j < peers0.len() && (#[trigger] peers0[j]).ip == r.peer_ip;
                        assert(false);
                    }
                }
            }
        }
        if !found {
            let fresh = PeerEntry {
                ip: rec.peer_ip,
                asn: rec.peer_asn,
                v4_prefixes: Vec::new(),
                v6_prefixes: Vec::new(),
                connected: Vec::new(),
            };
            pi = self.peers.len();
            self.peers.push(fresh);
            proof {
                assert(self.peers@.drop_last() =~= peers0);
                let f = self.peers@.last();
                assert(string_views(f.v4_prefixes@) =~= Seq::<Seq<char>>::empty());
                assert(string_views(f.v6_prefixes@) =~= Seq::<Seq<char>>::empty());
                assert(string_views(f.v4_prefixes@).to_set() =~= Set::<Seq<char>>::empty());
                assert(string_views(f.v6_prefixes@).to_set() =~= Set::<Seq<char>>::empty());
                assert(f.connected@.to_set() =~= Set::<u32>::empty());
                assert(peer_entry_model(f) == base);
                assert(peers_model_of(self.peers@) == peers_model_of(peers0).insert(
                    r.peer_ip,
                    base,
                ));
            }
        }
        let ghost peers1 = self.peers@;
        proof {
            assert(peers1[pi as int].ip == rec.peer_ip);
            assert(peer_entry_model(peers1[pi as int]) == base);
            assert(peer_keys_distinct(peers1));
            assert(peer_entry_wf(peers1[pi as int]));
            assert(peers_model_of(peers1) == peers_model_of(peers0).insert(r.peer_ip, base)) by {
                if found {
                    assert(peers_model_of(peers0).insert(r.peer_ip, base) =~~= peers_model_of(
                        peers0,
                    ));
                }
            }
        }
        let e = &mut self.peers[pi];
        match second_hop {
            Some(h) => {
                insert_unique_u32(&mut e.connected, h);
            },
            None => {},
        }
        if rec.prefix_v4 {
            insert_unique_string(&mut e.v4_prefixes, &rec.prefix);
        } else {
            insert_unique_string(&mut e.v6_prefixes, &rec.prefix);
        }
        proof {
            let newe = self.peers@[pi as int];
            assert(self.peers@ =~= peers1.update(pi as int, newe));
            assert(newe.ip == rec.peer_ip);
            assert(newe.asn == peers1[pi as int].asn);
            assert(peer_entry_wf(newe));
            lemma_peers_model_update(peers1, pi as int, newe);
            let target = peers_step(peers_model_of(peers0), r)[r.peer_ip];
            assert(peer_entry_model(newe).asn == target.asn);
            assert(peer_entry_model(newe).v4 == target.v4);
            assert(peer_entry_model(newe).v6 == target.v6);
            assert(peer_entry_model(newe).connected == target.connected);
            assert(peer_entry_model(newe) == target);
            assert(peers_model_of(self.peers@) =~~= peers_step(peers_model_of(peers0), r));
            self.history@ = h0.push(r);
            assert(self.model().peers == peers_run(self.history@));
            assert(self.model().pfx2as == pfx_run(self.history@));
            assert(self.model().rel_global == rel_run(self.history@, t1g, RelScope::Global));
            assert(self.model().rel_v4 == rel_run(self.history@, t14, RelScope::V4Only));
            assert(self.model().rel_v6 == rel_run(self.history@, t16, RelScope::V6Only));
        }
    }
}


/// The finalised peer list describes exactly the peer map `m`: one
/// entry per peer, counts the sizes of its sets.
pub open spec fn peer_infos_match(ps: Seq<PeerInfo>, m: Map<PeerIp, PeerModel>) -> bool {
    &&& forall|i: int|
        0 <= i < ps.len() ==> {
            &&& m.dom().contains((#[trigger] ps[i]).ip)
            &&& ps[i].asn == m[ps[i].ip].asn
            &&& ps[i].num_v4_pfxs as nat == m[ps[i].ip].v4.len()
            &&& ps[i].num_v6_pfxs as nat == m[ps[i].ip].v6.len()
            &&& ps[i].num_connected_asns as nat == m[ps[i].ip].connected.len()
        }
    &&& forall|ip: PeerIp|
        m.dom().contains(ip) ==> exists|i: int| 0 <= i < ps.len() && (#[trigger] ps[i]).ip == ip
    &&& forall|i: int, j: int|
        0 <= i < j < ps.len() ==> (#[trigger] ps[i]).ip != (#[trigger] ps[j]).ip
}

impl RibAggregator {
    /// Closes the pass: set sizes become counts, and the three result
    /// documents are built, each carrying the snapshot's provenance.
    #[verifier::loop_isolation(false)]
    pub fn finalize(self, project: &str, collector: &str, url: &str) -> (docs: (
        RibPeerInfo,
        Prefix2As,
        (As2Rel, As2Rel, As2Rel),
    ))
        requires
            self.wf(),
        ensures
            peer_infos_match(docs.0.peers@, self.model().peers),
            pfx_counts_match(docs.1.pfx2as@, self.model().pfx2as),
            counts_match(docs.2.0.as2rel@, self.model().rel_global),
            counts_match(docs.2.1.as2rel@, self.model().rel_v4),
            counts_match(docs.2.2.as2rel@, self.model().rel_v6),
            docs.0.project@ == project@ && docs.0.collector@ == collector@
                && docs.0.rib_dump_url@ == url@,
            docs.1.project@ == project@ && docs.1.collector@ == collector@
                && docs.1.rib_dump_url@ == url@,
            docs.2.0.project@ == project@ && docs.2.0.collector@ == collector@
                && docs.2.0.rib_dump_url@ == url@,
            docs.2.1.project@ == project@ && docs.2.1.collector@ == collector@
                && docs.2.1.rib_dump_url@ == url@,
            docs.2.2.project@ == project@ && docs.2.2.collector@ == collector@
                && docs.2.2.rib_dump_url@ == url@,
    {
        proof {
            lemma_peers_model_index(self.peers@);
        }
        let ghost pm = peers_model_of(self.peers@);
        let mut infos: Vec<PeerInfo> = Vec::new();
        let mut i: usize = 0;
        while i < self.peers.len()
            invariant
                0 <= i <= self.peers@.len(),
                infos@.len() == i,
                forall|j: int|
                    0 <= j < i ==> {
                        &&& (#[trigger] infos@[j]).ip == self.peers@[j].ip
                        &&& infos@[j].asn == self.peers@[j].asn
                        &&& infos@[j].num_v4_pfxs as nat == string_views(
                            self.peers@[j].v4_prefixes@,
                        ).to_set().len()
                        &&& infos@[j].num_v6_pfxs as nat == string_views(
                            self.peers@[j].v6_prefixes@,
                        ).to_set().len()
                        &&& infos@[j].num_connected_asns as nat
                            == self.peers@[j].connected@.to_set().len()
                    },
            decreases self.peers@.len() - i,
        {
            let e = &self.peers[i];
            proof {
                string_views(e.v4_prefixes@).unique_seq_to_set();
                string_views(e.v6_prefixes@).unique_seq_to_set();
                e.connected@.unique_seq_to_set();
            }
            infos.push(
                PeerInfo {
                    ip: e.ip,
                    asn: e.asn,
                    num_v4_pfxs: e.v4_prefixes.len(),
                    num_v6_pfxs: e.v6_prefixes.len(),
                    num_connected_asns: e.connected.len(),
                },
            );
            i += 1;
        }
        proof {
            assert forall|ip: PeerIp| pm.dom().contains(ip) implies exists|j: int|
                0 <= j < infos@.len() && (#[trigger] infos@[j]).ip == ip by {
                let j = choose|j: int|
                    0 <= j < self.peers@.len() && (#[trigger] self.peers@[j]).ip == ip;
                assert(infos@[j].ip == ip);
            }
            assert(peer_infos_match(infos@, pm));
        }
        let rel_g = self.rel_global.compile();
        let rel_4 = self.rel_v4.compile();
        let rel_6 = self.rel_v6.compile();
        let pfx_entries = self.pfx.into_entries();
        (
            RibPeerInfo {
                project: project.to_owned(),
                collector: collector.to_owned(),
                rib_dump_url: url.to_owned(),
                peers: infos,
            },
            Prefix2As {
                project: project.to_owned(),
                collector: collector.to_owned(),
                rib_dump_url: url.to_owned(),
                pfx2as: pfx_entries,
            },
            (
                As2Rel {
                    project: project.to_owned(),
                    collector: collector.to_owned(),
                    rib_dump_url: url.to_owned(),
                    as2rel: rel_g,
                },
                As2Rel {
                    project: project.to_owned(),
                    collector: collector.to_owned(),
                    rib_dump_url: url.to_owned(),
                    as2rel: rel_4,
                },
                As2Rel {
                    project: project.to_owned(),
                    collector: collector.to_owned(),
                    rib_dump_url: url.to_owned(),
                    as2rel: rel_6,
                },
            ),
        )
    }
}

/// The whole stream stays within machine limits: no count can reach
/// the pointer-size bound.
pub open spec fn stream_fits(
    records: Seq<RouteRecordV>,
    t1_global: Seq<u32>,
    t1_v4: Seq<u32>,
    t1_v6: Seq<u32>,
) -> bool {
    &&& pfx_total(records) <= usize::MAX
    &&& rel_total(records, t1_global, RelScope::Global) <= usize::MAX
    &&& rel_total(records, t1_v4, RelScope::V4Only) <= usize::MAX
    &&& rel_total(records, t1_v6, RelScope::V6Only) <= usize::MAX
}

/// A prefix of the stream never contributes more prefix-to-origin
/// messages than the whole stream.
proof fn lemma_pfx_total_prefix(s: Seq<RouteRecordV>, j: int)
    requires
        0 <= j <= s.len(),
    ensures
        pfx_total(s.take(j)) <= pfx_total(s),
    decreases s.len() - j,
{
    if j == s.len() {
        assert(s.take(j) =~= s);
    } else {
        assert(s.take(j + 1).drop_last() =~= s.take(j));
        assert(s.take(j + 1).last() == s[j]);
        assert(pfx_total(s.take(j + 1)) == pfx_total(s.take(j)) + pfx_delta(s[j]));
        lemma_pfx_total_prefix(s, j + 1);
    }
}

/// A prefix of the stream never contributes more relationship
/// observations than the whole stream.
proof fn lemma_rel_total_prefix(s: Seq<RouteRecordV>, j: int, t1: Seq<u32>, scope: RelScope)
    requires
        0 <= j <= s.len(),
    ensures
        rel_total(s.take(j), t1, scope) <= rel_total(s, t1, scope),
    decreases s.len() - j,
{
    if j == s.len() {
        assert(s.take(j) =~= s);
    } else {
        assert(s.take(j + 1).drop_last() =~= s.take(j));
        assert(s.take(j + 1).last() == s[j]);
        assert(rel_total(s.take(j + 1), t1, scope) == rel_total(s.take(j), t1, scope)
            + record_bumps(s[j], t1, scope).len());
        lemma_rel_total_prefix(s, j + 1, t1, scope);
    }
}

/// One snapshot's whole pass: every record absorbed in stream order,
/// then finalised into the three documents.
#[verifier::loop_isolation(false)]
pub fn aggregate_records(
    records: &Vec<RouteRecord>,
    cfg: Tier1Config,
    project: &str,
    collector: &str,
    url: &str,
) -> (docs: (RibPeerInfo, Prefix2As, (As2Rel, As2Rel, As2Rel)))
    requires
        stream_fits(record_views(records@), cfg.global@, cfg.v4@, cfg.v6@),
    ensures
        ({
            let m = snapshot_run(record_views(records@), cfg.global@, cfg.v4@, cfg.v6@);
            &&& peer_infos_match(docs.0.peers@, m.peers)
            &&& pfx_counts_match(docs.1.pfx2as@, m.pfx2as)
            &&& counts_match(docs.2.0.as2rel@, m.rel_global)
            &&& counts_match(docs.2.1.as2rel@, m.rel_v4)
            &&& counts_match(docs.2.2.as2rel@, m.rel_v6)
            &&& docs.0.project@ == project@ && docs.0.collector@ == collector@
                && docs.0.rib_dump_url@ == url@
            &&& docs.1.project@ == project@ && docs.1.collector@ == collector@
                && docs.1.rib_dump_url@ == url@
            &&& docs.2.0.project@ == project@ && docs.2.0.collector@ == collector@
                && docs.2.0.rib_dump_url@ == url@
            &&& docs.2.1.project@ == project@ && docs.2.1.collector@ == collector@
                && docs.2.1.rib_dump_url@ == url@
            &&& docs.2.2.project@ == project@ && docs.2.2.collector@ == collector@
                && docs.2.2.rib_dump_url@ == url@
        }),
{
    let ghost views = record_views(records@);
    let ghost t1g = cfg.global@;
    let ghost t14 = cfg.v4@;
    let ghost t16 = cfg.v6@;
    let mut agg = RibAggregator::new(cfg);
    proof {
        assert(views.take(0) =~= Seq::<RouteRecordV>::empty());
    }
    let mut i: usize = 0;
    while i < records.len()
        invariant
            0 <= i <= records@.len(),
            views == record_views(records@),
            agg.wf(),
            agg.history@ == views.take(i as int),
            agg.t1_global() == t1g,
            agg.t1_v4() == t14,
            agg.t1_v6() == t16,
        decreases records@.len() - i,
    {
        let rec = &records[i];
        proof {
            assert(views[i as int] == rec@);
            assert(views.take(i + 1).drop_last() =~= views.take(i as int));
            assert(views.take(i + 1).last() == views[i as int]);
            assert(pfx_total(views.take(i + 1)) == pfx_total(views.take(i as int)) + pfx_delta(
                rec@,
            ));
            lemma_pfx_total_prefix(views, i + 1);
            assert(rel_total(views.take(i + 1), t1g, RelScope::Global) == rel_total(
                views.take(i as int),
                t1g,
                RelScope::Global,
            ) + record_bumps(rec@, t1g, RelScope::Global).len());
            lemma_rel_total_prefix(views, i + 1, t1g, RelScope::Global);
            assert(rel_total(views.take(i + 1), t14, RelScope::V4Only) == rel_total(
                views.take(i as int),
                t14,
                RelScope::V4Only,
            ) + record_bumps(rec@, t14, RelScope::V4Only).len());
            lemma_rel_total_prefix(views, i + 1, t14, RelScope::V4Only);
            assert(rel_total(views.take(i + 1), t16, RelScope::V6Only) == rel_total(
                views.take(i as int),
                t16,
                RelScope::V6Only,
            ) + record_bumps(rec@, t16, RelScope::V6Only).len());
            lemma_rel_total_prefix(views, i + 1, t16, RelScope::V6Only);
            assert(agg.can_absorb(rec@));
        }
        agg.process_record(rec);
        proof {
            assert(views.take(i + 1) =~= views.take(i as int).push(rec@));
        }
        i += 1;
    }
    proof {
        assert(views.take(records@.len() as int) =~= views);
    }
    agg.finalize(project, collector, url)
}


} // verus!
