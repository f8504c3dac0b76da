//! Mathematical model of per-peer statistics.
//!
//! Each vantage peer owns its first-seen AS number, the sets of
//! distinct IPv4 and IPv6 prefixes it announced, and the set of AS
//! numbers seen as the second hop of its collapsed paths.  The map
//! after a pass is the fold of the per-record step over the stream.

use vstd::prelude::*;
use crate::types::{PeerIp, RouteRecordV};
use crate::dedup::dedup_seq;

verus! {

/// The statistics of one peer.
pub struct PeerModel {
    /// First-seen AS number; later records never change it.
    pub asn: u32,
    /// Distinct IPv4 prefixes announced.
    pub v4: Set<Seq<char>>,
    /// Distinct IPv6 prefixes announced.
    pub v6: Set<Seq<char>>,
    /// Distinct second hops of announced collapsed paths.
    pub connected: Set<u32>,
}

/// The peer map after absorbing one record: the peer is created with
/// its first-seen AS number if new, its family's prefix set gains the
/// record's prefix, and — when the record's collapsed path has a
/// second hop — that hop joins the connected set.
pub open spec fn peers_step(m: Map<PeerIp, PeerModel>, r: RouteRecordV) -> Map<PeerIp, PeerModel> {
    let base = if m.dom().contains(r.peer_ip) {
        m[r.peer_ip]
    } else {
        PeerModel {
            asn: r.peer_asn,
            v4: Set::<Seq<char>>::empty(),
            v6: Set::<Seq<char>>::empty(),
            connected: Set::<u32>::empty(),
        }
    };
    let withpfx = if r.prefix_v4 {
        PeerModel { asn: base.asn, v4: base.v4.insert(r.prefix), v6: base.v6, connected: base.connected }
    } else {
        PeerModel { asn: base.asn, v4: base.v4, v6: base.v6.insert(r.prefix), connected: base.connected }
    };
    let withconn = match r.as_path {
        Some(p) => {
            let d = dedup_seq(p);
            if d.len() >= 2 {
                PeerModel {
                    asn: withpfx.asn,
                    v4: withpfx.v4,
                    v6: withpfx.v6,
                    connected: withpfx.connected.insert(d[1]),
                }
            } else {
                withpfx
            }
        },
        None => withpfx,
    };
    m.insert(r.peer_ip, withconn)
}

/// The peer map after absorbing a record stream, starting from `m`.
pub open spec fn peers_run_from(
    m: Map<PeerIp, PeerModel>,
    records: Seq<RouteRecordV>,
) -> Map<PeerIp, PeerModel>
    decreases records.len(),
{
    if records.len() == 0 {
        m
    } else {
        peers_run_from(peers_step(m, records[0]), records.drop_first())
    }
}

/// The peer map after absorbing a record stream, starting empty.
pub open spec fn peers_run(records: Seq<RouteRecordV>) -> Map<PeerIp, PeerModel> {
    peers_run_from(Map::empty(), records)
}

/// Absorbing one more record steps the folded map.
pub proof fn lemma_peers_run_snoc(m: Map<PeerIp, PeerModel>, records: Seq<RouteRecordV>, r: RouteRecordV)
    ensures
        peers_run_from(m, records.push(r)) == peers_step(peers_run_from(m, records), r),
    decreases records.len(),
{
    if records.len() == 0 {
        assert(records.push(r)[0] == r);
        assert(records.push(r).drop_first() =~= Seq::<RouteRecordV>::empty());
        assert(peers_run_from(m, records.push(r)) == peers_run_from(
            peers_step(m, r),
            records.push(r).drop_first(),
        ));
        assert(peers_run_from(peers_step(m, r), records.push(r).drop_first()) == peers_step(
            m,
            r,
        ));
        assert(peers_run_from(m, records) == m);
    } else {
        assert(records.push(r)[0] == records[0]);
        assert(records.push(r).drop_first() =~= records.drop_first().push(r));
        assert(peers_run_from(m, records.push(r)) == peers_run_from(
            peers_step(m, records[0]),
            records.drop_first().push(r),
        ));
        assert(peers_run_from(m, records) == peers_run_from(
            peers_step(m, records[0]),
            records.drop_first(),
        ));
        lemma_peers_run_snoc(peers_step(m, records[0]), records.drop_first(), r);
    }
}

/// One pass is append-only for peer statistics: absorbing a record
/// never removes a peer, never changes a peer's first-seen AS number,
/// and never drops a prefix or a connected AS.
pub proof fn lemma_peers_step_append_only(m: Map<PeerIp, PeerModel>, r: RouteRecordV, ip: PeerIp)
    ensures
        m.dom().contains(ip) ==> peers_step(m, r).dom().contains(ip),
        m.dom().contains(ip) ==> peers_step(m, r)[ip].asn == m[ip].asn,
        m.dom().contains(ip) ==> m[ip].v4 <= peers_step(m, r)[ip].v4,
        m.dom().contains(ip) ==> m[ip].v6 <= peers_step(m, r)[ip].v6,
        m.dom().contains(ip) ==> m[ip].connected <= peers_step(m, r)[ip].connected,
{
}

/// Distinct IPv4 prefixes that `ip` announced in the stream.
pub open spec fn announced_v4(records: Seq<RouteRecordV>, ip: PeerIp) -> Set<Seq<char>>
    decreases records.len(),
{
    if records.len() == 0 {
        Set::<Seq<char>>::empty()
    } else {
        let rest = announced_v4(records.drop_first(), ip);
        if records[0].peer_ip == ip && records[0].prefix_v4 {
            rest.insert(records[0].prefix)
        } else {
            rest
        }
    }
}

/// Distinct IPv6 prefixes that `ip` announced in the stream.
pub open spec fn announced_v6(records: Seq<RouteRecordV>, ip: PeerIp) -> Set<Seq<char>>
    decreases records.len(),
{
    if records.len() == 0 {
        Set::<Seq<char>>::empty()
    } else {
        let rest = announced_v6(records.drop_first(), ip);
        if records[0].peer_ip == ip && !records[0].prefix_v4 {
            rest.insert(records[0].prefix)
        } else {
            rest
        }
    }
}

/// Distinct prefixes (with their family) that `ip` announced.
pub open spec fn announced_prefixes(records: Seq<RouteRecordV>, ip: PeerIp) -> Set<
    (Seq<char>, bool),
>
    decreases records.len(),
{
    if records.len() == 0 {
        Set::<(Seq<char>, bool)>::empty()
    } else {
        let rest = announced_prefixes(records.drop_first(), ip);
        if records[0].peer_ip == ip {
            rest.insert((records[0].prefix, records[0].prefix_v4))
        } else {
            rest
        }
    }
}

/// The family sets partition the announced prefixes, so their sizes
/// add up to the number of distinct announced prefixes.
proof fn lemma_announced_card(records: Seq<RouteRecordV>, ip: PeerIp)
    ensures
        announced_v4(records, ip).finite(),
        announced_v6(records, ip).finite(),
        announced_prefixes(records, ip).finite(),
        forall|s: Seq<char>|
            announced_v4(records, ip).contains(s) <==> announced_prefixes(records, ip).contains(
                (s, true),
            ),
        forall|s: Seq<char>|
            announced_v6(records, ip).contains(s) <==> announced_prefixes(records, ip).contains(
                (s, false),
            ),
        announced_v4(records, ip).len() + announced_v6(records, ip).len() == announced_prefixes(
            records,
            ip,
        ).len(),
    decreases records.len(),
{
    if records.len() > 0 {
        lemma_announced_card(records.drop_first(), ip);
        let r0 = records[0];
        let v4r = announced_v4(records.drop_first(), ip);
        let v6r = announced_v6(records.drop_first(), ip);
        let pr = announced_prefixes(records.drop_first(), ip);
        if r0.peer_ip == ip {
            if r0.prefix_v4 {
                assert(announced_v4(records, ip) == v4r.insert(r0.prefix));
                assert(announced_prefixes(records, ip) == pr.insert((r0.prefix, true)));
                assert(v4r.contains(r0.prefix) <==> pr.contains((r0.prefix, true)));
                if v4r.contains(r0.prefix) {
                    assert(v4r.insert(r0.prefix) =~= v4r);
                    assert(pr.insert((r0.prefix, true)) =~= pr);
                } else {
                    assert(v4r.insert(r0.prefix).len() == v4r.len() + 1);
                    assert(pr.insert((r0.prefix, true)).len() == pr.len() + 1);
                }
            } else {
                assert(announced_v6(records, ip) == v6r.insert(r0.prefix));
                assert(announced_prefixes(records, ip) == pr.insert((r0.prefix, false)));
                assert(v6r.contains(r0.prefix) <==> pr.contains((r0.prefix, false)));
                if v6r.contains(r0.prefix) {
                    assert(v6r.insert(r0.prefix) =~= v6r);
                    assert(pr.insert((r0.prefix, false)) =~= pr);
                } else {
                    assert(v6r.insert(r0.prefix).len() == v6r.len() + 1);
                    assert(pr.insert((r0.prefix, false)).len() == pr.len() + 1);
                }
            }
        }
    }
}

/// How the prefix sets of one peer grow over a stream: exactly by the
/// prefixes that peer announces.
proof fn lemma_peers_run_sets(m: Map<PeerIp, PeerModel>, records: Seq<RouteRecordV>, ip: PeerIp)
    ensures
        peers_run_from(m, records).dom().contains(ip) <==> m.dom().contains(ip) || exists|j: int|
            0 <= j < records.len() && (#[trigger] records[j]).peer_ip == ip,
        peers_run_from(m, records).dom().contains(ip) ==> {
            let before = if m.dom().contains(ip) {
                m[ip]
            } else {
                PeerModel {
                    asn: 0u32,
                    v4: Set::<Seq<char>>::empty(),
                    v6: Set::<Seq<char>>::empty(),
                    connected: Set::<u32>::empty(),
                }
            };
            &&& peers_run_from(m, records)[ip].v4 == before.v4.union(announced_v4(records, ip))
            &&& peers_run_from(m, records)[ip].v6 == before.v6.union(announced_v6(records, ip))
        },
    decreases records.len(),
{
    if records.len() == 0 {
        if m.dom().contains(ip) {
            assert(m[ip].v4 =~= m[ip].v4.union(announced_v4(records, ip)));
            assert(m[ip].v6 =~= m[ip].v6.union(announced_v6(records, ip)));
        }
    } else {
        let r0 = records[0];
        let m1 = peers_step(m, r0);
        let rest = records.drop_first();
        lemma_peers_run_sets(m1, rest, ip);
        assert((exists|j: int| 0 <= j < records.len() && (#[trigger] records[j]).peer_ip == ip)
            <==> (r0.peer_ip == ip || exists|j: int|
            0 <= j < rest.len() && (#[trigger] rest[j]).peer_ip == ip)) by {
            if exists|j: int| 0 <= j < records.len() && (#[trigger] records[j]).peer_ip == ip {
                let j = choose|j: int|
                    0 <= j < records.len() && (#[trigger] records[j]).peer_ip == ip;
                if j > 0 {
                    assert(rest[j - 1].peer_ip == ip);
                }
            }
            if exists|j: int| 0 <= j < rest.len() && (#[trigger] rest[j]).peer_ip == ip {
                let j = choose|j: int| 0 <= j < rest.len() && (#[trigger] rest[j]).peer_ip == ip;
                assert(records[j + 1].peer_ip == ip);
            }
            if r0.peer_ip == ip {
                assert(records[0].peer_ip == ip);
            }
        }
        if peers_run_from(m, records).dom().contains(ip) {
            let beforem = if m.dom().contains(ip) {
                m[ip]
            } else {
                PeerModel {
                    asn: 0u32,
                    v4: Set::<Seq<char>>::empty(),
                    v6: Set::<Seq<char>>::empty(),
                    connected: Set::<u32>::empty(),
                }
            };
            let before1 = if m1.dom().contains(ip) {
                m1[ip]
            } else {
                PeerModel {
                    asn: 0u32,
                    v4: Set::<Seq<char>>::empty(),
                    v6: Set::<Seq<char>>::empty(),
                    connected: Set::<u32>::empty(),
                }
            };
            if r0.peer_ip == ip {
                if r0.prefix_v4 {
                    assert(before1.v4 =~= beforem.v4.insert(r0.prefix));
                    assert(before1.v6 =~= beforem.v6);
                    assert(before1.v4.union(announced_v4(rest, ip)) =~= beforem.v4.union(
                        announced_v4(records, ip),
                    ));
                    assert(before1.v6.union(announced_v6(rest, ip)) =~= beforem.v6.union(
                        announced_v6(records, ip),
                    ));
                } else {
                    assert(before1.v4 =~= beforem.v4);
                    assert(before1.v6 =~= beforem.v6.insert(r0.prefix));
                    assert(before1.v4.union(announced_v4(rest, ip)) =~= beforem.v4.union(
                        announced_v4(records, ip),
                    ));
                    assert(before1.v6.union(announced_v6(rest, ip)) =~= beforem.v6.union(
                        announced_v6(records, ip),
                    ));
                }
            } else {
                assert(m1.dom().contains(ip) == m.dom().contains(ip));
                if m.dom().contains(ip) {
                    assert(m1[ip] == m[ip]);
                }
                assert(announced_v4(records, ip) == announced_v4(rest, ip));
                assert(announced_v6(records, ip) == announced_v6(rest, ip));
            }
        }
    }
}

/// For every peer the stream created, the number of distinct IPv4
/// prefixes plus the number of distinct IPv6 prefixes recorded for it
/// never exceeds the number of distinct prefixes that peer announced
/// in the input.
pub proof fn lemma_family_counts_bounded(records: Seq<RouteRecordV>, ip: PeerIp)
    requires
        peers_run(records).dom().contains(ip),
    ensures
        announced_prefixes(records, ip).finite(),
        peers_run(records)[ip].v4.len() + peers_run(records)[ip].v6.len() <= announced_prefixes(
            records,
            ip,
        ).len(),
{
    lemma_peers_run_sets(Map::empty(), records, ip);
    lemma_announced_card(records, ip);
    assert(peers_run(records)[ip].v4 =~= announced_v4(records, ip));
    assert(peers_run(records)[ip].v6 =~= announced_v6(records, ip));
}

} // verus!
