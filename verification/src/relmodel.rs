//! Mathematical model of AS-relationship accumulation.
//!
//! A relationship map takes a key `(asn1, asn2, code)` to a message
//! count and the set of peers that observed it.  Each record with a
//! path contributes a sequence of unit "bumps" — one per adjacent pair
//! for adjacency, one per hop between the origin and the first tier-1
//! anchor for provider/customer inference — and the map after a pass is
//! the fold of all bumps over the record stream.  Because a single bump
//! only increments a count and inserts into a set, bumps commute, and
//! the fold is independent of record order.

use vstd::prelude::*;
use crate::types::{PeerIp, RouteRecordV, REL_ADJACENT, REL_PROVIDER_TO_CUSTOMER};
use crate::dedup::dedup_seq;

verus! {

/// Key of one relationship: the two AS numbers and the relation code.
pub type RelKey = (u32, u32, u8);

/// Value of one relationship: message count and observing peers.
pub type RelVal = (nat, Set<PeerIp>);

/// The accumulated relationship map.
pub type RelModel = Map<RelKey, RelVal>;

/// One unit observation: a key and the peer that observed it.
pub type RelBump = (RelKey, PeerIp);

/// Which records a relationship map accepts.
#[derive(Debug, Clone, Copy, PartialEq, Eq, Structural)]
pub enum RelScope {
    /// Every record.
    Global,
    /// Records announcing IPv4 prefixes.
    V4Only,
    /// Records announcing IPv6 prefixes.
    V6Only,
}

/// Whether a record whose prefix family is `prefix_v4` falls within
/// `scope`.
pub open spec fn scope_admits(scope: RelScope, prefix_v4: bool) -> bool {
    match scope {
        RelScope::Global => true,
        RelScope::V4Only => prefix_v4,
        RelScope::V6Only => !prefix_v4,
    }
}

/// The value stored under `k`, or the neutral value if `k` is absent.
pub open spec fn rel_lookup(m: RelModel, k: RelKey) -> RelVal {
    if m.dom().contains(k) {
        m[k]
    } else {
        (0nat, Set::<PeerIp>::empty())
    }
}

/// One observation applied: the count under `k` grows by one and `p`
/// joins the observers.
pub open spec fn rel_bump(m: RelModel, k: RelKey, p: PeerIp) -> RelModel {
    let cur = rel_lookup(m, k);
    m.insert(k, ((cur.0 + 1) as nat, cur.1.insert(p)))
}

/// A sequence of observations applied left to right.
pub open spec fn apply_bumps(m: RelModel, bs: Seq<RelBump>) -> RelModel
    decreases bs.len(),
{
    if bs.len() == 0 {
        m
    } else {
        apply_bumps(rel_bump(m, bs[0].0, bs[0].1), bs.drop_first())
    }
}

/// Extending a fold by one observation bumps the folded map.
pub proof fn lemma_apply_bumps_push(m: RelModel, bs: Seq<RelBump>, k: RelKey, p: PeerIp)
    ensures
        apply_bumps(m, bs.push((k, p))) == rel_bump(apply_bumps(m, bs), k, p),
    decreases bs.len(),
{
    if bs.len() == 0 {
        assert(bs.push((k, p))[0] == (k, p));
        assert(bs.push((k, p)).drop_first() =~= Seq::<RelBump>::empty());
        assert(apply_bumps(rel_bump(m, k, p), Seq::<RelBump>::empty()) == rel_bump(m, k, p));
    } else {
        assert(bs.push((k, p))[0] == bs[0]);
        assert(bs.push((k, p)).drop_first() =~= bs.drop_first().push((k, p)));
        lemma_apply_bumps_push(rel_bump(m, bs[0].0, bs[0].1), bs.drop_first(), k, p);
    }
}

/// The adjacency observations of a collapsed path: one per neighbouring
/// pair, in path order, direction not implied.
pub open spec fn adjacency_bumps(path: Seq<u32>, p: PeerIp) -> Seq<RelBump> {
    if path.len() == 0 {
        Seq::<RelBump>::empty()
    } else {
        Seq::new((path.len() - 1) as nat, |i: int| ((path[i], path[i + 1], REL_ADJACENT), p))
    }
}

/// Whether any AS of `path` is on the anchor list `t1`.
pub open spec fn contains_anchor(path: Seq<u32>, t1: Seq<u32>) -> bool {
    exists|i: int| 0 <= i < path.len() && t1.contains(path[i])
}

/// Index of the first AS of `path` on the anchor list (meaningful only
/// when `contains_anchor(path, t1)`).
pub open spec fn first_anchor(path: Seq<u32>, t1: Seq<u32>) -> int
    decreases path.len(),
{
    if path.len() == 0 {
        0
    } else if t1.contains(path[0]) {
        0
    } else {
        1 + first_anchor(path.drop_first(), t1)
    }
}

/// `first_anchor` is the least index carrying an anchor.
pub proof fn lemma_first_anchor(path: Seq<u32>, t1: Seq<u32>)
    requires
        contains_anchor(path, t1),
    ensures
        0 <= first_anchor(path, t1) < path.len(),
        t1.contains(path[first_anchor(path, t1)]),
        forall|j: int| 0 <= j < first_anchor(path, t1) ==> !t1.contains(#[trigger] path[j]),
    decreases path.len(),
{
    if t1.contains(path[0]) {
    } else {
        let rest = path.drop_first();
        assert(contains_anchor(rest, t1)) by {
            let i = choose|i: int| 0 <= i < path.len() && t1.contains(path[i]);
            assert(rest[i - 1] == path[i]);
        }
        lemma_first_anchor(rest, t1);
        let f = first_anchor(path, t1);
        assert(path[f] == rest[f - 1]);
        assert forall|j: int| 0 <= j < f implies !t1.contains(#[trigger] path[j]) by {
            if j > 0 {
                assert(path[j] == rest[j - 1]);
            }
        }
    }
}

/// The provider/customer observations of a collapsed path: walking the
/// reversed path (origin first) up to its first anchor, each hop is
/// recorded with the AS nearer the anchor as provider.
pub open spec fn provider_bumps(path: Seq<u32>, p: PeerIp, t1: Seq<u32>) -> Seq<RelBump> {
    let r = path.reverse();
    if !contains_anchor(r, t1) {
        Seq::<RelBump>::empty()
    } else {
        let k = first_anchor(r, t1);
        if k < r.len() - 1 {
            Seq::new(k as nat, |i: int| ((r[i + 1], r[i], REL_PROVIDER_TO_CUSTOMER), p))
        } else {
            Seq::<RelBump>::empty()
        }
    }
}

/// All observations a collapsed path contributes to one map.
pub open spec fn path_bumps(path: Seq<u32>, p: PeerIp, t1: Seq<u32>) -> Seq<RelBump> {
    adjacency_bumps(path, p) + provider_bumps(path, p, t1)
}

/// All observations one record contributes to the map of `scope` with
/// anchor list `t1`: none without a path or outside the scope,
/// otherwise the bumps of the collapsed path.
pub open spec fn record_bumps(r: RouteRecordV, t1: Seq<u32>, scope: RelScope) -> Seq<RelBump> {
    match r.as_path {
        None => Seq::<RelBump>::empty(),
        Some(p) => {
            if scope_admits(scope, r.prefix_v4) {
                path_bumps(dedup_seq(p), r.peer_ip, t1)
            } else {
                Seq::<RelBump>::empty()
            }
        },
    }
}

/// The map after absorbing one record.
pub open spec fn rel_step(m: RelModel, r: RouteRecordV, t1: Seq<u32>, scope: RelScope) -> RelModel {
    apply_bumps(m, record_bumps(r, t1, scope))
}

/// The map after absorbing a record stream, starting from `m`.
pub open spec fn rel_run_from(
    m: RelModel,
    records: Seq<RouteRecordV>,
    t1: Seq<u32>,
    scope: RelScope,
) -> RelModel
    decreases records.len(),
{
    if records.len() == 0 {
        m
    } else {
        rel_run_from(rel_step(m, records[0], t1, scope), records.drop_first(), t1, scope)
    }
}

/// The map after absorbing a record stream, starting empty.
pub open spec fn rel_run(records: Seq<RouteRecordV>, t1: Seq<u32>, scope: RelScope) -> RelModel {
    rel_run_from(Map::empty(), records, t1, scope)
}

/// Absorbing one more record steps the folded map.
pub proof fn lemma_rel_run_snoc(
    m: RelModel,
    records: Seq<RouteRecordV>,
    r: RouteRecordV,
    t1: Seq<u32>,
    scope: RelScope,
)
    ensures
        rel_run_from(m, records.push(r), t1, scope) == rel_step(
            rel_run_from(m, records, t1, scope),
            r,
            t1,
            scope,
        ),
    decreases records.len(),
{
    if records.len() == 0 {
        assert(records.push(r)[0] == r);
        assert(records.push(r).drop_first() =~= Seq::<RouteRecordV>::empty());
        assert(rel_run_from(m, records.push(r), t1, scope) == rel_run_from(
            rel_step(m, r, t1, scope),
            records.push(r).drop_first(),
            t1,
            scope,
        ));
        assert(rel_run_from(rel_step(m, r, t1, scope), records.push(r).drop_first(), t1, scope)
            == rel_step(m, r, t1, scope));
        assert(rel_run_from(m, records, t1, scope) == m);
    } else {
        assert(records.push(r)[0] == records[0]);
        assert(records.push(r).drop_first() =~= records.drop_first().push(r));
        assert(rel_run_from(m, records.push(r), t1, scope) == rel_run_from(
            rel_step(m, records[0], t1, scope),
            records.drop_first().push(r),
            t1,
            scope,
        ));
        assert(rel_run_from(m, records, t1, scope) == rel_run_from(
            rel_step(m, records[0], t1, scope),
            records.drop_first(),
            t1,
            scope,
        ));
        lemma_rel_run_snoc(rel_step(m, records[0], t1, scope), records.drop_first(), r, t1, scope);
    }
}

/// Two single observations commute.
proof fn lemma_bump_commutes(m: RelModel, k1: RelKey, p1: PeerIp, k2: RelKey, p2: PeerIp)
    ensures
        rel_bump(rel_bump(m, k1, p1), k2, p2) == rel_bump(rel_bump(m, k2, p2), k1, p1),
{
    if k1 == k2 {
        assert(rel_bump(rel_bump(m, k1, p1), k2, p2) =~~= rel_bump(rel_bump(m, k2, p2), k1, p1));
    } else {
        assert(rel_bump(rel_bump(m, k1, p1), k2, p2) =~~= rel_bump(rel_bump(m, k2, p2), k1, p1));
    }
}

/// A leading observation can be postponed past a whole sequence.
proof fn lemma_apply_bumps_bump(m: RelModel, bs: Seq<RelBump>, k: RelKey, p: PeerIp)
    ensures
        apply_bumps(rel_bump(m, k, p), bs) == rel_bump(apply_bumps(m, bs), k, p),
    decreases bs.len(),
{
    if bs.len() > 0 {
        lemma_bump_commutes(m, k, p, bs[0].0, bs[0].1);
        lemma_apply_bumps_bump(rel_bump(m, bs[0].0, bs[0].1), bs.drop_first(), k, p);
    }
}

/// Folding a concatenation folds the halves in turn.
pub proof fn lemma_apply_bumps_append(m: RelModel, b1: Seq<RelBump>, b2: Seq<RelBump>)
    ensures
        apply_bumps(m, b1 + b2) == apply_bumps(apply_bumps(m, b1), b2),
    decreases b1.len(),
{
    if b1.len() == 0 {
        assert(b1 + b2 =~= b2);
    } else {
        assert((b1 + b2).drop_first() =~= b1.drop_first() + b2);
        assert((b1 + b2)[0] == b1[0]);
        lemma_apply_bumps_append(rel_bump(m, b1[0].0, b1[0].1), b1.drop_first(), b2);
    }
}

/// An observation anywhere in a sequence can be pulled to the front.
proof fn lemma_apply_bumps_extract(
    m: RelModel,
    pre: Seq<RelBump>,
    post: Seq<RelBump>,
    k: RelKey,
    p: PeerIp,
)
    ensures
        apply_bumps(m, pre + seq![(k, p)] + post) == apply_bumps(rel_bump(m, k, p), pre + post),
{
    lemma_apply_bumps_append(m, pre + seq![(k, p)], post);
    lemma_apply_bumps_append(m, pre, seq![(k, p)]);
    let y = rel_bump(apply_bumps(m, pre), k, p);
    assert(seq![(k, p)][0] == (k, p));
    assert(apply_bumps(apply_bumps(m, pre), seq![(k, p)]) == apply_bumps(
        y,
        seq![(k, p)].drop_first(),
    ));
    assert(seq![(k, p)].drop_first().len() == 0);
    assert(apply_bumps(y, seq![(k, p)].drop_first()) == y);
    lemma_apply_bumps_append(rel_bump(m, k, p), pre, post);
    lemma_apply_bumps_bump(m, pre, k, p);
}

/// Folds of two rearrangements of the same observations agree.
proof fn lemma_apply_bumps_permutation(m: RelModel, b1: Seq<RelBump>, b2: Seq<RelBump>)
    requires
        b1.to_multiset() == b2.to_multiset(),
    ensures
        apply_bumps(m, b1) == apply_bumps(m, b2),
    decreases b1.len(),
{
    b1.to_multiset_ensures();
    b2.to_multiset_ensures();
    if b1.len() == 0 {
        assert(b2.len() == 0);
    } else {
        let h = b1[0];
        assert(b1.contains(h));
        assert(b2.to_multiset().count(h) > 0);
        assert(b2.contains(h));
        let i = choose|i: int| 0 <= i < b2.len() && b2[i] == h;
        let pre = b2.take(i);
        let post = b2.skip(i + 1);
        assert(b2 =~= pre + seq![h] + post);
        lemma_apply_bumps_extract(m, pre, post, h.0, h.1);
        assert(b1.remove(0) =~= b1.drop_first());
        assert(b2.remove(i) =~= pre + post);
        assert(b1.drop_first().to_multiset() =~= b1.to_multiset().remove(h));
        assert((pre + post).to_multiset() =~= b2.to_multiset().remove(h));
        lemma_apply_bumps_permutation(rel_bump(m, h.0, h.1), b1.drop_first(), pre + post);
    }
}

/// Two whole records commute.
proof fn lemma_apply_bumps_swap(m: RelModel, a: Seq<RelBump>, b: Seq<RelBump>)
    ensures
        apply_bumps(apply_bumps(m, a), b) == apply_bumps(apply_bumps(m, b), a),
    decreases a.len(),
{
    if a.len() > 0 {
        let h = a[0];
        lemma_apply_bumps_swap(rel_bump(m, h.0, h.1), a.drop_first(), b);
        lemma_apply_bumps_bump(apply_bumps(m, b), a.drop_first(), h.0, h.1);
        lemma_apply_bumps_bump(m, b, h.0, h.1);
    }
}

/// A record anywhere in a stream can be absorbed first.
proof fn lemma_rel_run_extract(
    m: RelModel,
    pre: Seq<RouteRecordV>,
    post: Seq<RouteRecordV>,
    r: RouteRecordV,
    t1: Seq<u32>,
    scope: RelScope,
)
    ensures
        rel_run_from(m, pre + seq![r] + post, t1, scope) == rel_run_from(
            rel_step(m, r, t1, scope),
            pre + post,
            t1,
            scope,
        ),
    decreases pre.len(),
{
    if pre.len() == 0 {
        assert(pre + seq![r] + post =~= seq![r] + post);
        assert((seq![r] + post)[0] == r);
        assert((seq![r] + post).drop_first() =~= post);
        assert(pre + post =~= post);
    } else {
        let h = pre[0];
        let s = pre + seq![r] + post;
        assert(s[0] == h);
        assert(s.drop_first() =~= pre.drop_first() + seq![r] + post);
        lemma_rel_run_extract(rel_step(m, h, t1, scope), pre.drop_first(), post, r, t1, scope);
        assert((pre + post)[0] == h);
        assert((pre + post).drop_first() =~= pre.drop_first() + post);
        lemma_apply_bumps_swap(m, record_bumps(h, t1, scope), record_bumps(r, t1, scope));
    }
}

/// Relationship accumulation is commutative with respect to record
/// order: absorbing the same records in any permutation — under any
/// anchor list and scope, starting from any map — yields the same
/// relationship map.  Only per-peer first-seen AS bookkeeping depends
/// on encounter order; the relationship counts do not.
pub proof fn lemma_rel_run_permutation(
    m: RelModel,
    records1: Seq<RouteRecordV>,
    records2: Seq<RouteRecordV>,
    t1: Seq<u32>,
    scope: RelScope,
)
    requires
        records1.to_multiset() == records2.to_multiset(),
    ensures
        rel_run_from(m, records1, t1, scope) == rel_run_from(m, records2, t1, scope),
    decreases records1.len(),
{
    records1.to_multiset_ensures();
    records2.to_multiset_ensures();
    if records1.len() == 0 {
        assert(records2.len() == 0);
    } else {
        let h = records1[0];
        assert(records1.contains(h));
        assert(records2.to_multiset().count(h) > 0);
        assert(records2.contains(h));
        let i = choose|i: int| 0 <= i < records2.len() && records2[i] == h;
        let pre = records2.take(i);
        let post = records2.skip(i + 1);
        assert(records2 =~= pre + seq![h] + post);
        lemma_rel_run_extract(m, pre, post, h, t1, scope);
        assert(records1.remove(0) =~= records1.drop_first());
        assert(records2.remove(i) =~= pre + post);
        assert(records1.drop_first().to_multiset() =~= records1.to_multiset().remove(h));
        assert((pre + post).to_multiset() =~= records2.to_multiset().remove(h));
        lemma_rel_run_permutation(
            rel_step(m, h, t1, scope),
            records1.drop_first(),
            pre + post,
            t1,
            scope,
        );
    }
}

/// One pass is append-only for relationship maps: absorbing a record
/// never removes a key, never lowers a message count and never drops
/// an observer.
pub proof fn lemma_rel_step_append_only(
    m: RelModel,
    r: RouteRecordV,
    t1: Seq<u32>,
    scope: RelScope,
    k: RelKey,
)
    ensures
        m.dom().contains(k) ==> rel_step(m, r, t1, scope).dom().contains(k),
        rel_lookup(rel_step(m, r, t1, scope), k).0 >= rel_lookup(m, k).0,
        rel_lookup(m, k).1 <= rel_lookup(rel_step(m, r, t1, scope), k).1,
{
    lemma_apply_bumps_append_only(m, record_bumps(r, t1, scope), k);
}

/// A fold of observations only grows the map.
proof fn lemma_apply_bumps_append_only(m: RelModel, bs: Seq<RelBump>, k: RelKey)
    ensures
        m.dom().contains(k) ==> apply_bumps(m, bs).dom().contains(k),
        rel_lookup(apply_bumps(m, bs), k).0 >= rel_lookup(m, k).0,
        rel_lookup(m, k).1 <= rel_lookup(apply_bumps(m, bs), k).1,
    decreases bs.len(),
{
    if bs.len() > 0 {
        let m1 = rel_bump(m, bs[0].0, bs[0].1);
        assert(rel_lookup(m, k).1 <= rel_lookup(m1, k).1) by {
            if bs[0].0 == k {
                assert(rel_lookup(m1, k).1 =~= rel_lookup(m, k).1.insert(bs[0].1));
            }
        }
        lemma_apply_bumps_append_only(m1, bs.drop_first(), k);
    }
}

/// Reversal keeps membership on the anchor list.
proof fn lemma_reverse_anchor(path: Seq<u32>, t1: Seq<u32>)
    ensures
        contains_anchor(path.reverse(), t1) <==> contains_anchor(path, t1),
{
    let r = path.reverse();
    if contains_anchor(path, t1) {
        let i = choose|i: int| 0 <= i < path.len() && t1.contains(path[i]);
        assert(r[path.len() - 1 - i] == path[i]);
    }
    if contains_anchor(r, t1) {
        let i = choose|i: int| 0 <= i < r.len() && t1.contains(r[i]);
        assert(r[i] == path[path.len() - 1 - i]);
    }
}

/// A fold whose observations never touch `k` leaves `k` exactly as
/// it was.
proof fn lemma_apply_bumps_other_keys(m: RelModel, bs: Seq<RelBump>, k: RelKey)
    requires
        forall|j: int| 0 <= j < bs.len() ==> (#[trigger] bs[j]).0 != k,
    ensures
        rel_lookup(apply_bumps(m, bs), k) == rel_lookup(m, k),
        apply_bumps(m, bs).dom().contains(k) == m.dom().contains(k),
    decreases bs.len(),
{
    if bs.len() > 0 {
        assert(bs[0].0 != k);
        lemma_apply_bumps_other_keys(rel_bump(m, bs[0].0, bs[0].1), bs.drop_first(), k);
    }
}

/// A record whose path carries no AS from the anchor list produces no
/// provider/customer entry: every key with the provider/customer code
/// is exactly as it was before the record.
pub proof fn lemma_no_anchor_no_provider_entry(
    m: RelModel,
    r: RouteRecordV,
    t1: Seq<u32>,
    scope: RelScope,
    k: RelKey,
)
    requires
        r.as_path is Some,
        forall|x: u32| (r.as_path->Some_0).contains(x) ==> !t1.contains(x),
        k.2 == REL_PROVIDER_TO_CUSTOMER,
    ensures
        rel_lookup(rel_step(m, r, t1, scope), k) == rel_lookup(m, k),
        rel_step(m, r, t1, scope).dom().contains(k) == m.dom().contains(k),
{
    let raw = r.as_path->Some_0;
    let path = dedup_seq(raw);
    let bs = record_bumps(r, t1, scope);
    if scope_admits(scope, r.prefix_v4) {
        assert(!contains_anchor(path.reverse(), t1)) by {
            lemma_reverse_anchor(path, t1);
            if contains_anchor(path, t1) {
                let i = choose|i: int| 0 <= i < path.len() && t1.contains(path[i]);
                assert(path.contains(path[i]));
                crate::dedup::lemma_dedup_membership(raw, path[i]);
            }
        }
        assert(provider_bumps(path, r.peer_ip, t1) =~= Seq::<RelBump>::empty());
        assert forall|j: int| 0 <= j < bs.len() implies (#[trigger] bs[j]).0 != k by {
            assert(bs =~= adjacency_bumps(path, r.peer_ip));
            assert(bs[j].0.2 == REL_ADJACENT);
        }
        lemma_apply_bumps_other_keys(m, bs, k);
    } else {
        assert(bs =~= Seq::<RelBump>::empty());
    }
}

} // verus!
