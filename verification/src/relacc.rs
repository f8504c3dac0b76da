//! Executable accumulator for one AS-relationship map.
//!
//! Entries live in a vector with pairwise-distinct keys; the observer
//! set of each entry is a vector of distinct peer addresses.  The
//! accumulator's contents always equal the fold of every observation
//! absorbed so far over the mathematical model.

use vstd::prelude::*;
use crate::types::{As2RelCount, PeerIp, REL_ADJACENT, REL_PROVIDER_TO_CUSTOMER};
use crate::relmodel::{
    adjacency_bumps, apply_bumps, contains_anchor, first_anchor, lemma_apply_bumps_push,
    lemma_first_anchor, path_bumps, provider_bumps, rel_bump, RelBump, RelKey, RelModel, RelVal,
};

verus! {

/// One accumulated relationship with its observers.
pub struct RelEntry {
    pub asn1: u32,
    pub asn2: u32,
    pub rel: u8,
    pub paths_count: usize,
    pub peers: Vec<PeerIp>,
}

/// The key of an entry.
pub open spec fn entry_key(e: RelEntry) -> RelKey {
    (e.asn1, e.asn2, e.rel)
}

/// The value of an entry: its count and its observers as a set.
pub open spec fn entry_val(e: RelEntry) -> RelVal {
    (e.paths_count as nat, e.peers@.to_set())
}

/// The map described by a sequence of entries.
pub open spec fn model_of(s: Seq<RelEntry>) -> RelModel
    decreases s.len(),
{
    if s.len() == 0 {
        Map::<RelKey, RelVal>::empty()
    } else {
        model_of(s.drop_last()).insert(entry_key(s.last()), entry_val(s.last()))
    }
}

/// No two entries share a key.
pub open spec fn keys_distinct(s: Seq<RelEntry>) -> bool {
    forall|i: int, j: int|
        0 <= i < j < s.len() ==> entry_key(#[trigger] s[i]) != entry_key(#[trigger] s[j])
}

/// With distinct keys, the map holds exactly the entries.
proof fn lemma_model_index(s: Seq<RelEntry>)
    requires
        keys_distinct(s),
    ensures
        forall|i: int|
            0 <= i < s.len() ==> model_of(s).dom().contains(entry_key(#[trigger] s[i]))
                && model_of(s)[entry_key(s[i])] == entry_val(s[i]),
        forall|k: RelKey|
            model_of(s).dom().contains(k) ==> exists|i: int|
                0 <= i < s.len() && entry_key(#[trigger] s[i]) == k,
    decreases s.len(),
{
    if s.len() > 0 {
        assert(keys_distinct(s.drop_last()));
        lemma_model_index(s.drop_last());
        assert forall|i: int| 0 <= i < s.len() implies model_of(s).dom().contains(
            entry_key(#[trigger] s[i]),
        ) && model_of(s)[entry_key(s[i])] == entry_val(s[i]) by {
            if i < s.len() - 1 {
                assert(s.drop_last()[i] == s[i]);
                assert(entry_key(s[i]) != entry_key(s.last()));
            }
        }
        assert forall|k: RelKey| model_of(s).dom().contains(k) implies exists|i: int|
            0 <= i < s.len() && entry_key(#[trigger] s[i]) == k by {
            if k != entry_key(s.last()) {
                assert(model_of(s.drop_last()).dom().contains(k));
                let i = choose|i: int|
                    0 <= i < s.drop_last().len() && entry_key(#[trigger] s.drop_last()[i]) == k;
                assert(s.drop_last()[i] == s[i]);
                assert(entry_key(s[i]) == k);
            } else {
                assert(entry_key(s[s.len() - 1]) == k);
            }
        }
    }
}

/// Replacing an entry by one with the same key updates the map at that
/// key alone.
proof fn lemma_model_update(s: Seq<RelEntry>, i: int, e: RelEntry)
    requires
        keys_distinct(s),
        0 <= i < s.len(),
        entry_key(e) == entry_key(s[i]),
    ensures
        model_of(s.update(i, e)) == model_of(s).insert(entry_key(e), entry_val(e)),
    decreases s.len(),
{
    let t = s.update(i, e);
    if i == s.len() - 1 {
        assert(t.drop_last() =~= s.drop_last());
        assert(t.last() == e);
        assert(model_of(t) =~~= model_of(s).insert(entry_key(e), entry_val(e)));
    } else {
        assert(t.drop_last() =~= s.drop_last().update(i, e));
        assert(t.last() == s.last());
        assert(keys_distinct(s.drop_last()));
        assert(s.drop_last()[i] == s[i]);
        lemma_model_update(s.drop_last(), i, e);
        assert(entry_key(e) != entry_key(s.last()));
        assert(model_of(s.drop_last()).insert(entry_key(e), entry_val(e)).insert(
            entry_key(s.last()),
            entry_val(s.last()),
        ) =~~= model_of(s.drop_last()).insert(entry_key(s.last()), entry_val(s.last())).insert(
            entry_key(e),
            entry_val(e),
        ));
    }
}

/// Accumulator for one relationship map, carrying its own tier-1
/// anchor list.
pub struct RelAccumulator {
    pub tier1: Vec<u32>,
    pub entries: Vec<RelEntry>,
    /// Number of observations absorbed since creation; counts stay
    /// below it, which keeps the increments free of overflow.
    pub total: Ghost<nat>,
}

impl RelAccumulator {
    /// The map accumulated so far.
    pub open spec fn model(self) -> RelModel {
        model_of(self.entries@)
    }

    /// Structural soundness: distinct keys, distinct observers, counts
    /// bounded by the number of absorbed observations.
    pub open spec fn wf(self) -> bool {
        &&& keys_distinct(self.entries@)
        &&& forall|i: int|
            0 <= i < self.entries@.len() ==> (#[trigger] self.entries@[i]).peers@.no_duplicates()
        &&& forall|i: int|
            0 <= i < self.entries@.len() ==> (#[trigger] self.entries@[i]).paths_count as nat
                <= self.total@
    }

    /// An empty accumulator with the given anchor list.
    pub fn new(tier1: Vec<u32>) -> (r: RelAccumulator)
        ensures
            r.wf(),
            r.model() == Map::<RelKey, RelVal>::empty(),
            r.tier1@ == tier1@,
            r.total@ == 0nat,
    {
        RelAccumulator { tier1, entries: Vec::new(), total: Ghost(0nat) }
    }

    /// Records one observation of `(asn1, asn2, rel)` by peer `p`.
    #[verifier::loop_isolation(false)]
    fn bump(&mut self, asn1: u32, asn2: u32, rel: u8, p: PeerIp)
        requires
            old(self).wf(),
            old(self).total@ + 1 <= usize::MAX,
        ensures
            final(self).wf(),
            final(self).model() == rel_bump(old(self).model(), (asn1, asn2, rel), p),
            final(self).total@ == old(self).total@ + 1,
            final(self).tier1@ == old(self).tier1@,
    {
        let ghost k: RelKey = (asn1, asn2, rel);
        proof {
            lemma_model_index(self.entries@);
        }
        let mut found = false;
        let mut fi: usize = 0;
        let mut i: usize = 0;
        while !found && i < self.entries.len()
            invariant
                0 <= i <= self.entries@.len(),
                !found ==> forall|j: int|
                    0 <= j < i ==> entry_key(#[trigger] self.entries@[j]) != k,
                found ==> fi < self.entries@.len() && entry_key(self.entries@[fi as int]) == k,
            decreases self.entries@.len() - i + (if found { 0int } else { 1int }),
        {
            let e = &self.entries[i];
            if e.asn1 == asn1 && e.asn2 == asn2 && e.rel == rel {
                found = true;
                fi = i;
                proof {
                    assert(self.entries@[i as int] == *e);
                    assert(entry_key(self.entries@[i as int]) == k);
                }
            } else {
                proof {
                    assert(self.entries@[i as int] == *e);
                    assert(entry_key(self.entries@[i as int]) != k);
                }
                i += 1;
            }
        }
        if found {
            let ghost oldentries = self.entries@;
            let ghost olde = self.entries@[fi as int];
            let e = &mut self.entries[fi];
            let ghost oldpeers = e.peers@;
            e.paths_count = e.paths_count + 1;
            let mut seen = false;
            let mut j: usize = 0;
            while !seen && j < e.peers.len()
                invariant
                    0 <= j <= e.peers@.len(),
                    e.peers@ == oldpeers,
                    !seen ==> forall|l: int| 0 <= l < j ==> oldpeers[l] != p,
                    seen ==> oldpeers.contains(p),
                decreases e.peers@.len() - j + (if seen { 0int } else { 1int }),
            {
                if e.peers[j] == p {
                    seen = true;
                } else {
                    j += 1;
                }
            }
            proof {
                if !seen {
                    assert(!oldpeers.contains(p)) by {
                        if oldpeers.contains(p) {
                            let l = choose|l: int|
                                0 <= l < oldpeers.len() && oldpeers[l] == p;
                            assert(false);
                        }
                    }
                }
            }
            if !seen {
                e.peers.push(p);
            }
            proof {
                let newe = self.entries@[fi as int];
                assert(newe.paths_count == olde.paths_count + 1);
                if seen {
                    assert(newe.peers@ == oldpeers);
                    assert(oldpeers.to_set().contains(p));
                    assert forall|x: PeerIp| oldpeers.to_set().insert(p).contains(x)
                        implies oldpeers.to_set().contains(x) by {
                        if x != p {
                            assert(oldpeers.to_set().contains(x));
                        }
                    }
                    assert(oldpeers.to_set().insert(p) =~= oldpeers.to_set());
                    assert(newe.peers@.to_set() =~= oldpeers.to_set().insert(p));
                } else {
                    assert(newe.peers@ =~= oldpeers.push(p));
                    let np = newe.peers@;
                    assert forall|x: PeerIp| np.to_set().contains(x)
                        <==> oldpeers.to_set().insert(p).contains(x) by {
                        if np.contains(x) {
                            let l = choose|l: int| 0 <= l < np.len() && np[l] == x;
                            if l < oldpeers.len() {
                                assert(oldpeers[l] == x);
                            } else {
                                assert(x == p);
                            }
                        }
                        if oldpeers.contains(x) {
                            let l = choose|l: int|
                                0 <= l < oldpeers.len() && oldpeers[l] == x;
                            assert(np[l] == x);
                        }
                        if x == p {
                            assert(np[np.len() - 1] == x);
                        }
                    }
                    assert(newe.peers@.to_set() =~= oldpeers.to_set().insert(p));
                    assert(newe.peers@.no_duplicates());
                }
                assert(self.entries@ =~= oldentries.update(fi as int, newe));
                assert(entry_val(newe)
                    == ((olde.paths_count + 1) as nat, olde.peers@.to_set().insert(p)));
                lemma_model_update(oldentries, fi as int, newe);
                assert(model_of(oldentries)[k] == entry_val(olde));
                assert(model_of(self.entries@) =~~= rel_bump(model_of(oldentries), k, p));
                self.total@ = old(self).total@ + 1;
            }
        } else {
            let ghost oldentries = self.entries@;
            let mut peers: Vec<PeerIp> = Vec::new();
            peers.push(p);
            let e = RelEntry { asn1, asn2, rel, paths_count: 1, peers };
            self.entries.push(e);
            proof {
                assert(self.entries@.drop_last() =~= oldentries);
                assert(!model_of(oldentries).dom().contains(k)) by {
                    lemma_model_index(oldentries);
                    if model_of(oldentries).dom().contains(k) {
                        let j = choose|j: int|
                            0 <= j < oldentries.len() && entry_key(#[trigger] oldentries[j])
                                == k;
                        assert(false);
                    }
                }
                assert(self.entries@.last().peers@ =~= seq![p]);
                assert(seq![p][0] == p);
                assert(seq![p].contains(p));
                assert(seq![p].to_set() =~= Set::<PeerIp>::empty().insert(p));
                assert(entry_val(self.entries@.last()) == (1nat, Set::<PeerIp>::empty().insert(
                    p,
                )));
                assert(model_of(self.entries@) =~~= rel_bump(model_of(oldentries), k, p));
                assert(seq![p].no_duplicates());
                self.total@ = old(self).total@ + 1;
            }
        }
    }

    /// Absorbs every observation of one collapsed path: adjacency for
    /// each neighbouring pair, then provider/customer inference below
    /// the first tier-1 anchor of the reversed path.
    #[verifier::loop_isolation(false)]
    pub fn observe_path(&mut self, p: PeerIp, path: &Vec<u32>)
        requires
            old(self).wf(),
            old(self).total@ + path_bumps(path@, p, old(self).tier1@).len() <= usize::MAX,
        ensures
            final(self).wf(),
            final(self).model() == apply_bumps(
                old(self).model(),
                path_bumps(path@, p, old(self).tier1@),
            ),
            final(self).total@ == old(self).total@ + path_bumps(path@, p, old(self).tier1@).len(),
            final(self).tier1@ == old(self).tier1@,
    {
        let ghost t1 = self.tier1@;
        let ghost adj = adjacency_bumps(path@, p);
        let ghost pcs = provider_bumps(path@, p, t1);
        let ghost all = path_bumps(path@, p, t1);
        let ghost m0 = self.model();
        let n = path.len();
        let mut i: usize = 0;
        if n > 0 {
            while i + 1 < n
                invariant
                    0 <= i <= n - 1,
                    n == path@.len(),
                    n > 0,
                    adj == adjacency_bumps(path@, p),
                    pcs == provider_bumps(path@, p, t1),
                    self.wf(),
                    self.tier1@ == t1,
                    self.model() == apply_bumps(m0, adj.take(i as int)),
                    self.total@ == old(self).total@ + i,
                    old(self).total@ + adj.len() + pcs.len() <= usize::MAX,
                decreases n - i,
            {
                proof {
                    assert(adj.take(i + 1) =~= adj.take(i as int).push(adj[i as int]));
                    lemma_apply_bumps_push(
                        m0,
                        adj.take(i as int),
                        (path@[i as int], path@[i as int + 1], REL_ADJACENT),
                        p,
                    );
                }
                self.bump(path[i], path[i + 1], REL_ADJACENT, p);
                i += 1;
            }
            proof {
                assert(adj.take(adj.len() as int) =~= adj);
            }
        } else {
            proof {
                assert(adj.len() == 0);
                assert(apply_bumps(m0, adj) == m0);
            }
        }
        let ghost m1 = self.model();
        proof {
            assert(m1 == apply_bumps(m0, adj));
        }
        // locate the first anchor of the reversed path
        let mut anchored = false;
        let mut a: usize = 0;
        let mut j: usize = 0;
        while !anchored && j < n
            invariant
                0 <= j <= n,
                n == path@.len(),
                !anchored ==> forall|l: int|
                    0 <= l < j ==> !t1.contains(#[trigger] path@.reverse()[l]),
                anchored ==> a < n && t1.contains(path@.reverse()[a as int]) && forall|l: int|
                    0 <= l < a ==> !t1.contains(#[trigger] path@.reverse()[l]),
                self.wf(),
                self.tier1@ == t1,
                self.model() == m1,
                self.total@ == old(self).total@ + adj.len(),
                old(self).total@ + adj.len() + pcs.len() <= usize::MAX,
            decreases n - j + (if anchored { 0int } else { 1int }),
        {
            let x = path[n - 1 - j];
            proof {
                assert(path@.reverse()[j as int] == path@[n - 1 - j]);
            }
            let mut hit = false;
            let mut l: usize = 0;
            while !hit && l < self.tier1.len()
                invariant
                    0 <= l <= self.tier1@.len(),
                    self.tier1@ == t1,
                    !hit ==> forall|q: int| 0 <= q < l ==> t1[q] != x,
                    hit ==> t1.contains(x),
                decreases self.tier1@.len() - l + (if hit { 0int } else { 1int }),
            {
                if self.tier1[l] == x {
                    hit = true;
                } else {
                    l += 1;
                }
            }
            proof {
                if !hit && t1.contains(x) {
                    let q = choose|q: int| 0 <= q < t1.len() && t1[q] == x;
                    assert(false);
                }
            }
            if hit {
                anchored = true;
                a = j;
            } else {
                j += 1;
            }
        }
        let ghost r = path@.reverse();
        if !anchored {
            proof {
                assert(!contains_anchor(r, t1)) by {
                    if contains_anchor(r, t1) {
                        let l = choose|l: int| 0 <= l < r.len() && t1.contains(r[l]);
                        assert(false);
                    }
                }
                assert(pcs =~= Seq::<RelBump>::empty());
                assert(apply_bumps(m1, pcs) == m1);
                assert(all =~= adj + pcs);
                assert(adj + pcs =~= adj);
            }
        } else {
            proof {
                assert(contains_anchor(r, t1));
                lemma_first_anchor(r, t1);
                let fa = first_anchor(r, t1);
                assert(t1.contains(r[fa]));
                assert(fa == a as int) by {
                    if fa < a as int {
                        assert(!t1.contains(r[fa]));
                    }
                    if (a as int) < fa {
                        assert(!t1.contains(r[a as int]));
                    }
                }
            }
            if a + 1 < n {
                let mut c: usize = 0;
                while c < a
                    invariant
                        0 <= c <= a,
                        a + 1 < n <= usize::MAX,
                        n == path@.len(),
                        r == path@.reverse(),
                        contains_anchor(r, t1),
                        first_anchor(r, t1) == a as int,
                        pcs == provider_bumps(path@, p, t1),
                        pcs.len() == a as int,
                        self.wf(),
                        self.tier1@ == t1,
                        self.model() == apply_bumps(m1, pcs.take(c as int)),
                        self.total@ == old(self).total@ + adj.len() + c,
                        old(self).total@ + adj.len() + pcs.len() <= usize::MAX,
                    decreases a - c,
                {
                    proof {
                        assert(pcs.take(c + 1) =~= pcs.take(c as int).push(pcs[c as int]));
                        assert(r[c as int] == path@[n - 1 - c]);
                        assert(r[c as int + 1] == path@[n - 2 - c]);
                        lemma_apply_bumps_push(
                            m1,
                            pcs.take(c as int),
                            (path@[n - 2 - c], path@[n - 1 - c], REL_PROVIDER_TO_CUSTOMER),
                            p,
                        );
                    }
                    self.bump(
                        path[n - 2 - c],
                        path[n - 1 - c],
                        REL_PROVIDER_TO_CUSTOMER,
                        p,
                    );
                    c += 1;
                }
                proof {
                    assert(pcs.take(pcs.len() as int) =~= pcs);
                    assert(all =~= adj + pcs);
                    crate::relmodel::lemma_apply_bumps_append(m0, adj, pcs);
                }
            } else {
                proof {
                    assert(pcs =~= Seq::<RelBump>::empty());
                    assert(apply_bumps(m1, pcs) == m1);
                    assert(all =~= adj + pcs);
                    assert(adj + pcs =~= adj);
                }
            }
        }
        proof {
            crate::relmodel::lemma_apply_bumps_append(m0, adj, pcs);
            assert(all == adj + pcs);
            assert(self.model() == apply_bumps(m0, all));
            assert(self.total@ == old(self).total@ + all.len());
        }
    }

    /// The finalised entries: one per key, message count as absorbed,
    /// peer count the size of the observer set.
    #[verifier::loop_isolation(false)]
    pub fn compile(&self) -> (v: Vec<As2RelCount>)
        requires
            self.wf(),
        ensures
            counts_match(v@, self.model()),
    {
        proof {
            lemma_model_index(self.entries@);
        }
        let mut v: Vec<As2RelCount> = Vec::new();
        let mut i: usize = 0;
        while i < self.entries.len()
            invariant
                0 <= i <= self.entries@.len(),
                self.wf(),
                v@.len() == i,
                forall|j: int|
                    0 <= j < i ==> {
                        &&& (#[trigger] v@[j]).asn1 == self.entries@[j].asn1
                        &&& v@[j].asn2 == self.entries@[j].asn2
                        &&& v@[j].rel == self.entries@[j].rel
                        &&& v@[j].paths_count == self.entries@[j].paths_count
                        &&& v@[j].peers_count as nat == self.entries@[j].peers@.len()
                    },
            decreases self.entries@.len() - i,
        {
            let e = &self.entries[i];
            v.push(
                As2RelCount {
                    asn1: e.asn1,
                    asn2: e.asn2,
                    rel: e.rel,
                    paths_count: e.paths_count,
                    peers_count: e.peers.len(),
                },
            );
            i += 1;
        }
        proof {
            let m = self.model();
            assert forall|j: int| 0 <= j < v@.len() implies {
                let k = (#[trigger] v@[j].asn1, v@[j].asn2, v@[j].rel);
                &&& m.dom().contains(k)
                &&& m[k].0 == v@[j].paths_count as nat
                &&& m[k].1.len() == v@[j].peers_count as nat
            } by {
                let e = self.entries@[j];
                e.peers@.unique_seq_to_set();
                assert((v@[j].asn1, v@[j].asn2, v@[j].rel) == entry_key(e));
                assert(m.dom().contains(entry_key(e)));
                assert(m[entry_key(e)] == entry_val(e));
            }
            assert forall|k: RelKey| m.dom().contains(k) implies exists|j: int|
                0 <= j < v@.len() && ((#[trigger] v@[j]).asn1, v@[j].asn2, v@[j].rel) == k by {
                let i0 = choose|i0: int|
                    0 <= i0 < self.entries@.len() && entry_key(#[trigger] self.entries@[i0]) == k;
                assert((v@[i0].asn1, v@[i0].asn2, v@[i0].rel) == k);
            }
        }
        v
    }
}

/// The compiled entries describe exactly the map `m`: same keys, same
/// counts, peer counts the observer-set sizes, no key twice.
pub open spec fn counts_match(cs: Seq<As2RelCount>, m: RelModel) -> bool {
    &&& forall|j: int|
        0 <= j < cs.len() ==> {
            let k = ((#[trigger] cs[j]).asn1, cs[j].asn2, cs[j].rel);
            &&& m.dom().contains(k)
            &&& m[k].0 == cs[j].paths_count as nat
            &&& m[k].1.len() == cs[j].peers_count as nat
        }
    &&& forall|k: RelKey|
        m.dom().contains(k) ==> exists|j: int|
            0 <= j < cs.len() && ((#[trigger] cs[j]).asn1, cs[j].asn2, cs[j].rel) == k
    &&& forall|i: int, j: int|
        0 <= i < j < cs.len() ==> ((#[trigger] cs[i]).asn1, cs[i].asn2, cs[i].rel) != ((
        #[trigger] cs[j]).asn1,
        cs[j].asn2,
        cs[j].rel,
        )
}

} // verus!
