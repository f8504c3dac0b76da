//! Counting map for prefix-to-origin pairs.
//!
//! Entries live in a vector with pairwise-distinct `(prefix, origin)`
//! keys; absorbing a pair adds to its count, creating the entry when it
//! is new.  The aggregation pass absorbs one per record, the merge
//! stage absorbs whole partial documents.

use vstd::prelude::*;
use crate::types::Prefix2AsCount;

verus! {

/// Key of one prefix-to-origin entry.
pub type PfxKey = (Seq<char>, u32);

/// The accumulated counts.
pub type PfxModel = Map<PfxKey, nat>;

/// The key of an entry.
pub open spec fn pfx_entry_key(e: Prefix2AsCount) -> PfxKey {
    (e.prefix@, e.asn)
}

/// The map described by a sequence of entries.
pub open spec fn pfx_model_of(s: Seq<Prefix2AsCount>) -> PfxModel
    decreases s.len(),
{
    if s.len() == 0 {
        Map::<PfxKey, nat>::empty()
    } else {
        pfx_model_of(s.drop_last()).insert(pfx_entry_key(s.last()), s.last().count as nat)
    }
}

/// No two entries share a key.
pub open spec fn pfx_keys_distinct(s: Seq<Prefix2AsCount>) -> bool {
    forall|i: int, j: int|
        0 <= i < j < s.len() ==> pfx_entry_key(#[trigger] s[i]) != pfx_entry_key(#[trigger] s[j])
}

/// The count under `k`, zero if absent.
pub open spec fn pfx_lookup(m: PfxModel, k: PfxKey) -> nat {
    if m.dom().contains(k) {
        m[k]
    } else {
        0nat
    }
}

/// The map with `d` added to the count under `k`.
pub open spec fn pfx_add(m: PfxModel, k: PfxKey, d: nat) -> PfxModel {
    m.insert(k, (pfx_lookup(m, k) + d) as nat)
}

/// With distinct keys, the map holds exactly the entries.
proof fn lemma_pfx_model_index(s: Seq<Prefix2AsCount>)
    requires
        pfx_keys_distinct(s),
    ensures
        forall|i: int|
            0 <= i < s.len() ==> pfx_model_of(s).dom().contains(pfx_entry_key(#[trigger] s[i]))
                && pfx_model_of(s)[pfx_entry_key(s[i])] == s[i].count as nat,
        forall|k: PfxKey|
            pfx_model_of(s).dom().contains(k) ==> exists|i: int|
                0 <= i < s.len() && pfx_entry_key(#[trigger] s[i]) == k,
    decreases s.len(),
{
    if s.len() > 0 {
        assert(pfx_keys_distinct(s.drop_last()));
        lemma_pfx_model_index(s.drop_last());
        assert forall|i: int| 0 <= i < s.len() implies pfx_model_of(s).dom().contains(
            pfx_entry_key(#[trigger] s[i]),
        ) && pfx_model_of(s)[pfx_entry_key(s[i])] == s[i].count as nat by {
            if i < s.len() - 1 {
                assert(s.drop_last()[i] == s[i]);
                assert(pfx_entry_key(s[i]) != pfx_entry_key(s.last()));
            }
        }
        assert forall|k: PfxKey| pfx_model_of(s).dom().contains(k) implies exists|i: int|
            0 <= i < s.len() && pfx_entry_key(#[trigger] s[i]) == k by {
            if k != pfx_entry_key(s.last()) {
                assert(pfx_model_of(s.drop_last()).dom().contains(k));
                let i = choose|i: int|
                    0 <= i < s.drop_last().len() && pfx_entry_key(#[trigger] s.drop_last()[i])
                        == k;
                assert(s.drop_last()[i] == s[i]);
                assert(pfx_entry_key(s[i]) == k);
            } else {
                assert(pfx_entry_key(s[s.len() - 1]) == k);
            }
        }
    }
}

/// Replacing an entry by one with the same key updates the map at that
/// key alone.
proof fn lemma_pfx_model_update(s: Seq<Prefix2AsCount>, i: int, e: Prefix2AsCount)
    requires
        pfx_keys_distinct(s),
        0 <= i < s.len(),
        pfx_entry_key(e) == pfx_entry_key(s[i]),
    ensures
        pfx_model_of(s.update(i, e)) == pfx_model_of(s).insert(pfx_entry_key(e), e.count as nat),
    decreases s.len(),
{
    let t = s.update(i, e);
    if i == s.len() - 1 {
        assert(t.drop_last() =~= s.drop_last());
        assert(t.last() == e);
        assert(pfx_model_of(t) =~~= pfx_model_of(s).insert(pfx_entry_key(e), e.count as nat));
    } else {
        assert(t.drop_last() =~= s.drop_last().update(i, e));
        assert(t.last() == s.last());
        assert(pfx_keys_distinct(s.drop_last()));
        assert(s.drop_last()[i] == s[i]);
        lemma_pfx_model_update(s.drop_last(), i, e);
        assert(pfx_entry_key(e) != pfx_entry_key(s.last()));
        assert(pfx_model_of(s.drop_last()).insert(pfx_entry_key(e), e.count as nat).insert(
            pfx_entry_key(s.last()),
            s.last().count as nat,
        ) =~~= pfx_model_of(s.drop_last()).insert(pfx_entry_key(s.last()), s.last().count as nat)
            .insert(pfx_entry_key(e), e.count as nat));
    }
}

/// Accumulator for prefix-to-origin counts.
pub struct PfxCountMap {
    pub entries: Vec<Prefix2AsCount>,
    /// Sum of everything absorbed; counts stay below it, which keeps
    /// the additions free of overflow.
    pub total: Ghost<nat>,
}

impl PfxCountMap {
    /// The counts accumulated so far.
    pub open spec fn model(self) -> PfxModel {
        pfx_model_of(self.entries@)
    }

    /// Structural soundness: distinct keys, counts bounded by the
    /// total absorbed.
    pub open spec fn wf(self) -> bool {
        &&& pfx_keys_distinct(self.entries@)
        &&& forall|i: int|
            0 <= i < self.entries@.len() ==> (#[trigger] self.entries@[i]).count as nat
                <= self.total@
    }

    /// An empty map.
    pub fn new() -> (r: PfxCountMap)
        ensures
            r.wf(),
            r.model() == Map::<PfxKey, nat>::empty(),
            r.total@ == 0nat,
    {
        PfxCountMap { entries: Vec::new(), total: Ghost(0nat) }
    }

    /// Adds `delta` to the count under `(prefix, asn)`.
    #[verifier::loop_isolation(false)]
    pub fn add(&mut self, prefix: &String, asn: u32, delta: usize)
        requires
            old(self).wf(),
            old(self).total@ + delta <= usize::MAX,
        ensures
            final(self).wf(),
            final(self).model() == pfx_add(old(self).model(), (prefix@, asn), delta as nat),
            final(self).total@ == old(self).total@ + delta,
    {
        let ghost k: PfxKey = (prefix@, asn);
        proof {
            lemma_pfx_model_index(self.entries@);
        }
        let mut found = false;
        let mut fi: usize = 0;
        let mut i: usize = 0;
        while !found && i < self.entries.len()
            invariant
                0 <= i <= self.entries@.len(),
                !found ==> forall|j: int|
                    0 <= j < i ==> pfx_entry_key(#[trigger] self.entries@[j]) != k,
                found ==> fi < self.entries@.len() && pfx_entry_key(self.entries@[fi as int])
                    == k,
            decreases self.entries@.len() - i + (if found { 0int } else { 1int }),
        {
            let e = &self.entries[i];
            if e.asn == asn && e.prefix == *prefix {
                found = true;
                fi = i;
                proof {
                    assert(self.entries@[i as int] == *e);
                    assert(pfx_entry_key(self.entries@[i as int]) == k);
                }
            } else {
                proof {
                    assert(self.entries@[i as int] == *e);
                    assert(pfx_entry_key(self.entries@[i as int]) != k);
                }
                i += 1;
            }
        }
        if found {
            let ghost oldentries = self.entries@;
            let ghost olde = self.entries@[fi as int];
            let e = &mut self.entries[fi];
            e.count = e.count + delta;
            proof {
                let newe = self.entries@[fi as int];
                assert(newe.count == olde.count + delta);
                assert(newe.prefix@ == olde.prefix@);
                assert(pfx_entry_key(newe) == k);
                assert(self.entries@ =~= oldentries.update(fi as int, newe));
                lemma_pfx_model_update(oldentries, fi as int, newe);
                assert(pfx_model_of(oldentries)[k] == olde.count as nat);
                assert(pfx_model_of(self.entries@) =~~= pfx_add(
                    pfx_model_of(oldentries),
                    k,
                    delta as nat,
                ));
                self.total@ = (old(self).total@ + delta) as nat;
            }
        } else {
            let ghost oldentries = self.entries@;
            let p = prefix.clone();
            let e = Prefix2AsCount { prefix: p, asn, count: delta };
            self.entries.push(e);
            proof {
                assert(self.entries@.drop_last() =~= oldentries);
                assert(!pfx_model_of(oldentries).dom().contains(k)) by {
                    lemma_pfx_model_index(oldentries);
                    if pfx_model_of(oldentries).dom().contains(k) {
                        let j = choose|j: int|
                            0 <= j < oldentries.len() && pfx_entry_key(#[trigger] oldentries[j])
                                == k;
                        assert(false);
                    }
                }
                assert(pfx_entry_key(self.entries@.last()) == k);
                assert(pfx_model_of(self.entries@) =~~= pfx_add(
                    pfx_model_of(oldentries),
                    k,
                    delta as nat,
                ));
                self.total@ = (old(self).total@ + delta) as nat;
            }
        }
    }

    /// The finalised entries: one per key, carrying its accumulated
    /// count.
    pub fn into_entries(self) -> (v: Vec<Prefix2AsCount>)
        requires
            self.wf(),
        ensures
            pfx_counts_match(v@, self.model()),
    {
        proof {
            lemma_pfx_model_index(self.entries@);
        }
        self.entries
    }
}

/// The entries describe exactly the counts `m`: same keys, same
/// counts, no key twice.
pub open spec fn pfx_counts_match(cs: Seq<Prefix2AsCount>, m: PfxModel) -> bool {
    &&& forall|j: int|
        0 <= j < cs.len() ==> {
            &&& m.dom().contains(pfx_entry_key(#[trigger] cs[j]))
            &&& m[pfx_entry_key(cs[j])] == cs[j].count as nat
        }
    &&& forall|k: PfxKey|
        m.dom().contains(k) ==> exists|j: int|
            0 <= j < cs.len() && pfx_entry_key(#[trigger] cs[j]) == k
    &&& pfx_keys_distinct(cs)
}

} // verus!
