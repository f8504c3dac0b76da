//! The daily merge stage.
//!
//! Per-snapshot partial documents are folded into one cumulative
//! document per data type: entries are matched by their natural key
//! and their counts added.  For relationship documents both the
//! message count and the peer count are added — a deliberate
//! simplification of observer-set union, since only cross-snapshot
//! totals are needed downstream.  File names carry the snapshot date,
//! parsed here to select a day's partials.

use vstd::prelude::*;
use crate::countmap::{pfx_entry_key, pfx_lookup, PfxCountMap, PfxKey, PfxModel};
use crate::strutil::{all_digits, contains_seq, digits_val, ends_with_seq, parse_i32, parse_u32, split_spec, split_str};
use crate::types::{string_views, As2Rel, As2RelCount, Prefix2AsCount};

verus! {

/// The `year-month-day` pieces embedded in a partial file's name: the
/// second-to-last `_`-separated part, split on `-`.
pub open spec fn ymd_parts(path: Seq<char>) -> Seq<Seq<char>> {
    let date_part = split_spec(path, '_');
    split_spec(date_part[date_part.len() - 2], '-')
}

/// The name has enough parts to address.
pub open spec fn ymd_split_ok(path: Seq<char>) -> bool {
    &&& split_spec(path, '_').len() >= 2
    &&& ymd_parts(path).len() >= 3
}

/// Whether the three date pieces are decimal numbers in range.
pub open spec fn ymd_digits_ok(path: Seq<char>) -> bool {
    let parts = ymd_parts(path);
    &&& all_digits(parts[0]) && digits_val(parts[0]) <= i32::MAX
    &&& all_digits(parts[1]) && digits_val(parts[1]) <= u32::MAX
    &&& all_digits(parts[2]) && digits_val(parts[2]) <= u32::MAX
}

/// The name has enough parts to address, and each piece is a decimal
/// number in range.
pub open spec fn ymd_shape_ok(path: Seq<char>) -> bool {
    ymd_split_ok(path) && ymd_digits_ok(path)
}

/// Reads the snapshot date out of a partial file's name, such as
/// `as2rel_rrc16_2022-02-01_1643673600.bz2`.
pub fn get_ymd_from_file(file_path: &str) -> (r: (i32, u32, u32))
    requires
        ymd_shape_ok(file_path@),
    ensures
        r.0 == digits_val(ymd_parts(file_path@)[0]),
        r.1 == digits_val(ymd_parts(file_path@)[1]),
        r.2 == digits_val(ymd_parts(file_path@)[2]),
{
    let date_part = split_str(file_path, '_');
    let idx = date_part.len() - 2;
    proof {
        assert(string_views(date_part@)[idx as int] == date_part@[idx as int]@);
    }
    let parts = split_str(date_part[idx].as_str(), '-');
    proof {
        assert(string_views(parts@)[0] == parts@[0]@);
        assert(string_views(parts@)[1] == parts@[1]@);
        assert(string_views(parts@)[2] == parts@[2]@);
    }
    let y = parse_i32(parts[0].as_str()).unwrap();
    let m = parse_u32(parts[1].as_str()).unwrap();
    let d = parse_u32(parts[2].as_str()).unwrap();
    (y, m, d)
}

/// Key of one relationship entry.
pub type RelCountKey = (u32, u32, u8);

/// Cumulative counts per relationship key: messages and peers.
pub type RelCountModel = Map<RelCountKey, (nat, nat)>;

/// The key of an entry.
pub open spec fn relc_entry_key(e: As2RelCount) -> RelCountKey {
    (e.asn1, e.asn2, e.rel)
}

/// The counts under `k`, zero if absent.
pub open spec fn relc_lookup(m: RelCountModel, k: RelCountKey) -> (nat, nat) {
    if m.dom().contains(k) {
        m[k]
    } else {
        (0nat, 0nat)
    }
}

/// Whether some entry of the document carries key `k`.
pub open spec fn relc_has_key(es: Seq<As2RelCount>, k: RelCountKey) -> bool
    decreases es.len(),
{
    if es.len() == 0 {
        false
    } else {
        relc_entry_key(es.last()) == k || relc_has_key(es.drop_last(), k)
    }
}

/// The document's total message count under key `k`.
pub open spec fn relc_paths_at(es: Seq<As2RelCount>, k: RelCountKey) -> nat
    decreases es.len(),
{
    if es.len() == 0 {
        0nat
    } else {
        relc_paths_at(es.drop_last(), k) + if relc_entry_key(es.last()) == k {
            es.last().paths_count as nat
        } else {
            0nat
        }
    }
}

/// The document's total peer count under key `k`.
pub open spec fn relc_peers_at(es: Seq<As2RelCount>, k: RelCountKey) -> nat
    decreases es.len(),
{
    if es.len() == 0 {
        0nat
    } else {
        relc_peers_at(es.drop_last(), k) + if relc_entry_key(es.last()) == k {
            es.last().peers_count as nat
        } else {
            0nat
        }
    }
}

/// The cumulative map after folding one document into `m`: keys of
/// both, counts added.
pub open spec fn relc_merged(m: RelCountModel, es: Seq<As2RelCount>) -> RelCountModel {
    Map::new(
        |k: RelCountKey| m.dom().contains(k) || relc_has_key(es, k),
        |k: RelCountKey|
            (
                (relc_lookup(m, k).0 + relc_paths_at(es, k)) as nat,
                (relc_lookup(m, k).1 + relc_peers_at(es, k)) as nat,
            ),
    )
}

/// A key no entry carries counts nothing.
proof fn lemma_relc_at_zero(es: Seq<As2RelCount>, k: RelCountKey)
    requires
        !relc_has_key(es, k),
    ensures
        relc_paths_at(es, k) == 0,
        relc_peers_at(es, k) == 0,
    decreases es.len(),
{
    if es.len() > 0 {
        lemma_relc_at_zero(es.drop_last(), k);
    }
}

/// What the merged map holds under any key: the old counts plus the
/// document's counts.
proof fn lemma_relc_merged_lookup(m: RelCountModel, es: Seq<As2RelCount>, q: RelCountKey)
    ensures
        relc_lookup(relc_merged(m, es), q).0 == relc_lookup(m, q).0 + relc_paths_at(es, q),
        relc_lookup(relc_merged(m, es), q).1 == relc_lookup(m, q).1 + relc_peers_at(es, q),
{
    if !(m.dom().contains(q) || relc_has_key(es, q)) {
        lemma_relc_at_zero(es, q);
    }
}

/// Folding documents adds their counts key by key: after merging two
/// partial relationship documents into an empty accumulator, every
/// key carries exactly the sum of the two documents' counts for it.
pub proof fn lemma_relc_merge_sums(es1: Seq<As2RelCount>, es2: Seq<As2RelCount>, k: RelCountKey)
    ensures
        relc_lookup(relc_merged(relc_merged(Map::empty(), es1), es2), k).0 == relc_paths_at(
            es1,
            k,
        ) + relc_paths_at(es2, k),
        relc_lookup(relc_merged(relc_merged(Map::empty(), es1), es2), k).1 == relc_peers_at(
            es1,
            k,
        ) + relc_peers_at(es2, k),
{
    lemma_relc_merged_lookup(relc_merged(Map::empty(), es1), es2, k);
    lemma_relc_merged_lookup(Map::empty(), es1, k);
}

/// The document's total message count.
pub open spec fn relc_paths_total(es: Seq<As2RelCount>) -> nat
    decreases es.len(),
{
    if es.len() == 0 {
        0nat
    } else {
        relc_paths_total(es.drop_last()) + es.last().paths_count as nat
    }
}

/// The document's total peer count.
pub open spec fn relc_peers_total(es: Seq<As2RelCount>) -> nat
    decreases es.len(),
{
    if es.len() == 0 {
        0nat
    } else {
        relc_peers_total(es.drop_last()) + es.last().peers_count as nat
    }
}

/// A prefix of the document never carries more than the whole.
proof fn lemma_relc_totals_prefix(es: Seq<As2RelCount>, j: int)
    requires
        0 <= j <= es.len(),
    ensures
        relc_paths_total(es.take(j)) <= relc_paths_total(es),
        relc_peers_total(es.take(j)) <= relc_peers_total(es),
    decreases es.len() - j,
{
    if j == es.len() {
        assert(es.take(j) =~= es);
    } else {
        assert(es.take(j + 1).drop_last() =~= es.take(j));
        assert(es.take(j + 1).last() == es[j]);
        lemma_relc_totals_prefix(es, j + 1);
    }
}

/// Accumulator folding relationship documents across one day.
pub struct As2RelMerger {
    pub entries: Vec<As2RelCount>,
    /// Message counts absorbed so far.
    pub paths_total: Ghost<nat>,
    /// Peer counts absorbed so far.
    pub peers_total: Ghost<nat>,
}

impl As2RelMerger {
    /// The cumulative counts so far.
    pub open spec fn model(self) -> RelCountModel {
        relc_model_of(self.entries@)
    }

    /// Structural soundness: distinct keys, counts bounded by the
    /// totals absorbed.
    pub open spec fn wf(self) -> bool {
        &&& relc_keys_distinct(self.entries@)
        &&& forall|i: int|
            0 <= i < self.entries@.len() ==> (#[trigger] self.entries@[i]).paths_count as nat
                <= self.paths_total@
        &&& forall|i: int|
            0 <= i < self.entries@.len() ==> (#[trigger] self.entries@[i]).peers_count as nat
                <= self.peers_total@
    }

    /// An empty accumulator.
    pub fn new() -> (r: As2RelMerger)
        ensures
            r.wf(),
            r.model() == Map::<RelCountKey, (nat, nat)>::empty(),
            r.paths_total@ == 0nat,
            r.peers_total@ == 0nat,
    {
        As2RelMerger { entries: Vec::new(), paths_total: Ghost(0nat), peers_total: Ghost(0nat) }
    }

    /// Adds one entry's counts under its key.
    #[verifier::loop_isolation(false)]
    fn add(&mut self, asn1: u32, asn2: u32, rel: u8, paths: usize, peers: usize)
        requires
            old(self).wf(),
            old(self).paths_total@ + paths <= usize::MAX,
            old(self).peers_total@ + peers <= usize::MAX,
        ensures
            final(self).wf(),
            final(self).model() == relc_add(old(self).model(), (asn1, asn2, rel), paths as nat, peers as nat),
            final(self).paths_total@ == old(self).paths_total@ + paths,
            final(self).peers_total@ == old(self).peers_total@ + peers,
    {
        let ghost k: RelCountKey = (asn1, asn2, rel);
        proof {
            lemma_relc_model_index(self.entries@);
        }
        let mut found = false;
        let mut fi: usize = 0;
        let mut i: usize = 0;
        while !found && i < self.entries.len()
            invariant
                0 <= i <= self.entries@.len(),
                !found ==> forall|j: int|
                    0 <= j < i ==> relc_entry_key(#[trigger] self.entries@[j]) != k,
                found ==> fi < self.entries@.len() && relc_entry_key(self.entries@[fi as int])
                    == k,
            decreases self.entries@.len() - i + (if found { 0int } else { 1int }),
        {
            let e = &self.entries[i];
            if e.asn1 == asn1 && e.asn2 == asn2 && e.rel == rel {
                found = true;
                fi = i;
            } else {
                i += 1;
            }
        }
        if found {
            let ghost oldentries = self.entries@;
            let ghost olde = self.entries@[fi as int];
            let e = &mut self.entries[fi];
            e.paths_count = e.paths_count + paths;
            e.peers_count = e.peers_count + peers;
            proof {
                let newe = self.entries@[fi as int];
                assert(relc_entry_key(newe) == k);
                assert(self.entries@ =~= oldentries.update(fi as int, newe));
                lemma_relc_model_update(oldentries, fi as int, newe);
                assert(relc_model_of(oldentries)[k] == (olde.paths_count as nat,
                olde.peers_count as nat));
                assert(relc_model_of(self.entries@) =~~= relc_add(
                    relc_model_of(oldentries),
                    k,
                    paths as nat,
                    peers as nat,
                ));
                self.paths_total@ = (old(self).paths_total@ + paths) as nat;
                self.peers_total@ = (old(self).peers_total@ + peers) as nat;
            }
        } else {
            let ghost oldentries = self.entries@;
            self.entries.push(
                As2RelCount { asn1, asn2, rel, paths_count: paths, peers_count: peers },
            );
            proof {
                assert(self.entries@.drop_last() =~= oldentries);
                assert(!relc_model_of(oldentries).dom().contains(k)) by {
                    lemma_relc_model_index(oldentries);
                    if relc_model_of(oldentries).dom().contains(k) {
                        let j = choose|j: int|
                            0 <= j < oldentries.len() && relc_entry_key(#[trigger] oldentries[j])
                                == k;
                        assert(false);
                    }
                }
                assert(relc_entry_key(self.entries@.last()) == k);
                assert(relc_model_of(self.entries@) =~~= relc_add(
                    relc_model_of(oldentries),
                    k,
                    paths as nat,
                    peers as nat,
                ));
                self.paths_total@ = (old(self).paths_total@ + paths) as nat;
                self.peers_total@ = (old(self).peers_total@ + peers) as nat;
            }
        }
    }

    /// Folds one partial document in: every entry's counts are added
    /// under its key.
    #[verifier::loop_isolation(false)]
    pub fn merge_doc(&mut self, doc: &As2Rel)
        requires
            old(self).wf(),
            old(self).paths_total@ + relc_paths_total(doc.as2rel@) <= usize::MAX,
            old(self).peers_total@ + relc_peers_total(doc.as2rel@) <= usize::MAX,
        ensures
            final(self).wf(),
            final(self).model() == relc_merged(old(self).model(), doc.as2rel@),
            final(self).paths_total@ == old(self).paths_total@ + relc_paths_total(doc.as2rel@),
            final(self).peers_total@ == old(self).peers_total@ + relc_peers_total(doc.as2rel@),
    {
        let ghost es = doc.as2rel@;
        let ghost m0 = self.model();
        proof {
            assert(es.take(0) =~= Seq::<As2RelCount>::empty());
            assert(self.model() =~~= relc_merged(m0, es.take(0)));
        }
        let mut i: usize = 0;
        while i < doc.as2rel.len()
            invariant
                0 <= i <= es.len(),
                es == doc.as2rel@,
                self.wf(),
                self.model() == relc_merged(m0, es.take(i as int)),
                self.paths_total@ == old(self).paths_total@ + relc_paths_total(es.take(i as int)),
                self.peers_total@ == old(self).peers_total@ + relc_peers_total(es.take(i as int)),
            decreases es.len() - i,
        {
            let e = &doc.as2rel[i];
            proof {
                assert(es.take(i + 1).drop_last() =~= es.take(i as int));
                assert(es.take(i + 1).last() == es[i as int]);
                lemma_relc_totals_prefix(es, i + 1);
            }
            self.add(e.asn1, e.asn2, e.rel, e.paths_count, e.peers_count);
            proof {
                let k = relc_entry_key(es[i as int]);
                let mprev = relc_merged(m0, es.take(i as int));
                let cur = self.model();
                let tgt = relc_merged(m0, es.take(i + 1));
                assert forall|q: RelCountKey| #[trigger] tgt.dom().contains(q) implies cur.dom()
                    .contains(q) && cur[q] == tgt[q] by {
                    lemma_relc_merged_lookup(m0, es.take(i as int), q);
                    lemma_relc_merged_lookup(m0, es.take(i + 1), q);
                    if q != k {
                        assert(relc_paths_at(es.take(i + 1), q) == relc_paths_at(
                            es.take(i as int),
                            q,
                        ));
                        assert(relc_peers_at(es.take(i + 1), q) == relc_peers_at(
                            es.take(i as int),
                            q,
                        ));
                        assert(cur[q] == mprev[q]);
                        assert(mprev.dom().contains(q));
                    } else {
                        assert(cur[q] == ((relc_lookup(mprev, k).0
                            + es[i as int].paths_count as nat) as nat, (relc_lookup(mprev, k).1
                            + es[i as int].peers_count as nat) as nat));
                    }
                }
                assert forall|q: RelCountKey| #[trigger] cur.dom().contains(q) implies tgt.dom()
                    .contains(q) by {}
                assert(cur =~~= tgt);
            }
            i += 1;
        }
        proof {
            assert(es.take(es.len() as int) =~= es);
        }
    }

    /// The cumulative entries: one per key.
    pub fn into_entries(self) -> (v: Vec<As2RelCount>)
        requires
            self.wf(),
        ensures
            relc_counts_match(v@, self.model()),
    {
        proof {
            lemma_relc_model_index(self.entries@);
        }
        self.entries
    }
}

/// The map described by a sequence of entries.
pub open spec fn relc_model_of(s: Seq<As2RelCount>) -> RelCountModel
    decreases s.len(),
{
    if s.len() == 0 {
        Map::<RelCountKey, (nat, nat)>::empty()
    } else {
        relc_model_of(s.drop_last()).insert(
            relc_entry_key(s.last()),
            (s.last().paths_count as nat, s.last().peers_count as nat),
        )
    }
}

/// No two entries share a key.
pub open spec fn relc_keys_distinct(s: Seq<As2RelCount>) -> bool {
    forall|i: int, j: int|
        0 <= i < j < s.len() ==> relc_entry_key(#[trigger] s[i]) != relc_entry_key(
            #[trigger] s[j],
        )
}

/// The map with counts added under `k`.
pub open spec fn relc_add(m: RelCountModel, k: RelCountKey, dp: nat, dc: nat) -> RelCountModel {
    let cur = relc_lookup(m, k);
    m.insert(k, ((cur.0 + dp) as nat, (cur.1 + dc) as nat))
}

/// The entries describe exactly the counts `m`.
pub open spec fn relc_counts_match(cs: Seq<As2RelCount>, m: RelCountModel) -> bool {
    &&& forall|j: int|
        0 <= j < cs.len() ==> {
            &&& m.dom().contains(relc_entry_key(#[trigger] cs[j]))
            &&& m[relc_entry_key(cs[j])] == ((cs[j].paths_count as nat, cs[j].peers_count as nat))
        }
    &&& forall|k: RelCountKey|
        m.dom().contains(k) ==> exists|j: int|
            0 <= j < cs.len() && relc_entry_key(#[trigger] cs[j]) == k
    &&& relc_keys_distinct(cs)
}

/// With distinct keys, the map holds exactly the entries.
proof fn lemma_relc_model_index(s: Seq<As2RelCount>)
    requires
        relc_keys_distinct(s),
    ensures
        forall|i: int|
            0 <= i < s.len() ==> relc_model_of(s).dom().contains(relc_entry_key(#[trigger] s[i]))
                && relc_model_of(s)[relc_entry_key(s[i])] == ((s[i].paths_count as nat,
            s[i].peers_count as nat)),
        forall|k: RelCountKey|
            relc_model_of(s).dom().contains(k) ==> exists|i: int|
                0 <= i < s.len() && relc_entry_key(#[trigger] s[i]) == k,
    decreases s.len(),
{
    if s.len() > 0 {
        assert(relc_keys_distinct(s.drop_last()));
        lemma_relc_model_index(s.drop_last());
        assert forall|i: int| 0 <= i < s.len() implies relc_model_of(s).dom().contains(
            relc_entry_key(#[trigger] s[i]),
        ) && relc_model_of(s)[relc_entry_key(s[i])] == ((s[i].paths_count as nat,
        s[i].peers_count as nat)) by {
            if i < s.len() - 1 {
                assert(s.drop_last()[i] == s[i]);
                assert(relc_entry_key(s[i]) != relc_entry_key(s.last()));
            }
        }
        assert forall|k: RelCountKey| relc_model_of(s).dom().contains(k) implies exists|i: int|
            0 <= i < s.len() && relc_entry_key(#[trigger] s[i]) == k by {
            if k != relc_entry_key(s.last()) {
                assert(relc_model_of(s.drop_last()).dom().contains(k));
                let i = choose|i: int|
                    0 <= i < s.drop_last().len() && relc_entry_key(#[trigger] s.drop_last()[i])
                        == k;
                assert(s.drop_last()[i] == s[i]);
                assert(relc_entry_key(s[i]) == k);
            } else {
                assert(relc_entry_key(s[s.len() - 1]) == k);
            }
        }
    }
}

/// Replacing an entry by one with the same key updates the map at that
/// key alone.
proof fn lemma_relc_model_update(s: Seq<As2RelCount>, i: int, e: As2RelCount)
    requires
        relc_keys_distinct(s),
        0 <= i < s.len(),
        relc_entry_key(e) == relc_entry_key(s[i]),
    ensures
        relc_model_of(s.update(i, e)) == relc_model_of(s).insert(
            relc_entry_key(e),
            (e.paths_count as nat, e.peers_count as nat),
        ),
    decreases s.len(),
{
    let t = s.update(i, e);
    if i == s.len() - 1 {
        assert(t.drop_last() =~= s.drop_last());
        assert(t.last() == e);
        assert(relc_model_of(t) =~~= relc_model_of(s).insert(
            relc_entry_key(e),
            (e.paths_count as nat, e.peers_count as nat),
        ));
    } else {
        assert(t.drop_last() =~= s.drop_last().update(i, e));
        assert(t.last() == s.last());
        assert(relc_keys_distinct(s.drop_last()));
        assert(s.drop_last()[i] == s[i]);
        lemma_relc_model_update(s.drop_last(), i, e);
        assert(relc_entry_key(e) != relc_entry_key(s.last()));
        assert(relc_model_of(s.drop_last()).insert(
            relc_entry_key(e),
            (e.paths_count as nat, e.peers_count as nat),
        ).insert(
            relc_entry_key(s.last()),
            (s.last().paths_count as nat, s.last().peers_count as nat),
        ) =~~= relc_model_of(s.drop_last()).insert(
            relc_entry_key(s.last()),
            (s.last().paths_count as nat, s.last().peers_count as nat),
        ).insert(relc_entry_key(e), (e.paths_count as nat, e.peers_count as nat)));
    }
}

/// Whether some entry of a prefix-origin document carries key `k`.
pub open spec fn pfx_has_key(es: Seq<Prefix2AsCount>, k: PfxKey) -> bool
    decreases es.len(),
{
    if es.len() == 0 {
        false
    } else {
        pfx_entry_key(es.last()) == k || pfx_has_key(es.drop_last(), k)
    }
}

/// The document's total count under key `k`.
pub open spec fn pfx_count_at(es: Seq<Prefix2AsCount>, k: PfxKey) -> nat
    decreases es.len(),
{
    if es.len() == 0 {
        0nat
    } else {
        pfx_count_at(es.drop_last(), k) + if pfx_entry_key(es.last()) == k {
            es.last().count as nat
        } else {
            0nat
        }
    }
}

/// The document's total count.
pub open spec fn pfx_doc_total(es: Seq<Prefix2AsCount>) -> nat
    decreases es.len(),
{
    if es.len() == 0 {
        0nat
    } else {
        pfx_doc_total(es.drop_last()) + es.last().count as nat
    }
}

/// A prefix of the document never carries more than the whole.
proof fn lemma_pfx_doc_total_prefix(es: Seq<Prefix2AsCount>, j: int)
    requires
        0 <= j <= es.len(),
    ensures
        pfx_doc_total(es.take(j)) <= pfx_doc_total(es),
    decreases es.len() - j,
{
    if j == es.len() {
        assert(es.take(j) =~= es);
    } else {
        assert(es.take(j + 1).drop_last() =~= es.take(j));
        assert(es.take(j + 1).last() == es[j]);
        lemma_pfx_doc_total_prefix(es, j + 1);
    }
}

/// A key no entry carries counts nothing.
proof fn lemma_pfx_at_zero(es: Seq<Prefix2AsCount>, k: PfxKey)
    requires
        !pfx_has_key(es, k),
    ensures
        pfx_count_at(es, k) == 0,
    decreases es.len(),
{
    if es.len() > 0 {
        lemma_pfx_at_zero(es.drop_last(), k);
    }
}

/// The cumulative counts after folding one prefix-origin document
/// into `m`: keys of both, counts added.
pub open spec fn pfx_merged(m: PfxModel, es: Seq<Prefix2AsCount>) -> PfxModel {
    Map::new(
        |k: PfxKey| m.dom().contains(k) || pfx_has_key(es, k),
        |k: PfxKey| (pfx_lookup(m, k) + pfx_count_at(es, k)) as nat,
    )
}

/// Merging two partial prefix-origin documents with overlapping keys
/// sums their counts exactly: after folding both into an empty
/// accumulator, every key carries the sum of the two documents'
/// counts for it.
pub proof fn lemma_pfx_merge_sums(es1: Seq<Prefix2AsCount>, es2: Seq<Prefix2AsCount>, k: PfxKey)
    ensures
        pfx_lookup(pfx_merged(pfx_merged(Map::empty(), es1), es2), k) == pfx_count_at(es1, k)
            + pfx_count_at(es2, k),
{
    lemma_pfx_merged_lookup(pfx_merged(Map::empty(), es1), es2, k);
    lemma_pfx_merged_lookup(Map::empty(), es1, k);
}

/// What the merged counts hold under any key: the old count plus the
/// document's count.
proof fn lemma_pfx_merged_lookup(m: PfxModel, es: Seq<Prefix2AsCount>, q: PfxKey)
    ensures
        pfx_lookup(pfx_merged(m, es), q) == pfx_lookup(m, q) + pfx_count_at(es, q),
{
    if !(m.dom().contains(q) || pfx_has_key(es, q)) {
        lemma_pfx_at_zero(es, q);
    }
}

/// Folds one partial prefix-origin document into the accumulator:
/// every entry's count is added under its `(prefix, origin)` key.
#[verifier::loop_isolation(false)]
pub fn merge_pfx2as_doc(acc: &mut PfxCountMap, entries: &Vec<Prefix2AsCount>)
    requires
        old(acc).wf(),
        old(acc).total@ + pfx_doc_total(entries@) <= usize::MAX,
    ensures
        final(acc).wf(),
        final(acc).model() == pfx_merged(old(acc).model(), entries@),
        final(acc).total@ == old(acc).total@ + pfx_doc_total(entries@),
{
    let ghost es = entries@;
    let ghost m0 = acc.model();
    proof {
        assert(es.take(0) =~= Seq::<Prefix2AsCount>::empty());
        assert(acc.model() =~~= pfx_merged(m0, es.take(0)));
    }
    let mut i: usize = 0;
    while i < entries.len()
        invariant
            0 <= i <= es.len(),
            es == entries@,
            acc.wf(),
            acc.model() == pfx_merged(m0, es.take(i as int)),
            acc.total@ == old(acc).total@ + pfx_doc_total(es.take(i as int)),
        decreases es.len() - i,
    {
        let e = &entries[i];
        proof {
            assert(es.take(i + 1).drop_last() =~= es.take(i as int));
            assert(es.take(i + 1).last() == es[i as int]);
            lemma_pfx_doc_total_prefix(es, i + 1);
        }
        acc.add(&e.prefix, e.asn, e.count);
        proof {
            let k = pfx_entry_key(es[i as int]);
            let mprev = pfx_merged(m0, es.take(i as int));
            let cur = acc.model();
            let tgt = pfx_merged(m0, es.take(i + 1));
            assert forall|q: PfxKey| #[trigger] tgt.dom().contains(q) implies cur.dom().contains(
                q,
            ) && cur[q] == tgt[q] by {
                lemma_pfx_merged_lookup(m0, es.take(i as int), q);
                lemma_pfx_merged_lookup(m0, es.take(i + 1), q);
                if q != k {
                    assert(pfx_count_at(es.take(i + 1), q) == pfx_count_at(es.take(i as int), q));
                    assert(cur[q] == mprev[q]);
                    assert(mprev.dom().contains(q));
                } else {
                    assert(cur[q] == ((pfx_lookup(mprev, k) + es[i as int].count as nat) as nat));
                }
            }
            assert forall|q: PfxKey| #[trigger] cur.dom().contains(q) implies tgt.dom().contains(
                q,
            ) by {}
            assert(cur =~~= tgt);
        }
        i += 1;
    }
    proof {
        assert(es.take(es.len() as int) =~= es);
    }
}

/// The snapshot date in a file's name, if the name has the expected
/// shape and carries decimal pieces in range.
pub fn file_date(path: &str) -> (r: Option<(i32, u32, u32)>)
    ensures
        r is Some <==> ymd_shape_ok(path@),
        r is Some ==> {
            let parts = ymd_parts(path@);
            &&& r->Some_0.0 == digits_val(parts[0])
            &&& r->Some_0.1 == digits_val(parts[1])
            &&& r->Some_0.2 == digits_val(parts[2])
        },
{
    let date_part = split_str(path, '_');
    if date_part.len() < 2 {
        return None;
    }
    let idx = date_part.len() - 2;
    proof {
        assert(string_views(date_part@)[idx as int] == date_part@[idx as int]@);
    }
    let parts = split_str(date_part[idx].as_str(), '-');
    if parts.len() < 3 {
        return None;
    }
    proof {
        assert(string_views(parts@)[0] == parts@[0]@);
        assert(string_views(parts@)[1] == parts@[1]@);
        assert(string_views(parts@)[2] == parts@[2]@);
    }
    let y = match parse_i32(parts[0].as_str()) {
        Some(v) => v,
        None => {
            return None;
        },
    };
    let m = match parse_u32(parts[1].as_str()) {
        Some(v) => v,
        None => {
            return None;
        },
    };
    let d = match parse_u32(parts[2].as_str()) {
        Some(v) => v,
        None => {
            return None;
        },
    };
    Some((y, m, d))
}

/// Whether a directory entry is one of the partials to fold: its name
/// carries the data-type tag and the compressed suffix and — unless
/// every date is wanted — a well-formed date among the accepted ones.
pub open spec fn selects_spec(
    path: Seq<char>,
    tag: Seq<char>,
    all_dates: bool,
    dates: Seq<(i32, u32, u32)>,
) -> bool {
    &&& contains_seq(path, tag)
    &&& ends_with_seq(path, ".bz2"@)
    &&& (all_dates || (ymd_shape_ok(path) && {
        let parts = ymd_parts(path);
        exists|i: int|
            0 <= i < dates.len() && (#[trigger] dates[i]).0 == digits_val(parts[0]) && dates[i].1
                == digits_val(parts[1]) && dates[i].2 == digits_val(parts[2])
    }))
}

/// Decides one directory entry for the merge stage.
#[verifier::loop_isolation(false)]
pub fn select_partial_file(
    path: &str,
    tag: &str,
    all_dates: bool,
    dates: &Vec<(i32, u32, u32)>,
) -> (r: bool)
    ensures
        r == selects_spec(path@, tag@, all_dates, dates@),
{
    if !crate::strutil::str_contains(path, tag) {
        return false;
    }
    if !crate::strutil::str_ends_with(path, ".bz2") {
        return false;
    }
    if all_dates {
        return true;
    }
    let (y, m, d) = match file_date(path) {
        Some(x) => x,
        None => {
            return false;
        },
    };
    let mut i: usize = 0;
    while i < dates.len()
        invariant
            0 <= i <= dates@.len(),
            forall|j: int|
                0 <= j < i ==> !((#[trigger] dates@[j]).0 == y && dates@[j].1 == m && dates@[j].2
                    == d),
        decreases dates@.len() - i,
    {
        let (dy, dm, dd) = dates[i];
        if dy == y && dm == m && dd == d {
            return true;
        }
        i += 1;
    }
    proof {
        let parts = ymd_parts(path@);
        if exists|j: int|
            0 <= j < dates@.len() && (#[trigger] dates@[j]).0 == digits_val(parts[0])
                && dates@[j].1 == digits_val(parts[1]) && dates@[j].2 == digits_val(parts[2]) {
            let j = choose|j: int|
                0 <= j < dates@.len() && (#[trigger] dates@[j]).0 == digits_val(parts[0])
                    && dates@[j].1 == digits_val(parts[1]) && dates@[j].2 == digits_val(
                    parts[2],
                );
            assert(false);
        }
    }
    false
}

/// The dates whose peer-statistics partials a daily indexing run
/// accepts: the current day, and — when the previous day falls in
/// another month — that day too.
pub fn peer_stats_window(y: i32, m: u32, d: u32) -> (r: Vec<(i32, u32, u32)>)
    requires
        1 <= m <= 12,
        1 <= d <= 31,
        y > i32::MIN,
    ensures
        d > 1 ==> r@ =~= seq![(y, m, d)],
        d == 1 ==> r@ =~= seq![
            (y, m, d),
            (
                crate::orchestrate::prev_day_spec(y as int, m as int, d as int).0 as i32,
                crate::orchestrate::prev_day_spec(y as int, m as int, d as int).1 as u32,
                crate::orchestrate::prev_day_spec(y as int, m as int, d as int).2 as u32,
            ),
        ],
{
    let mut r: Vec<(i32, u32, u32)> = Vec::new();
    r.push((y, m, d));
    let (py, pm, pd) = crate::orchestrate::prev_day(y, m, d);
    if pm != m {
        r.push((py, pm, pd));
    }
    r
}


} // verus!
