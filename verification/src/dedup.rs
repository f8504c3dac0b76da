//! Canonical form of AS paths: collapsing consecutive repetitions.
//!
//! Route announcements often carry the same AS number several times in a
//! row (path prepending); the repetitions inflate the hop count without
//! adding topological information, so every consumer of a path works on
//! the collapsed form.

use vstd::prelude::*;

verus! {

/// The collapsed form of a path: every run of consecutive equal AS
/// numbers is reduced to a single occurrence, order preserved.
pub open spec fn dedup_seq(s: Seq<u32>) -> Seq<u32>
    decreases s.len(),
{
    if s.len() <= 1 {
        s
    } else if s[s.len() - 1] == s[s.len() - 2] {
        dedup_seq(s.drop_last())
    } else {
        dedup_seq(s.drop_last()).push(s[s.len() - 1])
    }
}

/// No two neighbouring entries are equal.
pub open spec fn no_adjacent_repeats(s: Seq<u32>) -> bool {
    forall|i: int| 1 <= i < s.len() ==> s[i - 1] != #[trigger] s[i]
}

/// Collapsing keeps the path non-empty and keeps its last entry (the
/// origin AS), and never lengthens it.
pub proof fn lemma_dedup_last(s: Seq<u32>)
    requires
        s.len() > 0,
    ensures
        dedup_seq(s).len() > 0,
        dedup_seq(s).last() == s.last(),
        dedup_seq(s).len() <= s.len(),
    decreases s.len(),
{
    if s.len() > 1 {
        lemma_dedup_last(s.drop_last());
    }
}

/// A collapsed path has no neighbouring repetitions.
pub proof fn lemma_dedup_no_adjacent_repeats(s: Seq<u32>)
    ensures
        no_adjacent_repeats(dedup_seq(s)),
    decreases s.len(),
{
    if s.len() <= 1 {
    } else if s[s.len() - 1] == s[s.len() - 2] {
        lemma_dedup_no_adjacent_repeats(s.drop_last());
    } else {
        lemma_dedup_no_adjacent_repeats(s.drop_last());
        lemma_dedup_last(s.drop_last());
        let d = dedup_seq(s.drop_last());
        let t = d.push(s[s.len() - 1]);
        assert forall|i: int| 1 <= i < t.len() implies t[i - 1] != #[trigger] t[i] by {
            if i < d.len() {
                assert(t[i - 1] == d[i - 1]);
                assert(t[i] == d[i]);
            } else {
                assert(t[i - 1] == d[d.len() - 1]);
                assert(d[d.len() - 1] == s.drop_last().last());
                assert(s.drop_last().last() == s[s.len() - 2]);
                assert(t[i] == s[s.len() - 1]);
            }
        }
    }
}

/// A path with no neighbouring repetitions is already collapsed.
pub proof fn lemma_dedup_identity(s: Seq<u32>)
    requires
        no_adjacent_repeats(s),
    ensures
        dedup_seq(s) == s,
    decreases s.len(),
{
    if s.len() <= 1 {
    } else {
        assert(s[s.len() - 1] != s[s.len() - 2]);
        assert(no_adjacent_repeats(s.drop_last()));
        lemma_dedup_identity(s.drop_last());
        assert(s.drop_last().push(s[s.len() - 1]) =~= s);
    }
}

/// Collapsing is idempotent: collapsing an already collapsed path
/// changes nothing.
pub proof fn lemma_dedup_idempotent(s: Seq<u32>)
    ensures
        dedup_seq(dedup_seq(s)) == dedup_seq(s),
{
    lemma_dedup_no_adjacent_repeats(s);
    lemma_dedup_identity(dedup_seq(s));
}

/// Collapsing keeps exactly the set of AS numbers on the path.
pub proof fn lemma_dedup_membership(s: Seq<u32>, x: u32)
    ensures
        dedup_seq(s).contains(x) <==> s.contains(x),
    decreases s.len(),
{
    if s.len() <= 1 {
    } else {
        lemma_dedup_membership(s.drop_last(), x);
        let last = s[s.len() - 1];
        assert forall|j: int| 0 <= j < s.drop_last().len() && s.drop_last()[j] == x
            implies s.contains(x) by {
            assert(s[j] == x);
        }
        if s.contains(x) {
            let j = choose|j: int| 0 <= j < s.len() && s[j] == x;
            if j < s.len() - 1 {
                assert(s.drop_last()[j] == x);
            }
        }
        if s[s.len() - 1] == s[s.len() - 2] {
            if x == last {
                assert(s.drop_last()[s.len() - 2] == x);
            }
        } else {
            let d = dedup_seq(s.drop_last());
            let t = d.push(last);
            assert forall|j: int| 0 <= j < d.len() && d[j] == x implies t.contains(x) by {
                assert(t[j] == x);
            }
            assert(t[d.len() as int] == last);
            if t.contains(x) {
                let j = choose|j: int| 0 <= j < t.len() && t[j] == x;
                if j < d.len() {
                    assert(d[j] == x);
                }
            }
        }
    }
}

/// Replaces every run of consecutive equal AS numbers by one occurrence.
pub fn dedup_path(path: Vec<u32>) -> (r: Vec<u32>)
    ensures
        r@ == dedup_seq(path@),
{
    if path.len() <= 1 {
        return path;
    }
    dedup_of(&path)
}

/// The collapsed copy of a borrowed path.
pub fn dedup_of(path: &Vec<u32>) -> (r: Vec<u32>)
    ensures
        r@ == dedup_seq(path@),
{
    let mut new_path: Vec<u32> = Vec::new();
    if path.len() == 0 {
        proof {
            assert(new_path@ =~= dedup_seq(path@));
        }
        return new_path;
    }
    new_path.push(path[0]);
    proof {
        assert(path@.take(1).len() == 1);
        assert(new_path@ =~= dedup_seq(path@.take(1)));
    }
    let mut i: usize = 1;
    while i < path.len()
        invariant
            1 <= i <= path@.len(),
            new_path@ == dedup_seq(path@.take(i as int)),
        decreases path@.len() - i,
    {
        proof {
            let t = path@.take(i + 1);
            assert(t.drop_last() =~= path@.take(i as int));
            assert(t[t.len() - 1] == path@[i as int]);
            assert(t[t.len() - 2] == path@[i - 1]);
        }
        if path[i] != path[i - 1] {
            new_path.push(path[i]);
        }
        i += 1;
    }
    proof {
        assert(path@.take(path@.len() as int) =~= path@);
    }
    new_path
}

} // verus!
