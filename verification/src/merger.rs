//! The result merger: folds per-chunk partial coverage maps into one
//! coverage map per chromosome and derives the numbers the per-chromosome
//! and global means are computed from.
//!
//! Partial maps may arrive in any order; the merged depth of a position is
//! the saturating sum of the depths every partial map reports for it, which
//! no ordering can change.

use vstd::prelude::*;

use crate::covmap::CovMap;
use crate::covmap::lemma_sat_add_assoc;
use crate::covmap::lemma_sat_add_comm;
use crate::covmap::lemma_wf_depth_bounded;
use crate::covmap::sat_add_u32;
use crate::covmap::spec_total_depth;

verus! {

/// Depth that a list of `(chromosome index, partial map)` results assigns
/// to position `p` of chromosome `chrom`: the saturating sum of the depths
/// reported by the partial maps of that chromosome, folded in list order.
pub open spec fn parts_depth(parts: Seq<(usize, CovMap)>, chrom: int, p: u32) -> nat
    decreases parts.len(),
{
    if parts.len() == 0 {
        0
    } else {
        sat_add_u32(
            parts_depth(parts.drop_last(), chrom, p),
            if parts.last().0 == chrom {
                parts.last().1.depth(p)
            } else {
                0nat
            },
        )
    }
}

/// Partial results accumulate blockwise: two batches of partial maps
/// contribute the saturating sum of their folds.
pub proof fn lemma_parts_depth_concat(
    a: Seq<(usize, CovMap)>,
    b: Seq<(usize, CovMap)>,
    chrom: int,
    p: u32,
)
    ensures
        parts_depth(a + b, chrom, p) == sat_add_u32(
            parts_depth(a, chrom, p),
            parts_depth(b, chrom, p),
        ),
    decreases b.len(),
{
    if b.len() == 0 {
        assert(a + b =~= a);
        lemma_parts_depth_bounded(a, chrom, p);
    } else {
        lemma_parts_depth_concat(a, b.drop_last(), chrom, p);
        assert((a + b).drop_last() =~= a + b.drop_last());
        assert((a + b).last() == b.last());
        lemma_sat_add_assoc(
            parts_depth(a, chrom, p),
            parts_depth(b.drop_last(), chrom, p),
            if b.last().0 == chrom {
                b.last().1.depth(p)
            } else {
                0nat
            },
        );
    }
}

/// Folded depths never exceed the saturation bound.
pub proof fn lemma_parts_depth_bounded(parts: Seq<(usize, CovMap)>, chrom: int, p: u32)
    ensures
        parts_depth(parts, chrom, p) <= u32::MAX,
    decreases parts.len(),
{
}

/// The merge does not care in which order two batches of partial results
/// arrive: chunks may complete in any order.
pub proof fn lemma_parts_depth_order_irrelevant(
    a: Seq<(usize, CovMap)>,
    b: Seq<(usize, CovMap)>,
    chrom: int,
    p: u32,
)
    ensures
        parts_depth(a + b, chrom, p) == parts_depth(b + a, chrom, p),
{
    lemma_parts_depth_concat(a, b, chrom, p);
    lemma_parts_depth_concat(b, a, chrom, p);
    lemma_sat_add_comm(parts_depth(a, chrom, p), parts_depth(b, chrom, p));
}

/// Capping the second summand first changes nothing.
proof fn lemma_sat_add_clip(a: nat, b: nat)
    ensures
        sat_add_u32(a, sat_add_u32(0, b)) == sat_add_u32(a, b),
{
}

/// Removing one partial result splits its contribution off the fold,
/// wherever in the list it stands.
pub proof fn lemma_parts_depth_remove(parts: Seq<(usize, CovMap)>, i: int, chrom: int, p: u32)
    requires
        0 <= i < parts.len(),
    ensures
        parts_depth(parts, chrom, p) == sat_add_u32(
            parts_depth(parts.remove(i), chrom, p),
            if parts[i].0 == chrom {
                parts[i].1.depth(p)
            } else {
                0nat
            },
        ),
{
    let pre = parts.subrange(0, i);
    let mid = seq![parts[i]];
    let post = parts.subrange(i + 1, parts.len() as int);
    let c = if parts[i].0 == chrom {
        parts[i].1.depth(p)
    } else {
        0nat
    };
    assert(parts =~= pre + mid + post);
    assert(parts.remove(i) =~= pre + post);
    lemma_parts_depth_concat(pre + mid, post, chrom, p);
    lemma_parts_depth_concat(pre, mid, chrom, p);
    lemma_parts_depth_concat(pre, post, chrom, p);
    assert(parts_depth(mid, chrom, p) == sat_add_u32(0, c)) by {
        assert(mid.drop_last() =~= Seq::<(usize, CovMap)>::empty());
        assert(parts_depth(Seq::<(usize, CovMap)>::empty(), chrom, p) == 0);
        assert(mid.last() == parts[i]);
    }
    lemma_sat_add_clip(parts_depth(pre, chrom, p), c);
    lemma_sat_add_assoc(parts_depth(pre, chrom, p), c, parts_depth(post, chrom, p));
    lemma_sat_add_comm(c, parts_depth(post, chrom, p));
    lemma_sat_add_assoc(parts_depth(pre, chrom, p), parts_depth(post, chrom, p), c);
}

/// The fold over the partial results does not depend on their order: any
/// two arrangements of the same partial maps record the same depth
/// everywhere, so chunks may be merged in whatever order they complete.
pub proof fn lemma_parts_depth_permutation(
    s: Seq<(usize, CovMap)>,
    t: Seq<(usize, CovMap)>,
    chrom: int,
    p: u32,
)
    requires
        s.to_multiset() == t.to_multiset(),
    ensures
        parts_depth(s, chrom, p) == parts_depth(t, chrom, p),
    decreases t.len(),
{
    broadcast use vstd::seq_lib::group_to_multiset_ensures;

    if t.len() == 0 {
        assert(s.len() == s.to_multiset().len());
    } else {
        let e = t.last();
        assert(t.contains(e));
        assert(s.to_multiset().count(e) > 0);
        assert(s.contains(e));
        let i = choose|i: int| 0 <= i < s.len() && s[i] == e;
        lemma_parts_depth_remove(s, i, chrom, p);
        lemma_parts_depth_remove(t, t.len() - 1, chrom, p);
        assert(t.remove(t.len() - 1) =~= t.drop_last());
        assert(s.remove(i).to_multiset() =~= t.drop_last().to_multiset()) by {
            assert(s.remove(i).to_multiset() =~= s.to_multiset().remove(e));
            assert(t.remove(t.len() - 1).to_multiset() =~= t.to_multiset().remove(e));
        }
        lemma_parts_depth_permutation(s.remove(i), t.drop_last(), chrom, p);
    }
}

/// Fold every partial result into one coverage map per chromosome.  The
/// depth of each position of each chromosome is the saturating sum of what
/// the chromosome's partial maps report.
pub fn merge_partials(n_chroms: usize, parts: &Vec<(usize, CovMap)>) -> (merged: Vec<CovMap>)
    requires
        forall|k: int|
            0 <= k < parts@.len() ==> (#[trigger] parts@[k]).0 < n_chroms && parts@[k].1.wf(),
    ensures
        merged@.len() == n_chroms,
        forall|c: int| 0 <= c < n_chroms ==> (#[trigger] merged@[c]).wf(),
        forall|c: int, p: u32|
            0 <= c < n_chroms ==> #[trigger] merged@[c].depth(p) == parts_depth(parts@, c, p),
{
    let ghost ps = parts@;
    let mut merged: Vec<CovMap> = Vec::new();
    while merged.len() < n_chroms
        invariant
            merged@.len() <= n_chroms,
            forall|c: int| 0 <= c < merged@.len() ==> (#[trigger] merged@[c]).wf(),
            forall|c: int, p: u32|
                0 <= c < merged@.len() ==> #[trigger] merged@[c].depth(p) == 0,
        decreases n_chroms - merged.len(),
    {
        merged.push(CovMap::new());
    }
    proof {
        assert(ps.subrange(0, 0) =~= Seq::<(usize, CovMap)>::empty());
    }
    let mut k: usize = 0;
    while k < parts.len()
        invariant
            parts@ == ps,
            forall|j: int|
                0 <= j < ps.len() ==> (#[trigger] ps[j]).0 < n_chroms && ps[j].1.wf(),
            k <= ps.len(),
            merged@.len() == n_chroms,
            forall|c: int| 0 <= c < n_chroms ==> (#[trigger] merged@[c]).wf(),
            forall|c: int, p: u32|
                0 <= c < n_chroms ==> #[trigger] merged@[c].depth(p) == parts_depth(
                    ps.subrange(0, k as int),
                    c,
                    p,
                ),
        decreases ps.len() - k,
    {
        let ghost before = merged@;
        let part = &parts[k];
        let idx = part.0;
        let mut m = merged.remove(idx);
        m.absorb(&part.1);
        merged.insert(idx, m);
        proof {
            assert(merged@ =~= before.update(idx as int, merged@[idx as int]));
            let pref = ps.subrange(0, k as int);
            let pref1 = ps.subrange(0, k + 1);
            assert(pref1.drop_last() =~= pref);
            assert(pref1.last() == ps[k as int]);
            assert forall|c: int, p: u32| 0 <= c < n_chroms implies #[trigger] merged@[c].depth(p)
                == parts_depth(pref1, c, p) by {
                if c == idx {
                    assert(merged@[c].depth(p) == sat_add_u32(
                        before[c].depth(p),
                        part.1.depth(p),
                    ));
                } else {
                    assert(merged@[c] == before[c]);
                    lemma_wf_depth_bounded(before[c]@, p);
                }
            }
        }
        k = k + 1;
    }
    proof {
        assert(ps.subrange(0, ps.len() as int) =~= ps);
    }
    merged
}

/// For every chromosome, the sum of the depths over its covered positions
/// and the number of covered positions: the mean depth of covered bases is
/// their quotient, and the global mean is the plain average of the
/// per-chromosome means over chromosomes with at least one covered
/// position (not weighted by chromosome length).
pub fn coverage_summaries(merged: &Vec<CovMap>) -> (sums: Vec<(u64, u64)>)
    requires
        forall|c: int|
            0 <= c < merged@.len() ==> (#[trigger] merged@[c]).wf() && merged@[c]@.len()
                <= u32::MAX,
    ensures
        sums@.len() == merged@.len(),
        forall|c: int|
            0 <= c < merged@.len() ==> (#[trigger] sums@[c]).0 == spec_total_depth(merged@[c]@)
                && sums@[c].1 == merged@[c]@.len(),
{
    let ghost ms = merged@;
    let mut sums: Vec<(u64, u64)> = Vec::new();
    let mut c: usize = 0;
    while c < merged.len()
        invariant
            merged@ == ms,
            forall|j: int|
                0 <= j < ms.len() ==> (#[trigger] ms[j]).wf() && ms[j]@.len() <= u32::MAX,
            c <= ms.len(),
            sums@.len() == c,
            forall|j: int|
                0 <= j < c ==> (#[trigger] sums@[j]).0 == spec_total_depth(ms[j]@) && sums@[j].1
                    == ms[j]@.len(),
        decreases ms.len() - c,
    {
        let t = merged[c].totals();
        sums.push(t);
        c = c + 1;
    }
    sums
}

} // verus!
