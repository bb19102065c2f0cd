//! Read-length metrics for the summary report: lengths sorted by size and
//! the N-style metrics computed from their running sums.

use vstd::multiset::Multiset;
use vstd::prelude::*;

verus! {

/// Non-increasing order.
pub open spec fn sorted_desc(s: Seq<u32>) -> bool {
    forall|i: int, j: int| 0 <= i < j < s.len() ==> s[i] >= s[j]
}

/// Sum of all lengths.
pub open spec fn spec_total_len(s: Seq<u32>) -> nat
    decreases s.len(),
{
    if s.len() == 0 {
        0
    } else {
        spec_total_len(s.drop_last()) + s.last() as nat
    }
}

/// The N-metric of lengths sorted in non-increasing order: the first
/// length at which the running sum reaches the threshold, or zero when the
/// whole sum stays below it.
pub open spec fn spec_n_metric(sorted: Seq<u32>, threshold: nat) -> u32
    decreases sorted.len(),
{
    if sorted.len() == 0 {
        0
    } else if sorted[0] as nat >= threshold {
        sorted[0]
    } else {
        spec_n_metric(sorted.skip(1), (threshold - sorted[0]) as nat)
    }
}

/// Sort lengths into non-increasing order; the result holds exactly the
/// same lengths.
pub fn sort_lengths_descending(lengths: &Vec<u32>) -> (sorted: Vec<u32>)
    ensures
        sorted_desc(sorted@),
        sorted@.to_multiset() == lengths@.to_multiset(),
        sorted@.len() == lengths@.len(),
{
    let mut rest: Vec<u32> = Vec::new();
    let mut i: usize = 0;
    while i < lengths.len()
        invariant
            i <= lengths@.len(),
            rest@ == lengths@.subrange(0, i as int),
        decreases lengths@.len() - i,
    {
        rest.push(lengths[i]);
        proof {
            assert(rest@ =~= lengths@.subrange(0, i + 1));
        }
        i = i + 1;
    }
    proof {
        assert(rest@ =~= lengths@);
    }
    let ghost all = lengths@.to_multiset();
    let mut sorted: Vec<u32> = Vec::new();
    proof {
        broadcast use vstd::seq_lib::group_to_multiset_ensures;

        assert(sorted@.to_multiset().add(rest@.to_multiset()) =~= all);
    }
    while rest.len() > 0
        invariant
            sorted@.to_multiset().add(rest@.to_multiset()) == all,
            sorted@.len() + rest@.len() == all.len(),
            sorted_desc(sorted@),
            forall|a: int, b: int|
                0 <= a < sorted@.len() && 0 <= b < rest@.len() ==> sorted@[a] >= rest@[b],
        decreases rest@.len(),
    {
        let mut m: usize = 0;
        let mut k: usize = 1;
        while k < rest.len()
            invariant
                m < k <= rest@.len() || (m == 0 && k <= rest@.len()),
                m < rest@.len(),
                rest@.len() > 0,
                forall|x: int| 0 <= x < k ==> rest@[x] <= rest@[m as int],
            decreases rest@.len() - k,
        {
            if rest[k] > rest[m] {
                m = k;
            }
            k = k + 1;
        }
        let ghost before_sorted = sorted@;
        let ghost before_rest = rest@;
        let v = rest.remove(m);
        sorted.push(v);
        proof {
            broadcast use vstd::seq_lib::group_to_multiset_ensures;

            assert(rest@.to_multiset() =~= before_rest.to_multiset().remove(v));
            assert(sorted@.to_multiset() =~= before_sorted.to_multiset().insert(v));
            assert(sorted@.to_multiset().add(rest@.to_multiset()) =~= all);
            assert forall|a: int, b: int|
                0 <= a < sorted@.len() && 0 <= b < rest@.len() implies sorted@[a] >= rest@[b] by {
                if a < before_sorted.len() {
                    assert(sorted@[a] == before_sorted[a]);
                }
                if b < m {
                    assert(rest@[b] == before_rest[b]);
                } else {
                    assert(rest@[b] == before_rest[b + 1]);
                }
            }
            assert forall|a: int, b: int|
                0 <= a < b < sorted@.len() implies sorted@[a] >= sorted@[b] by {
                if b < before_sorted.len() {
                    assert(sorted@[a] == before_sorted[a] && sorted@[b] == before_sorted[b]);
                } else {
                    assert(sorted@[b] == v);
                    assert(before_rest[m as int] == v);
                }
            }
        }
    }
    proof {
        broadcast use vstd::seq_lib::group_to_multiset_ensures;

        assert(rest@.to_multiset() =~= Multiset::<u32>::empty());
        assert(sorted@.to_multiset().add(Multiset::<u32>::empty()) =~= sorted@.to_multiset());
    }
    sorted
}

/// Total number of bases across all lengths.
pub fn total_length(lengths: &Vec<u32>) -> (total: u64)
    requires
        lengths@.len() <= u32::MAX,
    ensures
        total == spec_total_len(lengths@),
{
    let ghost ls = lengths@;
    let mut total: u64 = 0;
    let mut i: usize = 0;
    while i < lengths.len()
        invariant
            lengths@ == ls,
            ls.len() <= u32::MAX,
            i <= ls.len(),
            total == spec_total_len(ls.subrange(0, i as int)),
            total <= (i as nat) * (u32::MAX as nat),
        decreases ls.len() - i,
    {
        proof {
            let pref1 = ls.subrange(0, i + 1);
            assert(pref1.drop_last() =~= ls.subrange(0, i as int));
            assert(pref1.last() == ls[i as int]);
            assert((i as nat) * (u32::MAX as nat) + (u32::MAX as nat) == ((i + 1) as nat) * (
            u32::MAX as nat)) by (nonlinear_arith);
        }
        total = total + lengths[i] as u64;
        i = i + 1;
    }
    proof {
        assert(ls.subrange(0, ls.len() as int) =~= ls);
    }
    total
}

/// The first length, scanning the sorted lengths from the longest down, at
/// which the running sum reaches `threshold`; zero when it never does.
/// With the threshold at half the total this is the N50, at three quarters
/// the N75.
pub fn n_metric(sorted: &Vec<u32>, threshold: u64) -> (r: u32)
    requires
        sorted_desc(sorted@),
        sorted@.len() <= u32::MAX,
    ensures
        r == spec_n_metric(sorted@, threshold as nat),
{
    let ghost s = sorted@;
    let mut acc: u64 = 0;
    let mut i: usize = 0;
    proof {
        assert(s.skip(0) =~= s);
    }
    while i < sorted.len()
        invariant
            sorted@ == s,
            s.len() <= u32::MAX,
            i <= s.len(),
            acc <= threshold,
            acc <= (i as nat) * (u32::MAX as nat),
            spec_n_metric(s, threshold as nat) == spec_n_metric(
                s.skip(i as int),
                (threshold - acc) as nat,
            ),
        decreases s.len() - i,
    {
        let l = sorted[i];
        proof {
            assert(s.skip(i as int)[0] == s[i as int]);
            assert(s.skip(i as int).drop_first() =~= s.skip(i + 1));
            assert((i as nat) * (u32::MAX as nat) + (u32::MAX as nat) == ((i + 1) as nat) * (
            u32::MAX as nat)) by (nonlinear_arith);
        }
        if acc + l as u64 >= threshold {
            return l;
        }
        acc = acc + l as u64;
        i = i + 1;
    }
    proof {
        assert(s.skip(s.len() as int) =~= Seq::<u32>::empty());
    }
    0
}

} // verus!
