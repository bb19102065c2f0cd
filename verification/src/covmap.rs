//! Sparse per-position coverage map.
//!
//! A [`CovMap`] records, for one chromosome (or one chunk of it), the depth
//! of every covered position.  Positions with no overlapping record are
//! absent; every stored depth is at least one.  Entries are kept sorted by
//! position, so a well-formed map is the unique canonical representation of
//! its depth function, and serialization order is deterministic.

use vstd::prelude::*;

verus! {

/// Addition of depth counts, saturating at the largest `u32` depth.
pub open spec fn sat_add_u32(a: nat, b: nat) -> nat {
    if a + b > u32::MAX {
        u32::MAX as nat
    } else {
        a + b
    }
}

/// Saturating addition folds into one saturating addition of the exact sum.
pub proof fn lemma_sat_add_fold(a: nat, b: nat, c: nat)
    ensures
        sat_add_u32(sat_add_u32(a, b), c) == sat_add_u32(a, b + c),
{
}

/// Saturating addition of depths is commutative.
pub proof fn lemma_sat_add_comm(a: nat, b: nat)
    ensures
        sat_add_u32(a, b) == sat_add_u32(b, a),
{
}

/// Saturating addition of depths is associative.
pub proof fn lemma_sat_add_assoc(a: nat, b: nat, c: nat)
    ensures
        sat_add_u32(sat_add_u32(a, b), c) == sat_add_u32(a, sat_add_u32(b, c)),
{
}

/// Sum of all recorded depth counts.
pub open spec fn spec_total_depth(entries: Seq<(u32, u32)>) -> nat
    decreases entries.len(),
{
    if entries.len() == 0 {
        0
    } else {
        spec_total_depth(entries.drop_last()) + entries.last().1 as nat
    }
}

/// Depth recorded for position `p` by a sequence of `(position, count)`
/// entries: the sum of the counts of the entries at that position.
pub open spec fn seq_depth(entries: Seq<(u32, u32)>, p: u32) -> nat
    decreases entries.len(),
{
    if entries.len() == 0 {
        0
    } else {
        seq_depth(entries.drop_last(), p) + (if entries.last().0 == p {
            entries.last().1 as nat
        } else {
            0nat
        })
    }
}

/// Entries are strictly sorted by position and every depth is positive.
pub open spec fn wf_entries(entries: Seq<(u32, u32)>) -> bool {
    &&& forall|i: int, j: int|
        0 <= i < j < entries.len() ==> (#[trigger] entries[i]).0 < (#[trigger] entries[j]).0
    &&& forall|i: int| 0 <= i < entries.len() ==> (#[trigger] entries[i]).1 >= 1
}

pub proof fn lemma_seq_depth_concat(a: Seq<(u32, u32)>, b: Seq<(u32, u32)>, p: u32)
    ensures
        seq_depth(a + b, p) == seq_depth(a, p) + seq_depth(b, p),
    decreases b.len(),
{
    if b.len() == 0 {
        assert(a + b =~= a);
    } else {
        lemma_seq_depth_concat(a, b.drop_last(), p);
        assert((a + b).drop_last() =~= a + b.drop_last());
        assert((a + b).last() == b.last());
    }
}

pub proof fn lemma_seq_depth_absent(entries: Seq<(u32, u32)>, p: u32)
    requires
        forall|i: int| 0 <= i < entries.len() ==> (#[trigger] entries[i]).0 != p,
    ensures
        seq_depth(entries, p) == 0,
    decreases entries.len(),
{
    if entries.len() > 0 {
        lemma_seq_depth_absent(entries.drop_last(), p);
    }
}

/// When `p` occurs at exactly one index, the depth is that entry's count.
pub proof fn lemma_seq_depth_single(entries: Seq<(u32, u32)>, p: u32, i: int)
    requires
        0 <= i < entries.len(),
        entries[i].0 == p,
        forall|j: int| 0 <= j < entries.len() && j != i ==> (#[trigger] entries[j]).0 != p,
    ensures
        seq_depth(entries, p) == entries[i].1,
    decreases entries.len(),
{
    if i == entries.len() - 1 {
        lemma_seq_depth_absent(entries.drop_last(), p);
    } else {
        lemma_seq_depth_single(entries.drop_last(), p, i);
    }
}

/// Depth splits around any index: the entries before it, the entry itself,
/// and the entries after it contribute independently.
pub proof fn lemma_seq_depth_decompose(entries: Seq<(u32, u32)>, i: int, q: u32)
    requires
        0 <= i < entries.len(),
    ensures
        seq_depth(entries, q) == seq_depth(entries.subrange(0, i), q) + (if entries[i].0 == q {
            entries[i].1 as nat
        } else {
            0nat
        }) + seq_depth(entries.subrange(i + 1, entries.len() as int), q),
{
    let pre = entries.subrange(0, i);
    let mid = seq![entries[i]];
    let post = entries.subrange(i + 1, entries.len() as int);
    assert(entries =~= pre + mid + post);
    lemma_seq_depth_concat(pre + mid, post, q);
    lemma_seq_depth_concat(pre, mid, q);
    assert(seq_depth(mid, q) == (if entries[i].0 == q {
        entries[i].1 as nat
    } else {
        0nat
    })) by {
        assert(mid.last() == entries[i]);
        assert(mid.drop_last() =~= Seq::<(u32, u32)>::empty());
        assert(seq_depth(Seq::<(u32, u32)>::empty(), q) == 0);
    }
}

/// In a well-formed entry sequence no depth exceeds `u32::MAX`.
pub proof fn lemma_wf_depth_bounded(entries: Seq<(u32, u32)>, p: u32)
    requires
        wf_entries(entries),
    ensures
        seq_depth(entries, p) <= u32::MAX,
{
    if exists|i: int| 0 <= i < entries.len() && (#[trigger] entries[i]).0 == p {
        let i = choose|i: int| 0 <= i < entries.len() && (#[trigger] entries[i]).0 == p;
        lemma_seq_depth_single(entries, p, i);
    } else {
        lemma_seq_depth_absent(entries, p);
    }
}

/// Effect on every depth of bumping the entry at index `i` (which already
/// holds position `p`) by `d`, saturating.
proof fn lemma_add_at_update(es: Seq<(u32, u32)>, ns: Seq<(u32, u32)>, i: int, p: u32, d: u32, newv: u32)
    requires
        wf_entries(es),
        0 <= i < es.len(),
        es[i].0 == p,
        d >= 1,
        newv == (if es[i].1 > u32::MAX - d {
            u32::MAX
        } else {
            (es[i].1 + d) as u32
        }),
        ns == es.update(i, (p, newv)),
    ensures
        wf_entries(ns),
        forall|q: u32|
            #[trigger] seq_depth(ns, q) == (if q == p {
                sat_add_u32(seq_depth(es, q), d as nat)
            } else {
                seq_depth(es, q)
            }),
{
    assert(wf_entries(ns)) by {
        assert forall|a: int, b: int| 0 <= a < b < ns.len() implies (#[trigger] ns[a]).0 < (
        #[trigger] ns[b]).0 by {
            assert(es[a].0 < es[b].0);
        }
        assert forall|a: int| 0 <= a < ns.len() implies (#[trigger] ns[a]).1 >= 1 by {
            assert(es[a].1 >= 1);
        }
    }
    let pre = es.subrange(0, i);
    let post = es.subrange(i + 1, es.len() as int);
    assert forall|j: int| 0 <= j < pre.len() implies (#[trigger] pre[j]).0 != p by {
        assert(pre[j] == es[j]);
        assert(es[j].0 < es[i].0);
    }
    assert forall|j: int| 0 <= j < post.len() implies (#[trigger] post[j]).0 != p by {
        assert(post[j] == es[j + i + 1]);
        assert(es[i].0 < es[j + i + 1].0);
    }
    lemma_seq_depth_absent(pre, p);
    lemma_seq_depth_absent(post, p);
    assert forall|q: u32| #[trigger] seq_depth(ns, q) == (if q == p {
        sat_add_u32(seq_depth(es, q), d as nat)
    } else {
        seq_depth(es, q)
    }) by {
        lemma_seq_depth_decompose(es, i, q);
        lemma_seq_depth_decompose(ns, i, q);
        assert(ns.subrange(0, i) =~= pre);
        assert(ns.subrange(i + 1, ns.len() as int) =~= post);
    }
}

/// Effect on every depth of inserting a fresh entry `(p, d)` at index `i`,
/// where the entries before `i` sit at lower positions and those after at
/// higher ones.
proof fn lemma_add_at_insert(es: Seq<(u32, u32)>, ns: Seq<(u32, u32)>, i: int, p: u32, d: u32)
    requires
        wf_entries(es),
        0 <= i <= es.len(),
        forall|j: int| 0 <= j < i ==> (#[trigger] es[j]).0 < p,
        i < es.len() ==> es[i].0 > p,
        d >= 1,
        ns == es.insert(i, (p, d)),
    ensures
        wf_entries(ns),
        forall|q: u32|
            #[trigger] seq_depth(ns, q) == (if q == p {
                sat_add_u32(seq_depth(es, q), d as nat)
            } else {
                seq_depth(es, q)
            }),
{
    assert(wf_entries(ns)) by {
        assert forall|a: int, b: int| 0 <= a < b < ns.len() implies (#[trigger] ns[a]).0 < (
        #[trigger] ns[b]).0 by {
            if a < i && b < i {
                assert(ns[a] == es[a] && ns[b] == es[b]);
            } else if a < i && b == i {
                assert(ns[a] == es[a]);
            } else if a < i && b > i {
                assert(ns[a] == es[a] && ns[b] == es[b - 1]);
                if b - 1 > i {
                    assert(es[i].0 < es[b - 1].0);
                } else {
                    assert(es[a].0 < p);
                    assert(p < es[i].0);
                }
            } else if a == i {
                assert(ns[b] == es[b - 1]);
                if b - 1 > i {
                    assert(es[i].0 < es[b - 1].0);
                }
            } else {
                assert(ns[a] == es[a - 1] && ns[b] == es[b - 1]);
                assert(es[a - 1].0 < es[b - 1].0);
            }
        }
        assert forall|a: int| 0 <= a < ns.len() implies (#[trigger] ns[a]).1 >= 1 by {
            if a < i {
                assert(ns[a] == es[a]);
            } else if a > i {
                assert(ns[a] == es[a - 1]);
            }
        }
    }
    let pre = es.subrange(0, i);
    let post = es.subrange(i, es.len() as int);
    assert(es =~= pre + post);
    assert forall|j: int| 0 <= j < pre.len() implies (#[trigger] pre[j]).0 != p by {
        assert(pre[j] == es[j]);
    }
    assert forall|j: int| 0 <= j < post.len() implies (#[trigger] post[j]).0 != p by {
        assert(post[j] == es[j + i]);
        if j > 0 {
            assert(es[i].0 < es[j + i].0);
        }
    }
    lemma_seq_depth_absent(pre, p);
    lemma_seq_depth_absent(post, p);
    assert forall|q: u32| #[trigger] seq_depth(ns, q) == (if q == p {
        sat_add_u32(seq_depth(es, q), d as nat)
    } else {
        seq_depth(es, q)
    }) by {
        lemma_seq_depth_concat(pre, post, q);
        lemma_seq_depth_decompose(ns, i, q);
        assert(ns.subrange(0, i) =~= pre);
        assert(ns.subrange(i + 1, ns.len() as int) =~= post);
        assert(ns[i] == (p, d));
    }
}

/// Two well-formed entry sequences with the same depth at every position are
/// the same sequence: a well-formed map is canonical.
pub proof fn lemma_wf_entries_canonical(a: Seq<(u32, u32)>, b: Seq<(u32, u32)>)
    requires
        wf_entries(a),
        wf_entries(b),
        forall|p: u32| seq_depth(a, p) == seq_depth(b, p),
    ensures
        a =~= b,
    decreases a.len(),
{
    if a.len() == 0 && b.len() == 0 {
    } else if a.len() == 0 {
        lemma_seq_depth_single(b, b[0].0, 0);
        lemma_seq_depth_absent(a, b[0].0);
    } else if b.len() == 0 {
        lemma_seq_depth_single(a, a[0].0, 0);
        lemma_seq_depth_absent(b, a[0].0);
    } else {
        let ka = a[0].0;
        let kb = b[0].0;
        lemma_seq_depth_single(a, ka, 0);
        lemma_seq_depth_single(b, kb, 0);
        if ka < kb {
            assert forall|j: int| 0 <= j < b.len() implies (#[trigger] b[j]).0 != ka by {
                if j > 0 {
                    assert(b[0].0 < b[j].0);
                }
            }
            lemma_seq_depth_absent(b, ka);
            assert(false);
        } else if kb < ka {
            assert forall|j: int| 0 <= j < a.len() implies (#[trigger] a[j]).0 != kb by {
                if j > 0 {
                    assert(a[0].0 < a[j].0);
                }
            }
            lemma_seq_depth_absent(a, kb);
            assert(false);
        }
        assert(a[0].1 == seq_depth(a, ka) && b[0].1 == seq_depth(b, ka));
        assert(a[0] == b[0]);
        let ta = a.drop_first();
        let tb = b.drop_first();
        assert forall|p: u32| seq_depth(ta, p) == seq_depth(tb, p) by {
            lemma_seq_depth_decompose(a, 0, p);
            lemma_seq_depth_decompose(b, 0, p);
            assert(a.subrange(0, 0) =~= Seq::<(u32, u32)>::empty());
            assert(b.subrange(0, 0) =~= Seq::<(u32, u32)>::empty());
            assert(a.subrange(1, a.len() as int) =~= ta);
            assert(b.subrange(1, b.len() as int) =~= tb);
            if p == ka {
                assert forall|j: int| 0 <= j < ta.len() implies (#[trigger] ta[j]).0 != p by {
                    assert(a[0].0 < a[j + 1].0);
                }
                assert forall|j: int| 0 <= j < tb.len() implies (#[trigger] tb[j]).0 != p by {
                    assert(b[0].0 < b[j + 1].0);
                }
                lemma_seq_depth_absent(ta, p);
                lemma_seq_depth_absent(tb, p);
            }
        }
        assert(wf_entries(ta)) by {
            assert forall|i: int, j: int| 0 <= i < j < ta.len() implies (#[trigger] ta[i]).0 < (
            #[trigger] ta[j]).0 by {
                assert(a[i + 1].0 < a[j + 1].0);
            }
            assert forall|i: int| 0 <= i < ta.len() implies (#[trigger] ta[i]).1 >= 1 by {
                assert(a[i + 1].1 >= 1);
            }
        }
        assert(wf_entries(tb)) by {
            assert forall|i: int, j: int| 0 <= i < j < tb.len() implies (#[trigger] tb[i]).0 < (
            #[trigger] tb[j]).0 by {
                assert(b[i + 1].0 < b[j + 1].0);
            }
            assert forall|i: int| 0 <= i < tb.len() implies (#[trigger] tb[i]).1 >= 1 by {
                assert(b[i + 1].1 >= 1);
            }
        }
        lemma_wf_entries_canonical(ta, tb);
        assert forall|k: int| 0 <= k < a.len() implies a[k] == b[k] by {
            if k > 0 {
                assert(ta[k - 1] == tb[k - 1]);
            }
        }
        assert(a =~= b);
    }
}

/// A well-formed coverage map is determined by its depth function: two maps
/// that record the same depth everywhere hold the same entries.  In
/// particular, processing the same chunk against an unchanged store twice
/// yields the same map both times.
pub proof fn lemma_covmap_canonical(a: CovMap, b: CovMap)
    requires
        a.wf(),
        b.wf(),
        forall|p: u32| a.depth(p) == b.depth(p),
    ensures
        a@ == b@,
{
    assert forall|p: u32| seq_depth(a@, p) == seq_depth(b@, p) by {
        assert(a.depth(p) == b.depth(p));
    }
    lemma_wf_entries_canonical(a@, b@);
}

/// Merging is commutative: folding two partial maps into a result in either
/// order gives the same coverage map.
pub proof fn lemma_merge_commutative(a: CovMap, b: CovMap, ab: CovMap, ba: CovMap)
    requires
        a.wf(),
        b.wf(),
        ab.wf(),
        ba.wf(),
        forall|p: u32| #[trigger] ab.depth(p) == sat_add_u32(a.depth(p), b.depth(p)),
        forall|p: u32| #[trigger] ba.depth(p) == sat_add_u32(b.depth(p), a.depth(p)),
    ensures
        ab@ == ba@,
{
    assert forall|p: u32| ab.depth(p) == ba.depth(p) by {
        lemma_sat_add_comm(a.depth(p), b.depth(p));
    }
    lemma_covmap_canonical(ab, ba);
}

/// Merging is associative: merging `a` with `b` and then `c` gives the same
/// coverage map as merging `a` with the merge of `b` and `c`.
pub proof fn lemma_merge_associative(
    a: CovMap,
    b: CovMap,
    c: CovMap,
    ab: CovMap,
    bc: CovMap,
    ab_c: CovMap,
    a_bc: CovMap,
)
    requires
        a.wf(),
        b.wf(),
        c.wf(),
        ab.wf(),
        bc.wf(),
        ab_c.wf(),
        a_bc.wf(),
        forall|p: u32| #[trigger] ab.depth(p) == sat_add_u32(a.depth(p), b.depth(p)),
        forall|p: u32| #[trigger] bc.depth(p) == sat_add_u32(b.depth(p), c.depth(p)),
        forall|p: u32| #[trigger] ab_c.depth(p) == sat_add_u32(ab.depth(p), c.depth(p)),
        forall|p: u32| #[trigger] a_bc.depth(p) == sat_add_u32(a.depth(p), bc.depth(p)),
    ensures
        ab_c@ == a_bc@,
{
    assert forall|p: u32| ab_c.depth(p) == a_bc.depth(p) by {
        lemma_sat_add_assoc(a.depth(p), b.depth(p), c.depth(p));
    }
    lemma_covmap_canonical(ab_c, a_bc);
}

/// A failed chunk contributes an empty partial map, and merging an empty
/// partial map changes nothing: the final result reflects only the chunks
/// that produced coverage.
pub proof fn lemma_empty_partial_neutral(before: CovMap, empty: CovMap, after: CovMap)
    requires
        before.wf(),
        empty.wf(),
        after.wf(),
        forall|p: u32| empty.depth(p) == 0,
        forall|p: u32| #[trigger] after.depth(p) == sat_add_u32(before.depth(p), empty.depth(p)),
    ensures
        after@ == before@,
{
    assert forall|p: u32| after.depth(p) == before.depth(p) by {
        lemma_wf_depth_bounded(before@, p);
        assert(empty.depth(p) == 0);
    }
    lemma_covmap_canonical(after, before);
}

/// Coverage map for one chromosome or one chunk: every covered position with
/// its depth, sorted by position.
pub struct CovMap {
    entries: Vec<(u32, u32)>,
}

impl View for CovMap {
    type V = Seq<(u32, u32)>;

    closed spec fn view(&self) -> Seq<(u32, u32)> {
        self.entries@
    }
}

impl CovMap {
    /// Entries sorted strictly by position, all depths positive.
    pub open spec fn wf(self) -> bool {
        wf_entries(self@)
    }

    /// Depth recorded for position `p`; zero when `p` is absent.
    pub open spec fn depth(self, p: u32) -> nat {
        seq_depth(self@, p)
    }

    /// The empty map: depth zero everywhere.
    pub fn new() -> (cov: CovMap)
        ensures
            cov.wf(),
            cov@ == Seq::<(u32, u32)>::empty(),
            forall|p: u32| cov.depth(p) == 0,
    {
        let cov = CovMap { entries: Vec::new() };
        cov
    }

    /// Number of covered positions.
    pub fn len(&self) -> (n: usize)
        ensures
            n == self@.len(),
    {
        self.entries.len()
    }

    /// The entries, sorted by position.
    pub fn entries(&self) -> (entries: &Vec<(u32, u32)>)
        ensures
            entries@ == self@,
    {
        &self.entries
    }

    /// Current depth of position `p` (zero when uncovered).
    pub fn get(&self, p: u32) -> (d: u32)
        requires
            self.wf(),
        ensures
            d as nat == self.depth(p),
    {
        let ghost es = self@;
        let mut i: usize = 0;
        while i < self.entries.len()
            invariant
                self@ == es,
                wf_entries(es),
                i <= es.len(),
                forall|j: int| 0 <= j < i ==> (#[trigger] es[j]).0 != p,
            decreases es.len() - i,
        {
            if self.entries[i].0 == p {
                proof {
                    assert forall|j: int| 0 <= j < es.len() && j != i implies (#[trigger] es[j]).0
                        != p by {
                        if j < i {
                        } else {
                            assert(es[i as int].0 < es[j].0);
                        }
                    }
                    lemma_seq_depth_single(es, p, i as int);
                }
                return self.entries[i].1;
            }
            i = i + 1;
        }
        proof {
            lemma_seq_depth_absent(es, p);
        }
        0
    }

    /// Add `d` to the depth of position `p`, saturating at `u32::MAX`;
    /// every other position keeps its depth.
    pub fn add_at(&mut self, p: u32, d: u32)
        requires
            old(self).wf(),
            d >= 1,
        ensures
            final(self).wf(),
            forall|q: u32|
                #[trigger] final(self).depth(q) == (if q == p {
                    sat_add_u32(old(self).depth(q), d as nat)
                } else {
                    old(self).depth(q)
                }),
    {
        let ghost es = self@;
        let mut i: usize = 0;
        while i < self.entries.len() && self.entries[i].0 < p
            invariant
                self@ == es,
                wf_entries(es),
                i <= es.len(),
                forall|j: int| 0 <= j < i ==> (#[trigger] es[j]).0 < p,
            decreases es.len() - i,
        {
            i = i + 1;
        }
        if i < self.entries.len() && self.entries[i].0 == p {
            let cur = self.entries[i].1;
            let newv = if cur > u32::MAX - d {
                u32::MAX
            } else {
                cur + d
            };
            self.entries[i] = (p, newv);
            proof {
                lemma_add_at_update(es, self@, i as int, p, d, newv);
            }
        } else {
            self.entries.insert(i, (p, d));
            proof {
                lemma_add_at_insert(es, self@, i as int, p, d);
            }
        }
    }

    /// Merge another partial map into this one: the depth of every position
    /// becomes the saturating sum of the two recorded depths.
    pub fn absorb(&mut self, other: &CovMap)
        requires
            old(self).wf(),
            other.wf(),
        ensures
            final(self).wf(),
            forall|q: u32|
                #[trigger] final(self).depth(q) == sat_add_u32(
                    old(self).depth(q),
                    other.depth(q),
                ),
    {
        let ghost base = self@;
        let ghost os = other@;
        proof {
            assert forall|q: u32| #[trigger] seq_depth(self@, q) == sat_add_u32(
                seq_depth(base, q),
                seq_depth(os.subrange(0, 0), q),
            ) by {
                assert(os.subrange(0, 0) =~= Seq::<(u32, u32)>::empty());
                lemma_wf_depth_bounded(base, q);
            }
        }
        let mut i: usize = 0;
        while i < other.entries.len()
            invariant
                self.wf(),
                wf_entries(base),
                wf_entries(os),
                other@ == os,
                i <= os.len(),
                forall|q: u32|
                    #[trigger] seq_depth(self@, q) == sat_add_u32(
                        seq_depth(base, q),
                        seq_depth(os.subrange(0, i as int), q),
                    ),
            decreases os.len() - i,
        {
            let (p, d) = other.entries[i];
            let ghost prev = *self;
            self.add_at(p, d);
            proof {
                let pref = os.subrange(0, i as int);
                let pref1 = os.subrange(0, i + 1);
                assert(pref1.drop_last() =~= pref);
                assert(pref1.last() == os[i as int]);
                assert forall|q: u32| #[trigger] seq_depth(self@, q) == sat_add_u32(
                    seq_depth(base, q),
                    seq_depth(pref1, q),
                ) by {
                    assert(seq_depth(pref1, q) == seq_depth(pref, q) + (if q == p {
                        d as nat
                    } else {
                        0nat
                    }));
                    assert(self.depth(q) == (if q == p {
                        sat_add_u32(prev.depth(q), d as nat)
                    } else {
                        prev.depth(q)
                    }));
                    lemma_sat_add_fold(seq_depth(base, q), seq_depth(pref, q), d as nat);
                }
            }
            i = i + 1;
        }
        proof {
            assert(os.subrange(0, os.len() as int) =~= os);
        }
    }

    /// Sum of the depths of every covered position, paired with the number of
    /// covered positions: numerator and denominator of the mean depth over
    /// covered bases.
    pub fn totals(&self) -> (r: (u64, u64))
        requires
            self.wf(),
            self@.len() <= u32::MAX,
        ensures
            r.0 == spec_total_depth(self@),
            r.1 == self@.len(),
    {
        let ghost es = self@;
        let mut sum: u64 = 0;
        let mut i: usize = 0;
        while i < self.entries.len()
            invariant
                self@ == es,
                es.len() <= u32::MAX,
                i <= es.len(),
                sum == spec_total_depth(es.subrange(0, i as int)),
                sum <= (i as nat) * (u32::MAX as nat),
            decreases es.len() - i,
        {
            let (_, d) = self.entries[i];
            proof {
                let pref = es.subrange(0, i as int);
                let pref1 = es.subrange(0, i + 1);
                assert(pref1.drop_last() =~= pref);
                assert(pref1.last() == es[i as int]);
                assert((i as nat) * (u32::MAX as nat) + (u32::MAX as nat) == ((i + 1) as nat) * (
                u32::MAX as nat)) by (nonlinear_arith);
            }
            sum = sum + d as u64;
            i = i + 1;
        }
        proof {
            assert(es.subrange(0, es.len() as int) =~= es);
        }
        (sum, self.entries.len() as u64)
    }
}

} // verus!
