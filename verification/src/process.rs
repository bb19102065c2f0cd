//! The chunk processor: accumulates per-position depth for one genomic
//! window (or one list of windows) from plain alignment records.
//!
//! A worker owns the map it fills; nothing here touches state outside the
//! map under construction, so chunks can be processed in any order and
//! concurrently by the caller.

use vstd::prelude::*;

use crate::chunk::split_ranges;
use crate::chunk::split_regions;
use crate::covmap::CovMap;
use crate::covmap::lemma_covmap_canonical;
use crate::covmap::lemma_sat_add_assoc;
use crate::covmap::lemma_sat_add_fold;
use crate::covmap::lemma_wf_depth_bounded;
use crate::covmap::sat_add_u32;
use crate::record::AlignmentRecord;
use crate::record::covered_count;
use crate::record::lemma_covered_count_bounded;
use crate::record::record_covers;
use crate::record::record_usable;
use crate::record::reference_span_checked;
use crate::record::spec_reference_span;

verus! {

/// Depth contributed at position `p` by a set of records, restricted to the
/// half-open window `[start, end)`: the number of records covering `p` when
/// `p` lies in the window, and zero outside it.
pub open spec fn window_depth(
    records: Seq<AlignmentRecord>,
    start: u32,
    end: u32,
    p: u32,
) -> nat {
    if start <= p < end {
        covered_count(records, p)
    } else {
        0
    }
}

/// Depth at `p` after accumulating a list of windows in order over the same
/// records, depths added with saturation.  Windows that overlap each other
/// count their overlap once per window.
pub open spec fn regions_depth(
    records: Seq<AlignmentRecord>,
    regions: Seq<(u32, u32)>,
    p: u32,
) -> nat
    decreases regions.len(),
{
    if regions.len() == 0 {
        0
    } else {
        sat_add_u32(
            regions_depth(records, regions.drop_last(), p),
            window_depth(records, regions.last().0, regions.last().1, p),
        )
    }
}

/// Window lists accumulate blockwise: the depth of a concatenation is the
/// saturating sum of the depths of the two blocks, so partial results can
/// be grouped arbitrarily.
pub proof fn lemma_regions_depth_concat(
    records: Seq<AlignmentRecord>,
    a: Seq<(u32, u32)>,
    b: Seq<(u32, u32)>,
    p: u32,
)
    ensures
        regions_depth(records, a + b, p) == sat_add_u32(
            regions_depth(records, a, p),
            regions_depth(records, b, p),
        ),
    decreases b.len(),
{
    if b.len() == 0 {
        assert(a + b =~= a);
        lemma_regions_depth_bounded(records, a, p);
    } else {
        lemma_regions_depth_concat(records, a, b.drop_last(), p);
        assert((a + b).drop_last() =~= a + b.drop_last());
        assert((a + b).last() == b.last());
        lemma_sat_add_assoc(
            regions_depth(records, a, p),
            regions_depth(records, b.drop_last(), p),
            window_depth(records, b.last().0, b.last().1, p),
        );
    }
}

/// Accumulated depths never exceed the saturation bound.
pub proof fn lemma_regions_depth_bounded(
    records: Seq<AlignmentRecord>,
    regions: Seq<(u32, u32)>,
    p: u32,
)
    ensures
        regions_depth(records, regions, p) <= u32::MAX,
    decreases regions.len(),
{
}

/// Chunking loses nothing: accumulating the pieces that split one window
/// gives exactly the depth of the whole window, because every position of
/// the window lies in exactly one piece.  A merged chunked run therefore
/// equals the run of a single reference chunk covering the whole region.
pub proof fn lemma_split_window_depth(
    records: Seq<AlignmentRecord>,
    start: u32,
    end: u32,
    chunk_size: u32,
    p: u32,
)
    requires
        chunk_size >= 1,
        records.len() <= u32::MAX,
    ensures
        regions_depth(records, split_ranges(start, end, chunk_size), p) == window_depth(
            records,
            start,
            end,
            p,
        ),
    decreases end - start,
{
    if start >= end {
    } else {
        let mid: u32 = if start + chunk_size < end {
            (start + chunk_size) as u32
        } else {
            end
        };
        lemma_split_window_depth(records, mid, end, chunk_size, p);
        let first = seq![(start, mid)];
        let rest = split_ranges(mid, end, chunk_size);
        assert(split_ranges(start, end, chunk_size) == first + rest);
        lemma_regions_depth_concat(records, first, rest, p);
        assert(regions_depth(records, first, p) == window_depth(records, start, mid, p)) by {
            assert(first.drop_last() =~= Seq::<(u32, u32)>::empty());
            assert(regions_depth(records, first.drop_last(), p) == 0);
            assert(first.last() == (start, mid));
            assert(regions_depth(records, first, p) == sat_add_u32(
                0,
                window_depth(records, start, mid, p),
            ));
            lemma_covered_count_bounded(records, p);
            assert(window_depth(records, start, mid, p) <= u32::MAX);
        }
        lemma_covered_count_bounded(records, p);
    }
}

/// The streaming strategy (accumulate each region whole) and the
/// parallel-chunked strategy (split every region into chunks, process them
/// in plan order and merge) record the same depth at every position.
pub proof fn lemma_streaming_equals_chunked(
    records: Seq<AlignmentRecord>,
    regions: Seq<(u32, u32)>,
    chunk_size: u32,
    p: u32,
)
    requires
        chunk_size >= 1,
        records.len() <= u32::MAX,
    ensures
        regions_depth(records, split_regions(regions, chunk_size), p) == regions_depth(
            records,
            regions,
            p,
        ),
    decreases regions.len(),
{
    if regions.len() == 0 {
    } else {
        lemma_streaming_equals_chunked(records, regions.drop_last(), chunk_size, p);
        let done = split_regions(regions.drop_last(), chunk_size);
        let last = regions.last();
        let step = split_ranges(last.0, last.1, chunk_size);
        assert(split_regions(regions, chunk_size) == done + step);
        lemma_regions_depth_concat(records, done, step, p);
        lemma_split_window_depth(records, last.0, last.1, chunk_size, p);
    }
}

/// Processing the same chunk against unchanged records is deterministic:
/// any two coverage maps that both satisfy the processor's contract for the
/// same window and records hold identical entries.
pub proof fn lemma_processing_deterministic(
    a: CovMap,
    b: CovMap,
    records: Seq<AlignmentRecord>,
    start: u32,
    end: u32,
)
    requires
        a.wf(),
        b.wf(),
        forall|p: u32| #[trigger] a.depth(p) == window_depth(records, start, end, p),
        forall|p: u32| #[trigger] b.depth(p) == window_depth(records, start, end, p),
    ensures
        a@ == b@,
{
    lemma_covmap_canonical(a, b);
}

/// Extending the record prefix by one record adds that record's
/// contribution inside the window.
pub proof fn lemma_window_depth_step(
    records: Seq<AlignmentRecord>,
    i: int,
    start: u32,
    end: u32,
    p: u32,
)
    requires
        0 <= i < records.len(),
    ensures
        window_depth(records.subrange(0, i + 1), start, end, p) == window_depth(
            records.subrange(0, i),
            start,
            end,
            p,
        ) + (if start <= p < end && record_covers(records[i], p) {
            1nat
        } else {
            0nat
        }),
{
    let pref1 = records.subrange(0, i + 1);
    assert(pref1.drop_last() =~= records.subrange(0, i));
    assert(pref1.last() == records[i]);
}

/// Add one record's coverage, clipped to `[start, end)`, into a map: every
/// position the record covers inside the window gains one (saturating),
/// every other position keeps its depth.  Unmapped records, records without
/// a start position and records whose span overflows contribute nothing.
fn add_record_coverage(cov: &mut CovMap, rec: &AlignmentRecord, start: u32, end: u32)
    requires
        old(cov).wf(),
    ensures
        final(cov).wf(),
        forall|q: u32|
            #[trigger] final(cov).depth(q) == sat_add_u32(
                old(cov).depth(q),
                if start <= q < end && record_covers(*rec, q) {
                    1nat
                } else {
                    0nat
                },
            ),
{
    let ghost rec_g = *rec;
    if rec.unmapped {
        proof {
            lemma_unusable_record_adds_nothing(*cov, rec_g, start, end);
        }
        return ;
    }
    let astart = match rec.alignment_start {
        Some(s) => s,
        None => {
            proof {
                lemma_unusable_record_adds_nothing(*cov, rec_g, start, end);
            }
            return ;
        },
    };
    let span = match reference_span_checked(&rec.cigar) {
        Some(s) => s,
        None => {
            proof {
                lemma_unusable_record_adds_nothing(*cov, rec_g, start, end);
            }
            return ;
        },
    };
    let rec_end: u64 = astart as u64 + span as u64;
    let lo: u32 = if astart > start {
        astart
    } else {
        start
    };
    let hi: u32 = if rec_end < end as u64 {
        rec_end as u32
    } else {
        end
    };
    let ghost base = *cov;
    proof {
        assert forall|q: u32| #[trigger] cov.depth(q) == sat_add_u32(base.depth(q), 0nat) by {
            lemma_wf_depth_bounded(base@, q);
        }
    }
    let mut p = lo;
    while p < hi
        invariant
            cov.wf(),
            base.wf(),
            lo <= p,
            lo < hi ==> p <= hi,
            lo >= hi ==> p == lo,
            forall|q: u32|
                #[trigger] cov.depth(q) == sat_add_u32(
                    base.depth(q),
                    if lo <= q < p {
                        1nat
                    } else {
                        0nat
                    },
                ),
        decreases hi - p,
    {
        let ghost prev = *cov;
        cov.add_at(p, 1);
        proof {
            assert forall|q: u32| #[trigger] cov.depth(q) == sat_add_u32(
                base.depth(q),
                if lo <= q < p + 1 {
                    1nat
                } else {
                    0nat
                },
            ) by {
                assert(cov.depth(q) == (if q == p {
                    sat_add_u32(prev.depth(q), 1nat)
                } else {
                    prev.depth(q)
                }));
                if q == p {
                    lemma_sat_add_fold(base.depth(q), 0nat, 1nat);
                }
            }
        }
        p = p + 1;
    }
    proof {
        assert forall|q: u32| #[trigger] cov.depth(q) == sat_add_u32(
            base.depth(q),
            if start <= q < end && record_covers(rec_g, q) {
                1nat
            } else {
                0nat
            },
        ) by {
            assert(record_usable(rec_g));
            assert(rec_g.alignment_start->0 == astart);
            assert(spec_reference_span(rec_g.cigar@) == span);
            assert((lo <= q < p) == (start <= q < end && record_covers(rec_g, q)));
        }
    }
}

/// A record that is unmapped, lacks a start or has an overflowing span
/// covers no position, so a well-formed map absorbs it unchanged.
proof fn lemma_unusable_record_adds_nothing(
    cov: CovMap,
    rec: AlignmentRecord,
    start: u32,
    end: u32,
)
    requires
        cov.wf(),
        !record_usable(rec),
    ensures
        forall|q: u32|
            #[trigger] cov.depth(q) == sat_add_u32(
                cov.depth(q),
                if start <= q < end && record_covers(rec, q) {
                    1nat
                } else {
                    0nat
                },
            ),
{
    assert forall|q: u32| #[trigger] cov.depth(q) == sat_add_u32(
        cov.depth(q),
        if start <= q < end && record_covers(rec, q) {
            1nat
        } else {
            0nat
        },
    ) by {
        lemma_wf_depth_bounded(cov@, q);
    }
}

/// Build the partial coverage map of the half-open window `[start, end)`:
/// the depth of every position inside the window is exactly the number of
/// qualifying records that cover it; positions outside the window stay
/// uncovered.
pub fn process_window(records: &Vec<AlignmentRecord>, start: u32, end: u32) -> (cov: CovMap)
    requires
        records@.len() <= u32::MAX,
    ensures
        cov.wf(),
        forall|p: u32| #[trigger] cov.depth(p) == window_depth(records@, start, end, p),
{
    let ghost rs = records@;
    let mut cov = CovMap::new();
    proof {
        assert forall|p: u32| #[trigger] cov.depth(p) == window_depth(
            rs.subrange(0, 0),
            start,
            end,
            p,
        ) by {
            assert(rs.subrange(0, 0) =~= Seq::<AlignmentRecord>::empty());
        }
    }
    let mut i: usize = 0;
    while i < records.len()
        invariant
            cov.wf(),
            records@ == rs,
            rs.len() <= u32::MAX,
            i <= rs.len(),
            forall|p: u32|
                #[trigger] cov.depth(p) == window_depth(rs.subrange(0, i as int), start, end, p),
        decreases rs.len() - i,
    {
        let ghost prev = cov;
        add_record_coverage(&mut cov, &records[i], start, end);
        proof {
            assert forall|p: u32| #[trigger] cov.depth(p) == window_depth(
                rs.subrange(0, i + 1),
                start,
                end,
                p,
            ) by {
                lemma_window_depth_step(rs, i as int, start, end, p);
                lemma_covered_count_bounded(rs.subrange(0, i as int), p);
                assert(cov.depth(p) == sat_add_u32(
                    prev.depth(p),
                    if start <= p < end && record_covers(rs[i as int], p) {
                        1nat
                    } else {
                        0nat
                    },
                ));
                assert(rs.subrange(0, i as int).len() == i);
            }
        }
        i = i + 1;
    }
    proof {
        assert(rs.subrange(0, rs.len() as int) =~= rs);
    }
    cov
}

/// Process one planned chunk: an index-backed query hands in the records
/// overlapping the chunk's window, and the partial map records exactly the
/// depth of every position inside `[chunk.start, chunk.end)`.
pub fn process_chunk(chunk: &crate::chunk::CoverageChunk, records: &Vec<AlignmentRecord>) -> (cov:
    CovMap)
    requires
        records@.len() <= u32::MAX,
    ensures
        cov.wf(),
        forall|p: u32| #[trigger] cov.depth(p) == window_depth(records@, chunk.start, chunk.end, p),
{
    process_window(records, chunk.start, chunk.end)
}

/// Accumulate one chromosome's coverage over a list of half-open windows,
/// as the streaming strategy does: each window is processed against the
/// records and the partial maps are merged in order.
pub fn process_chromosome(records: &Vec<AlignmentRecord>, regions: &Vec<(u32, u32)>) -> (cov:
    CovMap)
    requires
        records@.len() <= u32::MAX,
    ensures
        cov.wf(),
        forall|p: u32| #[trigger] cov.depth(p) == regions_depth(records@, regions@, p),
{
    let ghost rs = records@;
    let ghost gs = regions@;
    let mut cov = CovMap::new();
    proof {
        assert(gs.subrange(0, 0) =~= Seq::<(u32, u32)>::empty());
    }
    let mut j: usize = 0;
    while j < regions.len()
        invariant
            cov.wf(),
            records@ == rs,
            regions@ == gs,
            rs.len() <= u32::MAX,
            j <= gs.len(),
            forall|p: u32|
                #[trigger] cov.depth(p) == regions_depth(rs, gs.subrange(0, j as int), p),
        decreases gs.len() - j,
    {
        let (s, e) = regions[j];
        let part = process_window(records, s, e);
        let ghost prev = cov;
        cov.absorb(&part);
        proof {
            let pref1 = gs.subrange(0, j + 1);
            assert(pref1.drop_last() =~= gs.subrange(0, j as int));
            assert(pref1.last() == gs[j as int]);
            assert forall|p: u32| #[trigger] cov.depth(p) == regions_depth(rs, pref1, p) by {
                assert(cov.depth(p) == sat_add_u32(prev.depth(p), part.depth(p)));
                assert(part.depth(p) == window_depth(rs, s, e, p));
            }
        }
        j = j + 1;
    }
    proof {
        assert(gs.subrange(0, gs.len() as int) =~= gs);
    }
    cov
}

} // verus!
