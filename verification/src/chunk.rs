//! The chunk planner: divides the genome, or the supplied regions, into
//! bounded-size work units.
//!
//! Every chunk is a half-open interval `[start, end)` on one chromosome.
//! For one region the chunks are consecutive: each starts where the
//! previous one ends, the first starts at the region start, the last ends
//! at the region end, and none is empty or longer than the chunk size — so
//! their union covers the region exactly once, with no gaps and no
//! overlaps.

use vstd::prelude::*;

use crate::regions::spec_lookup;

verus! {

/// A configuration problem found before any chunk is processed.
#[derive(Clone, Copy, Debug, PartialEq, Eq, Structural)]
pub enum ConfigError {
    /// The chunk size is zero or does not fit in a `u32`.
    InvalidChunkSize,
    /// A chromosome length leaves no room for the 1-based half-open extent.
    ChromosomeTooLong,
}

/// One bounded unit of parallel work: a half-open window on one chromosome.
#[derive(Clone, Debug)]
pub struct CoverageChunk {
    /// Chromosome name, as the alignment store spells it.
    pub chromosome: String,
    /// Index of the chromosome in the catalog the plan was made from.
    pub chrom_index: usize,
    /// First position of the window (1-based, inclusive).
    pub start: u32,
    /// Upper bound of the window (exclusive).
    pub end: u32,
    /// For inclusion-BED runs, the sub-regions this chunk must honour;
    /// the planner records the chunk's own window there.
    pub target_regions: Option<Vec<(u32, u32)>>,
}

/// The half-open ranges that split `[start, end)` into consecutive pieces
/// of at most `chunk_size` bases (the last piece may be shorter).
pub open spec fn split_ranges(start: u32, end: u32, chunk_size: u32) -> Seq<(u32, u32)>
    decreases end - start,
{
    if start >= end || chunk_size == 0 {
        Seq::empty()
    } else {
        let mid: u32 = if start + chunk_size < end {
            (start + chunk_size) as u32
        } else {
            end
        };
        seq![(start, mid)] + split_ranges(mid, end, chunk_size)
    }
}

/// The ranges of a whole region list, split region by region, in order.
pub open spec fn split_regions(regions: Seq<(u32, u32)>, chunk_size: u32) -> Seq<(u32, u32)>
    decreases regions.len(),
{
    if regions.len() == 0 {
        Seq::empty()
    } else {
        split_regions(regions.drop_last(), chunk_size) + split_ranges(
            regions.last().0,
            regions.last().1,
            chunk_size,
        )
    }
}

/// The split of a region tiles it: every piece is non-empty and at most
/// `chunk_size` long, consecutive pieces meet exactly, the first piece
/// starts at the region start and the last ends at the region end.  Hence
/// the union of the pieces is the region, with no gaps and no overlaps.
pub proof fn lemma_split_ranges_tile(start: u32, end: u32, chunk_size: u32)
    requires
        chunk_size >= 1,
    ensures
        ({
            let rs = split_ranges(start, end, chunk_size);
            &&& (rs.len() == 0 <==> start >= end)
            &&& forall|i: int|
                0 <= i < rs.len() ==> (#[trigger] rs[i]).0 < rs[i].1 && rs[i].1 - rs[i].0
                    <= chunk_size
            &&& (rs.len() > 0 ==> rs[0].0 == start && rs[rs.len() - 1].1 == end)
            &&& forall|i: int| 0 <= i < rs.len() - 1 ==> (#[trigger] rs[i]).1 == rs[i + 1].0
        }),
    decreases end - start,
{
    if start < end {
        let mid: u32 = if start + chunk_size < end {
            (start + chunk_size) as u32
        } else {
            end
        };
        lemma_split_ranges_tile(mid, end, chunk_size);
        let rs = split_ranges(start, end, chunk_size);
        let rest = split_ranges(mid, end, chunk_size);
        assert(rs == seq![(start, mid)] + rest);
        assert(rs[0] == (start, mid));
        assert forall|i: int| 0 <= i < rs.len() - 1 implies (#[trigger] rs[i]).1 == rs[i
            + 1].0 by {
            if i == 0 {
                if rest.len() > 0 {
                    assert(rs[1] == rest[0]);
                }
            } else {
                assert(rs[i] == rest[i - 1]);
                assert(rs[i + 1] == rest[i]);
            }
        }
        assert forall|i: int| 0 <= i < rs.len() implies (#[trigger] rs[i]).0 < rs[i].1 && rs[i].1
            - rs[i].0 <= chunk_size by {
            if i > 0 {
                assert(rs[i] == rest[i - 1]);
            }
        }
        if rest.len() > 0 {
            assert(rs[rs.len() - 1] == rest[rest.len() - 1]);
        }
    }
}

/// Every position of a region lies in exactly one piece of its split: the
/// union of the pieces is the region and the pieces are pairwise disjoint.
pub proof fn lemma_split_ranges_cover(start: u32, end: u32, chunk_size: u32, p: u32)
    requires
        chunk_size >= 1,
    ensures
        ({
            let rs = split_ranges(start, end, chunk_size);
            &&& (start <= p < end) <==> exists|i: int|
                0 <= i < rs.len() && (#[trigger] rs[i]).0 <= p < rs[i].1
            &&& forall|i: int, j: int|
                0 <= i < rs.len() && 0 <= j < rs.len() && (#[trigger] rs[i]).0 <= p < rs[i].1 && (
                #[trigger] rs[j]).0 <= p < rs[j].1 ==> i == j
        }),
    decreases end - start,
{
    let rs = split_ranges(start, end, chunk_size);
    if start >= end {
        assert(!(exists|i: int| 0 <= i < rs.len() && (#[trigger] rs[i]).0 <= p < rs[i].1));
    } else {
        let mid: u32 = if start + chunk_size < end {
            (start + chunk_size) as u32
        } else {
            end
        };
        lemma_split_ranges_cover(mid, end, chunk_size, p);
        let rest = split_ranges(mid, end, chunk_size);
        assert(rs == seq![(start, mid)] + rest);
        assert(rs[0] == (start, mid));
        assert forall|i: int| 0 < i < rs.len() implies rs[i] == rest[i - 1] by {}
        if start <= p < mid {
            assert(rs[0].0 <= p < rs[0].1);
        } else if mid <= p < end {
            let j = choose|j: int| 0 <= j < rest.len() && (#[trigger] rest[j]).0 <= p < rest[j].1;
            assert(rs[j + 1] == rest[j]);
            assert(rs[j + 1].0 <= p < rs[j + 1].1);
        }
        if !(start <= p < end) {
            assert forall|i: int| 0 <= i < rs.len() implies !((#[trigger] rs[i]).0 <= p < rs[
                i].1) by {
                if i > 0 {
                    assert(rs[i] == rest[i - 1]);
                }
            }
        }
        assert forall|i: int, j: int|
            0 <= i < rs.len() && 0 <= j < rs.len() && (#[trigger] rs[i]).0 <= p < rs[i].1 && (
            #[trigger] rs[j]).0 <= p < rs[j].1 implies i == j by {
            lemma_split_ranges_tile(mid, end, chunk_size);
            if i > 0 {
                assert(rs[i] == rest[i - 1]);
            }
            if j > 0 {
                assert(rs[j] == rest[j - 1]);
            }
            if i == 0 && j > 0 {
                assert(rest[j - 1].0 >= mid) by {
                    if j - 1 > 0 {
                        assert(rest[0].1 <= rest[j - 1].0) by {
                            lemma_split_ranges_chain(mid, end, chunk_size, 0, j - 1);
                        }
                    }
                }
            }
            if j == 0 && i > 0 {
                assert(rest[i - 1].0 >= mid) by {
                    if i - 1 > 0 {
                        assert(rest[0].1 <= rest[i - 1].0) by {
                            lemma_split_ranges_chain(mid, end, chunk_size, 0, i - 1);
                        }
                    }
                }
            }
            if i > 0 && j > 0 && i != j {
                if i < j {
                    lemma_split_ranges_chain(mid, end, chunk_size, i - 1, j - 1);
                } else {
                    lemma_split_ranges_chain(mid, end, chunk_size, j - 1, i - 1);
                }
            }
        }
    }
}

/// For a whole chromosome of length `length` the planner works on the
/// 1-based extent `[1, length+1)`, and its chunks tile that extent: every
/// position `1..=length` lies in exactly one chunk, whatever the chunk
/// size, including lengths below, equal to and not divisible by it.
pub proof fn lemma_whole_chromosome_cover(length: u32, chunk_size: u32, p: u32)
    requires
        chunk_size >= 1,
        length < u32::MAX,
    ensures
        ({
            let rs = split_ranges(1, (length + 1) as u32, chunk_size);
            &&& ((1 <= p <= length) <==> exists|i: int|
                0 <= i < rs.len() && (#[trigger] rs[i]).0 <= p < rs[i].1)
            &&& forall|i: int, j: int|
                0 <= i < rs.len() && 0 <= j < rs.len() && (#[trigger] rs[i]).0 <= p < rs[i].1 && (
                #[trigger] rs[j]).0 <= p < rs[j].1 ==> i == j
        }),
{
    lemma_split_ranges_cover(1, (length + 1) as u32, chunk_size, p);
}

/// Ghost description of one planned chunk.
pub struct ChunkSpec {
    pub name: Seq<char>,
    pub chrom_index: int,
    pub start: u32,
    pub end: u32,
    pub targeted: bool,
}

/// The chunk descriptions for one chromosome's ranges.
pub open spec fn tag_ranges(
    name: Seq<char>,
    chrom_index: int,
    targeted: bool,
    ranges: Seq<(u32, u32)>,
) -> Seq<ChunkSpec> {
    ranges.map(
        |k: int, r: (u32, u32)|
            ChunkSpec { name, chrom_index, start: r.0, end: r.1, targeted },
    )
}

/// An executable chunk realizes a ghost description.
pub open spec fn chunk_matches(c: CoverageChunk, s: ChunkSpec) -> bool {
    &&& c.chromosome@ == s.name
    &&& c.chrom_index == s.chrom_index
    &&& c.start == s.start
    &&& c.end == s.end
    &&& match c.target_regions {
        Some(v) => s.targeted && v@ == seq![(s.start, s.end)],
        None => !s.targeted,
    }
}

/// The regions a chromosome contributes to the plan: its inclusion-BED
/// regions when an inclusion BED is given, else its chromosome-BED extents
/// when those are given, else its whole 1-based extent.  A chromosome
/// missing from the given region set contributes nothing.
pub open spec fn chrom_regions(
    name: Seq<char>,
    length: u32,
    bed: Option<Seq<(String, Vec<(u32, u32)>)>>,
    chrom_bed: Option<Seq<(String, Vec<(u32, u32)>)>>,
) -> Seq<(u32, u32)> {
    match bed {
        Some(b) => match spec_lookup(b, name) {
            Some(rs) => rs,
            None => Seq::empty(),
        },
        None => match chrom_bed {
            Some(cb) => match spec_lookup(cb, name) {
                Some(rs) => rs,
                None => Seq::empty(),
            },
            None => seq![(1u32, (length + 1) as u32)],
        },
    }
}

/// The whole plan: each catalog chromosome's regions, split into chunks, in
/// catalog order.
pub open spec fn plan_spec(
    catalog: Seq<(String, u32)>,
    bed: Option<Seq<(String, Vec<(u32, u32)>)>>,
    chrom_bed: Option<Seq<(String, Vec<(u32, u32)>)>>,
    chunk_size: u32,
) -> Seq<ChunkSpec>
    decreases catalog.len(),
{
    if catalog.len() == 0 {
        Seq::empty()
    } else {
        plan_spec(catalog.drop_last(), bed, chrom_bed, chunk_size) + tag_ranges(
            catalog.last().0@,
            catalog.len() - 1,
            bed is Some,
            split_regions(
                chrom_regions(catalog.last().0@, catalog.last().1, bed, chrom_bed),
                chunk_size,
            ),
        )
    }
}

/// Spec view of an optional region set.
pub open spec fn opt_region_view(o: Option<Vec<(String, Vec<(u32, u32)>)>>) -> Option<
    Seq<(String, Vec<(u32, u32)>)>,
> {
    match o {
        Some(v) => Some(v@),
        None => None,
    }
}

/// Append the chunks of one region to the plan under construction.
fn split_one_region(
    chunks: &mut Vec<CoverageChunk>,
    name: &String,
    chrom_index: usize,
    region_start: u32,
    region_end: u32,
    chunk_size: u32,
    targeted: bool,
)
    requires
        chunk_size >= 1,
    ensures
        ({
            let tagged = tag_ranges(
                name@,
                chrom_index as int,
                targeted,
                split_ranges(region_start, region_end, chunk_size),
            );
            &&& final(chunks)@.len() == old(chunks)@.len() + tagged.len()
            &&& forall|k: int|
                0 <= k < old(chunks)@.len() ==> final(chunks)@[k] == old(chunks)@[k]
            &&& forall|k: int|
                0 <= k < tagged.len() ==> chunk_matches(
                    #[trigger] final(chunks)@[old(chunks)@.len() + k],
                    tagged[k],
                )
        }),
{
    let ghost base = chunks@;
    let ghost total = split_ranges(region_start, region_end, chunk_size);
    let ghost tagged = tag_ranges(name@, chrom_index as int, targeted, total);
    proof {
        assert(total.take(0) =~= Seq::<(u32, u32)>::empty());
        assert(total =~= total.take(0) + split_ranges(region_start, region_end, chunk_size));
    }
    let mut cur = region_start;
    while cur < region_end
        invariant
            chunk_size >= 1,
            region_start <= cur,
            total == split_ranges(region_start, region_end, chunk_size),
            tagged == tag_ranges(name@, chrom_index as int, targeted, total),
            base.len() <= chunks@.len(),
            chunks@.len() - base.len() + split_ranges(cur, region_end, chunk_size).len()
                == total.len(),
            total =~= total.take(chunks@.len() - base.len()) + split_ranges(
                cur,
                region_end,
                chunk_size,
            ),
            forall|k: int| 0 <= k < base.len() ==> #[trigger] chunks@[k] == base[k],
            forall|k: int|
                0 <= k < chunks@.len() - base.len() ==> chunk_matches(
                    #[trigger] chunks@[base.len() + k],
                    tagged[k],
                ),
        decreases region_end - cur,
    {
        let ghost done = chunks@.len() - base.len();
        let ghost rest = split_ranges(cur, region_end, chunk_size);
        let chunk_end: u32 = if (cur as u64 + chunk_size as u64) < region_end as u64 {
            cur + chunk_size
        } else {
            region_end
        };
        proof {
            assert(rest == seq![(cur, chunk_end)] + split_ranges(
                chunk_end,
                region_end,
                chunk_size,
            ));
            assert(rest[0] == (cur, chunk_end));
            assert(total[done] == rest[0]);
            assert(total.take(done + 1) =~= total.take(done) + seq![(cur, chunk_end)]);
            assert(total =~= total.take(done + 1) + split_ranges(
                chunk_end,
                region_end,
                chunk_size,
            ));
            assert(tagged[done] == ChunkSpec {
                name: name@,
                chrom_index: chrom_index as int,
                start: cur,
                end: chunk_end,
                targeted,
            });
        }
        let target_regions = if targeted {
            let mut window: Vec<(u32, u32)> = Vec::new();
            window.push((cur, chunk_end));
            proof {
                assert(window@ =~= seq![(cur, chunk_end)]);
            }
            Some(window)
        } else {
            None
        };
        chunks.push(
            CoverageChunk {
                chromosome: name.clone(),
                chrom_index,
                start: cur,
                end: chunk_end,
                target_regions,
            },
        );
        cur = chunk_end;
    }
    proof {
        assert(split_ranges(cur, region_end, chunk_size) =~= Seq::<(u32, u32)>::empty());
        assert(total.take(chunks@.len() - base.len()) =~= total);
    }
}

/// Append the chunks of every region of one chromosome to the plan.
fn plan_chromosome(
    chunks: &mut Vec<CoverageChunk>,
    name: &String,
    chrom_index: usize,
    regions: &Vec<(u32, u32)>,
    chunk_size: u32,
    targeted: bool,
)
    requires
        chunk_size >= 1,
    ensures
        ({
            let tagged = tag_ranges(
                name@,
                chrom_index as int,
                targeted,
                split_regions(regions@, chunk_size),
            );
            &&& final(chunks)@.len() == old(chunks)@.len() + tagged.len()
            &&& forall|k: int|
                0 <= k < old(chunks)@.len() ==> final(chunks)@[k] == old(chunks)@[k]
            &&& forall|k: int|
                0 <= k < tagged.len() ==> chunk_matches(
                    #[trigger] final(chunks)@[old(chunks)@.len() + k],
                    tagged[k],
                )
        }),
{
    let ghost base = chunks@;
    let ghost gs = regions@;
    proof {
        assert(split_regions(gs.subrange(0, 0), chunk_size) =~= Seq::<(u32, u32)>::empty());
    }
    let mut j: usize = 0;
    while j < regions.len()
        invariant
            chunk_size >= 1,
            regions@ == gs,
            j <= gs.len(),
            base.len() <= chunks@.len(),
            chunks@.len() - base.len() == split_regions(gs.subrange(0, j as int), chunk_size).len(),
            forall|k: int| 0 <= k < base.len() ==> #[trigger] chunks@[k] == base[k],
            forall|k: int|
                0 <= k < chunks@.len() - base.len() ==> chunk_matches(
                    #[trigger] chunks@[base.len() + k],
                    tag_ranges(
                        name@,
                        chrom_index as int,
                        targeted,
                        split_regions(gs.subrange(0, j as int), chunk_size),
                    )[k],
                ),
        decreases gs.len() - j,
    {
        let (s, e) = regions[j];
        let ghost before = chunks@;
        let ghost done_ranges = split_regions(gs.subrange(0, j as int), chunk_size);
        split_one_region(chunks, name, chrom_index, s, e, chunk_size, targeted);
        proof {
            let pref1 = gs.subrange(0, j + 1);
            assert(pref1.drop_last() =~= gs.subrange(0, j as int));
            assert(pref1.last() == gs[j as int]);
            let step_ranges = split_ranges(s, e, chunk_size);
            assert(split_regions(pref1, chunk_size) == done_ranges + step_ranges);
            let tagged_all = tag_ranges(
                name@,
                chrom_index as int,
                targeted,
                done_ranges + step_ranges,
            );
            let tagged_done = tag_ranges(name@, chrom_index as int, targeted, done_ranges);
            let tagged_step = tag_ranges(name@, chrom_index as int, targeted, step_ranges);
            assert(tagged_all =~= tagged_done + tagged_step);
            assert forall|k: int| 0 <= k < chunks@.len() - base.len() implies chunk_matches(
                #[trigger] chunks@[base.len() + k],
                tagged_all[k],
            ) by {
                if k < before.len() - base.len() {
                    assert(chunks@[base.len() + k] == before[base.len() + k]);
                    assert(tagged_all[k] == tagged_done[k]);
                } else {
                    let k2 = k - (before.len() - base.len());
                    assert(chunks@[before.len() + k2] == chunks@[base.len() + k]);
                    assert(chunk_matches(chunks@[before.len() + k2], tagged_step[k2]));
                    assert(tagged_all[k] == tagged_step[k2]);
                }
            }
        }
        j = j + 1;
    }
    proof {
        assert(gs.subrange(0, gs.len() as int) =~= gs);
    }
}

/// Build the ordered chunk plan for a run.
///
/// Fails before any processing when the chunk size is zero or too large for
/// a window bound, or when a whole-genome run meets a chromosome length
/// that leaves no room for the exclusive upper bound; otherwise the plan is
/// exactly [`plan_spec`] of the inputs: every chromosome's applicable
/// regions split into consecutive chunks of at most `chunk_size` bases, in
/// catalog order.
pub fn create_chunk_jobs(
    catalog: &Vec<(String, u32)>,
    bed_regions: &Option<Vec<(String, Vec<(u32, u32)>)>>,
    chrom_bed_regions: &Option<Vec<(String, Vec<(u32, u32)>)>>,
    chunk_size: usize,
) -> (r: Result<Vec<CoverageChunk>, ConfigError>)
    ensures
        ({
            let bad_size = chunk_size == 0 || chunk_size > u32::MAX as usize;
            let too_long = bed_regions is None && chrom_bed_regions is None && exists|i: int|
                0 <= i < catalog@.len() && (#[trigger] catalog@[i]).1 == u32::MAX;
            &&& (r is Err <==> bad_size || too_long)
            &&& (r matches Err(e) ==> e == (if bad_size {
                ConfigError::InvalidChunkSize
            } else {
                ConfigError::ChromosomeTooLong
            }))
            &&& (r matches Ok(chunks) ==> {
                let ps = plan_spec(
                    catalog@,
                    opt_region_view(*bed_regions),
                    opt_region_view(*chrom_bed_regions),
                    chunk_size as u32,
                );
                &&& chunks@.len() == ps.len()
                &&& forall|k: int| 0 <= k < ps.len() ==> chunk_matches(#[trigger] chunks@[k], ps[k])
            })
        }),
{
    if chunk_size == 0 || chunk_size > u32::MAX as usize {
        return Err(ConfigError::InvalidChunkSize);
    }
    let csize: u32 = chunk_size as u32;
    let ghost cat = catalog@;
    let ghost bedv = opt_region_view(*bed_regions);
    let ghost cbedv = opt_region_view(*chrom_bed_regions);
    if bed_regions.is_none() && chrom_bed_regions.is_none() {
        let mut i: usize = 0;
        while i < catalog.len()
            invariant
                catalog@ == cat,
                1 <= chunk_size <= u32::MAX as usize,
                bed_regions is None,
                chrom_bed_regions is None,
                i <= cat.len(),
                forall|k: int| 0 <= k < i ==> (#[trigger] cat[k]).1 < u32::MAX,
            decreases cat.len() - i,
        {
            if catalog[i].1 == u32::MAX {
                proof {
                    assert(exists|k: int|
                        0 <= k < cat.len() && (#[trigger] cat[k]).1 == u32::MAX) by {
                        assert(cat[i as int].1 == u32::MAX);
                    }
                }
                return Err(ConfigError::ChromosomeTooLong);
            }
            i = i + 1;
        }
    }
    let mut chunks: Vec<CoverageChunk> = Vec::new();
    proof {
        assert(plan_spec(cat.subrange(0, 0), bedv, cbedv, csize) =~= Seq::<ChunkSpec>::empty());
    }
    let mut i: usize = 0;
    while i < catalog.len()
        invariant
            csize >= 1,
            catalog@ == cat,
            bedv == opt_region_view(*bed_regions),
            cbedv == opt_region_view(*chrom_bed_regions),
            bedv is None && cbedv is None ==> forall|k: int|
                0 <= k < cat.len() ==> (#[trigger] cat[k]).1 < u32::MAX,
            i <= cat.len(),
            chunks@.len() == plan_spec(cat.subrange(0, i as int), bedv, cbedv, csize).len(),
            forall|k: int|
                0 <= k < chunks@.len() ==> chunk_matches(
                    #[trigger] chunks@[k],
                    plan_spec(cat.subrange(0, i as int), bedv, cbedv, csize)[k],
                ),
        decreases cat.len() - i,
    {
        let ghost before = chunks@;
        let ghost done_plan = plan_spec(cat.subrange(0, i as int), bedv, cbedv, csize);
        let ghost entry_regions = chrom_regions(cat[i as int].0@, cat[i as int].1, bedv, cbedv);
        match bed_regions {
            Some(b) => {
                match crate::regions::region_map_get(b, &catalog[i].0) {
                    Some(rs) => {
                        plan_chromosome(&mut chunks, &catalog[i].0, i, rs, csize, true);
                        proof {
                            assert(entry_regions == rs@);
                        }
                    },
                    None => {
                        proof {
                            assert(entry_regions =~= Seq::<(u32, u32)>::empty());
                            assert(split_regions(entry_regions, csize) =~= Seq::<
                                (u32, u32),
                            >::empty());
                        }
                    },
                }
            },
            None => {
                match chrom_bed_regions {
                    Some(cb) => {
                        match crate::regions::region_map_get(cb, &catalog[i].0) {
                            Some(rs) => {
                                plan_chromosome(&mut chunks, &catalog[i].0, i, rs, csize, false);
                                proof {
                                    assert(entry_regions == rs@);
                                }
                            },
                            None => {
                                proof {
                                    assert(entry_regions =~= Seq::<(u32, u32)>::empty());
                                    assert(split_regions(entry_regions, csize) =~= Seq::<
                                        (u32, u32),
                                    >::empty());
                                }
                            },
                        }
                    },
                    None => {
                        let length = catalog[i].1;
                        let whole: Vec<(u32, u32)> = vec![(1u32, length + 1)];
                        plan_chromosome(&mut chunks, &catalog[i].0, i, &whole, csize, false);
                        proof {
                            assert(entry_regions =~= whole@);
                        }
                    },
                }
            },
        }
        proof {
            let pref1 = cat.subrange(0, i + 1);
            assert(pref1.drop_last() =~= cat.subrange(0, i as int));
            assert(pref1.last() == cat[i as int]);
            let step_plan = tag_ranges(
                cat[i as int].0@,
                i as int,
                bedv is Some,
                split_regions(entry_regions, csize),
            );
            assert(plan_spec(pref1, bedv, cbedv, csize) == done_plan + step_plan);
            assert forall|k: int| 0 <= k < chunks@.len() implies chunk_matches(
                #[trigger] chunks@[k],
                plan_spec(pref1, bedv, cbedv, csize)[k],
            ) by {
                if k < before.len() {
                    assert(chunks@[k] == before[k]);
                    assert(plan_spec(pref1, bedv, cbedv, csize)[k] == done_plan[k]);
                } else {
                    let k2 = k - before.len();
                    assert(chunk_matches(chunks@[before.len() + k2], step_plan[k2]));
                    assert(plan_spec(pref1, bedv, cbedv, csize)[k] == step_plan[k2]);
                }
            }
        }
        i = i + 1;
    }
    proof {
        assert(cat.subrange(0, cat.len() as int) =~= cat);
    }
    Ok(chunks)
}

/// Pieces of a split that come earlier end no later than later pieces
/// begin.
pub proof fn lemma_split_ranges_chain(start: u32, end: u32, chunk_size: u32, i: int, j: int)
    requires
        chunk_size >= 1,
        0 <= i < j < split_ranges(start, end, chunk_size).len(),
    ensures
        split_ranges(start, end, chunk_size)[i].1 <= split_ranges(start, end, chunk_size)[j].0,
    decreases j - i,
{
    let rs = split_ranges(start, end, chunk_size);
    lemma_split_ranges_tile(start, end, chunk_size);
    if j == i + 1 {
        assert(rs[i].1 == rs[j].0);
    } else {
        lemma_split_ranges_chain(start, end, chunk_size, i, j - 1);
        assert(rs[j - 1].1 == rs[j].0);
        assert(rs[j - 1].0 < rs[j - 1].1);
    }
}

} // verus!
