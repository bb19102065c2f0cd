use nanocov::chunk::ConfigError;
use nanocov::chunk::CoverageChunk;
use nanocov::chunk::create_chunk_jobs;
use nanocov::covmap::CovMap;
use nanocov::fmt::render_coverage_rows;
use nanocov::merger::coverage_summaries;
use nanocov::merger::merge_partials;
use nanocov::mode::should_use_streaming_mode;
use nanocov::process::process_chromosome;
use nanocov::process::process_chunk;
use nanocov::process::process_window;
use nanocov::record::AlignmentRecord;
use nanocov::record::CigarOp;
use nanocov::record::CigarOpKind;
use nanocov::record::calculate_reference_span;
use nanocov::record::reference_span_checked;

fn rec(start: u32, cigar: Vec<CigarOp>) -> AlignmentRecord {
    AlignmentRecord { unmapped: false, alignment_start: Some(start), cigar }
}

fn matches(len: u32) -> Vec<CigarOp> {
    vec![CigarOp { kind: CigarOpKind::Match, len }]
}

/// The exact reference-span scenario: `[Match 5, Insertion 3, Match 4,
/// SoftClip 2]` consumes 9 reference bases, so an alignment starting at 100
/// covers positions 100..109 and nothing else.
#[test]
fn test_reference_span_scenario() {
    let cigar = vec![
        CigarOp { kind: CigarOpKind::Match, len: 5 },
        CigarOp { kind: CigarOpKind::Insertion, len: 3 },
        CigarOp { kind: CigarOpKind::Match, len: 4 },
        CigarOp { kind: CigarOpKind::SoftClip, len: 2 },
    ];
    assert_eq!(calculate_reference_span(&cigar), 9);

    let records = vec![rec(100, cigar)];
    let cov = process_window(&records, 1, 1000);
    let expected: Vec<(u32, u32)> = (100..109).map(|p| (p, 1)).collect();
    assert_eq!(*cov.entries(), expected);
}

#[test]
fn test_reference_span_kinds() {
    let cigar = vec![
        CigarOp { kind: CigarOpKind::SequenceMatch, len: 3 },
        CigarOp { kind: CigarOpKind::Deletion, len: 2 },
        CigarOp { kind: CigarOpKind::Skip, len: 4 },
        CigarOp { kind: CigarOpKind::SequenceMismatch, len: 1 },
        CigarOp { kind: CigarOpKind::HardClip, len: 7 },
        CigarOp { kind: CigarOpKind::Pad, len: 5 },
    ];
    assert_eq!(calculate_reference_span(&cigar), 10);
    let overflowing = vec![
        CigarOp { kind: CigarOpKind::Match, len: u32::MAX },
        CigarOp { kind: CigarOpKind::Match, len: 1 },
    ];
    assert_eq!(reference_span_checked(&overflowing), None);
}

/// The concrete planner scenario: a chromosome of length 1000 with chunk
/// size 300 is split into [1,301), [301,601), [601,901), [901,1001).
#[test]
fn test_chunk_plan_scenario() {
    let catalog = vec![("chr1".to_string(), 1000u32)];
    let chunks = create_chunk_jobs(&catalog, &None, &None, 300).unwrap();
    let bounds: Vec<(u32, u32)> = chunks.iter().map(|c| (c.start, c.end)).collect();
    assert_eq!(bounds, vec![(1, 301), (301, 601), (601, 901), (901, 1001)]);
    for c in &chunks {
        assert_eq!(c.chromosome, "chr1");
        assert_eq!(c.chrom_index, 0);
        assert!(c.target_regions.is_none());
    }

    // A single 21-base alignment at 500 lands entirely in [301,601).
    let records = vec![rec(500, matches(21))];
    let per_chunk: Vec<Vec<(u32, u32)>> =
        chunks.iter().map(|c| process_chunk(c, &records).entries().clone()).collect();
    let expected: Vec<(u32, u32)> = (500..521).map(|p| (p, 1)).collect();
    assert_eq!(per_chunk[0], vec![]);
    assert_eq!(per_chunk[1], expected);
    assert_eq!(per_chunk[2], vec![]);
    assert_eq!(per_chunk[3], vec![]);
}

#[test]
fn test_chunk_plan_edges() {
    // Length smaller than the chunk size: one chunk.
    let catalog = vec![("c".to_string(), 10u32)];
    let chunks = create_chunk_jobs(&catalog, &None, &None, 300).unwrap();
    let bounds: Vec<(u32, u32)> = chunks.iter().map(|c| (c.start, c.end)).collect();
    assert_eq!(bounds, vec![(1, 11)]);

    // Length an exact multiple of the chunk size.
    let catalog = vec![("c".to_string(), 600u32)];
    let chunks = create_chunk_jobs(&catalog, &None, &None, 300).unwrap();
    let bounds: Vec<(u32, u32)> = chunks.iter().map(|c| (c.start, c.end)).collect();
    assert_eq!(bounds, vec![(1, 301), (301, 601)]);

    // A zero chunk size is a configuration error, reported up front.
    assert_eq!(
        create_chunk_jobs(&catalog, &None, &None, 0).unwrap_err(),
        ConfigError::InvalidChunkSize
    );
}

#[test]
fn test_chunk_plan_with_inclusion_bed() {
    let catalog = vec![("chr1".to_string(), 1000u32), ("chr2".to_string(), 1000u32)];
    let bed = Some(vec![("chr2".to_string(), vec![(10u32, 25u32), (40u32, 45u32)])]);
    let chunks = create_chunk_jobs(&catalog, &bed, &None, 10).unwrap();
    let bounds: Vec<(u32, u32)> = chunks.iter().map(|c| (c.start, c.end)).collect();
    // chr1 has no inclusion regions and is skipped entirely.
    assert_eq!(bounds, vec![(10, 20), (20, 25), (40, 45)]);
    for c in &chunks {
        assert_eq!(c.chromosome, "chr2");
        assert_eq!(c.chrom_index, 1);
        assert_eq!(c.target_regions, Some(vec![(c.start, c.end)]));
    }
}

#[test]
fn test_chunk_plan_with_chromosome_bed() {
    let catalog = vec![("chr1".to_string(), 1000u32)];
    let cbed = Some(vec![("chr1".to_string(), vec![(1u32, 7u32)])]);
    let chunks = create_chunk_jobs(&catalog, &None, &cbed, 3).unwrap();
    let bounds: Vec<(u32, u32)> = chunks.iter().map(|c| (c.start, c.end)).collect();
    assert_eq!(bounds, vec![(1, 4), (4, 7)]);
    assert!(chunks.iter().all(|c| c.target_regions.is_none()));
}

/// Merge associativity/commutativity scenario: any grouping and order of
/// per-chunk partial maps merges to the map of one reference chunk
/// covering the whole region.
#[test]
fn test_merge_equals_single_reference_chunk() {
    let records = vec![
        rec(10, matches(30)),
        rec(25, matches(10)),
        rec(1, matches(5)),
        rec(35, matches(1)),
        rec(10, matches(30)),
    ];
    let whole = process_window(&records, 1, 101);

    let catalog = vec![("x".to_string(), 100u32)];
    let chunks = create_chunk_jobs(&catalog, &None, &None, 7).unwrap();
    // Feed the partial results to the merger in reversed completion order.
    let mut parts: Vec<(usize, CovMap)> =
        chunks.iter().map(|c| (c.chrom_index, process_chunk(c, &records))).collect();
    parts.reverse();
    let merged = merge_partials(1, &parts);
    assert_eq!(merged[0].entries(), whole.entries());
}

/// Streaming vs parallel-chunked equivalence scenario: both strategies
/// report identical coverage and identical summary numbers.
#[test]
fn test_streaming_matches_chunked() {
    let records = vec![
        rec(5, matches(20)),
        rec(18, matches(4)),
        rec(90, matches(40)),
        rec(1, matches(1)),
    ];
    let regions = vec![(1u32, 51u32), (80u32, 121u32)];

    // Streaming: accumulate each region whole, one chromosome at a time.
    let streamed = process_chromosome(&records, &regions);

    // Parallel-chunked: split the regions into chunks, process each chunk
    // independently, then merge.
    let catalog = vec![("chr".to_string(), 200u32)];
    let bed = Some(vec![("chr".to_string(), regions.clone())]);
    let chunks = create_chunk_jobs(&catalog, &bed, &None, 13).unwrap();
    let parts: Vec<(usize, CovMap)> =
        chunks.iter().map(|c| (c.chrom_index, process_chunk(c, &records))).collect();
    let merged = merge_partials(1, &parts);

    assert_eq!(merged[0].entries(), streamed.entries());
    let summary_stream = coverage_summaries(&vec![streamed]);
    let summary_chunked = coverage_summaries(&merged);
    assert_eq!(summary_stream, summary_chunked);
}

/// Idempotence scenario: processing the same chunk descriptor twice against
/// unchanged records produces the same partial map both times.
#[test]
fn test_single_chunk_processing_idempotent() {
    let records = vec![rec(3, matches(10)), rec(7, matches(2))];
    let chunk = CoverageChunk {
        chromosome: "chr1".to_string(),
        chrom_index: 0,
        start: 1,
        end: 11,
        target_regions: None,
    };
    let first = process_chunk(&chunk, &records);
    let second = process_chunk(&chunk, &records);
    assert_eq!(first.entries(), second.entries());
}

/// Empty-input scenario: no records yield an empty coverage map, an output
/// holding only the header, and no data for the global mean.
#[test]
fn test_empty_input() {
    let records: Vec<AlignmentRecord> = Vec::new();
    let cov = process_window(&records, 1, 1001);
    assert_eq!(cov.len(), 0);
    assert_eq!(render_coverage_rows(&"chr1".to_string(), &cov), "");
    let merged = vec![cov];
    let sums = coverage_summaries(&merged);
    assert_eq!(sums, vec![(0, 0)]);
    // No chromosome has covered positions, so there is no global mean.
    assert!(sums.iter().all(|&(_, count)| count == 0));
}

/// Malformed-record resilience scenario: a failed chunk contributes an
/// empty partial map and the merge reflects only the valid chunks.
#[test]
fn test_failed_chunk_contributes_nothing() {
    let records = vec![rec(2, matches(3))];
    let good = process_window(&records, 1, 11);
    // The second chunk's query failed; it degrades to an empty map.
    let failed = CovMap::new();
    let parts = vec![(0usize, good), (0usize, failed)];
    let merged = merge_partials(1, &parts);
    assert_eq!(*merged[0].entries(), vec![(2, 1), (3, 1), (4, 1)]);
}

#[test]
fn test_unmapped_and_malformed_records_are_dropped() {
    let records = vec![
        AlignmentRecord { unmapped: true, alignment_start: Some(5), cigar: matches(10) },
        AlignmentRecord { unmapped: false, alignment_start: None, cigar: matches(10) },
        AlignmentRecord {
            unmapped: false,
            alignment_start: Some(5),
            cigar: vec![
                CigarOp { kind: CigarOpKind::Match, len: u32::MAX },
                CigarOp { kind: CigarOpKind::Match, len: u32::MAX },
            ],
        },
        rec(5, matches(2)),
    ];
    let cov = process_window(&records, 1, 100);
    assert_eq!(*cov.entries(), vec![(5, 1), (6, 1)]);
}

#[test]
fn test_clipping_at_chunk_boundaries() {
    // One record straddles both chunk edges; only the window part counts.
    let records = vec![rec(95, matches(20))];
    let cov = process_window(&records, 100, 110);
    let expected: Vec<(u32, u32)> = (100..110).map(|p| (p, 1)).collect();
    assert_eq!(*cov.entries(), expected);
}

#[test]
fn test_overlapping_regions_double_count() {
    // Overlapping inclusion regions are processed independently, so their
    // overlap counts once per region.
    let records = vec![rec(1, matches(10))];
    let regions = vec![(1u32, 8u32), (5u32, 11u32)];
    let cov = process_chromosome(&records, &regions);
    let expected: Vec<(u32, u32)> = (1..11)
        .map(|p| (p, if (5..8).contains(&p) { 2 } else { 1 }))
        .collect();
    assert_eq!(*cov.entries(), expected);
}

#[test]
fn test_covmap_operations() {
    let mut cov = CovMap::new();
    cov.add_at(7, 1);
    cov.add_at(3, 2);
    cov.add_at(7, 1);
    assert_eq!(*cov.entries(), vec![(3, 2), (7, 2)]);
    assert_eq!(cov.get(3), 2);
    assert_eq!(cov.get(7), 2);
    assert_eq!(cov.get(4), 0);
    assert_eq!(cov.totals(), (4, 2));

    let mut other = CovMap::new();
    other.add_at(3, 1);
    other.add_at(9, 5);
    cov.absorb(&other);
    assert_eq!(*cov.entries(), vec![(3, 3), (7, 2), (9, 5)]);

    // Depth saturates instead of overflowing.
    let mut sat = CovMap::new();
    sat.add_at(1, u32::MAX);
    sat.add_at(1, 1);
    assert_eq!(sat.get(1), u32::MAX);
}

#[test]
fn test_coverage_rows_rendering() {
    let mut cov = CovMap::new();
    cov.add_at(12, 3);
    cov.add_at(5, 1);
    let rows = render_coverage_rows(&"chrM".to_string(), &cov);
    assert_eq!(rows, "chrM\t5\t1\nchrM\t12\t3\n");
}

#[test]
fn test_length_metrics() {
    // Lengths 2, 2, 2, 3, 3, 4: total 16; the running sum over 4, 3, 3,
    // 2... reaches 8 at the second 3, and reaches 12 at the first 2.
    let lengths = vec![2, 3, 4, 2, 3, 2];
    let sorted = nanocov::stats::sort_lengths_descending(&lengths);
    assert_eq!(sorted, vec![4, 3, 3, 2, 2, 2]);
    let total = nanocov::stats::total_length(&sorted);
    assert_eq!(total, 16);
    assert_eq!(nanocov::stats::n_metric(&sorted, total / 2), 3);
    assert_eq!(nanocov::stats::n_metric(&sorted, (total * 3) / 4), 2);
    // An unreachable threshold yields zero, as does an empty set.
    assert_eq!(nanocov::stats::n_metric(&sorted, 17), 0);
    assert_eq!(nanocov::stats::n_metric(&Vec::new(), 0), 0);
}

#[test]
fn test_sorted_chrom_order() {
    let names = vec![
        "chr2".to_string(),
        "chr10".to_string(),
        "chr1".to_string(),
        "chrM".to_string(),
    ];
    let order = nanocov::order::sorted_chrom_order(&names);
    let sorted: Vec<&str> = order.iter().map(|&i| names[i].as_str()).collect();
    assert_eq!(sorted, vec!["chr1", "chr10", "chr2", "chrM"]);
}

#[test]
fn test_streaming_mode_selection() {
    // Forcing streaming wins regardless of size.
    assert!(should_use_streaming_mode(true, 0, None));
    // The default threshold is 500 MB, strictly above.
    assert!(!should_use_streaming_mode(false, 500 * 1048576, None));
    assert!(should_use_streaming_mode(false, 501 * 1048576, None));
    // An explicit limit overrides the default.
    assert!(should_use_streaming_mode(false, 11 * 1048576, Some(10)));
    assert!(!should_use_streaming_mode(false, 11 * 1048576, Some(1000)));
}
