use nanocov::regions::parse_bed_text;
use nanocov::regions::region_map_get;

#[test]
fn test_parse_bed_basic() {
    let bed_content = "chr1\t10\t20\nchr1\t30\t40\nchr2\t5\t15\n";
    let regions = parse_bed_text(bed_content).unwrap();
    assert_eq!(
        regions,
        vec![
            ("chr1".to_string(), vec![(10, 20), (30, 40)]),
            ("chr2".to_string(), vec![(5, 15)]),
        ]
    );
}

#[test]
fn test_parse_bed_ignores_comments_and_blank() {
    let bed_content = "# comment\nchr1\t1\t2\n\nchr2\t3\t4\n";
    let regions = parse_bed_text(bed_content).unwrap();
    assert_eq!(
        regions,
        vec![
            ("chr1".to_string(), vec![(1, 2)]),
            ("chr2".to_string(), vec![(3, 4)]),
        ]
    );
}

#[test]
fn test_parse_bed_skips_short_lines() {
    let regions = parse_bed_text("chr1\t5\nchr2\t1\t9\textra ignored\n").unwrap();
    assert_eq!(regions, vec![("chr2".to_string(), vec![(1, 9)])]);
}

#[test]
fn test_parse_bed_space_separated_and_no_trailing_newline() {
    let regions = parse_bed_text("chrA 7 9\r\nchrA +1 2").unwrap();
    assert_eq!(regions, vec![("chrA".to_string(), vec![(7, 9), (1, 2)])]);
}

#[test]
fn test_parse_bed_invalid_coordinates_are_fatal() {
    assert!(parse_bed_text("chr1\tx\t5\n").is_err());
    assert!(parse_bed_text("chr1\t1\t4294967296\n").is_err());
    assert!(parse_bed_text("chr1\t+\t5\n").is_err());
    // The largest accepted coordinate parses exactly.
    let regions = parse_bed_text("chr1\t0\t4294967295\n").unwrap();
    assert_eq!(regions, vec![("chr1".to_string(), vec![(0, 4294967295)])]);
}

#[test]
fn test_region_map_lookup() {
    let regions = parse_bed_text("chr1\t1\t5\nchr2\t2\t6\n").unwrap();
    assert_eq!(
        region_map_get(&regions, &"chr2".to_string()),
        Some(&vec![(2, 6)])
    );
    assert_eq!(region_map_get(&regions, &"chr3".to_string()), None);
}
