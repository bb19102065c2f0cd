use nanocov::fmt::calculate_bin_size;
use nanocov::fmt::format_bin_size;
use nanocov::fmt::format_file_size;
use nanocov::fmt::format_number;

#[test]
fn test_format_number() {
    assert_eq!(format_number(1234), "1,234");
    assert_eq!(format_number(1000000), "1,000,000");
    assert_eq!(format_number(42), "42");
}

#[test]
fn test_format_file_size() {
    assert_eq!(format_file_size(500), "500 B");
    assert_eq!(format_file_size(1500), "1.46 KB");
    assert_eq!(format_file_size(1500000), "1.43 MB");
}

#[test]
fn test_calculate_bin_size() {
    assert_eq!(calculate_bin_size(5000), 1);
    assert_eq!(calculate_bin_size(50000), 100);
    assert_eq!(calculate_bin_size(500000), 1000);
    assert_eq!(calculate_bin_size(5000000), 10000);
    assert_eq!(calculate_bin_size(50000000), 100000);
    assert_eq!(calculate_bin_size(500000000), 1000000);
}

#[test]
fn test_format_number_boundaries() {
    assert_eq!(format_number(0), "0");
    assert_eq!(format_number(999), "999");
    assert_eq!(format_number(1000), "1,000");
    assert_eq!(format_number(u64::MAX), "18,446,744,073,709,551,615");
}

#[test]
fn test_format_file_size_units() {
    assert_eq!(format_file_size(0), "0 B");
    assert_eq!(format_file_size(1023), "1023 B");
    assert_eq!(format_file_size(1024), "1.00 KB");
    assert_eq!(format_file_size(1048576), "1.00 MB");
    assert_eq!(format_file_size(1073741824), "1.00 GB");
    assert_eq!(format_file_size(1610612736), "1.50 GB");
}

#[test]
fn test_format_bin_size() {
    assert_eq!(format_bin_size(1_000_000), "1 Mb");
    assert_eq!(format_bin_size(10_000), "10 kb");
    assert_eq!(format_bin_size(500), "500 bp");
}
