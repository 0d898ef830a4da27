use struct_compression_analyzer::comparison::sizes::{group_sizes_of, lz_matches_of, GroupSizes, SizeDifference};
use struct_compression_analyzer::utils::analyze_utils::try_get_zstd_compressed_size;

fn sizes(lz: u64, est: u64, zstd: u64, orig: u64) -> GroupSizes {
    GroupSizes { lz_matches: lz, estimated_size: est, zstd_size: zstd, original_size: orig }
}

fn diff(lz: i64, est: i64, zstd: i64, orig: i64) -> SizeDifference {
    SizeDifference { lz_matches: lz, estimated_size: est, zstd_size: zstd, original_size: orig }
}

#[test]
fn averages_of_sizes_round_down() {
    let items = [sizes(1, 10, 100, 1000), sizes(2, 11, 101, 1001), sizes(4, 12, 102, 1003)];
    assert_eq!(GroupSizes::average(&items), Some(sizes(2, 11, 101, 1001)));
}

#[test]
fn no_average_of_nothing_or_of_overflowing_sums() {
    assert_eq!(GroupSizes::average(&[]), None);
    assert_eq!(GroupSizes::average(&[sizes(u64::MAX, 0, 0, 0), sizes(1, 0, 0, 0)]), None);
}

#[test]
fn differences_are_comparison_minus_baseline() {
    let baseline = sizes(10, 20, 30, 40);
    let comparison = sizes(7, 25, 30, 38);
    assert_eq!(SizeDifference::between(&baseline, &comparison), Some(diff(-3, 5, 0, -2)));
}

#[test]
fn differences_take_sizes_as_i64() {
    // u64::MAX taken as an i64 is -1.
    assert_eq!(
        SizeDifference::between(&sizes(0, 0, 0, 0), &sizes(u64::MAX, 0, 0, 0)),
        Some(diff(-1, 0, 0, 0))
    );
    // 1 - i64::MIN does not fit.
    assert_eq!(SizeDifference::between(&sizes(1 << 63, 0, 0, 0), &sizes(1, 0, 0, 0)), None);
}

#[test]
fn averages_of_differences_round_toward_zero() {
    let items = [diff(-3, 3, 0, 1), diff(-4, 4, 0, -2)];
    assert_eq!(SizeDifference::average(&items), Some(diff(-3, 3, 0, 0)));
    assert_eq!(SizeDifference::average(&[]), None);
    assert_eq!(SizeDifference::average(&[diff(i64::MAX, 0, 0, 0), diff(1, 0, 0, 0)]), None);
}

#[test]
fn estimated_size_difference_is_updated_alone() {
    let mut d = diff(-3, 5, 7, -2);
    assert!(d.update_estimated_size(&sizes(10, 20, 30, 40), &sizes(0, 26, 0, 0)));
    assert_eq!(d, diff(-3, 6, 7, -2));
    // 1 - i64::MIN does not fit: nothing changes.
    assert!(!d.update_estimated_size(&sizes(0, 1 << 63, 0, 0), &sizes(0, 1, 0, 0)));
    assert_eq!(d, diff(-3, 6, 7, -2));
}

#[test]
fn lz_matches_are_estimated_from_the_bytes() {
    // Fewer than 8 bytes are never scanned.
    assert_eq!(lz_matches_of(&[1, 2, 3]), 0);
    // Repeated bytes hold matches.
    let repeated = vec![7u8; 4096];
    assert!(lz_matches_of(&repeated) > 0);
}

#[test]
fn group_sizes_hold_the_measurements_of_the_bytes() {
    let bytes: Vec<u8> = (0..4096u32).map(|i| (i % 16) as u8).collect();
    let s = group_sizes_of(&bytes, 123, 3).unwrap();
    assert_eq!(s.lz_matches, lz_matches_of(&bytes));
    assert!(s.lz_matches > 0);
    assert_eq!(s.estimated_size, 123);
    assert_eq!(Some(s.zstd_size), try_get_zstd_compressed_size(&bytes, 3));
    assert!(s.zstd_size < 4096);
    assert_eq!(s.original_size, 4096);
}
