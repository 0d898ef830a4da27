use std::collections::HashMap;
use struct_compression_analyzer::analyzer::{AnalyzerFieldState, BitStats};
use struct_compression_analyzer::bits::BitWriterContainer;
use struct_compression_analyzer::results::field_metrics::{field_metrics_of, FieldMetrics};
use struct_compression_analyzer::results::{average_field_lz_matches, AnalysisMergeError};
use struct_compression_analyzer::schema::BitOrder;

fn metrics(count: u64, lenbits: u32, bits: &[(u64, u64)], values: &[(u64, u64)], sizes: (u64, u64, u64, u64)) -> FieldMetrics {
    FieldMetrics {
        name: "value".to_string(),
        full_path: "root.value".to_string(),
        depth: 1,
        count,
        lenbits,
        lz_matches: sizes.0,
        bit_counts: bits.iter().map(|&(zeros, ones)| BitStats { zeros, ones }).collect(),
        bit_order: BitOrder::Msb,
        value_counts: values.iter().copied().collect(),
        estimated_size: sizes.1,
        zstd_size: sizes.2,
        original_size: sizes.3,
    }
}

#[test]
fn merging_sums_counts_and_averages_sizes() {
    let mut a = metrics(4, 2, &[(1, 3), (2, 2)], &[(0, 1), (3, 3)], (10, 20, 30, 40));
    let b = metrics(2, 2, &[(0, 2), (1, 1)], &[(3, 1), (1, 1)], (11, 21, 31, 41));
    let c = metrics(1, 2, &[(1, 0), (0, 1)], &[(2, 1)], (12, 22, 32, 42));
    let others = vec![&b, &c];
    assert!(a.can_merge(&others));
    assert!(a.try_merge_many(&others).is_ok());
    assert_eq!(a.count, 7);
    assert_eq!(a.lz_matches, 11);
    assert_eq!(a.estimated_size, 21);
    assert_eq!(a.zstd_size, 31);
    assert_eq!(a.original_size, 41);
    assert_eq!(a.bit_counts, vec![BitStats { zeros: 2, ones: 5 }, BitStats { zeros: 3, ones: 4 }]);
    let expected: HashMap<u64, u64> = [(0, 1), (1, 1), (2, 1), (3, 4)].into_iter().collect();
    assert_eq!(a.value_counts, expected);
    assert_eq!(a.lenbits, 2);
    assert_eq!(a.full_path, "root.value");
}

#[test]
fn averages_round_down() {
    let mut a = metrics(1, 8, &[], &[], (1, 0, 2, 5));
    let b = metrics(1, 8, &[], &[], (2, 0, 2, 6));
    assert!(a.try_merge_many(&[&b]).is_ok());
    assert_eq!(a.lz_matches, 1);
    assert_eq!(a.zstd_size, 2);
    assert_eq!(a.original_size, 5);
}

#[test]
fn merging_nothing_keeps_the_metrics() {
    let mut a = metrics(3, 4, &[(1, 2)], &[(5, 3)], (7, 8, 9, 10));
    assert!(a.try_merge_many(&[]).is_ok());
    assert_eq!(a.count, 3);
    assert_eq!(a.lz_matches, 7);
    assert_eq!(a.bit_counts, vec![BitStats { zeros: 1, ones: 2 }]);
    assert_eq!(a.value_counts.get(&5), Some(&3));
}

#[test]
fn field_length_mismatch_changes_nothing() {
    let mut a = metrics(3, 4, &[(1, 2)], &[(5, 3)], (7, 8, 9, 10));
    let b = metrics(3, 4, &[(1, 2)], &[(5, 3)], (7, 8, 9, 10));
    let c = metrics(3, 5, &[(1, 2)], &[(5, 3)], (7, 8, 9, 10));
    assert!(matches!(
        a.try_merge_many(&[&b, &c]),
        Err(AnalysisMergeError::FieldLengthMismatch(4, 5))
    ));
    assert_eq!(a.count, 3);
    assert_eq!(a.bit_counts, vec![BitStats { zeros: 1, ones: 2 }]);
    assert_eq!(a.value_counts.get(&5), Some(&3));
}

#[test]
fn bit_count_mismatch_stops_after_the_earlier_ones() {
    let mut a = metrics(1, 4, &[(1, 0)], &[(1, 1)], (0, 0, 0, 0));
    let b = metrics(1, 4, &[(0, 1)], &[(1, 2)], (0, 0, 0, 0));
    let c = metrics(1, 4, &[(0, 1), (1, 0)], &[(9, 9)], (0, 0, 0, 0));
    assert!(matches!(a.try_merge_many(&[&b, &c]), Err(AnalysisMergeError::BitCountsDontMatch)));
    assert_eq!(a.count, 3);
    assert_eq!(a.bit_counts, vec![BitStats { zeros: 1, ones: 1 }]);
    assert_eq!(a.value_counts.get(&1), Some(&3));
    assert_eq!(a.value_counts.get(&9), None);
}

#[test]
fn overflowing_merges_are_recognised() {
    let a = metrics(u64::MAX, 4, &[], &[], (0, 0, 0, 0));
    let b = metrics(1, 4, &[], &[], (0, 0, 0, 0));
    assert!(!a.can_merge(&[&b]));
    let c = metrics(1, 4, &[], &[(7, u64::MAX)], (0, 0, 0, 0));
    let d = metrics(1, 4, &[], &[(7, 1)], (0, 0, 0, 0));
    assert!(!c.can_merge(&[&d]));
    let e = metrics(1, 4, &[(u64::MAX, 0)], &[], (0, 0, 0, 0));
    let f = metrics(1, 4, &[(1, 0)], &[], (0, 0, 0, 0));
    assert!(!e.can_merge(&[&f]));
    // A length mismatch fails before any sum is taken.
    let g = metrics(1, 5, &[], &[], (0, 0, 0, 0));
    assert!(a.can_merge(&[&g]));
}

#[test]
fn value_counts_are_sorted_most_frequent_first() {
    let m = metrics(10, 4, &[], &[(1, 2), (2, 5), (3, 1), (4, 2)], (0, 0, 0, 0));
    let sorted = m.sorted_value_counts();
    assert_eq!(sorted.len(), 4);
    assert_eq!(sorted[0], (2, 5));
    assert_eq!(sorted[3], (3, 1));
    let middle: Vec<u64> = sorted[1..3].iter().map(|p| p.0).collect();
    assert!(middle.contains(&1) && middle.contains(&4));
    assert!(sorted.windows(2).all(|w| w[0].1 >= w[1].1));
}

#[test]
fn parent_path_of_field_metrics() {
    let m = metrics(0, 1, &[], &[], (0, 0, 0, 0));
    assert_eq!(m.parent_path(), Some("root"));
    let mut top = metrics(0, 1, &[], &[], (0, 0, 0, 0));
    top.full_path = "root".to_string();
    assert_eq!(top.parent_path(), None);
}

#[test]
fn metrics_of_a_field_state() {
    let mut writer = BitWriterContainer::new(true);
    for _ in 0..200 {
        writer.write(4, 0b1010);
    }
    writer.write(3, 0b111);
    let mut state = AnalyzerFieldState {
        name: "nibble".to_string(),
        full_path: "root.nibble".to_string(),
        depth: 1,
        count: 201,
        lenbits: 4,
        writer,
        bit_counts: vec![BitStats { zeros: 1, ones: 200 }; 4],
        bit_order: BitOrder::Msb,
        value_counts: [(10u64, 200u64), (7, 1)].into_iter().collect(),
    };
    let metrics = field_metrics_of(&mut state, 3).expect("zstandard compresses");
    // 803 bits, padded to 101 bytes.
    assert_eq!(metrics.original_size, 101);
    assert!(metrics.zstd_size > 0 && metrics.zstd_size < 101);
    assert_eq!(metrics.estimated_size, 0);
    // The same bytes over and over are full of LZ matches.
    assert!(metrics.lz_matches > 0);
    assert_eq!(metrics.count, 201);
    assert_eq!(metrics.full_path, "root.nibble");
    assert_eq!(metrics.bit_counts, state.bit_counts);
    assert_eq!(metrics.value_counts, state.value_counts);
    assert_eq!(state.writer.len_bits(), 808);
    assert_eq!(state.writer.as_bytes().last(), Some(&0b1110_0000));
}

#[test]
fn field_lz_matches_average_per_field_rounding_down() {
    let items = vec![vec![1, 10, 100], vec![2, 11, 101], vec![4, 12]];
    assert_eq!(average_field_lz_matches(&items), Some(vec![2, 11, 67]));
    // An empty first list gives no fields, whatever follows.
    assert_eq!(average_field_lz_matches(&[vec![], vec![5]]), Some(vec![]));
}

#[test]
fn field_lz_matches_have_no_average_where_lists_do_not_fit() {
    assert_eq!(average_field_lz_matches(&[]), None);
    // A later list with more fields than the first.
    assert_eq!(average_field_lz_matches(&[vec![1], vec![1, 2]]), None);
    // A sum beyond u64::MAX.
    assert_eq!(average_field_lz_matches(&[vec![u64::MAX], vec![1]]), None);
}
