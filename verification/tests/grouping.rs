use single_utilities::traits::ZeroVec;
use single_utilities::types::{Direction, DistanceMetric, NetworkError};
use single_utilities::utils::validate_net;

fn strings(v: &[&str]) -> Vec<String> {
    v.iter().map(|s| s.to_string()).collect()
}

#[test]
fn grouping_splits_contiguous_runs() {
    let m = validate_net(
        strings(&["a", "a", "b"]),
        strings(&["x", "y", "x"]),
        None,
        false,
    )
    .unwrap();
    assert_eq!(m.len(), 2);
    assert_eq!(m[0].0, "a");
    assert_eq!(
        m[0].1,
        vec![("x".to_string(), 1.0f32.to_bits()), ("y".to_string(), 1.0f32.to_bits())]
    );
    assert_eq!(m[1].0, "b");
    assert_eq!(m[1].1, vec![("x".to_string(), 1.0f32.to_bits())]);
}

#[test]
fn grouping_deduplicates_last_write_wins() {
    let m = validate_net(
        strings(&["a", "a", "a"]),
        strings(&["x", "y", "x"]),
        Some(vec![2.0f32.to_bits(), 3.0f32.to_bits(), 7.0f32.to_bits()]),
        false,
    )
    .unwrap();
    assert_eq!(m.len(), 1);
    // "x" keeps its first position and its last weight.
    assert_eq!(
        m[0].1,
        vec![("x".to_string(), 7.0f32.to_bits()), ("y".to_string(), 3.0f32.to_bits())]
    );
}

#[test]
fn grouping_non_contiguous_key_keeps_last_run() {
    // "a" occurs in two disjoint runs; the later run replaces the earlier
    // entry in place.
    let m = validate_net(
        strings(&["a", "b", "a"]),
        strings(&["x", "y", "z"]),
        None,
        false,
    )
    .unwrap();
    assert_eq!(m.len(), 2);
    assert_eq!(m[0].0, "a");
    assert_eq!(m[0].1, vec![("z".to_string(), 1.0f32.to_bits())]);
    assert_eq!(m[1].0, "b");
    assert_eq!(m[1].1, vec![("y".to_string(), 1.0f32.to_bits())]);
}

#[test]
fn grouping_rejects_length_mismatch() {
    let r = validate_net(strings(&["a", "b"]), strings(&["x"]), None, false);
    assert_eq!(r.err().unwrap(), NetworkError::LengthMismatch);
    let r2 = validate_net(
        strings(&["a"]),
        strings(&["x"]),
        Some(vec![1.0f32.to_bits(), 2.0f32.to_bits()]),
        false,
    );
    assert_eq!(r2.err().unwrap(), NetworkError::LengthMismatch);
}

#[test]
fn grouping_empty_input_gives_empty_map() {
    let m = validate_net(Vec::new(), Vec::new(), None, false).unwrap();
    assert!(m.is_empty());
}

#[test]
fn direction_is_row() {
    assert!(Direction::ROW.is_row());
    assert!(!Direction::COLUMN.is_row());
    let d = Direction::ROW.clone();
    assert!(d.is_row());
}

#[test]
fn distance_metric_variants_are_copyable() {
    let m = DistanceMetric::Euclidean;
    let c = m;
    assert!(matches!(c, DistanceMetric::Euclidean));
    assert!(matches!(DistanceMetric::Manhattan, DistanceMetric::Manhattan));
    assert!(matches!(DistanceMetric::Cosine, DistanceMetric::Cosine));
}

#[test]
fn zero_len_fills_with_defaults() {
    let mut v: Vec<u32> = vec![9, 9];
    v.zero_len(4);
    assert_eq!(v, vec![0, 0, 0, 0]);
    let mut s: Vec<String> = vec!["abc".to_string()];
    s.zero_len(2);
    assert_eq!(s, vec![String::new(), String::new()]);
    let mut e: Vec<u8> = vec![1, 2, 3];
    e.zero_len(0);
    assert!(e.is_empty());
}
