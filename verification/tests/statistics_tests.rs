//! Statistics: medians, averages and percentage change, in fixed-point
//! millionths.

use ips_core::statistics::{centrality_avg, degree_centrality_avg, median, percentage_change};
use ips_core::UNIT;

#[test]
fn statistics_median_test() {
    let list = vec![10 * UNIT];
    assert_eq!(median(&list).unwrap(), 10 * UNIT);

    let list = vec![1 * UNIT, 2 * UNIT, 3 * UNIT, 4 * UNIT, 5 * UNIT];
    assert_eq!(median(&list).unwrap(), 3 * UNIT);

    let list = vec![1 * UNIT, 2 * UNIT, 3 * UNIT, 4 * UNIT, 5 * UNIT, 6 * UNIT];
    assert_eq!(median(&list).unwrap(), 3_500_000);

    let list = vec![
        1 * UNIT,
        2 * UNIT,
        3 * UNIT,
        4 * UNIT,
        5 * UNIT,
        6 * UNIT,
        7 * UNIT,
    ];
    assert_eq!(median(&list).unwrap(), 4 * UNIT);
}

#[test]
fn statistics_median_test_empty() {
    let list: Vec<i64> = Vec::new();
    assert!(median(&list).is_none());
}

#[test]
fn utils_median_test() {
    let list = vec![10 * UNIT];
    assert_eq!(median(&list).unwrap(), 10 * UNIT);

    let list = vec![5 * UNIT, 1 * UNIT, 4 * UNIT, 2 * UNIT, 3 * UNIT];
    assert_eq!(median(&list).unwrap(), 3 * UNIT);

    let list = vec![6 * UNIT, 5 * UNIT, 4 * UNIT, 3 * UNIT, 2 * UNIT, 1 * UNIT];
    assert_eq!(median(&list).unwrap(), 3_500_000);

    let list = vec![
        7 * UNIT,
        6 * UNIT,
        5 * UNIT,
        4 * UNIT,
        3 * UNIT,
        2 * UNIT,
        1 * UNIT,
    ];
    assert_eq!(median(&list).unwrap(), 4 * UNIT);
}

#[test]
fn utils_median_test_empty() {
    let list: Vec<i64> = Vec::new();
    assert!(median(&list).is_none());
}

#[test]
fn degree_centrality_avg_test() {
    let degrees: Vec<u32> = vec![1, 2, 3, 4];
    assert_eq!(degree_centrality_avg(&degrees), 2_500_000);
}

#[test]
fn ips_degree_centrality_avg_empty_test() {
    let degrees: Vec<u32> = Vec::new();
    assert_eq!(degree_centrality_avg(&degrees), 0);
}

#[test]
fn statistics_degree_centrality_avg_empty_test() {
    let degrees: Vec<u32> = Vec::new();
    assert_eq!(degree_centrality_avg(&degrees), 0);
}

#[test]
fn centrality_avg_empty_test() {
    let vals: Vec<i64> = Vec::new();
    assert_eq!(centrality_avg(&vals), 0);
}

#[test]
fn centrality_avg_values_test() {
    let vals: Vec<i64> = vec![1 * UNIT, 2 * UNIT, 3 * UNIT];
    assert_eq!(centrality_avg(&vals), 2 * UNIT);
}

#[test]
fn percentage_change_test() {
    // 100 -> 200 is +100%; 100 -> 50 is -50%; unchanged is 0%.
    assert_eq!(percentage_change(100 * UNIT, 200 * UNIT), 100 * UNIT);
    assert_eq!(percentage_change(100 * UNIT, 50 * UNIT), -50 * UNIT);
    assert_eq!(percentage_change(100 * UNIT, 100 * UNIT), 0);
    assert_eq!(percentage_change(0, 0), 0);
}
