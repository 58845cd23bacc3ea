use simcache::search::cosine_strategy::CosineProduct;
use simcache::search::distance_metric::{metric_from_name, DistanceMetric, MetricKind};
use simcache::search::dot_strategy::DotProduct;
use simcache::search::euclidean_strategy::EuclideanProduct;

#[test]
fn cosine_of_vector_with_itself_is_zero() {
    // [3, 4] has an exact integer norm, so no rounding slack remains.
    let v: Vec<i64> = vec![3, 4];
    assert_eq!(CosineProduct.distance(&v, &v), 0);
}

#[test]
fn cosine_of_opposite_vectors_is_two() {
    let v: Vec<i64> = vec![3, 4];
    let w: Vec<i64> = vec![-3, -4];
    assert_eq!(CosineProduct.distance(&v, &w), 2_000_000);
}

#[test]
fn cosine_of_zero_vector_is_one() {
    let z: Vec<i64> = vec![0, 0];
    let v: Vec<i64> = vec![5, 12];
    assert_eq!(CosineProduct.distance(&z, &v), 1_000_000);
    assert_eq!(CosineProduct.distance(&v, &z), 1_000_000);
    assert_eq!(CosineProduct.distance(&z, &z), 1_000_000);
}

#[test]
fn cosine_of_orthogonal_vectors_is_one() {
    let v: Vec<i64> = vec![1, 0];
    let w: Vec<i64> = vec![0, 1];
    assert_eq!(CosineProduct.distance(&v, &w), 1_000_000);
}

#[test]
fn euclidean_distance_of_vector_with_itself_is_zero() {
    let v: Vec<i64> = vec![7, -2];
    assert_eq!(EuclideanProduct.distance(&v, &v), 0);
}

#[test]
fn euclidean_distance_is_sum_of_squared_differences() {
    let v: Vec<i64> = vec![0, 0];
    let w: Vec<i64> = vec![3, 4];
    assert_eq!(EuclideanProduct.distance(&v, &w), 25);
}

#[test]
fn dot_distance_is_negated_dot_product() {
    let v: Vec<i64> = vec![1, 2];
    let w: Vec<i64> = vec![3, 4];
    assert_eq!(DotProduct.distance(&v, &w), -11);
}

#[test]
fn dot_distance_minimized_where_similarity_maximized() {
    let q: Vec<i64> = vec![1, 0];
    let near: Vec<i64> = vec![9, 0];
    let far: Vec<i64> = vec![1, 5];
    assert!(DotProduct.distance(&q, &near) < DotProduct.distance(&q, &far));
}

#[test]
fn metric_names_resolve_case_insensitively() {
    assert_eq!(metric_from_name(&String::from("cosine")), Some(MetricKind::Cosine));
    assert_eq!(metric_from_name(&String::from("euclidean")), Some(MetricKind::Euclidean));
    assert_eq!(metric_from_name(&String::from("dot-product")), Some(MetricKind::DotProduct));
    assert_eq!(metric_from_name(&String::from("Cosine")), Some(MetricKind::Cosine));
    assert_eq!(metric_from_name(&String::from("EUCLIDEAN")), Some(MetricKind::Euclidean));
    assert_eq!(metric_from_name(&String::from("Dot-Product")), Some(MetricKind::DotProduct));
    assert_eq!(metric_from_name(&String::from("manhattan")), None);
    assert_eq!(metric_from_name(&String::from("cosine ")), None);
}
