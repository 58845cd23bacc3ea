pub mod cosine_strategy;
pub mod distance_metric;
pub mod dot_strategy;
pub mod euclidean_strategy;
pub mod ranking;
