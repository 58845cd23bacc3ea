pub mod hashing_util;
pub mod vector_utils;
