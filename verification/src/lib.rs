pub mod error;
pub mod graph;
pub mod hasher;
pub mod index;
pub mod linalg;
pub mod type_utils;
