pub mod distance;
pub mod utils;
