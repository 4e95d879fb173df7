pub mod cache;
pub mod model;

pub use cache::Cache;
