//! A fixed-capacity, in-memory key-value cache with least-recently-used
//! eviction, per-entry access statistics, and frequency-ordered iteration.

pub mod cache;
pub mod statistics;

pub use cache::Cache;
pub use cache::CacheIter;
pub use cache::CacheIterFrequency;
pub use cache::CacheKey;
pub use cache::Metadata;
pub use cache::SortOrder;
pub use statistics::Statistics;
