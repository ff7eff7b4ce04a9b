pub mod db;
pub mod laws;
pub mod ranking;
pub mod storage;
pub mod types;

pub use db::{LogAppend, VectorDB};
pub use ranking::Neighbor;
pub use storage::{Header, StoredEntry};
pub use types::{DbError, Metadata, Metric, Params, SearchResult};
