//! Content-addressed summary cache kept in sync with a directory tree.
//!
//! A scan compares each file's recorded modification time with the one in a
//! directory snapshot, queues changed files in a bounded backlog, hashes their
//! contents, summarizes cache misses through an external provider, and commits
//! digest and summary records in atomic batches to a two-table store.

pub mod backlog;
pub mod digest;
pub mod index;
pub mod laws;
pub mod pathkey;
pub mod persist;
pub mod store;
pub mod summarize;
pub mod table;
pub mod types;

pub use index::SummaryIndex;
pub use store::Store;
pub use types::FileDigest;
pub use types::FileSummary;
