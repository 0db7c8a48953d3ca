//! An embedding-indexed, append-only record store.
//!
//! Short text records (product reviews) are kept in two positionally
//! correlated append-only logs: a fixed-width vector log holding one
//! embedding per record, and a line-oriented metadata log holding the
//! record itself. The ordinal position is the sole join key between the
//! two logs. A deterministic encoder turns text into fixed-dimension
//! embeddings, a similarity engine ranks stored embeddings by distance
//! to a query embedding, and a store orchestrates ingestion and queries
//! so that the two logs stay consistent.

pub mod codec;
pub mod encoder;
pub mod error;
pub mod metadata_log;
pub mod record;
pub mod similarity;
pub mod store;
pub mod vector_log;

pub use record::Record;
pub use store::Store;
