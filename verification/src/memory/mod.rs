//! Graph storage, the visited set, the index file format.
pub mod codec;
pub mod csr_format;
pub mod graph;
pub mod layout_laws;
pub mod query_ctx;
pub mod serialize;
pub mod visited;

pub use graph::{GraphStorage, HybridBlockedCsr};
pub use query_ctx::QueryContext;
pub use serialize::{IndexHeader, Serializable, SerializeError, INDEX_MAGIC, INDEX_VERSION};
pub use visited::VisitedTracker;
