//! An in-memory columnar table engine: typed cell values grouped into
//! fixed-schema batches, a table made of batches, relational operations over
//! tables (head, concatenation, equality and comparison filters, stable sort,
//! group-by-sum, hash join), and the boundary-safe splitting that feeds
//! parallel ingestion of delimited text.
pub mod types;
pub mod batch;
pub mod frame;
pub mod text;
pub mod select;
pub mod ingest;
pub mod order;
pub mod join;
pub mod query;
pub mod aggregate;

pub use types::{DataType, FrameError, Field, Value};
pub use batch::{Batch, BatchModel};
pub use frame::DataFrame;
pub use ingest::{plan_segments, scan_boundary, split_offsets};
pub use query::CmpOp;
