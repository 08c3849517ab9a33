//! A typed, document-oriented access layer over an embedded ordered
//! key-value engine.
//!
//! The library exposes named *collections* (column families) of typed
//! records addressed by string keys.  On top of the raw engine it layers
//! typed (de)serialization through a binary codec, bulk range retrieval
//! with forward/reverse traversal and paging, a path-expression query
//! evaluator, and collection-level backup/restore through sorted-string
//! table export and ingest.

pub mod codec;
pub mod errors;
pub mod model;
pub mod query;
pub mod query_eval;
pub mod query_parse;
pub mod range;
pub mod store;
pub mod types;
pub mod value;
pub mod wire;

pub use codec::MessagePackSerializer;
pub use errors::KvStoreError;
pub use query_eval::{query_records, query_records_with_keys};
pub use range::{get_range_slice, get_range_slice_with_keys};
pub use store::{delete_check, encode_batch, open_plan, read_value, require_collection};
pub use types::size_from_properties;
pub use types::{CFSize, Direction, KeyValuePair};
pub use value::DocValue;
