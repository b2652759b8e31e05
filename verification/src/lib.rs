//! An append-only embedding store with duplicate detection and a
//! cosine-similarity ranker.
//!
//! Vector components and similarity scores are IEEE-754 double-precision
//! values carried as their 64-bit patterns, so that ordering, the zero-vector
//! fallback, and every storage and ranking decision are made here by exact
//! integer reasoning; the floating-point arithmetic itself is supplied by the
//! caller.

pub mod api;
pub mod rank;
pub mod record;
pub mod store;

pub use api::{
    normalize_model, ClearResponse, CompareRequest, CompareResponse, EmbeddingRequest,
    StoreResponse,
};
pub use rank::{is_zero_vector, similarity_order_key, SIGN_BIT};
pub use record::{ComparisonResult, Record, StoreError};
pub use store::EmbeddingService;
