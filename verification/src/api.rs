//! The service-level request and response shapes, and the rule that picks
//! the embedding model a request resolves to.

use vstd::prelude::*;
use crate::rank::opt_view;
use crate::record::ComparisonResult;

verus! {

/// A request to store one text's embedding under a category.
#[derive(Debug)]
pub struct EmbeddingRequest {
    /// The text to store an embedding for.
    pub text: String,
    /// The requested model name; a missing or unknown name resolves to the
    /// default model.
    pub model: Option<String>,
    /// The category label of the embedding (e.g. "user", "title").
    pub embedding_type: String,
}

/// The answer to a store request.
#[derive(Debug)]
pub struct StoreResponse {
    /// The vector that was computed for the text, as IEEE-754 double bit
    /// patterns.
    pub embedding: Vec<u64>,
    /// Whether the record was newly stored; false means it was refused as a
    /// duplicate.
    pub stored: bool,
}

/// A request to rank the stored embeddings against a text.
#[derive(Debug)]
pub struct CompareRequest {
    /// The text to compare with the stored embeddings.
    pub text: String,
    /// The requested model name; a missing or unknown name resolves to the
    /// default model.
    pub model: Option<String>,
    /// How many top results to return; missing means all.
    pub top_k: Option<usize>,
    /// Whether to carry each matched vector in the response; missing means
    /// no.
    pub with_embeddings: Option<bool>,
    /// The category to compare against; missing means all categories.
    pub embedding_type: Option<String>,
}

/// The answer to a compare request: the ranked results, best first.
#[derive(Debug)]
pub struct CompareResponse {
    pub results: Vec<ComparisonResult>,
}

/// The answer to a clear request.
#[derive(Debug)]
pub struct ClearResponse {
    /// Whether the stored data was cleared.
    pub success: bool,
}

/// The model name a request resolves to: one of the three known embedding
/// models is kept as given; anything else, or no name at all, resolves to
/// the default model.
pub open spec fn resolved_model(m: Option<Seq<char>>) -> Seq<char> {
    match m {
        Some(s) => if s == "text-embedding-3-large"@ || s == "text-embedding-3-small"@ || s
            == "text-embedding-3-base"@ {
            s
        } else {
            "text-embedding-3-large"@
        },
        None => "text-embedding-3-large"@,
    }
}

/// Resolves a requested model name to the model actually used.
pub fn normalize_model(model: Option<String>) -> (r: String)
    ensures
        r@ == resolved_model(opt_view(model)),
{
    let large: String = "text-embedding-3-large".to_owned();
    match model {
        Some(m) => {
            let small: String = "text-embedding-3-small".to_owned();
            let base: String = "text-embedding-3-base".to_owned();
            if m == large || m == small || m == base {
                m
            } else {
                large
            }
        },
        None => large,
    }
}

} // verus!
