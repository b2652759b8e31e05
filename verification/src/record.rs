//! The data model: stored records, per-query comparison results, and the
//! error taxonomy, together with the key facts about the `(text, category)`
//! identity key.

use vstd::prelude::*;

verus! {

/// One stored embedding. The vector is a sequence of IEEE-754
/// double-precision bit patterns; `model` is informational only and is not
/// part of the record's identity. The pair `(text, embedding_type)` is the
/// store's only identity key.
#[derive(Debug)]
pub struct Record {
    pub text: String,
    pub embedding: Vec<u64>,
    pub model: String,
    pub embedding_type: String,
}

/// The mathematical value of a [`Record`].
#[verifier::ext_equal]
pub ghost struct RecordView {
    pub text: Seq<char>,
    pub embedding: Seq<u64>,
    pub model: Seq<char>,
    pub embedding_type: Seq<char>,
}

impl View for Record {
    type V = RecordView;

    open spec fn view(&self) -> RecordView {
        RecordView {
            text: self.text@,
            embedding: self.embedding@,
            model: self.model@,
            embedding_type: self.embedding_type@,
        }
    }
}

/// The values of a sequence of records.
pub open spec fn record_views(s: Seq<Record>) -> Seq<RecordView> {
    s.map_values(|r: Record| r@)
}

/// One ranked answer of a similarity query. `similarity` is the IEEE-754
/// double bit pattern of the cosine similarity; `embedding` is present only
/// when the caller asked for vectors in the response.
#[derive(Debug)]
pub struct ComparisonResult {
    pub text: String,
    pub similarity: u64,
    pub embedding: Option<Vec<u64>>,
    pub embedding_type: String,
}

/// The mathematical value of a [`ComparisonResult`].
#[verifier::ext_equal]
pub ghost struct ResultView {
    pub text: Seq<char>,
    pub similarity: u64,
    pub embedding: Option<Seq<u64>>,
    pub embedding_type: Seq<char>,
}

impl View for ComparisonResult {
    type V = ResultView;

    open spec fn view(&self) -> ResultView {
        ResultView {
            text: self.text@,
            similarity: self.similarity,
            embedding: match self.embedding {
                Some(v) => Some(v@),
                None => None,
            },
            embedding_type: self.embedding_type@,
        }
    }
}

/// The values of a sequence of comparison results.
pub open spec fn result_views(s: Seq<ComparisonResult>) -> Seq<ResultView> {
    s.map_values(|c: ComparisonResult| c@)
}

/// The error taxonomy of the store and the ranker.
#[derive(Debug)]
pub enum StoreError {
    /// An append was rejected because its `(text, embedding_type)` key is
    /// already present; the offending category is named.
    Duplicate { embedding_type: String },
    /// A persisted log line could not be parsed as a record.
    MalformedLog,
    /// A query over the whole store, with no category filter, found nothing
    /// at all to compare against.
    NoResults,
}

impl StoreError {
    /// A human-readable description of the error.
    pub fn message(&self) -> (r: String)
        ensures
            self matches StoreError::Duplicate { embedding_type: c } ==> r@
                == "duplicate text entry for type "@ + c@,
            self is MalformedLog ==> r@ == "malformed record line in log"@,
            self is NoResults ==> r@ == "No similar embeddings found"@,
    {
        match self {
            StoreError::Duplicate { embedding_type } => {
                let head: String = "duplicate text entry for type ".to_owned();
                head.concat(embedding_type.as_str())
            },
            StoreError::MalformedLog => "malformed record line in log".to_owned(),
            StoreError::NoResults => "No similar embeddings found".to_owned(),
        }
    }
}

/// Whether record value `r` carries the identity key `(text, category)`.
pub open spec fn key_matches(r: RecordView, text: Seq<char>, category: Seq<char>) -> bool {
    r.text == text && r.embedding_type == category
}

/// Whether some record of `s` carries the identity key `(text, category)`.
pub open spec fn has_key(s: Seq<RecordView>, text: Seq<char>, category: Seq<char>) -> bool {
    exists|i: int| 0 <= i < s.len() && key_matches(s[i], text, category)
}

/// The store's invariant: no two records share an identity key.
pub open spec fn unique_keys(s: Seq<RecordView>) -> bool {
    forall|i: int, j: int|
        0 <= i < j < s.len() ==> !key_matches(
            s[j],
            s[i].text,
            s[i].embedding_type,
        )
}

/// How many records of `s` carry the identity key `(text, category)`.
pub open spec fn count_key(s: Seq<RecordView>, text: Seq<char>, category: Seq<char>) -> nat
    decreases s.len(),
{
    if s.len() == 0 {
        0
    } else {
        count_key(s.drop_last(), text, category) + if key_matches(s.last(), text, category) {
            1nat
        } else {
            0nat
        }
    }
}

/// A key that is nowhere in `s` is counted zero times.
pub proof fn lemma_absent_key_count_zero(s: Seq<RecordView>, text: Seq<char>, category: Seq<char>)
    requires
        !has_key(s, text, category),
    ensures
        count_key(s, text, category) == 0,
    decreases s.len(),
{
    if s.len() > 0 {
        assert(!has_key(s.drop_last(), text, category)) by {
            if has_key(s.drop_last(), text, category) {
                let i = choose|i: int|
                    0 <= i < s.drop_last().len() && key_matches(s.drop_last()[i], text, category);
                assert(key_matches(s[i], text, category));
            }
        }
        lemma_absent_key_count_zero(s.drop_last(), text, category);
        assert(!key_matches(s.last(), text, category)) by {
            assert(s[s.len() - 1] == s.last());
        }
    }
}

/// Appending a record whose key is new keeps all keys unique.
///
/// Together with the contract of `EmbeddingService::save_embedding`, this is
/// the uniqueness law: no sequence of appends ever produces two records with
/// the same `(text, embedding_type)` pair.
pub proof fn lemma_append_preserves_uniqueness(s: Seq<RecordView>, r: RecordView)
    requires
        unique_keys(s),
        !has_key(s, r.text, r.embedding_type),
    ensures
        unique_keys(s.push(r)),
{
    let s2 = s.push(r);
    assert forall|i: int, j: int| 0 <= i < j < s2.len() implies !key_matches(
        s2[j],
        s2[i].text,
        s2[i].embedding_type,
    ) by {
        if j == s.len() {
            if key_matches(s2[j], s2[i].text, s2[i].embedding_type) {
                assert(key_matches(s[i], r.text, r.embedding_type));
            }
        }
    }
}

/// Appending a key once and then attempting it again leaves exactly one
/// record with that key: the first append makes the key present (so a second
/// append is refused as a duplicate), and the key is counted exactly once.
pub proof fn lemma_append_idempotent(s: Seq<RecordView>, r: RecordView)
    requires
        !has_key(s, r.text, r.embedding_type),
    ensures
        has_key(s.push(r), r.text, r.embedding_type),
        count_key(s.push(r), r.text, r.embedding_type) == 1,
{
    let s2 = s.push(r);
    assert(key_matches(s2[s.len() as int], r.text, r.embedding_type));
    lemma_absent_key_count_zero(s, r.text, r.embedding_type);
    assert(s2.drop_last() =~= s);
    assert(s2.last() == r);
}

/// Appending the same text under two different categories succeeds for both
/// and retains both: the first append does not make the second key present,
/// and after both appends both keys are in the store.
pub proof fn lemma_category_independence(s: Seq<RecordView>, r1: RecordView, r2: RecordView)
    requires
        r1.text == r2.text,
        r1.embedding_type != r2.embedding_type,
        !has_key(s, r1.text, r1.embedding_type),
        !has_key(s, r2.text, r2.embedding_type),
    ensures
        !has_key(s.push(r1), r2.text, r2.embedding_type),
        has_key(s.push(r1).push(r2), r1.text, r1.embedding_type),
        has_key(s.push(r1).push(r2), r2.text, r2.embedding_type),
{
    let s1 = s.push(r1);
    assert(!has_key(s1, r2.text, r2.embedding_type)) by {
        if has_key(s1, r2.text, r2.embedding_type) {
            let i = choose|i: int| 0 <= i < s1.len() && key_matches(s1[i], r2.text, r2.embedding_type);
            if i < s.len() {
                assert(key_matches(s[i], r2.text, r2.embedding_type));
            }
        }
    }
    let s2 = s1.push(r2);
    assert(key_matches(s2[s.len() as int], r1.text, r1.embedding_type));
    assert(key_matches(s2[s.len() as int + 1], r2.text, r2.embedding_type));
}

} // verus!
