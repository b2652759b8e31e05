//! The record store: an append-only collection of records in which the
//! `(text, embedding_type)` pair is the one identity key. Appending an
//! already-present key is refused as a duplicate and leaves the store
//! unchanged; clearing is idempotent.

use vstd::prelude::*;
use crate::record::{
    has_key, key_matches, lemma_append_preserves_uniqueness, record_views, unique_keys, Record,
    RecordView, StoreError,
};

verus! {

/// An in-memory image of one store instance's append-only record log, in log
/// order. Its invariant, [`unique_keys`], is established by [`Self::new`] and
/// preserved by every operation.
pub struct EmbeddingService {
    pub records: Vec<Record>,
}

impl View for EmbeddingService {
    type V = Seq<RecordView>;

    open spec fn view(&self) -> Seq<RecordView> {
        record_views(self.records@)
    }
}

impl EmbeddingService {
    /// Whether the store's uniqueness invariant holds.
    pub open spec fn wf(&self) -> bool {
        unique_keys(self@)
    }

    /// Creates an empty store.
    pub fn new() -> (s: Self)
        ensures
            s@ == Seq::<RecordView>::empty(),
            s.wf(),
    {
        let s = EmbeddingService { records: Vec::new() };
        proof {
            assert(s@ =~= Seq::<RecordView>::empty());
        }
        s
    }

    /// The records of the store, in log order.
    pub fn read_all(&self) -> (r: &Vec<Record>)
        ensures
            record_views(r@) == self@,
    {
        &self.records
    }

    /// Appends one record, unless its `(text, embedding_type)` key is
    /// already present; in that case the append is refused with a
    /// [`StoreError::Duplicate`] naming the category, and the store is left
    /// unchanged. The append is refused if and only if the key is present.
    pub fn save_embedding(
        &mut self,
        text: &str,
        embedding: &Vec<u64>,
        model_name: &str,
        embedding_type: &str,
    ) -> (r: Result<(), StoreError>)
        requires
            old(self).wf(),
        ensures
            final(self).wf(),
            r is Err <==> has_key(old(self)@, text@, embedding_type@),
            r matches Err(e) ==> ({
                &&& e matches StoreError::Duplicate { embedding_type: c } && c@ == embedding_type@
                &&& final(self)@ == old(self)@
            }),
            r is Ok ==> final(self)@ == old(self)@.push(
                RecordView {
                    text: text@,
                    embedding: embedding@,
                    model: model_name@,
                    embedding_type: embedding_type@,
                },
            ),
    {
        let text_key: String = text.to_owned();
        let category_key: String = embedding_type.to_owned();
        let n = self.records.len();
        let mut i: usize = 0;
        while i < n
            invariant
                i <= n,
                n == self.records@.len(),
                self@ == old(self)@,
                unique_keys(self@),
                text_key@ == text@,
                category_key@ == embedding_type@,
                forall|j: int|
                    0 <= j < i ==> !key_matches(
                        record_views(self.records@)[j],
                        text@,
                        embedding_type@,
                    ),
            decreases n - i,
        {
            let rec = &self.records[i];
            if rec.text == text_key && rec.embedding_type == category_key {
                proof {
                    assert(key_matches(record_views(self.records@)[i as int], text@,
                        embedding_type@));
                }
                return Err(StoreError::Duplicate { embedding_type: category_key });
            }
            i += 1;
        }
        proof {
            assert(!has_key(self@, text@, embedding_type@));
        }
        let rec = Record {
            text: text_key,
            embedding: embedding.clone(),
            model: model_name.to_owned(),
            embedding_type: category_key,
        };
        let ghost rv = RecordView {
            text: text@,
            embedding: embedding@,
            model: model_name@,
            embedding_type: embedding_type@,
        };
        proof {
            assert(rec@ =~= rv);
            lemma_append_preserves_uniqueness(self@, rv);
        }
        let ghost before = self.records@;
        self.records.push(rec);
        proof {
            assert(self@ =~= record_views(before).push(rv));
        }
        Ok(())
    }

    /// Removes every record. Idempotent: clearing an empty (or never-filled)
    /// store succeeds and leaves it empty.
    pub fn clear_data(&mut self)
        ensures
            final(self)@ == Seq::<RecordView>::empty(),
            final(self).wf(),
    {
        self.records.clear();
        proof {
            assert(self@ =~= Seq::<RecordView>::empty());
        }
    }
}

} // verus!
