//! The similarity ranker: given the store's records and, for each record,
//! the cosine similarity of the query against it (as an IEEE-754 double bit
//! pattern), produce the deterministic ranked answer: de-duplicate by key
//! (first occurrence wins), skip the exact self-match, apply the category
//! filter, fall back to similarity zero for zero vectors, sort by similarity
//! descending with ties kept in log order, and truncate to the requested
//! count. An empty final answer is an error exactly when no category filter
//! was supplied.

use vstd::prelude::*;
use crate::record::{record_views, result_views, ComparisonResult, Record, RecordView, ResultView,
    StoreError};
use crate::store::EmbeddingService;

verus! {

/// Sign bit of an IEEE-754 double-precision bit pattern.
pub const SIGN_BIT: u64 = 0x8000_0000_0000_0000;

/// The order key of a similarity score given as an IEEE-754 double bit
/// pattern: a map into `u64` that is strictly increasing in the numeric value
/// of the double (for the non-NaN patterns), so that comparing keys as
/// unsigned integers compares the scores.
pub open spec fn sim_key(bits: u64) -> u64 {
    if bits & SIGN_BIT != 0 {
        !bits
    } else {
        bits | SIGN_BIT
    }
}

/// Computes the order key of a similarity score.
pub fn similarity_order_key(bits: u64) -> (k: u64)
    ensures
        k == sim_key(bits),
{
    if bits & SIGN_BIT != 0 {
        !bits
    } else {
        bits | SIGN_BIT
    }
}

/// Whether every component of the vector is a zero (the bit pattern of
/// `+0.0` or `-0.0`), so that the vector's norm is zero and cosine
/// similarity against it is undefined.
pub open spec fn zero_bits(v: Seq<u64>) -> bool {
    forall|i: int| 0 <= i < v.len() ==> (v[i] == 0 || v[i] == SIGN_BIT)
}

/// Decides whether a vector consists only of zero components.
pub fn is_zero_vector(v: &Vec<u64>) -> (r: bool)
    ensures
        r == zero_bits(v@),
{
    let mut i: usize = 0;
    while i < v.len()
        invariant
            i <= v@.len(),
            forall|k: int| 0 <= k < i ==> (v@[k] == 0 || v@[k] == SIGN_BIT),
        decreases v@.len() - i,
    {
        if !(v[i] == 0 || v[i] == SIGN_BIT) {
            return false;
        }
        i += 1;
    }
    true
}

/// The value of an optional category filter.
pub open spec fn opt_view(o: Option<String>) -> Option<Seq<char>> {
    match o {
        Some(f) => Some(f@),
        None => None,
    }
}

/// One query's fixed parameters, as mathematical values.
#[verifier::ext_equal]
pub ghost struct QueryView {
    /// The query's own text, used for self-exclusion.
    pub text: Seq<char>,
    /// The category filter, if one was supplied.
    pub filter: Option<Seq<char>>,
    /// Whether the query vector consists only of zero components.
    pub qzero: bool,
    /// Whether matched vectors are carried in the results.
    pub with_vectors: bool,
}

/// Whether record `i` is the first record of `s` with its key.
pub open spec fn is_first_key(s: Seq<RecordView>, i: int) -> bool {
    forall|j: int|
        0 <= j < i ==> !(s[j].text == s[i].text && s[j].embedding_type == s[i].embedding_type)
}

/// Whether record value `r` is the query's own record: same text, and the
/// query is scoped by a filter to exactly this record's category. Without a
/// filter no self-exclusion is attempted.
pub open spec fn self_match(r: RecordView, q: QueryView) -> bool {
    match q.filter {
        Some(f) => r.text == q.text && r.embedding_type == f,
        None => false,
    }
}

/// Whether record value `r` passes the category filter (exact match; no
/// filter admits everything).
pub open spec fn passes_filter(r: RecordView, q: QueryView) -> bool {
    match q.filter {
        Some(f) => r.embedding_type == f,
        None => true,
    }
}

/// Whether record `i` of `s` survives selection for query `q`: first of its
/// key, not the self-match, and admitted by the filter.
pub open spec fn survives(s: Seq<RecordView>, i: int, q: QueryView) -> bool {
    &&& is_first_key(s, i)
    &&& !self_match(s[i], q)
    &&& passes_filter(s[i], q)
}

/// The similarity attributed to a record: the supplied cosine score, except
/// that a zero query vector or a zero record vector falls back to similarity
/// zero (the bit pattern of `+0.0`) instead of an undefined value.
pub open spec fn effective_sim(q: QueryView, r: RecordView, sim: u64) -> u64 {
    if q.qzero || zero_bits(r.embedding) {
        0u64
    } else {
        sim
    }
}

/// The answer row built from record value `r` with supplied score `sim`.
pub open spec fn candidate_view(r: RecordView, sim: u64, q: QueryView) -> ResultView {
    ResultView {
        text: r.text,
        similarity: effective_sim(q, r, sim),
        embedding: if q.with_vectors {
            Some(r.embedding)
        } else {
            None
        },
        embedding_type: r.embedding_type,
    }
}

/// The surviving answer rows drawn from the first `n` records, in log order.
pub open spec fn candidates_upto(
    s: Seq<RecordView>,
    sims: Seq<u64>,
    q: QueryView,
    n: int,
) -> Seq<ResultView>
    decreases n,
{
    if n <= 0 {
        Seq::empty()
    } else {
        let pre = candidates_upto(s, sims, q, n - 1);
        if survives(s, n - 1, q) {
            pre.push(candidate_view(s[n - 1], sims[n - 1], q))
        } else {
            pre
        }
    }
}

/// The surviving answer rows of the whole store, in log order.
pub open spec fn candidates(s: Seq<RecordView>, sims: Seq<u64>, q: QueryView) -> Seq<ResultView> {
    candidates_upto(s, sims, q, s.len() as int)
}

/// Insertion of `x` into a descending-sorted sequence: `x` goes after every
/// element whose key is at least its own, so that among equal keys the
/// earlier-inserted element stays first.
pub open spec fn insert_desc(s: Seq<ResultView>, x: ResultView) -> Seq<ResultView>
    decreases s.len(),
{
    if s.len() == 0 {
        seq![x]
    } else if sim_key(s[0].similarity) >= sim_key(x.similarity) {
        seq![s[0]] + insert_desc(s.drop_first(), x)
    } else {
        seq![x] + s
    }
}

/// Stable sort by similarity descending: the rows are inserted in their
/// original order, so ties keep that order.
pub open spec fn sort_desc(s: Seq<ResultView>) -> Seq<ResultView>
    decreases s.len(),
{
    if s.len() == 0 {
        Seq::empty()
    } else {
        insert_desc(sort_desc(s.drop_last()), s.last())
    }
}

/// Whether the sequence is sorted by similarity descending.
pub open spec fn sorted_desc(s: Seq<ResultView>) -> bool {
    forall|i: int, j: int|
        0 <= i < j < s.len() ==> sim_key(s[i].similarity) >= sim_key(s[j].similarity)
}

/// The answer truncated to `top_k` rows, when a bound was supplied.
pub open spec fn truncated(s: Seq<ResultView>, top_k: Option<usize>) -> Seq<ResultView> {
    match top_k {
        Some(k) => if k < s.len() {
            s.take(k as int)
        } else {
            s
        },
        None => s,
    }
}

/// The full ranked answer of a query: the surviving rows, sorted by
/// similarity descending with ties in log order, truncated to `top_k`.
pub open spec fn compare_spec(
    s: Seq<RecordView>,
    sims: Seq<u64>,
    q: QueryView,
    top_k: Option<usize>,
) -> Seq<ResultView> {
    truncated(sort_desc(candidates(s, sims, q)), top_k)
}

/// Inserting at the boundary position realizes `insert_desc`: if every row
/// before `p` has key at least `x`'s and the row at `p` (if any) has a
/// smaller key, then `insert_desc` places `x` exactly at `p`.
pub proof fn lemma_insert_desc_at(s: Seq<ResultView>, x: ResultView, p: int)
    requires
        0 <= p <= s.len(),
        forall|q: int| 0 <= q < p ==> sim_key(s[q].similarity) >= sim_key(x.similarity),
        p < s.len() ==> sim_key(s[p].similarity) < sim_key(x.similarity),
    ensures
        insert_desc(s, x) == s.take(p) + seq![x] + s.skip(p),
    decreases s.len(),
{
    if p == 0 {
        if s.len() == 0 {
            assert(insert_desc(s, x) =~= s.take(0) + seq![x] + s.skip(0));
        } else {
            assert(insert_desc(s, x) =~= s.take(0) + seq![x] + s.skip(0));
        }
    } else {
        let d = s.drop_first();
        assert(forall|q: int| 0 <= q < p - 1 ==> sim_key(d[q].similarity) >= sim_key(
            x.similarity,
        ));
        lemma_insert_desc_at(d, x, p - 1);
        assert(insert_desc(s, x) =~= s.take(p) + seq![x] + s.skip(p)) by {
            assert(insert_desc(s, x) == seq![s[0]] + insert_desc(d, x));
            assert(insert_desc(d, x) == d.take(p - 1) + seq![x] + d.skip(p - 1));
        }
    }
}

/// Inserting into a descending-sorted sequence keeps it sorted, lengthens it
/// by one, and adds no row but `x`.
pub proof fn lemma_insert_desc_props(s: Seq<ResultView>, x: ResultView)
    requires
        sorted_desc(s),
    ensures
        sorted_desc(insert_desc(s, x)),
        insert_desc(s, x).len() == s.len() + 1,
        forall|e: ResultView|
            #[trigger] insert_desc(s, x).contains(e) ==> (s.contains(e) || e == x),
    decreases s.len(),
{
    let t = insert_desc(s, x);
    if s.len() == 0 {
    } else if sim_key(s[0].similarity) >= sim_key(x.similarity) {
        let d = s.drop_first();
        let td = insert_desc(d, x);
        lemma_insert_desc_props(d, x);
        assert(t == seq![s[0]] + td);
        assert forall|e: ResultView| #[trigger] t.contains(e) implies (s.contains(e) || e == x) by {
            let i = choose|i: int| 0 <= i < t.len() && t[i] == e;
            if i == 0 {
                assert(s[0] == e);
            } else {
                assert(td.contains(td[i - 1]));
                if d.contains(td[i - 1]) {
                    let j = choose|j: int| 0 <= j < d.len() && d[j] == td[i - 1];
                    assert(s[j + 1] == e);
                }
            }
        }
        assert forall|i: int, j: int| 0 <= i < j < t.len() implies sim_key(t[i].similarity)
            >= sim_key(t[j].similarity) by {
            if i == 0 {
                assert(td.contains(td[j - 1]));
                if d.contains(td[j - 1]) {
                    let m = choose|m: int| 0 <= m < d.len() && d[m] == td[j - 1];
                    assert(s[m + 1] == td[j - 1]);
                }
            }
        }
    } else {
        assert(t == seq![x] + s);
    }
}

/// The stable descending sort keeps the length and invents no rows.
pub proof fn lemma_sort_desc_props(s: Seq<ResultView>)
    ensures
        sorted_desc(sort_desc(s)),
        sort_desc(s).len() == s.len(),
        forall|e: ResultView| #[trigger] sort_desc(s).contains(e) ==> s.contains(e),
    decreases s.len(),
{
    if s.len() > 0 {
        let d = s.drop_last();
        lemma_sort_desc_props(d);
        lemma_insert_desc_props(sort_desc(d), s.last());
        assert forall|e: ResultView| #[trigger] sort_desc(s).contains(e) implies s.contains(e) by {
            if sort_desc(d).contains(e) {
                let j = choose|j: int| 0 <= j < d.len() && d[j] == e;
                assert(s[j] == e);
            } else {
                assert(s[s.len() - 1] == s.last());
            }
        }
    }
}

/// Every row of the candidate list passes the category filter; in
/// particular, with a filter every candidate's category equals it.
pub proof fn lemma_candidates_filtered(s: Seq<RecordView>, sims: Seq<u64>, q: QueryView, n: int)
    requires
        n <= s.len(),
    ensures
        forall|i: int|
            0 <= i < candidates_upto(s, sims, q, n).len() ==> passes_filter_row(
                candidates_upto(s, sims, q, n)[i],
                q,
            ),
    decreases n,
{
    if n > 0 {
        lemma_candidates_filtered(s, sims, q, n - 1);
        let pre = candidates_upto(s, sims, q, n - 1);
        let cur = candidates_upto(s, sims, q, n);
        if survives(s, n - 1, q) {
            let x = candidate_view(s[n - 1], sims[n - 1], q);
            assert(cur == pre.push(x));
            assert(passes_filter_row(x, q));
            assert forall|i: int| 0 <= i < cur.len() implies passes_filter_row(cur[i], q) by {
                if i < pre.len() {
                    assert(passes_filter_row(pre[i], q));
                } else {
                    assert(cur[i] == x);
                }
            }
        }
    }
}

/// Whether an answer row's category is admitted by the filter.
pub open spec fn passes_filter_row(r: ResultView, q: QueryView) -> bool {
    match q.filter {
        Some(f) => r.embedding_type == f,
        None => true,
    }
}

/// Filter correctness: with a category filter every row of the ranked,
/// truncated answer carries exactly that category.
pub proof fn lemma_filter_correctness(
    s: Seq<RecordView>,
    sims: Seq<u64>,
    q: QueryView,
    top_k: Option<usize>,
    f: Seq<char>,
)
    requires
        q.filter == Some(f),
    ensures
        forall|i: int|
            0 <= i < compare_spec(s, sims, q, top_k).len() ==> compare_spec(
                s,
                sims,
                q,
                top_k,
            )[i].embedding_type == f,
{
    let cand = candidates(s, sims, q);
    let full = sort_desc(cand);
    let out = compare_spec(s, sims, q, top_k);
    lemma_candidates_filtered(s, sims, q, s.len() as int);
    lemma_sort_desc_props(cand);
    assert forall|i: int| 0 <= i < out.len() implies out[i].embedding_type == f by {
        assert(out[i] == full[i]);
        assert(full.contains(full[i]));
        let j = choose|j: int| 0 <= j < cand.len() && cand[j] == full[i];
        assert(passes_filter_row(cand[j], q));
    }
}

/// Top-k correctness: the answer holds the smaller of `k` and the number of
/// surviving candidates, and every retained row's similarity key is at least
/// every excluded row's.
pub proof fn lemma_top_k_correctness(s: Seq<RecordView>, sims: Seq<u64>, q: QueryView, k: usize)
    ensures
        ({
            let cand = candidates(s, sims, q);
            let full = sort_desc(cand);
            let out = compare_spec(s, sims, q, Some(k));
            &&& out.len() == (if (k as int) < cand.len() {
                k as int
            } else {
                cand.len() as int
            })
            &&& forall|i: int, j: int|
                0 <= i < out.len() && out.len() <= j < full.len() ==> sim_key(out[i].similarity)
                    >= sim_key(full[j].similarity)
        }),
{
    let cand = candidates(s, sims, q);
    let full = sort_desc(cand);
    lemma_sort_desc_props(cand);
}

/// Ranking determinism: the ranked answer is a function of the store's
/// records, the supplied scores and the query parameters alone, so any two
/// answers that meet the ranker's contract for the same arguments are equal.
pub proof fn lemma_rank_deterministic(
    s: Seq<RecordView>,
    sims: Seq<u64>,
    q: QueryView,
    top_k: Option<usize>,
    r1: Seq<ResultView>,
    r2: Seq<ResultView>,
)
    requires
        r1 == compare_spec(s, sims, q, top_k),
        r2 == compare_spec(s, sims, q, top_k),
    ensures
        r1 == r2,
{
}

/// An empty store yields an empty answer for every query; combined with the
/// ranker's contract, such a query fails with `NoResults` exactly when no
/// category filter was supplied, while a filtered query over any store that
/// merely matches nothing returns an empty answer without error.
pub proof fn lemma_empty_store_yields_nothing(sims: Seq<u64>, q: QueryView, top_k: Option<usize>)
    ensures
        compare_spec(Seq::<RecordView>::empty(), sims, q, top_k).len() == 0,
{
    let cand = candidates(Seq::<RecordView>::empty(), sims, q);
    lemma_sort_desc_props(cand);
}

/// Decides whether record `i` is the first record of the log with its
/// `(text, embedding_type)` key.
#[verifier::loop_isolation(false)]
fn is_first_occurrence(records: &Vec<Record>, i: usize) -> (r: bool)
    requires
        i < records@.len(),
    ensures
        r == is_first_key(record_views(records@), i as int),
{
    let mut j: usize = 0;
    while j < i
        invariant
            j <= i,
            forall|t: int|
                0 <= t < j ==> !(record_views(records@)[t].text == record_views(
                    records@,
                )[i as int].text && record_views(records@)[t].embedding_type == record_views(
                    records@,
                )[i as int].embedding_type),
        decreases i - j,
    {
        if records[j].text == records[i].text && records[j].embedding_type == records[
            i
        ].embedding_type {
            proof {
                assert(record_views(records@)[j as int].text == record_views(
                    records@,
                )[i as int].text);
                assert(record_views(records@)[j as int].embedding_type == record_views(
                    records@,
                )[i as int].embedding_type);
            }
            return false;
        }
        j += 1;
    }
    true
}

impl EmbeddingService {
    /// Ranks the store against one query. `embedding` is the query vector's
    /// bit patterns; `sims` pairs with the store's records in log order, and
    /// `sims[i]` is the cosine similarity of the query vector against record
    /// `i`'s vector, as an IEEE-754 double bit pattern. The answer is the
    /// surviving records (first of each key, self-match skipped, filter
    /// applied), each scored with its supplied similarity — or zero where
    /// either vector is a zero vector — sorted by similarity descending with
    /// ties in log order, truncated to `top_k`. An empty final answer is
    /// refused with [`StoreError::NoResults`] exactly when no category
    /// filter was supplied.
    #[verifier::loop_isolation(false)]
    pub fn compare_embeddings(
        &self,
        text: &str,
        embedding: &Vec<u64>,
        sims: &Vec<u64>,
        top_k: Option<usize>,
        with_embeddings: bool,
        embedding_type: Option<String>,
    ) -> (r: Result<Vec<ComparisonResult>, StoreError>)
        requires
            sims@.len() == self@.len(),
        ensures
            ({
                let q = QueryView {
                    text: text@,
                    filter: opt_view(embedding_type),
                    qzero: zero_bits(embedding@),
                    with_vectors: with_embeddings,
                };
                let out = compare_spec(self@, sims@, q, top_k);
                &&& (r is Err <==> (out.len() == 0 && embedding_type is None))
                &&& (r matches Err(e) ==> e is NoResults)
                &&& (r matches Ok(v) ==> result_views(v@) == out)
            }),
    {
        let ghost q = QueryView {
            text: text@,
            filter: opt_view(embedding_type),
            qzero: zero_bits(embedding@),
            with_vectors: with_embeddings,
        };
        let qzero = is_zero_vector(embedding);
        let text_key: String = text.to_owned();
        let n = self.records.len();
        let mut cands: Vec<ComparisonResult> = Vec::new();
        let mut i: usize = 0;
        while i < n
            invariant
                i <= n,
                result_views(cands@) == candidates_upto(self@, sims@, q, i as int),
            decreases n - i,
        {
            let first = is_first_occurrence(&self.records, i);
            let rec = &self.records[i];
            let matches_self: bool = match &embedding_type {
                Some(f) => rec.text == text_key && rec.embedding_type == *f,
                None => false,
            };
            let admitted: bool = match &embedding_type {
                Some(f) => rec.embedding_type == *f,
                None => true,
            };
            proof {
                assert(record_views(self.records@)[i as int] == self.records@[i as int]@);
                assert(first == is_first_key(self@, i as int));
                assert(matches_self == self_match(self@[i as int], q));
                assert(admitted == passes_filter(self@[i as int], q));
            }
            if first && !matches_self && admitted {
                let rzero = is_zero_vector(&rec.embedding);
                let simv: u64 = if qzero || rzero {
                    0
                } else {
                    sims[i]
                };
                let vectors: Option<Vec<u64>> = if with_embeddings {
                    let c = rec.embedding.clone();
                    proof {
                        assert(c@ =~= rec.embedding@);
                    }
                    Some(c)
                } else {
                    None
                };
                let row = ComparisonResult {
                    text: rec.text.clone(),
                    similarity: simv,
                    embedding: vectors,
                    embedding_type: rec.embedding_type.clone(),
                };
                proof {
                    assert(row@ == candidate_view(self@[i as int], sims@[i as int], q));
                    assert(survives(self@, i as int, q));
                    assert(result_views(cands@.push(row)) =~= result_views(cands@).push(row@));
                }
                cands.push(row);
            } else {
                proof {
                    assert(!survives(self@, i as int, q));
                }
            }
            i += 1;
        }
        let ghost allv = candidates(self@, sims@, q);
        proof {
            assert(result_views(cands@) == allv);
        }
        let mut sorted: Vec<ComparisonResult> = Vec::new();
        let ghost mut done: int = 0;
        while cands.len() > 0
            invariant
                0 <= done <= allv.len(),
                result_views(cands@) == allv.skip(done),
                cands@.len() + done == allv.len(),
                result_views(sorted@) == sort_desc(allv.take(done)),
            decreases cands@.len(),
        {
            let ghost prev = cands@;
            let x = cands.remove(0);
            proof {
                assert(x@ == result_views(prev)[0]);
                assert(x@ == allv[done]);
                assert forall|t: int| 0 <= t < cands@.len() implies result_views(cands@)[t]
                    == allv.skip(done + 1)[t] by {
                    assert(cands@[t] == prev[t + 1]);
                    assert(result_views(prev)[t + 1] == allv.skip(done)[t + 1]);
                }
                assert(result_views(cands@) =~= allv.skip(done + 1));
            }
            let xk = similarity_order_key(x.similarity);
            let mut p: usize = 0;
            while p < sorted.len() && similarity_order_key(sorted[p].similarity) >= xk
                invariant
                    p <= sorted@.len(),
                    forall|t: int|
                        0 <= t < p ==> sim_key(result_views(sorted@)[t].similarity) >= sim_key(
                            x@.similarity,
                        ),
                decreases sorted@.len() - p,
            {
                p += 1;
            }
            proof {
                lemma_insert_desc_at(result_views(sorted@), x@, p as int);
            }
            let ghost pres = sorted@;
            sorted.insert(p, x);
            proof {
                assert(result_views(sorted@) =~= result_views(pres).take(p as int) + seq![x@]
                    + result_views(pres).skip(p as int));
                assert(result_views(sorted@) == insert_desc(result_views(pres), x@));
                assert(allv.take(done + 1).drop_last() =~= allv.take(done));
                assert(allv.take(done + 1).last() == allv[done]);
                assert(sort_desc(allv.take(done + 1)) == insert_desc(
                    sort_desc(allv.take(done)),
                    allv[done],
                ));
                done = done + 1;
            }
        }
        proof {
            assert(allv.take(done) =~= allv);
            assert(result_views(sorted@) == sort_desc(allv));
        }
        if let Some(k) = top_k {
            if k < sorted.len() {
                let ghost pret = sorted@;
                sorted.truncate(k);
                proof {
                    assert(result_views(sorted@) =~= result_views(pret).take(k as int));
                }
            }
        }
        proof {
            assert(result_views(sorted@) == compare_spec(self@, sims@, q, top_k));
        }
        if sorted.len() == 0 && embedding_type.is_none() {
            return Err(StoreError::NoResults);
        }
        Ok(sorted)
    }
}

} // verus!
