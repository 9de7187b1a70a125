//! Ranking a corpus of embeddings against a query.
//!
//! A score is the bit pattern of a single-precision number. Scores are
//! compared as the numbers they stand for; the two zeros are equal.
use vstd::prelude::*;
use crate::errors::Error;
use crate::sent_transform::svm::check_decisions;
use crate::sent_transform::svm::svm;
use crate::sent_transform::svm::problem_exists;
use crate::sent_transform::svm::vectors_view;
use crate::sent_transform::svm::wrong_count_text;
use crate::sent_transform::svm::Problem;
use crate::sent_transform::top_k::is_top_k;
use crate::sent_transform::top_k::lemma_top_k_unique;
use crate::sent_transform::top_k::select_top_k;
use crate::sent_transform::top_k::Leaders;

mod heap;
pub mod precedence;
pub mod top_k;
pub mod svm;

verus! {

/// A candidate of a ranking: a position in the corpus and its score.
#[derive(Clone, Copy, Debug, PartialEq, Eq)]
pub struct IndexWithScore {
    pub index: usize,
    pub score: u32,
}

/// The place of a score in the order of scores: a larger number has a larger
/// rank, and the two zeros have rank 0. A bit pattern that stands for no
/// number ranks beyond the infinity of its sign.
pub open spec fn score_rank(bits: u32) -> int {
    if bits < 0x8000_0000 {
        bits as int
    } else {
        0x8000_0000 - bits
    }
}

/// `a` comes before `b` in a ranking: its score is larger, or the scores are
/// equal and it was met earlier.
pub open spec fn outranks(a: IndexWithScore, b: IndexWithScore) -> bool {
    score_rank(a.score) > score_rank(b.score) || (score_rank(a.score) == score_rank(b.score)
        && a.index < b.index)
}

/// Computes [`score_rank`].
pub fn rank_of(bits: u32) -> (rank: i64)
    ensures
        rank == score_rank(bits),
{
    if bits < 0x8000_0000 {
        bits as i64
    } else {
        0x8000_0000i64 - bits as i64
    }
}

/// Whether `b` outranks `a`.
pub fn is_outranked(a: &IndexWithScore, b: &IndexWithScore) -> (r: bool)
    ensures
        r == outranks(*b, *a),
{
    let ra: i64 = rank_of(a.score);
    let rb: i64 = rank_of(b.score);
    rb > ra || (rb == ra && b.index < a.index)
}

/// The score of `a` against `b`, as `inner` computes it, or
/// [`Error::DimensionMismatch`] if the two differ in length.
pub fn dot<F>(a: &Vec<u32>, b: &Vec<u32>, inner: &F) -> (r: Result<u32, Error>)
    where F: Fn(&Vec<u32>, &Vec<u32>) -> u32
    requires
        a.len() == b.len() ==> call_requires(*inner, (a, b)),
    ensures
        a.len() != b.len() ==> (r matches Err(
            Error::DimensionMismatch { index, query_len, vector_len },
        ) && index@.len() == 0 && query_len == a.len() && vector_len == b.len()),
        a.len() == b.len() ==> (r matches Ok(s) && call_ensures(*inner, (a, b), s)),
{
    if a.len() != b.len() {
        return Err(
            Error::DimensionMismatch { index: String::new(), query_len: a.len(), vector_len: b.len() },
        );
    }
    Ok(inner(a, b))
}

/// Every vector of the corpus has `query_len` components.
pub open spec fn dimensions_agree(query_len: nat, corpus: Seq<Seq<u32>>) -> bool {
    forall|i: int| 0 <= i < corpus.len() ==> (#[trigger] corpus[i]).len() == query_len
}

/// `p` is the first position of the corpus whose vector does not have
/// `query_len` components.
pub open spec fn first_mismatch(query_len: nat, corpus: Seq<Seq<u32>>, p: int) -> bool {
    &&& 0 <= p < corpus.len()
    &&& corpus[p].len() != query_len
    &&& forall|i: int| 0 <= i < p ==> (#[trigger] corpus[i]).len() == query_len
}

/// `e` reports the first vector of the corpus that differs from the query
/// in dimension, and names the collection `name`.
pub open spec fn reports_mismatch_in(
    e: Error,
    name: Seq<char>,
    query_len: nat,
    corpus: Seq<Seq<u32>>,
) -> bool {
    e matches Error::DimensionMismatch { index, query_len: q, vector_len: v } && index@ == name && q
        == query_len && exists|p: int| #[trigger]
        first_mismatch(query_len, corpus, p) && corpus[p].len() == v
}

/// `e` reports the first vector of the corpus that differs from the query
/// in dimension, and names no collection.
pub open spec fn reports_mismatch(e: Error, query_len: nat, corpus: Seq<Seq<u32>>) -> bool {
    reports_mismatch_in(e, Seq::<char>::empty(), query_len, corpus)
}

/// `e` is `inner` under the collection name `name`: a mismatch of dimensions
/// names the collection, every other error is as it was.
pub open spec fn names_index(e: Error, inner: Error, name: Seq<char>) -> bool {
    match inner {
        Error::DimensionMismatch { index, query_len, vector_len } => e matches Error::DimensionMismatch {
            index: named,
            query_len: q,
            vector_len: v,
        } && named@ == name && q == query_len && v == vector_len,
        _ => e == inner,
    }
}

/// Names the collection in a mismatch of dimensions.
pub fn name_index(inner: Error, name: &String) -> (e: Error)
    ensures
        names_index(e, inner, name@),
{
    match inner {
        Error::DimensionMismatch { index, query_len, vector_len } => Error::DimensionMismatch {
            index: name.clone(),
            query_len,
            vector_len,
        },
        other => other,
    }
}

/// `scores` holds, for each vector of the corpus, a score that `score` gives
/// it against `query`.
pub open spec fn scored_by<F: Fn(&Vec<u32>, &Vec<u32>) -> u32>(
    score: F,
    query: &Vec<u32>,
    vectors: Seq<Vec<u32>>,
    scores: Seq<u32>,
) -> bool {
    &&& scores.len() == vectors.len()
    &&& forall|i: int|
        0 <= i < vectors.len() ==> call_ensures(score, (query, &vectors[i]), #[trigger] scores[i])
}

/// Checks, before anything is scored, that the query and every vector of
/// the corpus have the same dimension.
pub fn check_dimensions(query: &Vec<u32>, vectors: &Vec<Vec<u32>>) -> (r: Result<(), Error>)
    ensures
        r is Ok <==> dimensions_agree(query@.len(), vectors_view(vectors@)),
        r matches Err(e) ==> reports_mismatch(e, query@.len(), vectors_view(vectors@)),
{
    let ghost corpus = vectors_view(vectors@);
    let mut i: usize = 0;
    while i < vectors.len()
        invariant
            i <= vectors.len(),
            corpus == vectors_view(vectors@),
            forall|j: int| 0 <= j < i ==> (#[trigger] corpus[j]).len() == query@.len(),
        decreases vectors.len() - i,
    {
        if vectors[i].len() != query.len() {
            assert(first_mismatch(query@.len(), corpus, i as int));
            return Err(
                Error::DimensionMismatch {
                    index: String::new(),
                    query_len: query.len(),
                    vector_len: vectors[i].len(),
                },
            );
        }
        i += 1;
    }
    Ok(())
}

/// The `results` vectors of the corpus that score highest against `query`,
/// best first; among equal scores the vector met first comes first.
///
/// Dimensions are checked once, before anything is scored: the first vector
/// whose dimension is not the query's is a [`Error::DimensionMismatch`].
/// Then the corpus is scanned once, and `score` is called once for each
/// vector, in corpus order. An empty corpus gives an empty ranking.
pub fn search_knn<F>(query: &Vec<u32>, vectors: &Vec<Vec<u32>>, results: usize, score: F) -> (r:
    Result<Vec<IndexWithScore>, Error>)
    where F: Fn(&Vec<u32>, &Vec<u32>) -> u32
    requires
        forall|i: int|
            0 <= i < vectors.len() && vectors[i].len() == query.len() ==> call_requires(
                score,
                (query, &#[trigger] vectors[i]),
            ),
    ensures
        r is Ok <==> dimensions_agree(query@.len(), vectors_view(vectors@)),
        vectors.len() == 0 ==> (r matches Ok(items) && items@.len() == 0),
        r matches Ok(items) ==> exists|scores: Seq<u32>| #[trigger]
            scored_by(score, query, vectors@, scores) && is_top_k(scores, results as nat, items@),
        r matches Err(e) ==> reports_mismatch(e, query@.len(), vectors_view(vectors@)),
{
    match check_dimensions(query, vectors) {
        Err(e) => {
            return Err(e);
        },
        Ok(_) => {},
    }
    let ghost corpus = vectors_view(vectors@);
    let mut leaders = Leaders::new(results);
    let mut i: usize = 0;
    while i < vectors.len()
        invariant
            i <= vectors.len(),
            corpus == vectors_view(vectors@),
            dimensions_agree(query@.len(), corpus),
            forall|j: int|
                0 <= j < vectors.len() && vectors[j].len() == query.len() ==> call_requires(
                    score,
                    (query, &#[trigger] vectors[j]),
                ),
            leaders.limit() == results,
            leaders.seen().len() == i,
            forall|j: int|
                0 <= j < i ==> call_ensures(
                    score,
                    (query, &vectors[j]),
                    #[trigger] leaders.seen()[j],
                ),
        decreases vectors.len() - i,
    {
        assert(corpus[i as int].len() == query@.len());
        let s: u32 = score(query, &vectors[i]);
        leaders.offer(s);
        i += 1;
    }
    let ghost scores = leaders.seen();
    let items = leaders.into_sorted();
    assert(scored_by(score, query, vectors@, scores));
    Ok(items)
}

/// What [`rank_decisions`] makes of a solver's answer for a corpus of
/// `expected` vectors: the top-`results` ranking of the decision values if
/// there is one for each vector, and a [`Error::Solver`] with the solver's
/// own words, or with the two counts, if not.
pub open spec fn ranked(
    outcome: Result<Vec<u32>, String>,
    expected: nat,
    results: nat,
    r: Result<Vec<IndexWithScore>, Error>,
) -> bool {
    match outcome {
        Ok(decisions) => if decisions@.len() == expected {
            r matches Ok(items) && is_top_k(decisions@, results, items@)
        } else {
            r matches Err(Error::Solver { reason }) && reason@ == wrong_count_text(
                expected,
                decisions@.len(),
            )
        },
        Err(message) => r matches Err(Error::Solver { reason }) && reason@ == message@,
    }
}

/// Ranks a corpus of `expected` vectors by the decision values that a solver
/// answered with, best first, and keeps the first `results`.
pub fn rank_decisions(outcome: Result<Vec<u32>, String>, expected: usize, results: usize) -> (r:
    Result<Vec<IndexWithScore>, Error>)
    ensures
        ranked(outcome, expected as nat, results as nat, r),
{
    match check_decisions(outcome, expected) {
        Ok(decisions) => Ok(select_top_k(&decisions, results)),
        Err(e) => Err(e),
    }
}

/// `r` is an answer of an exemplar search for `query` in `corpus`: the
/// mismatch in dimension if there is one; else the solver error for a
/// problem that cannot be stated; else what `solver` answered on the
/// problem, ranked.
pub open spec fn searched_exemplar<S: FnOnce(&Problem) -> Result<Vec<u32>, String>>(
    query: Seq<u32>,
    corpus: Seq<Seq<u32>>,
    results: nat,
    solver: S,
    r: Result<Vec<IndexWithScore>, Error>,
) -> bool {
    if !dimensions_agree(query.len(), corpus) {
        r matches Err(e) && reports_mismatch(e, query.len(), corpus)
    } else if !problem_exists(query, corpus) {
        r matches Err(Error::Solver { reason }) && reason@ == (if corpus.len() == 0 {
            "empty corpus"@
        } else {
            "too many dimensions"@
        })
    } else {
        exists|p: Problem, outcome: Result<Vec<u32>, String>|
            p.is_exemplar_of(query, corpus) && #[trigger] call_ensures(solver, (&p,), outcome)
                && ranked(outcome, corpus.len(), results, r)
    }
}

/// The `results` vectors of the corpus that are most like `query`, by a
/// linear classifier trained to tell the query from the whole corpus.
///
/// Dimensions are checked first, as in [`search_knn`]. Then the problem is
/// stated, `solver` is called once on it, and the corpus is ranked by the
/// decision values it answers with. An empty corpus is a
/// [`Error::Solver`], not an empty ranking.
pub fn search_exemplar_svm<S>(
    query: &Vec<u32>,
    vectors: &Vec<Vec<u32>>,
    results: usize,
    solver: S,
) -> (r: Result<Vec<IndexWithScore>, Error>)
    where S: FnOnce(&Problem) -> Result<Vec<u32>, String>
    requires
        forall|p: Problem|
            p.is_exemplar_of(query@, vectors_view(vectors@)) ==> call_requires(solver, (&p,)),
    ensures
        !dimensions_agree(query@.len(), vectors_view(vectors@)) ==> (r matches Err(e)
            && reports_mismatch(e, query@.len(), vectors_view(vectors@))),
        dimensions_agree(query@.len(), vectors_view(vectors@)) && !problem_exists(
            query@,
            vectors_view(vectors@),
        ) ==> (r matches Err(Error::Solver { reason }) && reason@ == (if vectors.len() == 0 {
            "empty corpus"@
        } else {
            "too many dimensions"@
        })),
        dimensions_agree(query@.len(), vectors_view(vectors@)) && problem_exists(
            query@,
            vectors_view(vectors@),
        ) ==> exists|p: Problem, outcome: Result<Vec<u32>, String>|
            p.is_exemplar_of(query@, vectors_view(vectors@)) && #[trigger] call_ensures(
                solver,
                (&p,),
                outcome,
            ) && ranked(outcome, vectors.len() as nat, results as nat, r),
        searched_exemplar(query@, vectors_view(vectors@), results as nat, solver, r),
{
    match check_dimensions(query, vectors) {
        Err(e) => {
            return Err(e);
        },
        Ok(_) => {},
    }
    match svm(query, vectors, solver) {
        Ok(decisions) => Ok(select_top_k(&decisions, results)),
        Err(e) => Err(e),
    }
}

/// Equal answers of the solver give equal rankings: the ranking is a
/// function of the decision values, and the error of the solver's words.
pub proof fn lemma_ranking_repeats(
    first: Result<Vec<u32>, String>,
    second: Result<Vec<u32>, String>,
    expected: nat,
    results: nat,
    r1: Result<Vec<IndexWithScore>, Error>,
    r2: Result<Vec<IndexWithScore>, Error>,
)
    requires
        ranked(first, expected, results, r1),
        ranked(second, expected, results, r2),
        same_outcome(first, second),
    ensures
        same_answer(r1, r2),
{
    if let (Ok(a), Ok(b)) = (first, second) {
        if a@.len() == expected {
            lemma_top_k_unique(a@, results, r1->Ok_0@, r2->Ok_0@);
        }
    }
}

/// Two answers of a solver are the same: the same decision values, or the
/// same words.
pub open spec fn same_outcome(
    first: Result<Vec<u32>, String>,
    second: Result<Vec<u32>, String>,
) -> bool {
    match (first, second) {
        (Ok(a), Ok(b)) => a@ == b@,
        (Err(a), Err(b)) => a@ == b@,
        _ => false,
    }
}

/// Two answers of a search are the same: the same candidates with the same
/// scores in the same order, or errors of the same text.
pub open spec fn same_answer(
    first: Result<Vec<IndexWithScore>, Error>,
    second: Result<Vec<IndexWithScore>, Error>,
) -> bool {
    match (first, second) {
        (Ok(a), Ok(b)) => a@ == b@,
        (Err(a), Err(b)) => a.text() == b.text(),
        _ => false,
    }
}

/// The solver repeats itself on the problem of `query` against `corpus`:
/// whatever `first` can answer on it and whatever `second` can answer on it
/// are the same.
pub open spec fn repeats<S: FnOnce(&Problem) -> Result<Vec<u32>, String>>(
    first: S,
    second: S,
    query: Seq<u32>,
    corpus: Seq<Seq<u32>>,
) -> bool {
    forall|p: Problem, q: Problem, a: Result<Vec<u32>, String>, b: Result<Vec<u32>, String>|
        p.is_exemplar_of(query, corpus) && q.is_exemplar_of(query, corpus) && #[trigger] call_ensures(
            first,
            (&p,),
            a,
        ) && #[trigger] call_ensures(second, (&q,), b) ==> same_outcome(a, b)
}

/// An exemplar search that is made twice, for one query in one corpus and
/// with a solver that repeats itself, gives the same answer twice: the same
/// candidates in the same order with the same scores, bit for bit, or the
/// same error.
pub proof fn lemma_exemplar_search_repeats<S: FnOnce(&Problem) -> Result<Vec<u32>, String>>(
    query: Seq<u32>,
    corpus: Seq<Seq<u32>>,
    results: nat,
    first: S,
    second: S,
    r1: Result<Vec<IndexWithScore>, Error>,
    r2: Result<Vec<IndexWithScore>, Error>,
)
    requires
        searched_exemplar(query, corpus, results, first, r1),
        searched_exemplar(query, corpus, results, second, r2),
        repeats(first, second, query, corpus),
    ensures
        same_answer(r1, r2),
{
    if !dimensions_agree(query.len(), corpus) {
        let m1 = choose|m: int| #[trigger]
            first_mismatch(query.len(), corpus, m) && corpus[m].len() == r1->Err_0->vector_len;
        let m2 = choose|m: int| #[trigger]
            first_mismatch(query.len(), corpus, m) && corpus[m].len() == r2->Err_0->vector_len;
        assert(m1 == m2) by {
            if m1 < m2 {
                assert(corpus[m1].len() == query.len());
            }
            if m2 < m1 {
                assert(corpus[m2].len() == query.len());
            }
        }
    } else if problem_exists(query, corpus) {
        let (p, a) = choose|p: Problem, a: Result<Vec<u32>, String>|
            p.is_exemplar_of(query, corpus) && #[trigger] call_ensures(first, (&p,), a) && ranked(
                a,
                corpus.len(),
                results,
                r1,
            );
        let (q, b) = choose|q: Problem, b: Result<Vec<u32>, String>|
            q.is_exemplar_of(query, corpus) && #[trigger] call_ensures(second, (&q,), b) && ranked(
                b,
                corpus.len(),
                results,
                r2,
            );
        assert(same_outcome(a, b));
        lemma_ranking_repeats(a, b, corpus.len(), results, r1, r2);
    }
}

} // verus!
