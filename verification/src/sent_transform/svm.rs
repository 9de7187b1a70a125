//! Exemplar ranking: one query against the whole corpus, as a two-class
//! linear classification problem.
//!
//! The library states the problem (rows, labels, class weights, fixed
//! settings) and checks what comes back. Solving it is floating-point work
//! and is done by a function that the caller supplies.
use vstd::prelude::*;
use vstd::string::StringExecFns;
use crate::errors::decimal;
use crate::errors::append_decimal;
use crate::errors::Error;

verus! {

/// An exact non-negative fraction. The solver divides it out.
#[derive(Clone, Copy, Debug, PartialEq, Eq)]
pub struct Ratio {
    pub numerator: u128,
    pub denominator: u128,
}

/// The settings that every exemplar problem is solved with. They do not
/// depend on the query, so that equal inputs give equal rankings.
#[derive(Clone, Copy, Debug, PartialEq, Eq)]
pub struct Settings {
    /// Value of the constant extra feature of every row.
    pub bias: Ratio,
    /// Tolerance at which training stops.
    pub stopping_criterion: Ratio,
    /// Cost of a violated constraint, before class weights.
    pub constraints_violation_cost: Ratio,
}

/// A row of a training set: pairs of a feature number, counted from one, and
/// the bit pattern of a single-precision value.
pub type Features = Vec<(u32, u32)>;

/// The training set of one exemplar query.
#[derive(Debug)]
pub struct Problem {
    /// Class of each row: 1 for the query, 0 for a corpus vector.
    pub labels: Vec<i32>,
    /// The query's row, then one row for each corpus vector, in corpus order.
    pub features: Vec<Features>,
    /// The classes that carry a weight.
    pub penalty_labels: Vec<i32>,
    /// Weight of each class of `penalty_labels`.
    pub penalty_weights: Vec<Ratio>,
    pub settings: Settings,
}

/// The settings in use: bias 1, tolerance 1/1000000, cost 1/10.
pub open spec fn fixed_settings() -> Settings {
    Settings {
        bias: Ratio { numerator: 1, denominator: 1 },
        stopping_criterion: Ratio { numerator: 1, denominator: 1_000_000 },
        constraints_violation_cost: Ratio { numerator: 1, denominator: 10 },
    }
}

/// The row that stands for the vector `v`: feature `i + 1` holds `v[i]`.
pub open spec fn features_of(v: Seq<u32>) -> Seq<(u32, u32)> {
    Seq::new(v.len(), |i: int| ((i + 1) as u32, v[i]))
}

/// Labels of an exemplar problem over `n` corpus vectors.
pub open spec fn exemplar_labels(n: nat) -> Seq<i32> {
    Seq::new(n + 1, |i: int| if i == 0 { 1i32 } else { 0i32 })
}

/// Rows of the exemplar problem of `query` against `corpus`.
pub open spec fn exemplar_rows(query: Seq<u32>, corpus: Seq<Seq<u32>>) -> Seq<Seq<(u32, u32)>> {
    Seq::new(
        corpus.len() + 1,
        |i: int| if i == 0 { features_of(query) } else { features_of(corpus[i - 1]) },
    )
}

/// Balancing weight of a class with `members` rows out of `samples`:
/// `samples / (2 * members)`.
pub open spec fn class_weight(samples: nat, members: nat) -> Ratio {
    Ratio { numerator: samples as u128, denominator: (2 * members) as u128 }
}

/// The views of the vectors of `vectors`, in order.
pub open spec fn vectors_view(vectors: Seq<Vec<u32>>) -> Seq<Seq<u32>> {
    Seq::new(vectors.len(), |i: int| vectors[i]@)
}

/// Whether an exemplar problem can be stated for these inputs: the corpus
/// is not empty, and every feature number fits in 32 bits.
pub open spec fn problem_exists(query: Seq<u32>, corpus: Seq<Seq<u32>>) -> bool {
    &&& corpus.len() > 0
    &&& query.len() <= u32::MAX
    &&& forall|i: int| 0 <= i < corpus.len() ==> (#[trigger] corpus[i]).len() <= u32::MAX
}

impl Problem {
    /// The views of the rows, in order.
    pub open spec fn rows(self) -> Seq<Seq<(u32, u32)>> {
        Seq::new(self.features@.len(), |i: int| self.features@[i]@)
    }

    /// Whether this is the exemplar problem of `query` against `corpus`:
    /// the query first with label 1, each corpus vector after it with label
    /// 0, class 0 weighted by its `corpus.len()` rows and class 1 by its
    /// single row, under the fixed settings.
    pub open spec fn is_exemplar_of(self, query: Seq<u32>, corpus: Seq<Seq<u32>>) -> bool {
        &&& self.labels@ == exemplar_labels(corpus.len())
        &&& self.rows() == exemplar_rows(query, corpus)
        &&& self.penalty_labels@ == seq![0i32, 1i32]
        &&& self.penalty_weights@ == seq![
            class_weight(corpus.len() + 1, corpus.len()),
            class_weight(corpus.len() + 1, 1),
        ]
        &&& self.settings == fixed_settings()
    }
}

/// Turns a vector into a training row, numbering its features from one.
pub fn vec_to_features(vec: &Vec<u32>) -> (row: Features)
    requires
        vec.len() <= u32::MAX,
    ensures
        row@ == features_of(vec@),
{
    let mut row: Features = Vec::new();
    let mut idx: usize = 0;
    while idx < vec.len()
        invariant
            idx <= vec.len() <= u32::MAX,
            row@ == features_of(vec@.subrange(0, idx as int)),
        decreases vec.len() - idx,
    {
        row.push(((idx + 1) as u32, vec[idx]));
        idx += 1;
        assert(row@ =~= features_of(vec@.subrange(0, idx as int)));
    }
    assert(vec@.subrange(0, idx as int) =~= vec@);
    row
}

/// The position of the first vector of `vectors` with more than `u32::MAX`
/// components, if there is one.
fn first_oversized(vectors: &Vec<Vec<u32>>) -> (found: Option<usize>)
    ensures
        found is None ==> forall|i: int|
            0 <= i < vectors.len() ==> (#[trigger] vectors[i]).len() <= u32::MAX,
        found matches Some(p) ==> p < vectors.len() && vectors[p as int].len() > u32::MAX,
{
    let mut i: usize = 0;
    while i < vectors.len()
        invariant
            i <= vectors.len(),
            forall|j: int| 0 <= j < i ==> (#[trigger] vectors[j]).len() <= u32::MAX,
        decreases vectors.len() - i,
    {
        if vectors[i].len() > u32::MAX as usize {
            return Some(i);
        }
        i += 1;
    }
    None
}

/// States the exemplar problem of `query` against `vectors`.
///
/// Fails with [`Error::Solver`] when the corpus is empty, or when a vector
/// has more components than feature numbers exist.
pub fn exemplar_problem(query: &Vec<u32>, vectors: &Vec<Vec<u32>>) -> (r: Result<Problem, Error>)
    ensures
        r is Ok <==> problem_exists(query@, vectors_view(vectors@)),
        r matches Ok(p) ==> p.is_exemplar_of(query@, vectors_view(vectors@)),
        r matches Err(e) ==> e matches Error::Solver { reason } && reason@ == (if vectors.len()
            == 0 {
            "empty corpus"@
        } else {
            "too many dimensions"@
        }),
{
    let ghost corpus = vectors_view(vectors@);
    let n = vectors.len();
    if n == 0 {
        return Err(Error::Solver { reason: String::from_str("empty corpus") });
    }
    if query.len() > u32::MAX as usize || first_oversized(vectors).is_some() {
        proof {
            if query.len() <= u32::MAX {
                let p = choose|p: int| 0 <= p < vectors.len() && vectors[p].len() > u32::MAX;
                assert(corpus[p].len() > u32::MAX);
            }
        }
        return Err(Error::Solver { reason: String::from_str("too many dimensions") });
    }
    assert(problem_exists(query@, corpus)) by {
        assert forall|i: int| 0 <= i < corpus.len() implies (#[trigger] corpus[i]).len()
            <= u32::MAX by {
            assert(vectors[i].len() <= u32::MAX);
        }
    }
    let mut labels: Vec<i32> = Vec::new();
    let mut features: Vec<Features> = Vec::new();
    labels.push(1);
    features.push(vec_to_features(query));
    let mut i: usize = 0;
    while i < n
        invariant
            i <= n == vectors.len(),
            corpus == vectors_view(vectors@),
            forall|j: int| 0 <= j < vectors.len() ==> (#[trigger] vectors[j]).len() <= u32::MAX,
            labels@ == exemplar_labels(i as nat),
            features@.len() == i + 1,
            forall|j: int| 0 <= j <= i ==> (#[trigger] features@[j])@ == exemplar_rows(
                query@,
                corpus,
            )[j],
        decreases n - i,
    {
        labels.push(0);
        features.push(vec_to_features(&vectors[i]));
        i += 1;
        assert(labels@ =~= exemplar_labels(i as nat));
    }
    let samples: u128 = n as u128 + 1;
    let mut penalty_labels: Vec<i32> = Vec::new();
    penalty_labels.push(0);
    penalty_labels.push(1);
    let mut penalty_weights: Vec<Ratio> = Vec::new();
    penalty_weights.push(Ratio { numerator: samples, denominator: 2 * (n as u128) });
    penalty_weights.push(Ratio { numerator: samples, denominator: 2 });
    let settings = Settings {
        bias: Ratio { numerator: 1, denominator: 1 },
        stopping_criterion: Ratio { numerator: 1, denominator: 1_000_000 },
        constraints_violation_cost: Ratio { numerator: 1, denominator: 10 },
    };
    let problem = Problem { labels, features, penalty_labels, penalty_weights, settings };
    assert(problem.rows() =~= exemplar_rows(query@, corpus));
    assert(problem.penalty_labels@ =~= seq![0i32, 1i32]);
    assert(problem.penalty_weights@ =~= seq![
        class_weight(corpus.len() + 1, corpus.len()),
        class_weight(corpus.len() + 1, 1),
    ]);
    Ok(problem)
}

/// Text of the error for an answer with the wrong number of decision values.
pub open spec fn wrong_count_text(expected: nat, found: nat) -> Seq<char> {
    "expected "@ + decimal(expected) + " decision values, found "@ + decimal(found)
}

/// What [`check_decisions`] makes of a solver's answer for a corpus of
/// `expected` vectors: the decision values if there is one for each vector,
/// and a [`Error::Solver`] with the solver's own words, or with the two
/// counts, if not.
pub open spec fn checked(
    outcome: Result<Vec<u32>, String>,
    expected: nat,
    r: Result<Vec<u32>, Error>,
) -> bool {
    match outcome {
        Ok(decisions) => if decisions@.len() == expected {
            r == Ok::<Vec<u32>, Error>(decisions)
        } else {
            r matches Err(Error::Solver { reason }) && reason@ == wrong_count_text(
                expected,
                decisions@.len(),
            )
        },
        Err(message) => r matches Err(Error::Solver { reason }) && reason@ == message@,
    }
}

/// Accepts a solver's answer if it holds one decision value for each of the
/// `expected` corpus vectors.
pub fn check_decisions(outcome: Result<Vec<u32>, String>, expected: usize) -> (r: Result<
    Vec<u32>,
    Error,
>)
    ensures
        checked(outcome, expected as nat, r),
{
    match outcome {
        Ok(decisions) => {
            if decisions.len() == expected {
                Ok(decisions)
            } else {
                let mut reason = String::from_str("expected ");
                append_decimal(&mut reason, expected);
                reason.append(" decision values, found ");
                append_decimal(&mut reason, decisions.len());
                Err(Error::Solver { reason })
            }
        },
        Err(message) => Err(Error::Solver { reason: message }),
    }
}

/// Scores every vector of `vectors` by how far it lies on the query's side
/// of a boundary that separates `q` from all of them.
///
/// `solver` trains on the problem it is handed and answers with the decision
/// value of each corpus row, in order, as single-precision bit patterns. It
/// is called once, and only where the problem can be stated.
pub fn svm<S>(q: &Vec<u32>, vectors: &Vec<Vec<u32>>, solver: S) -> (r: Result<Vec<u32>, Error>)
    where S: FnOnce(&Problem) -> Result<Vec<u32>, String>
    requires
        forall|p: Problem|
            p.is_exemplar_of(q@, vectors_view(vectors@)) ==> call_requires(solver, (&p,)),
    ensures
        !problem_exists(q@, vectors_view(vectors@)) ==> (r matches Err(Error::Solver { reason })
            && reason@ == (if vectors.len() == 0 {
            "empty corpus"@
        } else {
            "too many dimensions"@
        })),
        problem_exists(q@, vectors_view(vectors@)) ==> exists|
            p: Problem,
            outcome: Result<Vec<u32>, String>,
        |
            p.is_exemplar_of(q@, vectors_view(vectors@)) && #[trigger] call_ensures(
                solver,
                (&p,),
                outcome,
            ) && checked(outcome, vectors.len() as nat, r),
{
    match exemplar_problem(q, vectors) {
        Err(e) => Err(e),
        Ok(problem) => {
            let outcome = solver(&problem);
            let ghost answered = outcome;
            let r = check_decisions(outcome, vectors.len());
            assert(call_ensures(solver, (&problem,), answered));
            r
        },
    }
}

} // verus!
