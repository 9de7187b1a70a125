//! A collection of texts with their embeddings: the plain collection, and
//! the same collection behind a reader-writer lock.
use vstd::prelude::*;
use vstd::rwlock::RwLock;
use crate::errors::Error;
use crate::sent_transform::dimensions_agree;
use crate::sent_transform::ranked;
use crate::sent_transform::name_index;
use crate::sent_transform::names_index;
use crate::sent_transform::reports_mismatch_in;
use crate::sent_transform::scored_by;
use crate::sent_transform::search_exemplar_svm;
use crate::sent_transform::search_knn;
use crate::sent_transform::svm::problem_exists;
use crate::sent_transform::svm::vectors_view;
use crate::sent_transform::svm::Problem;
use crate::sent_transform::outranks;
use crate::sent_transform::score_rank;
use crate::sent_transform::top_k::candidate;
use crate::sent_transform::top_k::is_top_k;
use crate::sent_transform::top_k::listed;
use crate::sent_transform::IndexWithScore;

verus! {

/// A piece of text and the identifier it is known by.
#[derive(Debug, PartialEq, Eq)]
pub struct TextBody {
    pub id: String,
    pub text: String,
}

impl Clone for TextBody {
    fn clone(&self) -> (copy: TextBody)
        ensures
            copy == *self,
    {
        TextBody { id: self.id.clone(), text: self.text.clone() }
    }
}

/// One line of an answer: a text of the collection and its score, as the
/// bit pattern of a single-precision number.
#[derive(Debug, PartialEq, Eq)]
pub struct SearchResult {
    pub id: String,
    pub text: String,
    pub score: u32,
}

/// The error for texts and embeddings that differ in number.
pub fn err_mesg_unequal_lens<T>(texts_len: usize, embeddings_len: usize) -> (r: Result<T, Error>)
    ensures
        r == Err::<T, Error>(Error::LengthMismatch { texts_len, embeddings_len }),
{
    Err(Error::LengthMismatch { texts_len, embeddings_len })
}

/// `found` presents the ranking `items` with the texts of a collection:
/// line by line, the identifier and text at the candidate's position, and
/// the candidate's score.
pub open spec fn describes(
    texts: Seq<TextBody>,
    items: Seq<IndexWithScore>,
    found: Seq<SearchResult>,
) -> bool {
    &&& found.len() == items.len()
    &&& forall|p: int|
        0 <= p < items.len() ==> {
            &&& (#[trigger] found[p]).id@ == texts[items[p].index as int].id@
            &&& found[p].text@ == texts[items[p].index as int].text@
            &&& found[p].score == items[p].score
        }
}

/// An answer has as many lines as were asked for, or as there are entries;
/// its scores do not increase from line to line; and no entry that is left
/// out has a score above that of a line.
pub proof fn lemma_answer_in_order(
    texts: Seq<TextBody>,
    scores: Seq<u32>,
    k: nat,
    items: Seq<IndexWithScore>,
    found: Seq<SearchResult>,
)
    requires
        is_top_k(scores, k, items),
        describes(texts, items, found),
    ensures
        found.len() == if k <= scores.len() { k } else { scores.len() },
        forall|p: int, q: int|
            0 <= p <= q < found.len() ==> score_rank(#[trigger] found[p].score) >= score_rank(
                #[trigger] found[q].score,
            ),
        forall|p: int, j: int|
            0 <= p < found.len() && 0 <= j < scores.len() && !listed(items, j) ==> score_rank(
                (#[trigger] found[p]).score,
            ) >= score_rank(#[trigger] scores[j]),
{
    assert forall|p: int, q: int| 0 <= p <= q < found.len() implies score_rank(
        #[trigger] found[p].score,
    ) >= score_rank(#[trigger] found[q].score) by {
        if p < q {
            assert(outranks(items[p], items[q]));
        }
    }
    assert forall|p: int, j: int|
        0 <= p < found.len() && 0 <= j < scores.len() && !listed(items, j) implies score_rank(
        (#[trigger] found[p]).score,
    ) >= score_rank(#[trigger] scores[j]) by {
        assert(outranks(items[p], candidate(scores, j)));
    }
}

/// Texts and their embeddings, side by side: the embedding at a position
/// belongs to the text at that position.
pub struct Index {
    texts: Vec<TextBody>,
    embeddings: Vec<Vec<u32>>,
}

fn clone_vector(v: &Vec<u32>) -> (r: Vec<u32>)
    ensures
        r@ == v@,
{
    let r = v.clone();
    assert(r@ =~= v@);
    r
}

impl Index {
    /// The texts, in order.
    pub closed spec fn bodies(&self) -> Seq<TextBody> {
        self.texts@
    }

    /// The embeddings as they are stored, in order.
    pub closed spec fn vectors(&self) -> Seq<Vec<u32>> {
        self.embeddings@
    }

    /// The embeddings, in order.
    pub open spec fn corpus(&self) -> Seq<Seq<u32>> {
        vectors_view(self.vectors())
    }

    /// There is one embedding for each text.
    #[verifier::type_invariant]
    pub open spec fn wf(&self) -> bool {
        self.bodies().len() == self.vectors().len()
    }

    /// The number of entries.
    pub open spec fn size(&self) -> nat {
        self.bodies().len()
    }

    /// A collection of the given texts and embeddings, which must be equal in
    /// number.
    pub fn new(texts: Vec<TextBody>, embeddings: Vec<Vec<u32>>) -> (r: Result<Index, Error>)
        ensures
            r is Ok <==> texts.len() == embeddings.len(),
            r matches Ok(index) ==> index.bodies() == texts@ && index.vectors() == embeddings@,
            r matches Err(e) ==> e == (Error::LengthMismatch {
                texts_len: texts.len(),
                embeddings_len: embeddings.len(),
            }),
    {
        if texts.len() != embeddings.len() {
            return err_mesg_unequal_lens(texts.len(), embeddings.len());
        }
        Ok(Index { texts, embeddings })
    }

    /// A collection without entries.
    pub fn empty() -> (index: Index)
        ensures
            index.size() == 0,
            index.corpus().len() == 0,
    {
        Index { texts: Vec::new(), embeddings: Vec::new() }
    }

    /// Puts the given entries in the place of all that the collection held.
    /// If they differ in number the collection stays as it was.
    pub fn replace_contents(&mut self, texts: Vec<TextBody>, embeddings: Vec<Vec<u32>>) -> (r:
        Result<(), Error>)
        ensures
            r is Ok <==> texts.len() == embeddings.len(),
            r is Ok ==> final(self).bodies() == texts@ && final(self).vectors() == embeddings@,
            r is Ok ==> final(self).size() == texts.len(),
            r matches Err(e) ==> *final(self) == *old(self) && e == (Error::LengthMismatch {
                texts_len: texts.len(),
                embeddings_len: embeddings.len(),
            }),
    {
        if texts.len() != embeddings.len() {
            return err_mesg_unequal_lens(texts.len(), embeddings.len());
        }
        *self = Index { texts, embeddings };
        Ok(())
    }

    /// Moves the given entries to the end of the collection, in their order,
    /// and leaves the two arguments empty. If they differ in number nothing
    /// changes.
    pub fn append_contents(
        &mut self,
        texts: &mut Vec<TextBody>,
        embeddings: &mut Vec<Vec<u32>>,
    ) -> (r: Result<(), Error>)
        ensures
            r is Ok <==> old(texts).len() == old(embeddings).len(),
            r is Ok ==> final(self).size() == old(self).size() + old(texts).len(),
            r is Ok ==> {
                &&& final(self).bodies() == old(self).bodies() + old(texts)@
                &&& final(self).vectors() == old(self).vectors() + old(embeddings)@
                &&& final(texts)@.len() == 0
                &&& final(embeddings)@.len() == 0
            },
            r matches Err(e) ==> {
                &&& *final(self) == *old(self)
                &&& *final(texts) == *old(texts)
                &&& *final(embeddings) == *old(embeddings)
                &&& e == (Error::LengthMismatch {
                    texts_len: old(texts).len(),
                    embeddings_len: old(embeddings).len(),
                })
            },
    {
        if texts.len() != embeddings.len() {
            return err_mesg_unequal_lens(texts.len(), embeddings.len());
        }
        let mut held = Index::empty();
        std::mem::swap(self, &mut held);
        proof {
            use_type_invariant(&held);
        }
        let Index { texts: mut all_texts, embeddings: mut all_embeddings } = held;
        all_texts.append(texts);
        all_embeddings.append(embeddings);
        *self = Index { texts: all_texts, embeddings: all_embeddings };
        Ok(())
    }

    /// A copy of the texts.
    pub fn texts(&self) -> (copy: Vec<TextBody>)
        ensures
            copy@ == self.bodies(),
    {
        let mut copy: Vec<TextBody> = Vec::new();
        let mut i: usize = 0;
        while i < self.texts.len()
            invariant
                i <= self.texts.len(),
                copy@ == self.texts@.subrange(0, i as int),
            decreases self.texts.len() - i,
        {
            copy.push(self.texts[i].clone());
            i += 1;
            assert(copy@ =~= self.texts@.subrange(0, i as int));
        }
        assert(self.texts@.subrange(0, i as int) =~= self.texts@);
        copy
    }

    /// A copy of the embeddings.
    pub fn embeddings(&self) -> (copy: Vec<Vec<u32>>)
        ensures
            vectors_view(copy@) == self.corpus(),
    {
        let mut copy: Vec<Vec<u32>> = Vec::new();
        let mut i: usize = 0;
        while i < self.embeddings.len()
            invariant
                i <= self.embeddings.len(),
                copy@.len() == i,
                forall|j: int| 0 <= j < i ==> (#[trigger] copy@[j])@ == self.embeddings@[j]@,
            decreases self.embeddings.len() - i,
        {
            copy.push(clone_vector(&self.embeddings[i]));
            i += 1;
        }
        assert(vectors_view(copy@) =~= vectors_view(self.embeddings@));
        copy
    }

    /// The number of entries.
    pub fn len(&self) -> (n: usize)
        ensures
            n == self.size(),
    {
        self.texts.len()
    }

    /// Whether there is no entry.
    pub fn is_empty(&self) -> (b: bool)
        ensures
            b == (self.size() == 0),
    {
        self.texts.len() == 0
    }

    /// Presents a ranking of this collection's embeddings with its texts.
    fn present(&self, items: &Vec<IndexWithScore>) -> (found: Vec<SearchResult>)
        requires
            forall|p: int| 0 <= p < items.len() ==> (#[trigger] items[p]).index < self.texts@.len(),
        ensures
            describes(self.bodies(), items@, found@),
    {
        let mut found: Vec<SearchResult> = Vec::new();
        let mut p: usize = 0;
        while p < items.len()
            invariant
                p <= items.len(),
                forall|q: int|
                    0 <= q < items.len() ==> (#[trigger] items[q]).index < self.texts@.len(),
                describes(self.texts@, items@.subrange(0, p as int), found@),
            decreases items.len() - p,
        {
            let item: IndexWithScore = items[p];
            let body = &self.texts[item.index];
            found.push(SearchResult { id: body.id.clone(), text: body.text.clone(), score: item.score });
            p += 1;
        }
        assert(items@.subrange(0, p as int) =~= items@);
        found
    }

    /// The `results` entries whose embeddings score highest against `query`,
    /// best first, as [`search_knn`] ranks them.
    pub fn search_knn<F>(&self, query: &Vec<u32>, results: usize, score: F) -> (r: Result<
        Vec<SearchResult>,
        Error,
    >)
        where F: Fn(&Vec<u32>, &Vec<u32>) -> u32
        requires
            forall|i: int|
                0 <= i < self.vectors().len() && self.vectors()[i].len() == query.len()
                    ==> call_requires(score, (query, &#[trigger] self.vectors()[i])),
        ensures
            answers_knn(*self, Seq::<char>::empty(), query, results as nat, score, r),
            self.size() == 0 ==> (r matches Ok(found) && found@.len() == 0),
            r matches Ok(found) ==> found@.len() == (if results <= self.size() {
                results as nat
            } else {
                self.size()
            }),
    {
        proof {
            use_type_invariant(self);
        }
        assert forall|i: int|
            0 <= i < self.embeddings.len() && self.embeddings[i].len()
                == query.len() implies call_requires(score, (query, &#[trigger] self.embeddings[i])) by {
            assert(self.vectors()[i] == self.embeddings[i]);
        }
        match search_knn(query, &self.embeddings, results, score) {
            Err(e) => Err(e),
            Ok(items) => {
                let ghost scores = choose|scores: Seq<u32>| #[trigger]
                    scored_by(score, query, self.embeddings@, scores) && is_top_k(
                        scores,
                        results as nat,
                        items@,
                    );
                let found = self.present(&items);
                assert(is_top_k(scores, results as nat, items@));
                Ok(found)
            },
        }
    }

    /// The `results` entries that are most like `query`, best first, as
    /// [`search_exemplar_svm`] ranks them.
    pub fn search_exemplar_svm<S>(&self, query: &Vec<u32>, results: usize, solver: S) -> (r:
        Result<Vec<SearchResult>, Error>)
        where S: FnOnce(&Problem) -> Result<Vec<u32>, String>
        requires
            forall|p: Problem|
                p.is_exemplar_of(query@, self.corpus()) ==> call_requires(solver, (&p,)),
        ensures
            answers_exemplar(*self, Seq::<char>::empty(), query@, results as nat, solver, r),
    {
        proof {
            use_type_invariant(self);
        }
        let ranking = search_exemplar_svm(query, &self.embeddings, results, solver);
        let ghost ranking0 = ranking;
        let ghost stated = dimensions_agree(query@.len(), self.corpus()) && problem_exists(
            query@,
            self.corpus(),
        );
        let ghost (p, outcome) = choose|p: Problem, outcome: Result<Vec<u32>, String>|
            p.is_exemplar_of(query@, self.corpus()) && #[trigger] call_ensures(
                solver,
                (&p,),
                outcome,
            ) && ranked(outcome, self.size(), results as nat, ranking0);
        let r = match ranking {
            Err(e) => Err(e),
            Ok(items) => Ok(self.present(&items)),
        };
        proof {
            if stated {
                assert(ranked(outcome, self.size(), results as nat, ranking0));
                assert(presented(self.bodies(), ranking0, r));
            }
        }
        r
    }
}

/// `r` is the ranking `ranking` presented with the texts of a collection,
/// or the error that stands in its place.
pub open spec fn presented(
    texts: Seq<TextBody>,
    ranking: Result<Vec<IndexWithScore>, Error>,
    r: Result<Vec<SearchResult>, Error>,
) -> bool {
    match ranking {
        Ok(items) => r matches Ok(found) && describes(texts, items@, found@),
        Err(e) => r matches Err(same) && same == e,
    }
}

/// A collection behind a reader-writer lock: any number of readers at a
/// time, or one writer. A reader sees the collection as it was before a
/// write or as it is after it, with one embedding for each text.
///
/// The collection knows the name it stands under, and gives it in every
/// mismatch of dimensions that it reports. The name does not change.
pub struct GuardedIndex {
    name: String,
    index: RwLock<Index, spec_fn(Index) -> bool>,
}

/// `after` is `before` with the given entries at its end, and has `n`
/// entries.
pub open spec fn appended(
    before: Index,
    after: Index,
    texts: Seq<TextBody>,
    embeddings: Seq<Vec<u32>>,
    n: nat,
) -> bool {
    &&& before.wf()
    &&& after.wf()
    &&& after.bodies() == before.bodies() + texts
    &&& after.vectors() == before.vectors() + embeddings
    &&& n == after.size()
    &&& n == before.size() + texts.len()
}

impl GuardedIndex {
    /// The lock lets `moment` stand behind it: a reader may find the
    /// collection in this state, and a writer may leave it so.
    pub closed spec fn admits(&self, moment: Index) -> bool {
        self.index.inv(moment)
    }

    /// The lock admits exactly the collections with one embedding for each
    /// text.
    #[verifier::type_invariant]
    spec fn admits_well_formed(&self) -> bool {
        forall|v: Index| #[trigger] self.index.inv(v) <==> v.wf()
    }

    /// The name that the collection stands under; empty where it was given
    /// none.
    pub closed spec fn name(&self) -> Seq<char> {
        self.name@
    }

    /// The name that the collection stands under.
    pub fn known_as(&self) -> (name: &String)
        ensures
            name@ == self.name(),
    {
        &self.name
    }

    /// Puts `index` behind a lock that admits every collection with one
    /// embedding for each text, and no other, under the name `name`.
    fn guard(name: String, index: Index) -> (guarded: GuardedIndex)
        ensures
            guarded.name() == name@,
            guarded.admits(index),
            forall|v: Index| #[trigger] guarded.admits(v) <==> v.wf(),
    {
        proof {
            use_type_invariant(&index);
        }
        let ghost admitted = |v: Index| v.wf();
        GuardedIndex { name, index: RwLock::new(index, Ghost(admitted)) }
    }

    /// A guarded collection of the given texts and embeddings, which must be
    /// equal in number. It stands under no name.
    pub fn new(texts: Vec<TextBody>, embeddings: Vec<Vec<u32>>) -> (r: Result<GuardedIndex, Error>)
        ensures
            r is Ok <==> texts.len() == embeddings.len(),
            r matches Ok(guarded) ==> guarded.name() == Seq::<char>::empty(),
            r matches Ok(guarded) ==> forall|v: Index| #[trigger] guarded.admits(v) <==> v.wf(),
            r matches Err(e) ==> e == (Error::LengthMismatch {
                texts_len: texts.len(),
                embeddings_len: embeddings.len(),
            }),
    {
        GuardedIndex::named(String::new(), texts, embeddings)
    }

    /// A guarded collection of the given texts and embeddings, which must be
    /// equal in number, under the name `name`.
    pub fn named(name: String, texts: Vec<TextBody>, embeddings: Vec<Vec<u32>>) -> (r: Result<
        GuardedIndex,
        Error,
    >)
        ensures
            r is Ok <==> texts.len() == embeddings.len(),
            r matches Ok(guarded) ==> guarded.name() == name@,
            r matches Ok(guarded) ==> forall|v: Index| #[trigger] guarded.admits(v) <==> v.wf(),
            r matches Err(e) ==> e == (Error::LengthMismatch {
                texts_len: texts.len(),
                embeddings_len: embeddings.len(),
            }),
    {
        match Index::new(texts, embeddings) {
            Ok(index) => Ok(GuardedIndex::guard(name, index)),
            Err(e) => Err(e),
        }
    }

    /// A guarded collection without entries and without a name, behind a
    /// lock that admits every collection with one embedding for each text,
    /// and no other.
    pub fn empty() -> (guarded: GuardedIndex)
        ensures
            guarded.name() == Seq::<char>::empty(),
            forall|v: Index| #[trigger] guarded.admits(v) <==> v.wf(),
            exists|moment: Index| #[trigger] guarded.admits(moment) && moment.size() == 0,
    {
        GuardedIndex::empty_named(String::new())
    }

    /// A guarded collection without entries, under the name `name`.
    pub fn empty_named(name: String) -> (guarded: GuardedIndex)
        ensures
            guarded.name() == name@,
            forall|v: Index| #[trigger] guarded.admits(v) <==> v.wf(),
            exists|moment: Index| #[trigger] guarded.admits(moment) && moment.size() == 0,
    {
        let index = Index::empty();
        let guarded = GuardedIndex::guard(name, index);
        assert(guarded.admits(index) && index.size() == 0);
        guarded
    }

    /// Puts the given entries in the place of all that the collection held,
    /// in one step: the writer leaves behind the lock a collection of these
    /// entries and no other. If they differ in number the collection stays as
    /// it was.
    pub fn replace_contents(&self, texts: Vec<TextBody>, embeddings: Vec<Vec<u32>>) -> (r: Result<
        (),
        Error,
    >)
        ensures
            r is Ok <==> texts.len() == embeddings.len(),
            r is Ok ==> exists|after: Index|
                #[trigger] self.admits(after) && after.wf() && after.bodies() == texts@
                    && after.vectors() == embeddings@,
            r matches Err(e) ==> e == (Error::LengthMismatch {
                texts_len: texts.len(),
                embeddings_len: embeddings.len(),
            }),
    {
        if texts.len() != embeddings.len() {
            return err_mesg_unequal_lens(texts.len(), embeddings.len());
        }
        proof {
            use_type_invariant(self);
        }
        let (mut index, writer) = self.index.acquire_write();
        let r = index.replace_contents(texts, embeddings);
        proof {
            use_type_invariant(&index);
            assert(self.admits(index) && index.wf() && index.bodies() == texts@ && index.vectors()
                == embeddings@);
        }
        writer.release_write(index);
        r
    }

    /// Moves the given entries to the end of the collection, in one step,
    /// and leaves the two arguments empty. If they differ in number nothing
    /// changes.
    pub fn append_contents(&self, texts: &mut Vec<TextBody>, embeddings: &mut Vec<Vec<u32>>) -> (r:
        Result<(), Error>)
        ensures
            r is Ok <==> old(texts).len() == old(embeddings).len(),
            r is Ok ==> final(texts)@.len() == 0 && final(embeddings)@.len() == 0,
            r is Ok ==> exists|before: Index, after: Index, n: nat|
                #[trigger] self.admits(before) && #[trigger] self.admits(after) && #[trigger] appended(
                    before,
                    after,
                    old(texts)@,
                    old(embeddings)@,
                    n,
                ),
            r matches Err(e) ==> {
                &&& *final(texts) == *old(texts)
                &&& *final(embeddings) == *old(embeddings)
                &&& e == (Error::LengthMismatch {
                    texts_len: old(texts).len(),
                    embeddings_len: old(embeddings).len(),
                })
            },
    {
        match self.append_counted(texts, embeddings) {
            Ok(_) => Ok(()),
            Err(e) => Err(e),
        }
    }

    /// Moves the given entries to the end of the collection, as
    /// [`GuardedIndex::append_contents`] does, and answers with the number of
    /// entries that the collection has when the writer lets go of it: what it
    /// had when the writer took it, and the entries given.
    pub fn append_counted(&self, texts: &mut Vec<TextBody>, embeddings: &mut Vec<Vec<u32>>) -> (r:
        Result<usize, Error>)
        ensures
            r is Ok <==> old(texts).len() == old(embeddings).len(),
            r is Ok ==> final(texts)@.len() == 0 && final(embeddings)@.len() == 0,
            r matches Ok(n) ==> n >= old(texts).len(),
            r matches Ok(n) ==> exists|before: Index, after: Index|
                #[trigger] self.admits(before) && #[trigger] self.admits(after) && appended(
                    before,
                    after,
                    old(texts)@,
                    old(embeddings)@,
                    n as nat,
                ),
            r matches Err(e) ==> {
                &&& *final(texts) == *old(texts)
                &&& *final(embeddings) == *old(embeddings)
                &&& e == (Error::LengthMismatch {
                    texts_len: old(texts).len(),
                    embeddings_len: old(embeddings).len(),
                })
            },
    {
        if texts.len() != embeddings.len() {
            return err_mesg_unequal_lens(texts.len(), embeddings.len());
        }
        proof {
            use_type_invariant(self);
        }
        let (mut index, writer) = self.index.acquire_write();
        let ghost before = index;
        proof {
            use_type_invariant(&index);
        }
        let appending = index.append_contents(texts, embeddings);
        let n: usize = index.len();
        proof {
            use_type_invariant(&index);
            assert(self.admits(before) && self.admits(index));
            assert(appended(before, index, old(texts)@, old(embeddings)@, n as nat));
        }
        writer.release_write(index);
        match appending {
            Ok(_) => Ok(n),
            Err(e) => Err(e),
        }
    }

    /// A copy of the texts of the collection that stands behind the lock
    /// at one moment of the call.
    pub fn texts(&self) -> (copy: Vec<TextBody>)
        ensures
            exists|moment: Index|
                #[trigger] self.admits(moment) && moment.wf() && copy@ == moment.bodies(),
    {
        proof {
            use_type_invariant(self);
        }
        let reader = self.index.acquire_read();
        let index = reader.borrow();
        let copy = index.texts();
        assert(self.admits(*index) && index.wf() && copy@ == index.bodies());
        reader.release_read();
        copy
    }

    /// A copy of the embeddings of the collection that stands behind the
    /// lock at one moment of the call.
    pub fn embeddings(&self) -> (copy: Vec<Vec<u32>>)
        ensures
            exists|moment: Index|
                #[trigger] self.admits(moment) && moment.wf() && vectors_view(copy@)
                    == moment.corpus(),
    {
        proof {
            use_type_invariant(self);
        }
        let reader = self.index.acquire_read();
        let index = reader.borrow();
        let copy = index.embeddings();
        assert(self.admits(*index) && index.wf() && vectors_view(copy@) == index.corpus());
        reader.release_read();
        copy
    }

    /// The number of entries of the collection that stands behind the lock
    /// at one moment of the call.
    pub fn len(&self) -> (n: usize)
        ensures
            exists|moment: Index| #[trigger] self.admits(moment) && moment.wf() && n == moment.size(),
    {
        proof {
            use_type_invariant(self);
        }
        let reader = self.index.acquire_read();
        let index = reader.borrow();
        let n = index.len();
        assert(self.admits(*index) && index.wf() && n == index.size());
        reader.release_read();
        n
    }

    /// Whether the collection that stands behind the lock at one moment of
    /// the call has no entry.
    pub fn is_empty(&self) -> (b: bool)
        ensures
            exists|moment: Index|
                #[trigger] self.admits(moment) && moment.wf() && b == (moment.size() == 0),
    {
        proof {
            use_type_invariant(self);
        }
        let reader = self.index.acquire_read();
        let index = reader.borrow();
        let b = index.is_empty();
        assert(self.admits(*index) && index.wf() && b == (index.size() == 0));
        reader.release_read();
        b
    }

    /// A copy of the whole collection as it stands behind the lock at one
    /// moment of the call: its texts and its embeddings are those of one and
    /// the same moment, so there is one embedding for each text.
    pub fn snapshot(&self) -> (copy: Index)
        ensures
            self.admits(copy),
            copy.wf(),
            exists|moment: Index|
                #[trigger] self.admits(moment) && copy.bodies() == moment.bodies()
                    && copy.corpus() == moment.corpus(),
    {
        proof {
            use_type_invariant(self);
        }
        let reader = self.index.acquire_read();
        let index = reader.borrow();
        let texts = index.texts();
        let embeddings = index.embeddings();
        assert(texts@.len() == embeddings@.len()) by {
            assert(vectors_view(embeddings@).len() == embeddings@.len());
            assert(vectors_view(index.embeddings@).len() == index.embeddings@.len());
        }
        let copy = Index { texts, embeddings };
        assert(self.admits(*index) && copy.bodies() == index.bodies() && copy.corpus()
            == index.corpus());
        reader.release_read();
        copy
    }

    /// The `results` entries whose embeddings score highest against `query`,
    /// best first. The collection is read-locked for the whole ranking, so
    /// the answer is that of [`Index::search_knn`] on the collection as it
    /// was at one moment. A mismatch of dimensions names this collection.
    pub fn search_knn<F>(&self, query: &Vec<u32>, results: usize, score: F) -> (r: Result<
        Vec<SearchResult>,
        Error,
    >)
        where F: Fn(&Vec<u32>, &Vec<u32>) -> u32
        requires
            forall|v: &Vec<u32>| v.len() == query.len() ==> #[trigger] call_requires(score, (query, v)),
        ensures
            r matches Err(e) ==> e matches Error::DimensionMismatch { index, query_len, .. } && index@
                == self.name() && query_len == query.len(),
            exists|moment: Index|
                moment.wf() && #[trigger] answers_knn(
                    moment,
                    self.name(),
                    query,
                    results as nat,
                    score,
                    r,
                ),
    {
        proof {
            use_type_invariant(self);
        }
        let reader = self.index.acquire_read();
        let index = reader.borrow();
        let unnamed = index.search_knn(query, results, score);
        let ghost inner = unnamed;
        let r = match unnamed {
            Ok(found) => Ok(found),
            Err(e) => Err(name_index(e, &self.name)),
        };
        assert(answers_knn(*index, Seq::<char>::empty(), query, results as nat, score, inner));
        assert(answers_knn(*index, self.name(), query, results as nat, score, r));
        reader.release_read();
        r
    }

    /// The `results` entries that are most like `query`, best first. The
    /// collection is read-locked for the whole ranking, training included, so
    /// the answer is that of [`Index::search_exemplar_svm`] on the collection
    /// as it was at one moment. A mismatch of dimensions names this
    /// collection.
    pub fn search_exemplar_svm<S>(&self, query: &Vec<u32>, results: usize, solver: S) -> (r:
        Result<Vec<SearchResult>, Error>)
        where S: FnOnce(&Problem) -> Result<Vec<u32>, String>
        requires
            forall|p: Problem| #[trigger] call_requires(solver, (&p,)),
        ensures
            r matches Err(Error::DimensionMismatch { index, query_len, .. }) ==> index@ == self.name()
                && query_len == query.len(),
            exists|moment: Index|
                moment.wf() && #[trigger] answers_exemplar(
                    moment,
                    self.name(),
                    query@,
                    results as nat,
                    solver,
                    r,
                ),
    {
        proof {
            use_type_invariant(self);
        }
        let reader = self.index.acquire_read();
        let index = reader.borrow();
        let unnamed = index.search_exemplar_svm(query, results, solver);
        let ghost inner = unnamed;
        let r = match unnamed {
            Ok(found) => Ok(found),
            Err(e) => Err(name_index(e, &self.name)),
        };
        assert(answers_exemplar(*index, Seq::<char>::empty(), query@, results as nat, solver, inner));
        proof {
            lemma_named_exemplar(*index, self.name(), query@, results as nat, solver, inner, r);
        }
        reader.release_read();
        r
    }
}

/// `r` is an answer of a search by score on the collection `moment`, known
/// as `name`: the mismatch in dimension if there is one, naming the
/// collection; else the top-`results` ranking of scores that `score` gives,
/// presented with the texts.
pub open spec fn answers_knn<F: Fn(&Vec<u32>, &Vec<u32>) -> u32>(
    moment: Index,
    name: Seq<char>,
    query: &Vec<u32>,
    results: nat,
    score: F,
    r: Result<Vec<SearchResult>, Error>,
) -> bool {
    if !dimensions_agree(query@.len(), moment.corpus()) {
        r matches Err(e) && reports_mismatch_in(e, name, query@.len(), moment.corpus())
    } else {
        r matches Ok(found) && exists|scores: Seq<u32>, items: Seq<IndexWithScore>|
            scored_by(score, query, moment.vectors(), scores) && #[trigger] is_top_k(
                scores,
                results,
                items,
            ) && describes(moment.bodies(), items, found@)
    }
}

/// `r` is an answer of an exemplar search on the collection `moment`,
/// known as `name`: the mismatch in dimension if there is one, naming the
/// collection; else the solver error for a problem that cannot be stated;
/// else what `solver` answered on the problem, ranked and presented with
/// the texts.
pub open spec fn answers_exemplar<S: FnOnce(&Problem) -> Result<Vec<u32>, String>>(
    moment: Index,
    name: Seq<char>,
    query: Seq<u32>,
    results: nat,
    solver: S,
    r: Result<Vec<SearchResult>, Error>,
) -> bool {
    if !dimensions_agree(query.len(), moment.corpus()) {
        r matches Err(e) && reports_mismatch_in(e, name, query.len(), moment.corpus())
    } else if !problem_exists(query, moment.corpus()) {
        r matches Err(Error::Solver { reason }) && reason@ == (if moment.size() == 0 {
            "empty corpus"@
        } else {
            "too many dimensions"@
        })
    } else {
        exists|
            p: Problem,
            outcome: Result<Vec<u32>, String>,
            ranking: Result<Vec<IndexWithScore>, Error>,
        |
            p.is_exemplar_of(query, moment.corpus()) && #[trigger] call_ensures(
                solver,
                (&p,),
                outcome,
            ) && #[trigger] ranked(outcome, moment.size(), results, ranking) && presented(
                moment.bodies(),
                ranking,
                r,
            )
    }
}

/// An answer of an exemplar search that names no collection, with the name
/// put into its mismatch of dimensions, is an answer under that name.
proof fn lemma_named_exemplar<S: FnOnce(&Problem) -> Result<Vec<u32>, String>>(
    moment: Index,
    name: Seq<char>,
    query: Seq<u32>,
    results: nat,
    solver: S,
    inner: Result<Vec<SearchResult>, Error>,
    r: Result<Vec<SearchResult>, Error>,
)
    requires
        answers_exemplar(moment, Seq::<char>::empty(), query, results, solver, inner),
        match inner {
            Ok(found) => r == Ok::<Vec<SearchResult>, Error>(found),
            Err(e) => r matches Err(named) && names_index(named, e, name),
        },
    ensures
        answers_exemplar(moment, name, query, results, solver, r),
        r matches Err(Error::DimensionMismatch { index, query_len, .. }) ==> index@ == name
            && query_len == query.len(),
{
    if dimensions_agree(query.len(), moment.corpus()) && problem_exists(query, moment.corpus()) {
        let (p, outcome, ranking) = choose|
            p: Problem,
            outcome: Result<Vec<u32>, String>,
            ranking: Result<Vec<IndexWithScore>, Error>,
        |
            p.is_exemplar_of(query, moment.corpus()) && #[trigger] call_ensures(
                solver,
                (&p,),
                outcome,
            ) && #[trigger] ranked(outcome, moment.size(), results, ranking) && presented(
                moment.bodies(),
                ranking,
                inner,
            );
        assert(presented(moment.bodies(), ranking, r));
    }
}

} // verus!
