//! The directory of collections: each name is given to one collection.
use vstd::prelude::*;
use vstd::rwlock::RwLock;
use crate::errors::Error;
use crate::request::SearchMethod;
use crate::sent_transform::svm::Problem;
use crate::vector_index::answers_exemplar;
use crate::vector_index::answers_knn;
use crate::vector_index::appended;
use crate::vector_index::GuardedIndex;
use crate::vector_index::Index;
use crate::vector_index::SearchResult;
use crate::vector_index::TextBody;

verus! {

/// The names that the collections stand under, in order.
spec fn names_of(entries: Seq<GuardedIndex>) -> Seq<Seq<char>> {
    Seq::new(entries.len(), |i: int| entries[i].name())
}

/// The collections by name: each is registered under the name that it
/// stands under itself. No name is registered twice.
pub struct Registry {
    entries: Vec<GuardedIndex>,
}

/// `r` is an answer of [`Registry::create`] on a registry that does or does
/// not hold `name` already.
pub open spec fn answers_create(
    taken: bool,
    name: Seq<char>,
    initial: Option<(Vec<TextBody>, Vec<Vec<u32>>)>,
    r: Result<usize, Error>,
) -> bool {
    if taken {
        r matches Err(Error::AlreadyExists { name: held }) && held@ == name
    } else {
        match initial {
            None => r == Ok::<usize, Error>(0),
            Some(pair) => if pair.0.len() == pair.1.len() {
                r == Ok::<usize, Error>(pair.0.len())
            } else {
                r == Err::<usize, Error>(
                    Error::LengthMismatch { texts_len: pair.0.len(), embeddings_len: pair.1.len() },
                )
            },
        }
    }
}

/// `e` says that no collection has the name `name`.
pub open spec fn misses(e: Error, name: Seq<char>) -> bool {
    e matches Error::NotFound { name: missing } && missing@ == name
}

/// `r` is an answer of the registry `moment` to the question how large the
/// collection under `name` is: the size of that collection in a state that
/// its lock admits, and [`Error::NotFound`] where `moment` has no such name.
pub open spec fn answers_size(moment: Registry, name: Seq<char>, r: Result<usize, Error>) -> bool {
    if moment.has(name) {
        r matches Ok(n) && exists|p: int, held: Index|
            0 <= p < moment.names().len() && moment.names()[p] == name && #[trigger] moment.indices()[p].admits(
                held,
            ) && held.wf() && n == held.size()
    } else {
        r matches Err(e) && misses(e, name)
    }
}

/// `after` is `before` without the collection under `name`: it has every
/// other name that `before` has, and no more; and it is `before` itself
/// where `before` has no such name.
pub open spec fn detaches(before: Registry, after: Registry, name: Seq<char>) -> bool {
    &&& forall|other: Seq<char>| #[trigger] after.has(other) <==> before.has(other) && other != name
    &&& !before.has(name) ==> after == before
}

/// `r` is an answer of the registry `moment` to an append of the given
/// entries to the collection under `name`: [`Error::NotFound`] where there
/// is no such name; else [`Error::LengthMismatch`] where the entries differ
/// in number; else the size that the collection has when the entries stand
/// at its end, which is what it had before and their number.
pub open spec fn answers_append(
    moment: Registry,
    name: Seq<char>,
    texts: Seq<TextBody>,
    embeddings: Seq<Vec<u32>>,
    r: Result<usize, Error>,
) -> bool {
    if !moment.has(name) {
        r matches Err(e) && misses(e, name)
    } else if texts.len() != embeddings.len() {
        r == Err::<usize, Error>(
            Error::LengthMismatch { texts_len: texts.len() as usize, embeddings_len: embeddings.len() as usize },
        )
    } else {
        r matches Ok(n) && exists|p: int, before: Index, after: Index|
            0 <= p < moment.names().len() && moment.names()[p] == name && #[trigger] moment.indices()[p].admits(
                before,
            ) && #[trigger] moment.indices()[p].admits(after) && appended(
                before,
                after,
                texts,
                embeddings,
                n as nat,
            )
    }
}

/// `inner` is an answer of the collection `moment`, known as `name`, to a
/// query by `method`.
pub open spec fn answers<
    F: Fn(&Vec<u32>, &Vec<u32>) -> u32,
    S: FnOnce(&Problem) -> Result<Vec<u32>, String>,
>(
    moment: Index,
    name: Seq<char>,
    query: &Vec<u32>,
    results: nat,
    method: SearchMethod,
    score: F,
    solver: S,
    inner: Result<Vec<SearchResult>, Error>,
) -> bool {
    match method {
        SearchMethod::Cosine => answers_knn(moment, name, query, results, score, inner),
        SearchMethod::ExemplarSVM => answers_exemplar(moment, name, query@, results, solver, inner),
    }
}

impl Registry {
    /// The registered names, in the order of their registration.
    pub closed spec fn names(&self) -> Seq<Seq<char>> {
        names_of(self.entries@)
    }

    /// The registered collections, each at the position of its name.
    pub closed spec fn indices(&self) -> Seq<GuardedIndex> {
        self.entries@
    }

    /// No name occurs twice.
    #[verifier::type_invariant]
    pub open spec fn wf(&self) -> bool {
        self.names().no_duplicates()
    }

    /// A collection is registered under `name`.
    pub open spec fn has(&self, name: Seq<char>) -> bool {
        self.names().contains(name)
    }

    /// There is a collection for each name, and it stands under that name.
    pub proof fn lemma_one_index_per_name(&self)
        ensures
            self.indices().len() == self.names().len(),
            forall|p: int|
                0 <= p < self.names().len() ==> (#[trigger] self.indices()[p]).name()
                    == self.names()[p],
    {
    }

    /// A registry without collections.
    pub fn new() -> (registry: Registry)
        ensures
            registry.names() == Seq::<Seq<char>>::empty(),
    {
        let registry = Registry { entries: Vec::new() };
        assert(registry.names() =~= Seq::<Seq<char>>::empty());
        registry
    }

    /// The position of `name`, if it is registered.
    fn find(&self, name: &String) -> (found: Option<usize>)
        ensures
            found matches Some(p) ==> p < self.names().len() && self.names()[p as int] == name@,
            found is None ==> !self.has(name@),
    {
        let mut i: usize = 0;
        while i < self.entries.len()
            invariant
                i <= self.entries.len(),
                forall|j: int| 0 <= j < i ==> self.names()[j] != name@,
            decreases self.entries.len() - i,
        {
            if *self.entries[i].known_as() == *name {
                return Some(i);
            }
            i += 1;
        }
        None
    }

    /// Whether a collection is registered under `name`.
    pub fn contains(&self, name: &String) -> (b: bool)
        ensures
            b == self.has(name@),
    {
        self.find(name).is_some()
    }

    /// The number of registered collections.
    pub fn count(&self) -> (n: usize)
        ensures
            n == self.names().len(),
            self.names().no_duplicates(),
    {
        proof {
            use_type_invariant(self);
        }
        self.entries.len()
    }

    /// Registers a new collection under `name`, empty or with the given
    /// texts and embeddings, and answers with its size.
    ///
    /// Fails with [`Error::AlreadyExists`] if the name is taken, and with
    /// [`Error::LengthMismatch`] if it is free and the texts and embeddings
    /// differ in number. A failure leaves the registry as it was.
    pub fn create(
        &mut self,
        name: String,
        initial: Option<(Vec<TextBody>, Vec<Vec<u32>>)>,
    ) -> (r: Result<usize, Error>)
        ensures
            answers_create(old(self).has(name@), name@, initial, r),
            r is Ok ==> forall|other: Seq<char>|
                #[trigger] final(self).has(other) <==> old(self).has(other) || other == name@,
            r is Ok ==> {
                &&& final(self).names() == old(self).names().push(name@)
                &&& final(self).indices().subrange(0, old(self).indices().len() as int)
                    == old(self).indices()
            },
            r is Err ==> *final(self) == *old(self),
    {
        if self.find(&name).is_some() {
            return Err(Error::AlreadyExists { name });
        }
        let (index, size) = match initial {
            Some((texts, embeddings)) => {
                let size: usize = texts.len();
                match GuardedIndex::named(name, texts, embeddings) {
                    Ok(index) => (index, size),
                    Err(e) => {
                        return Err(e);
                    },
                }
            },
            None => (GuardedIndex::empty_named(name), 0),
        };
        let ghost before = *self;
        let mut held = Registry::new();
        std::mem::swap(self, &mut held);
        proof {
            use_type_invariant(&held);
        }
        let Registry { entries: mut entries } = held;
        entries.push(index);
        proof {
            let names = names_of(entries@);
            assert(names =~= before.names().push(name@));
            assert(entries@.subrange(0, before.indices().len() as int) =~= before.indices());
            assert forall|i: int, j: int|
                0 <= i < names.len() && 0 <= j < names.len() && i != j implies names[i]
                != names[j] by {
                if i < before.names().len() && j < before.names().len() {
                    assert(before.names()[i] != before.names()[j]);
                } else if i < before.names().len() {
                    assert(before.names().contains(before.names()[i]));
                } else {
                    assert(before.names().contains(before.names()[j]));
                }
            }
            assert forall|other: Seq<char>| #[trigger]
                names.contains(other) <==> before.has(other) || other == name@ by {
                if names.contains(other) {
                    let i = choose|i: int| 0 <= i < names.len() && names[i] == other;
                    if i < before.names().len() {
                        assert(before.names()[i] == other);
                    }
                }
                if before.has(other) {
                    let i = choose|i: int|
                        0 <= i < before.names().len() && before.names()[i] == other;
                    assert(names[i] == other);
                }
                assert(names[names.len() - 1] == name@);
            }
        }
        *self = Registry { entries };
        Ok(size)
    }

    /// The collection registered under `name`.
    pub fn get(&self, name: &String) -> (r: Result<&GuardedIndex, Error>)
        ensures
            r is Ok <==> self.has(name@),
            r matches Ok(index) ==> index.name() == name@,
            r matches Ok(index) ==> exists|p: int|
                0 <= p < self.names().len() && self.names()[p] == name@ && *index
                    == #[trigger] self.indices()[p],
            r matches Err(e) ==> misses(e, name@),
    {
        match self.find(name) {
            Some(p) => {
                assert(self.names().contains(self.names()[p as int]));
                assert(self.indices()[p as int] == self.entries@[p as int]);
                Ok(&self.entries[p])
            },
            None => Err(Error::NotFound { name: name.clone() }),
        }
    }

    /// The size, at one moment, of the collection registered under `name`.
    pub fn size(&self, name: &String) -> (r: Result<usize, Error>)
        ensures
            r is Ok <==> self.has(name@),
            r matches Err(e) ==> misses(e, name@),
            answers_size(*self, name@, r),
    {
        match self.get(name) {
            Ok(index) => {
                let n = index.len();
                proof {
                    let p = choose|p: int|
                        0 <= p < self.names().len() && self.names()[p] == name@ && *index
                            == #[trigger] self.indices()[p];
                    let held = choose|held: Index|
                        #[trigger] index.admits(held) && held.wf() && n == held.size();
                    assert(self.indices()[p].admits(held));
                }
                Ok(n)
            },
            Err(e) => Err(e),
        }
    }

    /// Moves the given entries to the end of the collection registered under
    /// `name`, and answers with the size that the collection has when the
    /// writer that appended them lets go of it.
    ///
    /// Fails with [`Error::NotFound`] if there is no such collection, and
    /// with [`Error::LengthMismatch`] if there is one and the texts and
    /// embeddings differ in number. A failure leaves the arguments as they
    /// were.
    pub fn append(&self, name: &String, texts: &mut Vec<TextBody>, embeddings: &mut Vec<Vec<u32>>) -> (r:
        Result<usize, Error>)
        ensures
            r is Ok <==> self.has(name@) && old(texts).len() == old(embeddings).len(),
            r is Ok ==> final(texts)@.len() == 0 && final(embeddings)@.len() == 0,
            r is Err ==> *final(texts) == *old(texts) && *final(embeddings) == *old(embeddings),
            r matches Err(e) ==> if !self.has(name@) {
                misses(e, name@)
            } else {
                e == (Error::LengthMismatch {
                    texts_len: old(texts).len(),
                    embeddings_len: old(embeddings).len(),
                })
            },
            r matches Ok(n) ==> n >= old(texts).len(),
            answers_append(*self, name@, old(texts)@, old(embeddings)@, r),
    {
        match self.get(name) {
            Ok(index) => {
                let r = index.append_counted(texts, embeddings);
                proof {
                    if let Ok(n) = r {
                        let p = choose|p: int|
                            0 <= p < self.names().len() && self.names()[p] == name@ && *index
                                == #[trigger] self.indices()[p];
                        let (before, after) = choose|before: Index, after: Index|
                            #[trigger] index.admits(before) && #[trigger] index.admits(after)
                                && appended(before, after, old(texts)@, old(embeddings)@, n as nat);
                        assert(self.indices()[p].admits(before) && self.indices()[p].admits(after));
                    }
                }
                r
            },
            Err(e) => Err(e),
        }
    }

    /// Takes the collection registered under `name` out of the registry, and
    /// answers with the size it had.
    pub fn remove(&mut self, name: &String) -> (r: Result<usize, Error>)
        ensures
            r is Ok <==> old(self).has(name@),
            r is Ok ==> forall|other: Seq<char>|
                #[trigger] final(self).has(other) <==> old(self).has(other) && other != name@,
            r is Ok ==> exists|p: int|
                0 <= p < old(self).names().len() && #[trigger] old(self).names()[p] == name@
                    && final(self).names() == old(self).names().remove(p) && final(self).indices()
                    == old(self).indices().remove(p),
            r is Err ==> *final(self) == *old(self),
            r matches Err(e) ==> misses(e, name@),
            answers_size(*old(self), name@, r),
    {
        match self.find(name) {
            Some(p) => {
                let ghost before = *self;
                let mut held = Registry::new();
                std::mem::swap(self, &mut held);
                proof {
                    use_type_invariant(&held);
                }
                let Registry { entries: mut entries } = held;
                let entry = entries.remove(p);
                proof {
                    let names = names_of(entries@);
                    assert(names =~= before.names().remove(p as int));
                    assert(entries@ =~= before.indices().remove(p as int));
                    assert forall|i: int, j: int|
                        0 <= i < names.len() && 0 <= j < names.len() && i != j implies names[i]
                        != names[j] by {
                        let i0 = if i < p { i } else { i + 1 };
                        let j0 = if j < p { j } else { j + 1 };
                        assert(before.names()[i0] != before.names()[j0]);
                    }
                    assert forall|other: Seq<char>| #[trigger]
                        names.contains(other) <==> before.has(other) && other != name@ by {
                        if names.contains(other) {
                            let i = choose|i: int| 0 <= i < names.len() && names[i] == other;
                            let i0 = if i < p { i } else { i + 1 };
                            assert(before.names()[i0] == other);
                            assert(before.names()[i0] != before.names()[p as int]);
                        }
                        if before.has(other) && other != name@ {
                            let i0 = choose|i0: int|
                                0 <= i0 < before.names().len() && before.names()[i0] == other;
                            let i = if i0 < p { i0 } else { i0 - 1 };
                            assert(names[i] == other);
                        }
                    }
                }
                *self = Registry { entries };
                let n = entry.len();
                proof {
                    let held = choose|held: Index|
                        #[trigger] entry.admits(held) && held.wf() && n == held.size();
                    assert(before.names().contains(before.names()[p as int]));
                    assert(before.indices()[p as int] == entry);
                    assert(before.indices()[p as int].admits(held));
                }
                Ok(n)
            },
            None => Err(Error::NotFound { name: name.clone() }),
        }
    }

    /// Ranks the collection registered under `name` against `query` by the
    /// given method, and answers with the best `results` entries.
    ///
    /// Fails with [`Error::NotFound`] if there is no such collection.
    /// Otherwise the answer is that of the collection, read-locked for the
    /// whole ranking, handed on as it is; a mismatch of dimensions names the
    /// collection. Of `score` and `solver` only the one that the method uses
    /// is called.
    pub fn query<F, S>(
        &self,
        name: &String,
        query: &Vec<u32>,
        results: usize,
        method: SearchMethod,
        score: F,
        solver: S,
    ) -> (r: Result<Vec<SearchResult>, Error>)
        where F: Fn(&Vec<u32>, &Vec<u32>) -> u32, S: FnOnce(&Problem) -> Result<Vec<u32>, String>
        requires
            forall|v: &Vec<u32>| v.len() == query.len() ==> #[trigger] call_requires(score, (query, v)),
            forall|p: Problem| #[trigger] call_requires(solver, (&p,)),
        ensures
            !self.has(name@) ==> (r matches Err(e) && misses(e, name@)),
            self.has(name@) ==> (r matches Err(Error::DimensionMismatch { index, query_len, .. })
                ==> index@ == name@ && query_len == query.len()),
            self.has(name@) ==> exists|moment: Index|
                moment.wf() && #[trigger] answers(
                    moment,
                    name@,
                    query,
                    results as nat,
                    method,
                    score,
                    solver,
                    r,
                ),
    {
        match self.get(name) {
            Err(e) => Err(e),
            Ok(index) => match method {
                SearchMethod::Cosine => {
                    let r = index.search_knn(query, results, score);
                    proof {
                        let moment = choose|moment: Index|
                            moment.wf() && #[trigger] answers_knn(
                                moment,
                                name@,
                                query,
                                results as nat,
                                score,
                                r,
                            );
                        assert(answers(
                            moment,
                            name@,
                            query,
                            results as nat,
                            method,
                            score,
                            solver,
                            r,
                        ));
                    }
                    r
                },
                SearchMethod::ExemplarSVM => {
                    let r = index.search_exemplar_svm(query, results, solver);
                    proof {
                        let moment = choose|moment: Index|
                            moment.wf() && #[trigger] answers_exemplar(
                                moment,
                                name@,
                                query@,
                                results as nat,
                                solver,
                                r,
                            );
                        assert(answers(
                            moment,
                            name@,
                            query,
                            results as nat,
                            method,
                            score,
                            solver,
                            r,
                        ));
                    }
                    r
                },
            },
        }
    }
}

/// A registry behind a reader-writer lock: looking up, appending to and
/// querying collections go on side by side, and wait only for a collection
/// to be registered or removed.
pub struct GuardedRegistry {
    registry: RwLock<Registry, spec_fn(Registry) -> bool>,
}

impl GuardedRegistry {
    /// The lock lets `moment` stand behind it: a reader may find the
    /// registry in this state, and a writer may leave it so.
    pub closed spec fn admits(&self, moment: Registry) -> bool {
        self.registry.inv(moment)
    }

    /// The lock admits exactly the registries in which no name occurs twice.
    #[verifier::type_invariant]
    spec fn admits_well_formed(&self) -> bool {
        forall|v: Registry| #[trigger] self.registry.inv(v) <==> v.wf()
    }

    /// A guarded registry without collections, behind a lock that admits
    /// every registry in which no name occurs twice, and no other.
    pub fn new() -> (guarded: GuardedRegistry)
        ensures
            forall|v: Registry| #[trigger] guarded.admits(v) <==> v.wf(),
            exists|moment: Registry| #[trigger] guarded.admits(moment) && moment.names().len() == 0,
    {
        let registry = Registry::new();
        proof {
            use_type_invariant(&registry);
        }
        let ghost admitted = |v: Registry| v.wf();
        let ghost first = registry;
        let guarded = GuardedRegistry { registry: RwLock::new(registry, Ghost(admitted)) };
        assert(guarded.admits(first) && first.names().len() == 0);
        guarded
    }

    /// Whether a collection is registered under `name` in the registry that
    /// stands behind the lock at one moment of the call.
    pub fn contains(&self, name: &String) -> (b: bool)
        ensures
            exists|moment: Registry|
                #[trigger] self.admits(moment) && moment.wf() && b == moment.has(name@),
    {
        proof {
            use_type_invariant(self);
        }
        let reader = self.registry.acquire_read();
        let registry = reader.borrow();
        let b = registry.contains(name);
        assert(self.admits(*registry) && registry.wf() && b == registry.has(name@));
        reader.release_read();
        b
    }

    /// Registers a new collection under `name`, as [`Registry::create`]
    /// does, in one step.
    pub fn create(&self, name: String, initial: Option<(Vec<TextBody>, Vec<Vec<u32>>)>) -> (r:
        Result<usize, Error>)
        ensures
            answers_create(true, name@, initial, r) || answers_create(false, name@, initial, r),
    {
        proof {
            use_type_invariant(self);
        }
        let (mut registry, writer) = self.registry.acquire_write();
        let r = registry.create(name, initial);
        proof {
            use_type_invariant(&registry);
        }
        writer.release_write(registry);
        r
    }

    /// The size of the collection registered under `name`, as
    /// [`Registry::size`] gives it for the registry that stands behind the
    /// lock at one moment of the call.
    pub fn size(&self, name: &String) -> (r: Result<usize, Error>)
        ensures
            r matches Err(e) ==> misses(e, name@),
            exists|moment: Registry|
                #[trigger] self.admits(moment) && moment.wf() && answers_size(moment, name@, r),
    {
        proof {
            use_type_invariant(self);
        }
        let reader = self.registry.acquire_read();
        let registry = reader.borrow();
        let r = registry.size(name);
        assert(self.admits(*registry) && registry.wf() && answers_size(*registry, name@, r));
        reader.release_read();
        r
    }

    /// Moves the given entries to the end of the collection registered under
    /// `name`, as [`Registry::append`] does on the registry that stands
    /// behind the lock at one moment of the call.
    pub fn append(&self, name: &String, texts: &mut Vec<TextBody>, embeddings: &mut Vec<Vec<u32>>) -> (r:
        Result<usize, Error>)
        ensures
            r is Ok ==> old(texts).len() == old(embeddings).len() && final(texts)@.len() == 0
                && final(embeddings)@.len() == 0,
            r is Err ==> *final(texts) == *old(texts) && *final(embeddings) == *old(embeddings),
            r matches Err(e) ==> misses(e, name@) || (old(texts).len() != old(embeddings).len() && e
                == (Error::LengthMismatch {
                texts_len: old(texts).len(),
                embeddings_len: old(embeddings).len(),
            })),
            r matches Ok(n) ==> n >= old(texts).len(),
            exists|moment: Registry|
                #[trigger] self.admits(moment) && moment.wf() && answers_append(
                    moment,
                    name@,
                    old(texts)@,
                    old(embeddings)@,
                    r,
                ),
    {
        proof {
            use_type_invariant(self);
        }
        let reader = self.registry.acquire_read();
        let registry = reader.borrow();
        let r = registry.append(name, texts, embeddings);
        assert(self.admits(*registry) && registry.wf() && answers_append(
            *registry,
            name@,
            old(texts)@,
            old(embeddings)@,
            r,
        ));
        reader.release_read();
        r
    }

    /// Takes the collection registered under `name` out of the registry, in
    /// one step, and answers with the size it had.
    ///
    /// The answer is that of [`Registry::remove`] on the registry that stood
    /// behind the lock when the writer took it; the registry that the writer
    /// leaves behind no longer has the name.
    pub fn remove(&self, name: &String) -> (r: Result<usize, Error>)
        ensures
            r matches Err(e) ==> misses(e, name@),
            exists|before: Registry, after: Registry|
                #[trigger] self.admits(before) && #[trigger] self.admits(after) && before.wf()
                    && after.wf() && answers_size(before, name@, r) && detaches(
                    before,
                    after,
                    name@,
                ),
    {
        proof {
            use_type_invariant(self);
        }
        let (mut registry, writer) = self.registry.acquire_write();
        let ghost before = registry;
        proof {
            use_type_invariant(&registry);
        }
        let r = registry.remove(name);
        proof {
            use_type_invariant(&registry);
            assert(self.admits(before) && self.admits(registry));
            assert(detaches(before, registry, name@));
        }
        writer.release_write(registry);
        r
    }

    /// Ranks the collection registered under `name` against `query`, as
    /// [`Registry::query`] does. The registry is read-locked for as long as
    /// the ranking takes, so that the collection cannot be removed under it.
    pub fn query<F, S>(
        &self,
        name: &String,
        query: &Vec<u32>,
        results: usize,
        method: SearchMethod,
        score: F,
        solver: S,
    ) -> (r: Result<Vec<SearchResult>, Error>)
        where F: Fn(&Vec<u32>, &Vec<u32>) -> u32, S: FnOnce(&Problem) -> Result<Vec<u32>, String>
        requires
            forall|v: &Vec<u32>| v.len() == query.len() ==> #[trigger] call_requires(score, (query, v)),
            forall|p: Problem| #[trigger] call_requires(solver, (&p,)),
        ensures
            r matches Err(Error::DimensionMismatch { index, query_len, .. }) ==> index@ == name@
                && query_len == query.len(),
            (r matches Err(e) && misses(e, name@)) || exists|moment: Index|
                moment.wf() && #[trigger] answers(
                    moment,
                    name@,
                    query,
                    results as nat,
                    method,
                    score,
                    solver,
                    r,
                ),
    {
        let reader = self.registry.acquire_read();
        let r = reader.borrow().query(name, query, results, method, score, solver);
        reader.release_read();
        r
    }
}

} // verus!
