use scout::registry::GuardedRegistry;
use scout::registry::Registry;
use scout::request::SearchMethod;
use scout::sent_transform::name_index;
use scout::sent_transform::svm::Problem;
use scout::vector_index::TextBody;
use scout::Error;

fn bits(v: Vec<f32>) -> Vec<u32> {
    v.iter().map(|x| x.to_bits()).collect()
}

fn cosine(a: &Vec<u32>, b: &Vec<u32>) -> u32 {
    let sum: f32 = a
        .iter()
        .zip(b.iter())
        .fold(0.0, |sum, (x, y)| sum + f32::from_bits(*x) * f32::from_bits(*y));
    sum.to_bits()
}

fn by_negated_first_component(problem: &Problem) -> Result<Vec<u32>, String> {
    Ok(problem.features[1..]
        .iter()
        .map(|row| (-f32::from_bits(row[0].1)).to_bits())
        .collect())
}

fn never(_: &Problem) -> Result<Vec<u32>, String> {
    panic!("the solver is not to be called")
}

fn body(id: &str) -> TextBody {
    TextBody {
        id: id.to_string(),
        text: format!("text of {id}"),
    }
}

fn name(s: &str) -> String {
    s.to_string()
}

fn three() -> Option<(Vec<TextBody>, Vec<Vec<u32>>)> {
    Some((
        vec![body("a"), body("b"), body("c")],
        vec![
            bits(vec![1.0, 0.0]),
            bits(vec![0.0, 1.0]),
            bits(vec![-1.0, 0.0]),
        ],
    ))
}

#[test]
fn create_answers_with_the_size() {
    let mut registry = Registry::new();
    assert_eq!(registry.count(), 0);
    assert_eq!(registry.create(name("empty"), None), Ok(0));
    assert_eq!(registry.create(name("three"), three()), Ok(3));
    assert_eq!(registry.count(), 2);
    assert!(registry.contains(&name("empty")));
    assert!(registry.contains(&name("three")));
    assert!(!registry.contains(&name("four")));
    assert_eq!(registry.size(&name("empty")), Ok(0));
    assert_eq!(registry.size(&name("three")), Ok(3));
}

#[test]
fn create_refuses_a_name_that_is_taken() {
    let mut registry = Registry::new();
    registry.create(name("docs"), three()).unwrap();
    let err = registry.create(name("docs"), None).unwrap_err();
    assert_eq!(err, Error::AlreadyExists { name: name("docs") });
    assert_eq!(err.message(), "docs already exists");
    assert_eq!(registry.size(&name("docs")), Ok(3));
    assert_eq!(registry.count(), 1);

    let taken_first = registry
        .create(name("docs"), Some((vec![body("a")], vec![])))
        .unwrap_err();
    assert_eq!(taken_first, Error::AlreadyExists { name: name("docs") });
}

#[test]
fn create_refuses_unequal_lengths_and_registers_nothing() {
    let mut registry = Registry::new();
    let err = registry
        .create(name("docs"), Some((vec![body("a"), body("b")], vec![bits(vec![1.0])])))
        .unwrap_err();
    assert_eq!(
        err,
        Error::LengthMismatch {
            texts_len: 2,
            embeddings_len: 1
        }
    );
    assert!(!registry.contains(&name("docs")));
    assert_eq!(registry.count(), 0);
}

#[test]
fn unknown_names_are_not_found() {
    let mut registry = Registry::new();
    registry.create(name("docs"), None).unwrap();
    let missing = Error::NotFound { name: name("other") };
    assert_eq!(missing.message(), "other not found");
    assert_eq!(registry.size(&name("other")), Err(Error::NotFound { name: name("other") }));
    assert_eq!(registry.get(&name("other")).err(), Some(Error::NotFound { name: name("other") }));
    assert_eq!(registry.remove(&name("other")), Err(Error::NotFound { name: name("other") }));
    let (mut t, mut e) = (vec![body("a")], vec![bits(vec![1.0])]);
    assert_eq!(
        registry.append(&name("other"), &mut t, &mut e),
        Err(Error::NotFound { name: name("other") })
    );
    assert_eq!((t.len(), e.len()), (1, 1));
    assert_eq!(
        registry.query(&name("other"), &bits(vec![1.0]), 1, SearchMethod::Cosine, cosine, never),
        Err(missing)
    );
    assert_eq!(registry.count(), 1);
}

#[test]
fn append_answers_with_the_new_size() {
    let mut registry = Registry::new();
    registry.create(name("docs"), three()).unwrap();
    let (mut t, mut e) = (
        vec![body("d"), body("e")],
        vec![bits(vec![0.0, -1.0]), bits(vec![0.5, 0.5])],
    );
    assert_eq!(registry.append(&name("docs"), &mut t, &mut e), Ok(5));
    assert!(t.is_empty() && e.is_empty());
    assert_eq!(registry.append(&name("docs"), &mut t, &mut e), Ok(5));

    let (mut t, mut e) = (vec![body("f")], vec![]);
    assert_eq!(
        registry.append(&name("docs"), &mut t, &mut e),
        Err(Error::LengthMismatch {
            texts_len: 1,
            embeddings_len: 0
        })
    );
    assert_eq!(t.len(), 1);
    assert_eq!(registry.size(&name("docs")), Ok(5));
}

#[test]
fn remove_answers_with_the_size_and_frees_the_name() {
    let mut registry = Registry::new();
    registry.create(name("one"), None).unwrap();
    registry.create(name("two"), three()).unwrap();
    registry.create(name("three"), None).unwrap();

    assert_eq!(registry.remove(&name("two")), Ok(3));
    assert!(!registry.contains(&name("two")));
    assert!(registry.contains(&name("one")));
    assert!(registry.contains(&name("three")));
    assert_eq!(registry.count(), 2);
    assert_eq!(registry.remove(&name("two")), Err(Error::NotFound { name: name("two") }));
    assert_eq!(registry.create(name("two"), None), Ok(0));
    assert_eq!(registry.size(&name("two")), Ok(0));
}

#[test]
fn get_hands_out_the_registered_collection() {
    let mut registry = Registry::new();
    registry.create(name("docs"), three()).unwrap();
    registry.create(name("none"), None).unwrap();
    assert_eq!(registry.get(&name("none")).unwrap().known_as(), "none");
    let index = registry.get(&name("docs")).unwrap();
    assert_eq!(index.known_as(), "docs");
    assert_eq!(index.len(), 3);
    index.replace_contents(vec![], vec![]).unwrap();
    assert_eq!(registry.size(&name("docs")), Ok(0));
}

#[test]
fn query_ranks_by_the_method_asked_for() {
    let mut registry = Registry::new();
    registry.create(name("docs"), three()).unwrap();
    let q = bits(vec![1.0, 0.0]);

    let found = registry
        .query(&name("docs"), &q, 2, SearchMethod::Cosine, cosine, never)
        .unwrap();
    let ids: Vec<String> = found.iter().map(|r| r.id.clone()).collect();
    assert_eq!(ids, vec!["a", "b"]);
    assert_eq!(f32::from_bits(found[0].score), 1.0);
    assert_eq!(f32::from_bits(found[1].score), 0.0);

    let found = registry
        .query(
            &name("docs"),
            &q,
            2,
            SearchMethod::ExemplarSVM,
            cosine,
            by_negated_first_component,
        )
        .unwrap();
    let ids: Vec<String> = found.iter().map(|r| r.id.clone()).collect();
    assert_eq!(ids, vec!["c", "b"]);
}

#[test]
fn query_names_the_collection_in_a_mismatch_of_dimensions() {
    let mut registry = Registry::new();
    registry.create(name("docs"), three()).unwrap();
    let q = bits(vec![1.0, 0.0, 0.0]);
    for method in [SearchMethod::Cosine, SearchMethod::ExemplarSVM] {
        let err = registry
            .query(&name("docs"), &q, 2, method, cosine, never)
            .unwrap_err();
        assert_eq!(
            err,
            Error::DimensionMismatch {
                index: name("docs"),
                query_len: 3,
                vector_len: 2
            }
        );
        assert_eq!(
            err.message(),
            "Index docs: Vectors not equal length (a=3, b=2)"
        );
    }
}

#[test]
fn query_on_an_empty_collection() {
    let mut registry = Registry::new();
    registry.create(name("docs"), None).unwrap();
    let q = bits(vec![1.0, 0.0]);
    assert_eq!(
        registry.query(&name("docs"), &q, 5, SearchMethod::Cosine, cosine, never).unwrap().len(),
        0
    );
    assert_eq!(
        registry
            .query(&name("docs"), &q, 5, SearchMethod::ExemplarSVM, cosine, never)
            .unwrap_err(),
        Error::Solver {
            reason: name("empty corpus")
        }
    );
}

#[test]
fn name_index_touches_mismatches_of_dimension_only() {
    assert_eq!(
        name_index(
            Error::DimensionMismatch {
                index: String::new(),
                query_len: 1,
                vector_len: 2
            },
            &name("docs")
        ),
        Error::DimensionMismatch {
            index: name("docs"),
            query_len: 1,
            vector_len: 2
        }
    );
    assert_eq!(
        name_index(Error::Solver { reason: name("x") }, &name("docs")),
        Error::Solver { reason: name("x") }
    );
}

#[test]
fn a_guarded_registry_answers_as_a_registry_does() {
    let registry = GuardedRegistry::new();
    assert!(!registry.contains(&name("docs")));
    assert_eq!(registry.size(&name("docs")), Err(Error::NotFound { name: name("docs") }));
    assert_eq!(registry.remove(&name("docs")), Err(Error::NotFound { name: name("docs") }));

    assert_eq!(registry.create(name("docs"), three()), Ok(3));
    assert_eq!(registry.create(name("empty"), None), Ok(0));
    assert_eq!(
        registry.create(name("docs"), None),
        Err(Error::AlreadyExists { name: name("docs") })
    );
    assert_eq!(
        registry.create(name("bad"), Some((vec![body("a")], vec![]))),
        Err(Error::LengthMismatch {
            texts_len: 1,
            embeddings_len: 0
        })
    );
    assert!(!registry.contains(&name("bad")));
    assert!(registry.contains(&name("docs")));
    assert_eq!(registry.size(&name("docs")), Ok(3));

    let (mut t, mut e) = (vec![body("d")], vec![bits(vec![0.0, -1.0])]);
    assert_eq!(registry.append(&name("docs"), &mut t, &mut e), Ok(4));
    assert!(t.is_empty() && e.is_empty());
    let (mut t, mut e) = (vec![body("e")], vec![]);
    assert_eq!(
        registry.append(&name("docs"), &mut t, &mut e),
        Err(Error::LengthMismatch {
            texts_len: 1,
            embeddings_len: 0
        })
    );
    assert_eq!(
        registry.append(&name("none"), &mut t, &mut e),
        Err(Error::NotFound { name: name("none") })
    );
    assert_eq!(t.len(), 1);

    let q = bits(vec![1.0, 0.0]);
    let found = registry
        .query(&name("docs"), &q, 2, SearchMethod::Cosine, cosine, never)
        .unwrap();
    let ids: Vec<String> = found.iter().map(|r| r.id.clone()).collect();
    assert_eq!(ids, vec!["a", "b"]);
    assert_eq!(
        registry.query(&name("none"), &q, 2, SearchMethod::Cosine, cosine, never),
        Err(Error::NotFound { name: name("none") })
    );
    assert_eq!(
        registry
            .query(&name("docs"), &bits(vec![1.0]), 2, SearchMethod::ExemplarSVM, cosine, never)
            .unwrap_err()
            .message(),
        "Index docs: Vectors not equal length (a=1, b=2)"
    );

    assert_eq!(registry.remove(&name("docs")), Ok(4));
    assert!(!registry.contains(&name("docs")));
    assert_eq!(registry.create(name("docs"), None), Ok(0));
}

fn shareable<T: Send + Sync>() {}

#[test]
fn collections_can_be_shared_between_threads() {
    shareable::<Registry>();
    shareable::<GuardedRegistry>();
    shareable::<scout::vector_index::GuardedIndex>();
    shareable::<scout::vector_index::Index>();
}
