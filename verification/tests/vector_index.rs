use scout::vector_index::GuardedIndex;
use scout::vector_index::TextBody;

fn bits(v: Vec<f32>) -> Vec<u32> {
    v.iter().map(|x| x.to_bits()).collect()
}

fn cosine(a: &Vec<u32>, b: &Vec<u32>) -> u32 {
    let sum: f32 = a
        .iter()
        .zip(b.iter())
        .fold(0.0, |sum, (x, y)| sum + f32::from_bits(*x) * f32::from_bits(*y));
    sum.to_bits()
}

#[test]
fn test_guarded_index() {
    let index = GuardedIndex::new(vec![], vec![]).expect("Could not create index");

    let texts = vec![TextBody {
        id: "id".to_string(),
        text: "text".to_string(),
    }];

    let embeddings: Vec<Vec<u32>> = vec![bits(vec![1.0, 0.0])];

    index
        .replace_contents(texts, embeddings)
        .expect("Could not replace_contents");

    assert_eq!(index.embeddings().len(), 1);
    assert_eq!(index.texts().len(), 1);

    let results = index
        .search_knn(&bits(vec![1.0, 0.0]), 2, cosine)
        .expect("Could not search_knn");

    assert_eq!(results.len(), 1);

    let mut new_texts = vec![TextBody {
        id: "id-new".to_string(),
        text: "text-new".to_string(),
    }];

    let mut new_embeddings = vec![bits(vec![0.0, 1.0])];

    index
        .append_contents(&mut new_texts, &mut new_embeddings)
        .expect("Could not append");

    assert_eq!(index.len(), 2);
}

fn body(id: &str) -> TextBody {
    TextBody {
        id: id.to_string(),
        text: format!("text of {id}"),
    }
}

fn ids(found: &Vec<scout::vector_index::SearchResult>) -> Vec<String> {
    found.iter().map(|r| r.id.clone()).collect()
}

#[test]
fn cosine_search_returns_the_two_nearest_of_three() {
    let index = GuardedIndex::new(
        vec![body("a"), body("b"), body("c")],
        vec![
            bits(vec![1.0, 0.0]),
            bits(vec![0.0, 1.0]),
            bits(vec![-1.0, 0.0]),
        ],
    )
    .unwrap();

    let found = index.search_knn(&bits(vec![1.0, 0.0]), 2, cosine).unwrap();

    assert_eq!(ids(&found), vec!["a", "b"]);
    assert_eq!(f32::from_bits(found[0].score), 1.0);
    assert_eq!(f32::from_bits(found[1].score), 0.0);
    assert_eq!(found[0].text, "text of a");
    assert_eq!(found[1].text, "text of b");
}

#[test]
fn search_on_an_empty_index_is_empty() {
    let index = GuardedIndex::empty();
    for k in [0usize, 1, 7] {
        let found = index.search_knn(&bits(vec![1.0, 0.0]), k, cosine).unwrap();
        assert!(found.is_empty());
    }
    let plain = scout::vector_index::Index::empty();
    assert!(plain.search_knn(&bits(vec![1.0]), 3, cosine).unwrap().is_empty());
    assert!(plain.is_empty());
    assert!(index.is_empty());
}

#[test]
fn exemplar_search_on_an_empty_index_is_a_solver_error() {
    let index = GuardedIndex::empty();
    let err = index
        .search_exemplar_svm(
            &bits(vec![1.0, 0.0]),
            2,
            |_: &scout::sent_transform::svm::Problem| -> Result<Vec<u32>, String> {
                panic!("there is nothing to train on")
            },
        )
        .unwrap_err();
    assert_eq!(
        err,
        scout::Error::Solver {
            reason: "empty corpus".to_string()
        }
    );
}

#[test]
fn exemplar_search_presents_the_ranked_texts() {
    let index = GuardedIndex::new(
        vec![body("a"), body("b"), body("c")],
        vec![vec![1u32], vec![2], vec![3]],
    )
    .unwrap();
    let found = index
        .search_exemplar_svm(
            &vec![9u32],
            2,
            |p: &scout::sent_transform::svm::Problem| -> Result<Vec<u32>, String> {
                assert_eq!(p.labels, vec![1, 0, 0, 0]);
                Ok(bits(vec![0.5, -1.0, 2.0]))
            },
        )
        .unwrap();
    assert_eq!(ids(&found), vec!["c", "a"]);
    assert_eq!(f32::from_bits(found[0].score), 2.0);
    assert_eq!(f32::from_bits(found[1].score), 0.5);
}

#[test]
fn append_adds_the_appended_count_to_len() {
    let mut plain = scout::vector_index::Index::empty();
    let guarded = GuardedIndex::empty();
    let mut expected = 0usize;
    for count in [0usize, 1, 3, 0, 2] {
        let mut texts: Vec<TextBody> = (0..count).map(|i| body(&format!("{expected}-{i}"))).collect();
        let mut embeddings: Vec<Vec<u32>> = (0..count).map(|_| bits(vec![1.0, 0.0])).collect();
        plain.append_contents(&mut texts.clone(), &mut embeddings.clone()).unwrap();
        guarded.append_contents(&mut texts, &mut embeddings).unwrap();
        assert!(texts.is_empty());
        assert!(embeddings.is_empty());
        expected += count;
        assert_eq!(plain.len(), expected);
        assert_eq!(guarded.len(), expected);
    }
    let order: Vec<String> = plain.texts().iter().map(|t| t.id.clone()).collect();
    assert_eq!(order, vec!["0-0", "1-0", "1-1", "1-2", "4-0", "4-1"]);
    let order: Vec<String> = guarded.texts().iter().map(|t| t.id.clone()).collect();
    assert_eq!(order, vec!["0-0", "1-0", "1-1", "1-2", "4-0", "4-1"]);
}

#[test]
fn replace_discards_what_was_there() {
    for before in [0usize, 1, 5] {
        for after in [0usize, 2, 7] {
            let make = |n: usize, tag: &str| -> (Vec<TextBody>, Vec<Vec<u32>>) {
                (
                    (0..n).map(|i| body(&format!("{tag}{i}"))).collect(),
                    (0..n).map(|i| vec![i as u32]).collect(),
                )
            };
            let (t0, e0) = make(before, "old");
            let (t1, e1) = make(after, "new");
            let mut plain = scout::vector_index::Index::new(t0.clone(), e0.clone()).unwrap();
            let guarded = GuardedIndex::new(t0, e0).unwrap();
            plain.replace_contents(t1.clone(), e1.clone()).unwrap();
            guarded.replace_contents(t1, e1.clone()).unwrap();
            assert_eq!(plain.len(), after);
            assert_eq!(guarded.len(), after);
            assert_eq!(plain.embeddings(), e1);
            assert_eq!(guarded.embeddings(), e1);
            assert!(guarded.texts().iter().all(|t| t.id.starts_with("new")));
        }
    }
}

#[test]
fn unequal_lengths_are_refused_everywhere() {
    let mismatch = scout::Error::LengthMismatch {
        texts_len: 2,
        embeddings_len: 1,
    };
    let texts = || vec![body("a"), body("b")];
    let embeddings = || vec![bits(vec![1.0])];

    assert_eq!(GuardedIndex::new(texts(), embeddings()).err(), Some(scout::Error::LengthMismatch {
        texts_len: 2,
        embeddings_len: 1,
    }));
    assert_eq!(scout::vector_index::Index::new(texts(), embeddings()).err(), Some(scout::Error::LengthMismatch {
        texts_len: 2,
        embeddings_len: 1,
    }));

    let guarded = GuardedIndex::new(vec![body("x")], vec![bits(vec![0.5])]).unwrap();
    let mut plain = scout::vector_index::Index::new(vec![body("x")], vec![bits(vec![0.5])]).unwrap();

    assert_eq!(guarded.replace_contents(texts(), embeddings()), Err(scout::Error::LengthMismatch {
        texts_len: 2,
        embeddings_len: 1,
    }));
    assert_eq!(plain.replace_contents(texts(), embeddings()), Err(scout::Error::LengthMismatch {
        texts_len: 2,
        embeddings_len: 1,
    }));

    let (mut t, mut e) = (texts(), embeddings());
    assert_eq!(guarded.append_contents(&mut t, &mut e), Err(scout::Error::LengthMismatch {
        texts_len: 2,
        embeddings_len: 1,
    }));
    assert_eq!((t.len(), e.len()), (2, 1));
    assert_eq!(plain.append_contents(&mut t, &mut e).unwrap_err(), mismatch);
    assert_eq!((t.len(), e.len()), (2, 1));

    assert_eq!(guarded.len(), 1);
    assert_eq!(plain.len(), 1);
    assert_eq!(guarded.texts()[0].id, "x");

    let err: Result<(), scout::Error> = scout::vector_index::err_mesg_unequal_lens(2, 1);
    assert_eq!(
        err.unwrap_err().message(),
        "texts (len=2) and embeddings (len=1) have unequal lengths"
    );
}

#[test]
fn a_query_of_another_dimension_is_refused() {
    let index = GuardedIndex::named(
        "docs".to_string(),
        vec![body("a")],
        vec![bits(vec![1.0, 0.0])],
    )
    .unwrap();
    assert_eq!(index.known_as(), "docs");
    let err = index
        .search_knn(&bits(vec![1.0, 0.0, 0.0]), 1, cosine)
        .unwrap_err();
    assert_eq!(
        err,
        scout::Error::DimensionMismatch {
            index: "docs".to_string(),
            query_len: 3,
            vector_len: 2
        }
    );
    assert_eq!(
        err.message(),
        "Index docs: Vectors not equal length (a=3, b=2)"
    );
    let err = index
        .search_exemplar_svm(
            &bits(vec![1.0]),
            1,
            |_: &scout::sent_transform::svm::Problem| -> Result<Vec<u32>, String> {
                panic!("the solver is not to be called")
            },
        )
        .unwrap_err();
    assert_eq!(
        err,
        scout::Error::DimensionMismatch {
            index: "docs".to_string(),
            query_len: 1,
            vector_len: 2
        }
    );
}

#[test]
fn an_index_without_a_name_reports_an_empty_name() {
    let index = GuardedIndex::new(vec![body("a")], vec![bits(vec![1.0, 0.0])]).unwrap();
    assert_eq!(index.known_as(), "");
    assert_eq!(GuardedIndex::empty().known_as(), "");
    assert_eq!(
        index.search_knn(&bits(vec![1.0, 0.0, 0.0]), 1, cosine).unwrap_err(),
        scout::Error::DimensionMismatch {
            index: String::new(),
            query_len: 3,
            vector_len: 2
        }
    );
    let plain = scout::vector_index::Index::new(vec![body("a")], vec![bits(vec![1.0, 0.0])]).unwrap();
    assert_eq!(
        plain.search_knn(&bits(vec![1.0]), 1, cosine).unwrap_err(),
        scout::Error::DimensionMismatch {
            index: String::new(),
            query_len: 1,
            vector_len: 2
        }
    );
}

#[test]
fn a_named_index_keeps_its_name() {
    let index = GuardedIndex::empty_named("notes".to_string());
    assert_eq!(index.known_as(), "notes");
    assert!(index.is_empty());
    index
        .replace_contents(vec![body("a")], vec![bits(vec![1.0, 0.0])])
        .unwrap();
    assert_eq!(index.known_as(), "notes");
    assert_eq!(
        GuardedIndex::named("x".to_string(), vec![body("a")], vec![]).err(),
        Some(scout::Error::LengthMismatch {
            texts_len: 1,
            embeddings_len: 0
        })
    );
}

#[test]
fn append_counted_answers_with_the_size_after_the_append() {
    let index = GuardedIndex::empty();
    let mut expected = 0usize;
    for count in [2usize, 0, 3] {
        let mut texts: Vec<TextBody> = (0..count).map(|i| body(&format!("{i}"))).collect();
        let mut embeddings: Vec<Vec<u32>> = (0..count).map(|_| bits(vec![1.0, 0.0])).collect();
        expected += count;
        assert_eq!(index.append_counted(&mut texts, &mut embeddings), Ok(expected));
        assert!(texts.is_empty() && embeddings.is_empty());
        assert_eq!(index.len(), expected);
    }
    let (mut t, mut e) = (vec![body("x")], vec![]);
    assert_eq!(
        index.append_counted(&mut t, &mut e),
        Err(scout::Error::LengthMismatch {
            texts_len: 1,
            embeddings_len: 0
        })
    );
    assert_eq!((t.len(), e.len()), (1, 0));
    assert_eq!(index.len(), expected);
}

#[test]
fn snapshot_is_a_copy() {
    let guarded = GuardedIndex::new(vec![body("a")], vec![vec![1u32, 2]]).unwrap();
    let copy = guarded.snapshot();
    guarded.replace_contents(vec![], vec![]).unwrap();
    assert_eq!(copy.len(), 1);
    assert_eq!(copy.embeddings(), vec![vec![1u32, 2]]);
    assert_eq!(copy.texts()[0].id, "a");
    assert_eq!(guarded.len(), 0);
}

#[test]
fn len_between_appends_is_a_completed_count() {
    let index = GuardedIndex::empty();
    let mut seen: Vec<usize> = vec![index.len()];
    for round in 0..2 {
        let mut texts = vec![body(&format!("{round}a")), body(&format!("{round}b"))];
        let mut embeddings = vec![bits(vec![1.0, 0.0]), bits(vec![0.0, 1.0])];
        index.append_contents(&mut texts, &mut embeddings).unwrap();
        seen.push(index.len());
        assert_eq!(index.texts().len(), index.embeddings().len());
    }
    assert_eq!(seen, vec![0, 2, 4]);
}
