use finalfusion::embeddings::Embeddings;
use finalfusion::norms::NdNorms;
use finalfusion::storage::{NdArray, StorageViewWrap};
use finalfusion::vocab::{SimpleVocab, VocabWrap};
use ndarray::{Array1, Array2};

use finalfusion_utils::query::{answer_analogy, answer_similar, AnalogyAnswer, SimilarAnswer};
use finalfusion_utils::similarity::{rank, solve, Collection, OutOfRange, Scored};

fn embeddings(words: &[&str], rows: &[[f32; 3]]) -> Embeddings<VocabWrap, StorageViewWrap> {
    let mut matrix = Array2::zeros((rows.len(), 3));
    let mut norms = Vec::new();
    for (i, row) in rows.iter().enumerate() {
        let norm = row.iter().map(|x| x * x).sum::<f32>().sqrt();
        for (j, x) in row.iter().enumerate() {
            matrix[[i, j]] = x / norm;
        }
        norms.push(norm);
    }
    let vocab = SimpleVocab::new(words.iter().map(|w| w.to_string()).collect::<Vec<_>>());
    Embeddings::new(None, vocab, NdArray::new(matrix), NdNorms::new(Array1::from(norms))).into()
}

fn collection(words: &[&str], rows: &[[f32; 3]]) -> Collection {
    Collection::new(embeddings(words, rows)).unwrap()
}

fn royals() -> Collection {
    collection(
        &["king", "man", "woman", "queen"],
        &[[1., 0., 1.], [1., 0., 0.], [0., 1., 0.], [0., 1., 1.]],
    )
}

fn words(rs: &[Scored]) -> Vec<&str> {
    rs.iter().map(|r| r.word.as_str()).collect()
}

fn non_increasing(rs: &[Scored]) -> bool {
    rs.windows(2)
        .all(|w| f32::from_bits(w[0].cosine_bits) >= f32::from_bits(w[1].cosine_bits))
}

#[test]
fn analogy_with_all_exclusions_finds_queen() {
    let e = royals();
    let rs = solve(&e, "king", "man", "woman", [true, true, true], 1).unwrap();
    assert_eq!(words(&rs), vec!["queen"]);
}

#[test]
fn analogy_respects_each_mask() {
    let e = royals();
    let q = ["king", "man", "woman"];
    for bits in 0..8 {
        let mask = [bits & 1 != 0, bits & 2 != 0, bits & 4 != 0];
        let rs = solve(&e, q[0], q[1], q[2], mask, 4).unwrap();
        assert!(rs.len() <= 4);
        assert!(non_increasing(&rs));
        for m in 0..3 {
            if mask[m] {
                assert!(!words(&rs).contains(&q[m]));
            } else {
                assert!(words(&rs).contains(&q[m]));
            }
        }
    }
}

#[test]
fn analogy_with_unknown_tokens_reports_which_are_present() {
    let e = royals();
    assert_eq!(solve(&e, "king", "prince", "woman", [true; 3], 1).err(), Some([true, false, true]));
    assert_eq!(solve(&e, "duke", "prince", "woman", [true; 3], 1).err(), Some([false, false, true]));
}

#[test]
fn ranking_excludes_the_query_word() {
    let e = royals();
    let rs = rank(&e, "king", 10).unwrap();
    assert_eq!(rs.len(), 3);
    assert!(!words(&rs).contains(&"king"));
    assert!(non_increasing(&rs));
    assert_eq!(words(&rs)[2], "woman");
}

#[test]
fn ranking_keeps_at_most_k() {
    let e = royals();
    let rs = rank(&e, "queen", 1).unwrap();
    assert_eq!(rs.len(), 1);
    let cos = f32::from_bits(rs[0].cosine_bits);
    assert!((cos - 0.70710677).abs() < 1e-5);
    let angular = f32::from_bits(rs[0].angular_bits);
    assert!((angular - 0.75).abs() < 1e-5);
}

#[test]
fn ranking_unknown_word_gives_none() {
    assert!(rank(&royals(), "prince", 3).is_none());
}

#[test]
fn equal_similarities_are_ordered_by_word() {
    let e = collection(&["pear", "apple", "fig"], &[[1., 1., 0.], [1., 1., 0.], [1., 0., 0.]]);
    let rs = rank(&e, "fig", 2).unwrap();
    assert_eq!(words(&rs), vec!["apple", "pear"]);
    assert_eq!(rs[0].cosine_bits, rs[1].cosine_bits);
}

#[test]
fn analogy_lines_are_answered() {
    let e = royals();
    assert!(matches!(answer_analogy(&e, "  \t", [true; 3], 1), AnalogyAnswer::Blank));
    assert!(matches!(answer_analogy(&e, "king man", [true; 3], 1), AnalogyAnswer::Malformed(2)));
    match answer_analogy(&e, "king prince duke", [true; 3], 1) {
        AnalogyAnswer::Missing(m) => assert_eq!(m, vec!["prince", "duke"]),
        _ => panic!("expected missing tokens"),
    }
    match answer_analogy(&e, " king man woman ", [true; 3], 1) {
        AnalogyAnswer::Found(rs) => assert_eq!(words(&rs), vec!["queen"]),
        _ => panic!("expected an answer"),
    }
}

#[test]
fn similarity_lines_are_answered() {
    let e = royals();
    assert!(matches!(answer_similar(&e, " \t ", 2), SimilarAnswer::Blank));
    match answer_similar(&e, "  prince ", 2) {
        SimilarAnswer::Unknown(w) => assert_eq!(w, "prince"),
        _ => panic!("expected an unknown word"),
    }
    match answer_similar(&e, " queen\t", 2) {
        SimilarAnswer::Found(rs) => {
            assert_eq!(rs.len(), 2);
            assert!(!words(&rs).contains(&"queen"));
        }
        _ => panic!("expected an answer"),
    }
}

#[test]
fn collection_with_numbers_outside_the_unit_range_is_refused() {
    let mut matrix = Array2::zeros((2, 3));
    matrix[[0, 0]] = 1.0f32;
    matrix[[1, 2]] = f32::NAN;
    let vocab = SimpleVocab::new(vec!["a".to_string(), "b".to_string()]);
    let e: Embeddings<VocabWrap, StorageViewWrap> =
        Embeddings::new(None, vocab, NdArray::new(matrix), NdNorms::new(Array1::from(vec![1f32, 1.]))).into();
    assert_eq!(Collection::new(e).err(), Some(OutOfRange { row: 1, column: 2 }));

    let mut matrix = Array2::zeros((2, 3));
    matrix[[0, 2]] = f32::INFINITY;
    let vocab = SimpleVocab::new(vec!["a".to_string(), "b".to_string()]);
    let e: Embeddings<VocabWrap, StorageViewWrap> =
        Embeddings::new(None, vocab, NdArray::new(matrix), NdNorms::new(Array1::from(vec![1f32, 1.]))).into();
    assert_eq!(Collection::new(e).err(), Some(OutOfRange { row: 0, column: 2 }));

    let mut matrix = Array2::zeros((2, 3));
    matrix[[1, 1]] = -70000.0f32;
    let vocab = SimpleVocab::new(vec!["a".to_string(), "b".to_string()]);
    let e: Embeddings<VocabWrap, StorageViewWrap> =
        Embeddings::new(None, vocab, NdArray::new(matrix), NdNorms::new(Array1::from(vec![1f32, 1.]))).into();
    assert_eq!(Collection::new(e).err(), Some(OutOfRange { row: 1, column: 1 }));
}

#[test]
fn raw_rows_up_to_two_to_the_sixteen_are_accepted() {
    let mut matrix = Array2::zeros((2, 3));
    matrix[[0, 0]] = 1.0f32;
    matrix[[1, 0]] = 65536.0f32;
    matrix[[1, 1]] = -3.5f32;
    let vocab = SimpleVocab::new(vec!["a".to_string(), "b".to_string()]);
    let e: Embeddings<VocabWrap, StorageViewWrap> =
        Embeddings::new(None, vocab, NdArray::new(matrix), NdNorms::new(Array1::from(vec![1f32, 1.]))).into();
    let c = Collection::new(e).unwrap();
    let rs = rank(&c, "a", 5).unwrap();
    assert_eq!(words(&rs), vec!["b"]);
    assert_eq!(f32::from_bits(rs[0].cosine_bits), 65536.0);
}

#[test]
fn best_words_come_first_and_none_better_is_left_out() {
    let e = collection(
        &["q", "far", "near", "mid"],
        &[[1., 0., 0.], [0., 0., 1.], [1., 0.1, 0.], [1., 1., 0.]],
    );
    let rs = rank(&e, "q", 2).unwrap();
    assert_eq!(words(&rs), vec!["near", "mid"]);
}

#[test]
fn k_beyond_the_vocabulary_gives_every_other_word() {
    let e = royals();
    let rs = rank(&e, "king", usize::MAX).unwrap();
    assert_eq!(rs.len(), 3);
    let rs = solve(&e, "king", "man", "woman", [false, true, true], usize::MAX).unwrap();
    assert_eq!(rs.len(), 2);
    assert!(words(&rs).contains(&"king"));
}
