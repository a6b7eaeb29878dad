use finalfusion_utils::options::{EmbeddingFormat, SimilarityMeasure};
use finalfusion_utils::similarity::Scored;

#[test]
fn similarity_measures_parse_by_name() {
    assert_eq!(SimilarityMeasure::try_from("angular"), Ok(SimilarityMeasure::Angular));
    assert_eq!(SimilarityMeasure::try_from("cosine"), Ok(SimilarityMeasure::Cosine));
    let err = SimilarityMeasure::try_from("euclidean").unwrap_err();
    assert_eq!(err.name, "euclidean");
}

#[test]
fn similarity_measure_names_round_trip() {
    for m in [SimilarityMeasure::Angular, SimilarityMeasure::Cosine].iter() {
        assert_eq!(SimilarityMeasure::try_from(m.name()), Ok(*m));
    }
    assert_eq!(SimilarityMeasure::Cosine.name(), "cosine");
}

#[test]
fn embedding_formats_parse_by_name() {
    let all = [
        ("fasttext", EmbeddingFormat::FastText),
        ("finalfusion", EmbeddingFormat::FinalFusion),
        ("finalfusion_mmap", EmbeddingFormat::FinalFusionMmap),
        ("floret", EmbeddingFormat::Floret),
        ("word2vec", EmbeddingFormat::Word2Vec),
        ("text", EmbeddingFormat::Text),
        ("textdims", EmbeddingFormat::TextDims),
    ];
    for (name, format) in all.iter() {
        assert_eq!(EmbeddingFormat::try_from(name), Ok(*format));
        assert_eq!(format.name(), *name);
    }
    assert_eq!(EmbeddingFormat::try_from("glove").unwrap_err().name, "glove");
}

#[test]
fn read_only_formats_are_not_writable() {
    assert!(!EmbeddingFormat::FastText.writable());
    assert!(!EmbeddingFormat::FinalFusionMmap.writable());
    assert!(!EmbeddingFormat::Floret.writable());
    assert!(EmbeddingFormat::FinalFusion.writable());
    assert!(EmbeddingFormat::Word2Vec.writable());
    assert!(EmbeddingFormat::Text.writable());
    assert!(EmbeddingFormat::TextDims.writable());
}

#[test]
fn measure_selects_its_score() {
    let r = Scored { word: "queen".to_string(), cosine_bits: 0.5f32.to_bits(), angular_bits: 0.75f32.to_bits() };
    assert_eq!(f32::from_bits(SimilarityMeasure::Cosine.score_bits(&r)), 0.5);
    assert_eq!(f32::from_bits(SimilarityMeasure::Angular.score_bits(&r)), 0.75);
}
