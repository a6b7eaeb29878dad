use finalfusion::embeddings::{Embeddings, Quantize};
use finalfusion::norms::NdNorms;
use finalfusion::storage::{NdArray, Storage};
use finalfusion::vocab::SimpleVocab;
use finalfusion_utils::quantize::{worker_threads, ConfigError, QuantizeConfig, QuantizerKind};
use ndarray::{Array1, Array2};
use reductive::pq::Pq;

#[test]
fn quantizer_kinds_parse_by_name() {
    assert_eq!(QuantizerKind::try_from("pq"), Ok(QuantizerKind::Pq));
    assert_eq!(QuantizerKind::try_from("opq"), Ok(QuantizerKind::Opq));
    assert_eq!(QuantizerKind::try_from("gaussian_opq"), Ok(QuantizerKind::GaussianOpq));
    assert_eq!(QuantizerKind::try_from("kmeans").unwrap_err().name, "kmeans");
}

#[test]
fn valid_settings_are_kept() {
    let c = QuantizeConfig::new("pq", None, 8, 100, 1, 4).unwrap();
    assert_eq!(c.quantizer, QuantizerKind::Pq);
    assert_eq!(c.n_subquantizers, None);
    assert_eq!(c.quantizer_bits, 8);
    assert_eq!(c.n_iterations, 100);
    assert_eq!(c.n_attempts, 1);
    assert_eq!(c.n_threads, 4);
    assert_eq!(QuantizeConfig::new("opq", Some(10), 1, 5, 2, 1).unwrap().quantizer_bits, 1);
}

#[test]
fn bits_outside_one_to_eight_are_refused() {
    assert_eq!(QuantizeConfig::new("pq", None, 0, 100, 1, 4), Err(ConfigError::BitsOutOfRange(0)));
    assert_eq!(QuantizeConfig::new("pq", None, 9, 100, 1, 4), Err(ConfigError::BitsOutOfRange(9)));
}

#[test]
fn unknown_quantizer_is_refused_first() {
    assert_eq!(
        QuantizeConfig::new("lsh", None, 0, 100, 1, 4),
        Err(ConfigError::UnknownQuantizer("lsh".to_string()))
    );
}

#[test]
fn subquantizers_default_to_half_the_dimensions() {
    let c = QuantizeConfig::new("pq", None, 8, 100, 1, 4).unwrap();
    assert_eq!(c.subquantizers(300), 150);
    assert_eq!(c.subquantizers(7), 3);
    let c = QuantizeConfig::new("pq", Some(25), 8, 100, 1, 4).unwrap();
    assert_eq!(c.subquantizers(300), 25);
}

#[test]
fn threads_default_to_half_the_processors() {
    assert_eq!(worker_threads(None, 8), 4);
    assert_eq!(worker_threads(None, 1), 0);
    assert_eq!(worker_threads(Some(3), 8), 3);
}

fn unit_rows(n_rows: usize, dims: usize) -> (Array2<f32>, Array1<f32>) {
    let mut state: u64 = 0x2545_f491_4f6c_dd1d;
    let mut matrix = Array2::zeros((n_rows, dims));
    let mut norms = Array1::zeros(n_rows);
    for i in 0..n_rows {
        for j in 0..dims {
            state = state.wrapping_mul(6364136223846793005).wrapping_add(1442695040888963407);
            matrix[[i, j]] = ((state >> 40) as f32 / (1u64 << 24) as f32) - 0.5;
        }
        let norm = matrix.row(i).dot(&matrix.row(i)).sqrt();
        matrix.row_mut(i).mapv_inplace(|x| x / norm);
        norms[i] = norm;
    }
    (matrix, norms)
}

#[test]
fn quantized_reconstruction_stays_close() {
    let (n_rows, dims) = (512, 8);
    let (matrix, norms) = unit_rows(n_rows, dims);
    let words: Vec<String> = (0..n_rows).map(|i| format!("w{}", i)).collect();
    let embeddings = Embeddings::new(None, SimpleVocab::new(words), NdArray::new(matrix.clone()), NdNorms::new(norms));

    let config = QuantizeConfig::new("pq", None, 8, 10, 1, 1).unwrap();
    assert_eq!(config.subquantizers(dims), 4);
    let quantized = embeddings
        .quantize::<Pq<f32>>(
            config.subquantizers(dims),
            config.quantizer_bits,
            config.n_iterations,
            config.n_attempts,
            true,
        )
        .unwrap();

    let mut cos_sum = 0f32;
    for i in 0..n_rows {
        let u = matrix.row(i);
        let v = quantized.storage().embedding(i);
        cos_sum += u.dot(&v) / (u.dot(&u).sqrt() * v.dot(&v).sqrt());
    }
    let mean = cos_sum / n_rows as f32;
    assert!(mean > 0.9 && mean <= 1.0001, "mean cosine similarity {}", mean);
}
