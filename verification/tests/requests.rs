use proxima::gpu::{count_queries, finish, outcome, BufferError, KernelError};
use proxima::request::{
    check_flat, check_hnsw, check_pq, check_queries, check_training, check_vectors, Rejection,
};
use proxima::soft::Soft;
use proxima::Metric;

#[test]
fn indexes_that_cannot_be() {
    assert_eq!(check_flat(0), Some(Rejection::ZeroDim));
    assert_eq!(check_flat(1), None);
    assert_eq!(check_hnsw(0, 0, 0, 0), Some(Rejection::ZeroDim));
    assert_eq!(check_hnsw(4, 1, 0, 0), Some(Rejection::TooFewNeighbors));
    assert_eq!(check_hnsw(4, 2, 0, 0), Some(Rejection::ZeroEfConstruction));
    assert_eq!(check_hnsw(4, 2, 1, 0), Some(Rejection::ZeroEfSearch));
    assert_eq!(check_hnsw(4, 2, 1, 1), None);
    assert_eq!(check_pq(0, 0, 0), Some(Rejection::ZeroParts));
    assert_eq!(check_pq(0, 2, 0), Some(Rejection::UnequalParts));
    assert_eq!(check_pq(5, 2, 0), Some(Rejection::UnequalParts));
    assert_eq!(check_pq(4, 2, 0), Some(Rejection::CodeBits));
    assert_eq!(check_pq(4, 2, 9), Some(Rejection::CodeBits));
    assert_eq!(check_pq(4, 2, 8), None);
}

#[test]
fn vectors_and_queries_that_do_not_fit() {
    assert_eq!(check_vectors(3, 4), Some(Rejection::VectorDim { got: 3, dim: 4 }));
    assert_eq!(check_vectors(4, 4), None);
    assert_eq!(check_training(3, 9, 4, 2), Some(Rejection::TrainingDim));
    assert_eq!(
        check_training(4, 3, 4, 2),
        Some(Rejection::TooFewTrainingVectors { need: 4, nbits: 2, got: 3 })
    );
    assert_eq!(check_training(4, 4, 4, 2), None);
    let nan = [0, f32::NAN.to_bits()];
    assert_eq!(check_queries(false, 3, 2, Some(1), 5, &nan), Some(Rejection::Untrained));
    assert_eq!(check_queries(true, 3, 2, Some(1), 5, &nan), Some(Rejection::QueryDim));
    assert_eq!(
        check_queries(true, 2, 2, Some(1), 5, &nan),
        Some(Rejection::MaskLength { got: 1, len: 5 })
    );
    assert_eq!(check_queries(true, 2, 2, Some(5), 5, &nan), Some(Rejection::NotFinite));
    assert_eq!(check_queries(true, 2, 2, None, 5, &nan), Some(Rejection::NotFinite));
    let infinity = [f32::INFINITY.to_bits(), 0];
    assert_eq!(check_queries(true, 2, 2, None, 5, &infinity), Some(Rejection::NotFinite));
    assert_eq!(check_queries(true, 2, 2, None, 5, &[0, f32::MAX.to_bits()]), None);
}

#[test]
fn kernel_codes() {
    assert_eq!(outcome(0), Ok(()));
    assert_eq!(outcome(-1), Err(KernelError::InvalidK));
    assert_eq!(outcome(-2), Err(KernelError::SharedMemory));
    assert_eq!(outcome(2), Err(KernelError::Failed(2)));
    assert_eq!((Metric::L2.code(), Metric::InnerProduct.code()), (0, 1));
    assert_eq!(Metric::from_code(1), Some(Metric::InnerProduct));
    assert_eq!(Metric::from_code(2), None);
}

#[test]
fn kernel_buffers() {
    assert_eq!(count_queries(7, 2, 1, 9, 9), Err(BufferError::QueryLength));
    assert_eq!(count_queries(6, 2, 3, 9, 9), Ok(3));
    assert_eq!(count_queries(6, 2, 3, 8, 9), Err(BufferError::OutputsTooSmall));
    assert_eq!(count_queries(6, 2, 3, 9, 8), Err(BufferError::OutputsTooSmall));
    assert_eq!(
        count_queries(usize::MAX, 1, usize::MAX, usize::MAX, usize::MAX),
        Err(BufferError::OutputsTooSmall)
    );
}

#[test]
fn kernel_keys_become_distances() {
    let ids = [4i64, -1, 0];
    let mut dists = [9.0f32.to_bits(), 0, 16.0f32.to_bits()];
    finish::<Soft>(Metric::L2, &ids, &mut dists, 2);
    assert_eq!(dists.map(f32::from_bits), [3.0, f32::MAX, 16.0]);
    let mut dists = [(-9.0f32).to_bits(), 0, 16.0f32.to_bits()];
    finish::<Soft>(Metric::InnerProduct, &ids, &mut dists, 3);
    assert_eq!(dists.map(f32::from_bits), [9.0, f32::MIN, -16.0]);
}
