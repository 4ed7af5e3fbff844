use thermite_core::sparse::{build_csr, SparseError};

#[test]
fn csr_matrix_from_parts() {
    let m = build_csr(&[1.0f64, 2.0], &[0, 2], &[0, 1, 2], 2, 3).unwrap();
    assert_eq!(m.inner.matrix.nnz(), 2);
    assert_eq!(m.inner.matrix.rows(), 2);
    assert_eq!(m.inner.matrix.cols(), 3);
    assert_eq!(m.inner.matrix.get(1, 2), Some(&2.0));
    assert_eq!(m.inner.matrix.indptr().raw_storage(), &[0, 1, 2]);
    assert_eq!(m.inner.matrix.indices(), &[0, 2]);
    assert_eq!(m.inner.matrix.data(), &[1.0, 2.0]);
    assert!(matches!(
        build_csr(&[1.0f64], &[0], &[0, 1], 2, 3),
        Err(SparseError::IndptrLength { got: 2, expected: 3 })
    ));
}
