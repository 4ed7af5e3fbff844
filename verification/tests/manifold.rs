use thermite_core::manifold::{shape_matches, Isomap, LocallyLinearEmbedding, UMAP};

#[test]
fn manifold_settings_are_kept() {
    let iso = Isomap::new(5, 2);
    assert_eq!((iso.n_neighbors, iso.n_components), (5, 2));
    let lle = LocallyLinearEmbedding::new(6, 3, "standard".to_string());
    assert_eq!((lle.n_neighbors, lle.n_components, lle.method.as_str()), (6, 3, "standard"));
    let umap = UMAP::new(2, 15);
    assert_eq!((umap.n_components, umap.n_neighbors), (2, 15));
}

#[test]
fn buffer_shape_is_checked() {
    assert!(shape_matches(6, 2, 3));
    assert!(!shape_matches(5, 2, 3));
    assert!(shape_matches(0, 0, 5));
    assert!(!shape_matches(0, usize::MAX, 2));
}
