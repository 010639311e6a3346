use kr2r::taxonomy::Taxonomy;

#[test]
fn rejects_parent_not_below_child() {
    assert!(Taxonomy::new(vec![0, 0, 3, 1]).is_err());
    assert!(Taxonomy::new(vec![0, 1]).is_err());
}

#[test]
fn ancestors_run_from_taxon_to_root() {
    let tax = Taxonomy::new(vec![0, 0, 1, 2]).unwrap();
    assert_eq!(tax.ancestors_of(3), vec![3, 2, 1]);
    assert_eq!(tax.ancestors_of(1), vec![1]);
    assert_eq!(tax.ancestors_of(0), Vec::<u32>::new());
    assert_eq!(tax.depth_of(3), 3);
    assert_eq!(tax.depth_of(0), 0);
}

#[test]
fn lca_meets_at_lowest_common_ancestor() {
    // 1 is the root; 2 and 3 are its children; 4 is a child of 2.
    let tax = Taxonomy::new(vec![0, 0, 1, 1, 2]).unwrap();
    assert_eq!(tax.lca(2, 3), 1);
    assert_eq!(tax.lca(4, 2), 2);
    assert_eq!(tax.lca(4, 3), 1);
    assert_eq!(tax.lca(4, 4), 4);
    // 0 is the neutral element.
    assert_eq!(tax.lca(0, 3), 3);
    assert_eq!(tax.lca(3, 0), 3);
}
