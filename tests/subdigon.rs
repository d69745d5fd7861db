use hyper_catalan::SubdigonType;

#[test]
fn test_subdigon_calculations() {
    // Two digons and one trigon.
    let values = vec![2, 1, 0];
    let type_ = SubdigonType::new(values);

    assert_eq!(type_.faces(), 3);
    // (2*2 + 3*1) / 2 = 7 / 2, truncated.
    assert_eq!(type_.edges(), 3);
    assert_eq!(type_.vertices(), 2);
}

#[test]
fn all_zero_counts_give_two_vertices() {
    let type_ = SubdigonType::new(vec![0, 0, 0]);
    assert_eq!(type_.faces(), 0);
    assert_eq!(type_.edges(), 0);
    assert_eq!(type_.vertices(), 2);
}

#[test]
fn empty_counts_give_two_vertices() {
    let type_ = SubdigonType::new(vec![]);
    assert_eq!(type_.faces(), 0);
    assert_eq!(type_.edges(), 0);
    assert_eq!(type_.vertices(), 2);
}

#[test]
fn euler_formula_on_several_types() {
    for values in [vec![1, 0, 0], vec![0, 2, 0], vec![3, 4, 5], vec![0, 0, 7, 1], vec![10]] {
        let t = SubdigonType::new(values);
        assert_eq!(t.vertices(), t.edges() - t.faces() + 2);
    }
}

#[test]
fn edges_of_larger_polygons() {
    // 3*2 + 4*1 + 5*2 = 20 sides, 10 edges.
    let t = SubdigonType::new(vec![0, 2, 1, 2]);
    assert_eq!(t.faces(), 5);
    assert_eq!(t.edges(), 10);
    assert_eq!(t.vertices(), 7);
}

#[test]
fn text_of_counts() {
    assert_eq!(SubdigonType::new(vec![2, 1, 0]).to_string(), "(2,1,0))");
    assert_eq!(SubdigonType::new(vec![12]).to_string(), "(12))");
    assert_eq!(SubdigonType::new(vec![]).to_string(), "())");
    assert_eq!(SubdigonType::new(vec![-3, 40]).to_string(), "(-3,40))");
}

#[test]
fn equality_is_structural() {
    assert!(SubdigonType::new(vec![1, 2]) == SubdigonType::new(vec![1, 2]));
    assert!(SubdigonType::new(vec![1, 2]) != SubdigonType::new(vec![2, 1]));
    assert!(SubdigonType::new(vec![1, 2]) != SubdigonType::new(vec![1, 2, 0]));
}
