use aws_mls::tree_math::{direct_path, left, right, root};

#[test]
fn tree_math_on_four_leaves() {
    assert_eq!(root(4), 3);
    assert_eq!(left(3), Ok(1));
    assert_eq!(right(3, 4), Ok(5));
    assert_eq!(left(5), Ok(4));
    assert_eq!(right(5, 4), Ok(6));
    assert!(left(2).is_err());
    assert_eq!(direct_path(0, 4), Ok(vec![(3, 5), (1, 2)]));
    assert_eq!(direct_path(3, 4), Ok(vec![(3, 1), (5, 4)]));
}

#[test]
fn tree_math_on_three_leaves() {
    assert_eq!(root(3), 3);
    assert_eq!(right(3, 3), Ok(4));
    assert_eq!(direct_path(2, 3), Ok(vec![(3, 1)]));
    assert!(direct_path(3, 3).is_err());
}
