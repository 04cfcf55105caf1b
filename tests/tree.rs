use algorithms::tree::{Node, Tree, TreeError};

fn full_tree() -> Tree<i32> {
    Tree {
        root: Some(Node {
            value: 5,
            left: Some(Box::new(Node {
                value: 3,
                left: Some(Box::new(Node::new(1))),
                right: None,
            })),

            right: Some(Box::new(Node {
                value: 12,
                left: None,
                right: Some(Box::new(Node {
                    value: 15,
                    left: None,
                    right: None,
                })),
            })),
        }),
    }
}

#[test]
fn initialize_empty_tree() -> Result<(), TreeError> {
    let mut t = Tree { root: None };
    t.insert(3)?;
    let expected = Tree {
        root: Some(Node::new(3)),
    };
    assert_eq!(expected, t);

    Ok(())
}

#[test]
fn insert_into_existing_partial_tree() -> Result<(), TreeError> {
    let mut t = Tree {
        root: Some(Node {
            value: 5,
            left: Some(Box::new(Node::new(3))),
            right: None,
        }),
    };

    t.insert(12)?;

    let expected = Tree {
        root: Some(Node {
            value: 5,
            left: Some(Box::new(Node::new(3))),
            right: Some(Box::new(Node::new(12))),
        }),
    };

    assert_eq!(expected, t);

    Ok(())
}

#[test]
fn insert_into_existing_full_tree() -> Result<(), TreeError> {
    let mut t = Tree {
        root: Some(Node {
            value: 5,
            left: Some(Box::new(Node::new(3))),
            right: Some(Box::new(Node::new(12))),
        }),
    };

    t.insert(15)?;
    t.insert(1)?;

    assert_eq!(full_tree(), t);

    Ok(())
}

#[test]
fn search_into_empty_tree() {
    let t: Tree<i32> = Tree { root: None };

    let found = t.search(3);

    assert_eq!(None, found);
}

#[test]
fn search_inexisting_value() {
    let t = full_tree();

    let found = t.search(21);
    assert_eq!(None, found);
}

#[test]
fn search_existing_value() {
    let t = full_tree();

    let found = t.search(15);
    assert_eq!(Some(15), found);
}

#[test]
fn equal_value_goes_left() {
    let mut t = Tree { root: None };
    t.insert(5).unwrap();
    t.insert(5).unwrap();
    let expected = Tree {
        root: Some(Node {
            value: 5,
            left: Some(Box::new(Node::new(5))),
            right: None,
        }),
    };
    assert_eq!(expected, t);
    assert_eq!(t.search(5), Some(5));
}

#[test]
fn built_by_inserts_finds_exactly_what_was_inserted() {
    let mut t = Tree { root: None };
    for v in [5, 3, 12, 15, 1] {
        assert_eq!(t.insert(v), Ok(()));
    }
    assert_eq!(full_tree(), t);
    assert_eq!(t.search(15), Some(15));
    assert_eq!(t.search(21), None);
    for v in [5, 3, 12, 15, 1] {
        assert_eq!(t.search(v), Some(v));
    }
    for v in [0, 2, 4, 6, 13, 16, -7] {
        assert_eq!(t.search(v), None);
    }
}

#[test]
fn ascending_inserts_form_a_right_chain() {
    let mut t = Tree { root: None };
    for v in 1..=3u8 {
        t.insert(v).unwrap();
    }
    let expected = Tree {
        root: Some(Node {
            value: 1,
            left: None,
            right: Some(Box::new(Node {
                value: 2,
                left: None,
                right: Some(Box::new(Node::new(3))),
            })),
        }),
    };
    assert_eq!(expected, t);
}

#[test]
fn node_search_looks_only_below() {
    let n = Node {
        value: 5,
        left: Some(Box::new(Node::new(3))),
        right: Some(Box::new(Node::new(8))),
    };
    assert_eq!(n.search(5), None);
    assert_eq!(n.search(3), Some(3));
    assert_eq!(n.search(8), Some(8));
    assert_eq!(n.search_left(8), None);
    assert_eq!(n.search_right(8), Some(8));
}

#[test]
fn capacity_error_is_a_distinct_kind() {
    let e = TreeError::CapacityExceeded;
    assert_eq!(e, TreeError::CapacityExceeded);
    assert_eq!(format!("{:?}", e), "CapacityExceeded");
}
