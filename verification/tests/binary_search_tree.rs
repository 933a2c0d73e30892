use data_structures::binary_search_tree::BinarySearchTree;

#[test]
fn test_search() {
    let root1 = BinarySearchTree {
        value: None,
        right: None,
        left: None,
    };
    assert_eq!(root1.search(1), false);

    let mut root2 = BinarySearchTree {
        value: None,
        right: None,
        left: None,
    };
    root2.insert(2);
    root2.insert(4);
    root2.insert(1);
    root2.insert(5);
    root2.insert(9);
    root2.insert(6);
    assert_eq!(root2.search(3), false);
    assert_eq!(root2.search(1), true);
}

#[test]
fn test_insert() {
    let mut root1 = BinarySearchTree {
        value: None,
        right: None,
        left: None,
    };
    root1.insert(1);
    assert_eq!(
        root1,
        BinarySearchTree {
            value: Some(1),
            right: None,
            left: None,
        }
    );

    let mut root2 = BinarySearchTree {
        value: Some(1),
        right: None,
        left: None,
    };
    root2.insert(3);
    assert_eq!(
        root2,
        BinarySearchTree {
            value: Some(1),
            right: Some(Box::new(BinarySearchTree {
                value: Some(3),
                right: None,
                left: None
            })),
            left: None,
        }
    );

    let mut root3 = BinarySearchTree {
        value: Some(10),
        right: None,
        left: None,
    };
    root3.insert(9);
    assert_eq!(
        root3,
        BinarySearchTree {
            value: Some(10),
            right: None,
            left: Some(Box::new(BinarySearchTree {
                value: Some(9),
                right: None,
                left: None
            })),
        }
    );

    let mut root4 = BinarySearchTree {
        value: Some(10),
        right: None,
        left: Some(Box::new(BinarySearchTree {
            value: Some(9),
            right: None,
            left: Some(Box::new(BinarySearchTree {
                value: Some(7),
                right: None,
                left: None,
            })),
        })),
    };
    root4.insert(8);
    assert_eq!(
        root4,
        BinarySearchTree {
            value: Some(10),
            right: None,
            left: Some(Box::new(BinarySearchTree {
                value: Some(9),
                right: None,
                left: Some(Box::new(BinarySearchTree {
                    value: Some(7),
                    right: Some(Box::new(BinarySearchTree {
                        value: Some(8),
                        right: None,
                        left: None
                    })),
                    left: None,
                })),
            })),
        }
    );

    let mut root5 = BinarySearchTree {
        value: None,
        right: None,
        left: None,
    };
    root5.insert(2);
    root5.insert(4);
    root5.insert(1);
    root5.insert(5);
    root5.insert(9);
    root5.insert(6);
    assert_eq!(
        root5,
        BinarySearchTree {
            value: Some(2),
            right: Some(Box::new(BinarySearchTree {
                value: Some(4),
                right: Some(Box::new(BinarySearchTree {
                    value: Some(5),
                    right: Some(Box::new(BinarySearchTree {
                        value: Some(9),
                        right: None,
                        left: Some(Box::new(BinarySearchTree {
                            value: Some(6),
                            right: None,
                            left: None
                        }))
                    })),
                    left: None
                })),
                left: None
            })),
            left: Some(Box::new(BinarySearchTree {
                value: Some(1),
                right: None,
                left: None
            })),
        }
    );
}

#[test]
fn test_max() {
    assert_eq!(
        BinarySearchTree {
            value: Some(2),
            right: Some(Box::new(BinarySearchTree {
                value: Some(4),
                right: Some(Box::new(BinarySearchTree {
                    value: Some(5),
                    right: Some(Box::new(BinarySearchTree {
                        value: Some(9),
                        right: None,
                        left: Some(Box::new(BinarySearchTree {
                            value: Some(6),
                            right: None,
                            left: None
                        }))
                    })),
                    left: None
                })),
                left: None
            })),
            left: Some(Box::new(BinarySearchTree {
                value: Some(1),
                right: None,
                left: None
            })),
        }
        .max(),
        Some(&9)
    )
}

#[test]
fn test_min() {
    assert_eq!(
        BinarySearchTree {
            value: Some(2),
            right: Some(Box::new(BinarySearchTree {
                value: Some(4),
                right: Some(Box::new(BinarySearchTree {
                    value: Some(5),
                    right: Some(Box::new(BinarySearchTree {
                        value: Some(9),
                        right: None,
                        left: Some(Box::new(BinarySearchTree {
                            value: Some(6),
                            right: None,
                            left: None
                        }))
                    })),
                    left: None
                })),
                left: None
            })),
            left: Some(Box::new(BinarySearchTree {
                value: Some(1),
                right: None,
                left: None
            })),
        }
        .min(),
        Some(&1)
    )
}

#[test]
fn example_tree_operations() {
    let mut tree = BinarySearchTree::default();
    tree.insert(2);
    tree.insert(4);
    tree.insert(1);
    tree.insert(5);
    tree.insert(9);
    tree.insert(6);
    assert_eq!(tree.max(), Some(&9));
    assert_eq!(tree.min(), Some(&1));
    assert_eq!(tree.search(3), false);
    assert_eq!(tree.search(6), true);
}

#[test]
fn search_finds_every_inserted_value() {
    let values = [7, 3, 11, 3, -5, 0, 42];
    let mut tree = BinarySearchTree::default();
    for v in values {
        tree.insert(v);
    }
    for v in values {
        assert!(tree.search(v));
    }
    for absent in [1, 2, -1, 100, 12] {
        assert!(!tree.search(absent));
    }
}

#[test]
fn min_and_max_bound_every_value() {
    let values = [8, -3, 15, 4, 4, -3, 23, 0];
    let mut tree = BinarySearchTree::default();
    for v in values {
        tree.insert(v);
    }
    let min = *tree.min().unwrap();
    let max = *tree.max().unwrap();
    assert_eq!(min, -3);
    assert_eq!(max, 23);
    for v in values {
        assert!(min <= v && v <= max);
    }
}

#[test]
fn empty_tree_has_no_extremes() {
    let tree = BinarySearchTree::default();
    assert_eq!(tree.min(), None);
    assert_eq!(tree.max(), None);
}

#[test]
fn increasing_inserts_build_a_right_chain() {
    let mut tree = BinarySearchTree::default();
    tree.insert(1);
    tree.insert(2);
    tree.insert(3);
    assert_eq!(
        tree,
        BinarySearchTree {
            value: Some(1),
            left: None,
            right: Some(Box::new(BinarySearchTree {
                value: Some(2),
                left: None,
                right: Some(Box::new(BinarySearchTree {
                    value: Some(3),
                    left: None,
                    right: None,
                })),
            })),
        }
    );
}

#[test]
fn decreasing_inserts_build_a_left_chain() {
    let mut tree = BinarySearchTree::default();
    tree.insert(3);
    tree.insert(2);
    tree.insert(1);
    assert_eq!(
        tree,
        BinarySearchTree {
            value: Some(3),
            right: None,
            left: Some(Box::new(BinarySearchTree {
                value: Some(2),
                right: None,
                left: Some(Box::new(BinarySearchTree {
                    value: Some(1),
                    right: None,
                    left: None,
                })),
            })),
        }
    );
}

#[test]
fn duplicate_inserts_are_found() {
    let mut tree = BinarySearchTree::default();
    tree.insert(5);
    tree.insert(5);
    assert!(tree.search(5));
    assert_eq!(
        tree,
        BinarySearchTree {
            value: Some(5),
            left: None,
            right: Some(Box::new(BinarySearchTree {
                value: Some(5),
                left: None,
                right: None,
            })),
        }
    );
}
