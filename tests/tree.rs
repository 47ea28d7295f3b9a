use ssql::tree::{BTree, BTreeNode, InternalNode, LeafNode};

#[test]
fn when_inserting_values_to_tree_it_should_correcty_rebalance_itself() {
    let mut actual = BTree::new(3);
    let expected = BTree {
        order: 3,
        root: BTreeNode::Internal(InternalNode {
            keys: vec![30, 50],
            children: vec![
                Box::from(BTreeNode::Internal(InternalNode {
                    keys: vec![15, 20],
                    children: vec![
                        Box::from(BTreeNode::Leaf(LeafNode {
                            keys: vec![10],
                            values: vec!['a'],
                        })),
                        Box::from(BTreeNode::Leaf(LeafNode {
                            keys: vec![15, 18],
                            values: vec!['h', 'i'],
                        })),
                        Box::from(BTreeNode::Leaf(LeafNode {
                            keys: vec![20],
                            values: vec!['b'],
                        })),
                    ],
                })),
                Box::from(BTreeNode::Internal(InternalNode {
                    keys: vec![40],
                    children: vec![
                        Box::from(BTreeNode::Leaf(LeafNode {
                            keys: vec![30],
                            values: vec!['c'],
                        })),
                        Box::from(BTreeNode::Leaf(LeafNode {
                            keys: vec![40],
                            values: vec!['d'],
                        })),
                    ],
                })),
                Box::from(BTreeNode::Internal(InternalNode {
                    keys: vec![60],
                    children: vec![
                        Box::from(BTreeNode::Leaf(LeafNode {
                            keys: vec![50],
                            values: vec!['e'],
                        })),
                        Box::from(BTreeNode::Leaf(LeafNode {
                            keys: vec![60, 70],
                            values: vec!['f', 'g'],
                        })),
                    ],
                })),
            ],
        }),
    };

    actual.insert(10, 'a').unwrap();
    actual.insert(20, 'b').unwrap();
    actual.insert(30, 'c').unwrap();
    actual.insert(40, 'd').unwrap();
    actual.insert(50, 'e').unwrap();
    actual.insert(60, 'f').unwrap();
    actual.insert(70, 'g').unwrap();
    actual.insert(15, 'h').unwrap();
    actual.insert(18, 'i').unwrap();

    assert_eq!(actual, expected);
}

#[test]
fn when_deleting_value_and_leaf_dosent_underfows_it_should_only_delete_value_and_update_key_if_needed(
) {
    let mut tree = BTree::create_from(
        4,
        InternalNode {
            keys: vec![1, 50, 70],
            children: vec![
                Box::from(BTreeNode::Leaf(LeafNode {
                    keys: vec![1, 10],
                    values: vec!['a', 'b'],
                })),
                Box::from(BTreeNode::Leaf(LeafNode {
                    keys: vec![50, 60],
                    values: vec!['c', 'd'],
                })),
                Box::from(BTreeNode::Leaf(LeafNode {
                    keys: vec![70, 80, 90],
                    values: vec!['e', 'f', 'g'],
                })),
            ],
        },
    );
    let expected = BTree {
        order: 4,
        root: BTreeNode::Internal(InternalNode {
            keys: vec![1, 50, 80],
            children: vec![
                Box::from(BTreeNode::Leaf(LeafNode {
                    keys: vec![1, 10],
                    values: vec!['a', 'b'],
                })),
                Box::from(BTreeNode::Leaf(LeafNode {
                    keys: vec![50, 60],
                    values: vec!['c', 'd'],
                })),
                Box::from(BTreeNode::Leaf(LeafNode {
                    keys: vec![80, 90],
                    values: vec!['f', 'g'],
                })),
            ],
        }),
    };

    tree.delete(70).unwrap();

    assert_eq!(tree, expected);
}

#[test]
fn when_deleting_value_and_leaf_underfows_it_should_borrow_from_leaf_on_left_when_possible() {
    let mut tree = BTree::create_from(
        4,
        InternalNode {
            keys: vec![1, 50],
            children: vec![
                Box::from(BTreeNode::Leaf(LeafNode {
                    keys: vec![1, 10, 20],
                    values: vec!['a', 'b', 'c'],
                })),
                Box::from(BTreeNode::Leaf(LeafNode {
                    keys: vec![50, 60],
                    values: vec!['d', 'e'],
                })),
            ],
        },
    );
    let expected = BTree {
        order: 4,
        root: BTreeNode::Internal(InternalNode {
            keys: vec![1, 20],
            children: vec![
                Box::from(BTreeNode::Leaf(LeafNode {
                    keys: vec![1, 10],
                    values: vec!['a', 'b'],
                })),
                Box::from(BTreeNode::Leaf(LeafNode {
                    keys: vec![20, 60],
                    values: vec!['c', 'e'],
                })),
            ],
        }),
    };

    tree.delete(50).unwrap();

    assert_eq!(tree, expected);
}

#[test]
fn when_deleting_value_and_leaf_underfows_it_should_borrow_from_leaf_on_right_when_possible() {
    let mut tree = BTree::create_from(
        4,
        InternalNode {
            keys: vec![1, 50, 70],
            children: vec![
                Box::from(BTreeNode::Leaf(LeafNode {
                    keys: vec![1, 10],
                    values: vec!['a', 'b'],
                })),
                Box::from(BTreeNode::Leaf(LeafNode {
                    keys: vec![50, 60],
                    values: vec!['c', 'd'],
                })),
                Box::from(BTreeNode::Leaf(LeafNode {
                    keys: vec![70, 80, 90],
                    values: vec!['e', 'f', 'g'],
                })),
            ],
        },
    );
    let expected = BTree {
        order: 4,
        root: BTreeNode::Internal(InternalNode {
            keys: vec![1, 60, 80],
            children: vec![
                Box::from(BTreeNode::Leaf(LeafNode {
                    keys: vec![1, 10],
                    values: vec!['a', 'b'],
                })),
                Box::from(BTreeNode::Leaf(LeafNode {
                    keys: vec![60, 70],
                    values: vec!['d', 'e'],
                })),
                Box::from(BTreeNode::Leaf(LeafNode {
                    keys: vec![80, 90],
                    values: vec!['f', 'g'],
                })),
            ],
        }),
    };

    tree.delete(50).unwrap();

    assert_eq!(tree, expected);
}

#[test]
fn when_deleting_value_and_leaf_cannot_borrow_it_should_merge_with_left_leaf_when_possible() {
    let mut tree = BTree::create_from(
        4,
        InternalNode {
            keys: vec![1, 50, 70],
            children: vec![
                Box::from(BTreeNode::Leaf(LeafNode {
                    keys: vec![1, 10],
                    values: vec!['a', 'b'],
                })),
                Box::from(BTreeNode::Leaf(LeafNode {
                    keys: vec![50, 60],
                    values: vec!['c', 'd'],
                })),
                Box::from(BTreeNode::Leaf(LeafNode {
                    keys: vec![70, 90],
                    values: vec!['e', 'g'],
                })),
            ],
        },
    );
    let expected = BTree {
        order: 4,
        root: BTreeNode::Internal(InternalNode {
            keys: vec![1, 70],
            children: vec![
                Box::from(BTreeNode::Leaf(LeafNode {
                    keys: vec![1, 10, 60],
                    values: vec!['a', 'b', 'd'],
                })),
                Box::from(BTreeNode::Leaf(LeafNode {
                    keys: vec![70, 90],
                    values: vec!['e', 'g'],
                })),
            ],
        }),
    };

    tree.delete(50).unwrap();

    assert_eq!(tree, expected);
}

#[test]
fn when_deleting_value_and_leaf_cannot_borrow_it_should_merge_with_right_leaf() {
    let mut tree = BTree::create_from(
        4,
        InternalNode {
            keys: vec![1, 50, 70],
            children: vec![
                Box::from(BTreeNode::Leaf(LeafNode {
                    keys: vec![1, 10],
                    values: vec!['a', 'b'],
                })),
                Box::from(BTreeNode::Leaf(LeafNode {
                    keys: vec![50, 60],
                    values: vec!['c', 'd'],
                })),
                Box::from(BTreeNode::Leaf(LeafNode {
                    keys: vec![70, 80],
                    values: vec!['e', 'f'],
                })),
            ],
        },
    );
    let expected = BTree {
        order: 4,
        root: BTreeNode::Internal(InternalNode {
            keys: vec![1, 70],
            children: vec![
                Box::from(BTreeNode::Leaf(LeafNode {
                    keys: vec![1, 50, 60],
                    values: vec!['a', 'c', 'd'],
                })),
                Box::from(BTreeNode::Leaf(LeafNode {
                    keys: vec![70, 80],
                    values: vec!['e', 'f'],
                })),
            ],
        }),
    };

    tree.delete(10).unwrap();

    assert_eq!(tree, expected);
}
