use lsm_engine::avl::tree::clone_tree;
use lsm_engine::avl::{AvlNode, AvlTreeMap};

fn leaf(key: usize, value: usize) -> Option<Box<AvlNode<usize, usize>>> {
    Some(Box::new(AvlNode {
        key,
        value,
        height: 1,
        left: None,
        right: None,
    }))
}

fn nine_keys() -> AvlNode<usize, usize> {
    let mut node = AvlNode::new(1, 1);
    for i in (2..10 as usize).rev() {
        node.insert(i, i);
    }
    node
}

#[test]
fn iter() {
    let mut map = AvlTreeMap::new();

    for i in (1..4 as usize).rev() {
        map.insert(i, i + 1);
    }

    let mut iter = map.iter();
    assert_eq!(iter.next(), Some((&1, &2)));
    assert_eq!(iter.next(), Some((&2, &3)));
    assert_eq!(iter.next(), Some((&3, &4)));
    assert_eq!(iter.next(), None);
}

#[test]
fn insert() {
    let mut node = AvlNode::new(1, 1);
    for i in (1..3 as usize).rev() {
        node.insert(i, i + 1);
    }
    assert_eq!(
        node,
        AvlNode {
            key: 1,
            value: 2,
            height: 2,
            left: None,
            right: Some(Box::new(AvlNode {
                key: 2,
                value: 3,
                height: 1,
                left: None,
                right: None
            })),
        }
    );
}

#[test]
fn rebalance() {
    let mut node = AvlNode::new(1, 1);

    for i in (2..10 as usize).rev() {
        node.insert(i, i);
    }
    assert_eq!(
        node,
        AvlNode {
            key: 6,
            value: 6,
            height: 4,
            left: Some(Box::new(AvlNode {
                key: 4,
                value: 4,
                height: 3,
                left: Some(Box::new(AvlNode {
                    key: 2,
                    value: 2,
                    height: 2,
                    left: Some(Box::new(AvlNode {
                        key: 1,
                        value: 1,
                        height: 1,
                        left: None,
                        right: None
                    })),
                    right: Some(Box::new(AvlNode {
                        key: 3,
                        value: 3,
                        height: 1,
                        left: None,
                        right: None
                    }))
                })),
                right: Some(Box::new(AvlNode {
                    key: 5,
                    value: 5,
                    height: 1,
                    left: None,
                    right: None
                }))
            })),
            right: Some(Box::new(AvlNode {
                key: 8,
                value: 8,
                height: 2,
                left: Some(Box::new(AvlNode {
                    key: 7,
                    value: 7,
                    height: 1,
                    left: None,
                    right: None
                })),
                right: Some(Box::new(AvlNode {
                    key: 9,
                    value: 9,
                    height: 1,
                    left: None,
                    right: None
                }))
            })),
        }
    );
}

#[test]
fn delete() {
    let mut node = AvlNode::new(1, 1);
    for i in (2..10 as usize).rev() {
        node.insert(i, i);
    }
    let mut new_node = *node.clone().delete(&2).unwrap();
    new_node = *new_node.delete(&5).unwrap();
    assert_eq!(
        new_node,
        AvlNode {
            key: 6,
            value: 6,
            height: 3,
            left: Some(Box::new(AvlNode {
                key: 3,
                value: 3,
                height: 2,
                left: Some(Box::new(AvlNode {
                    key: 1,
                    value: 1,
                    height: 1,
                    left: None,
                    right: None
                })),
                right: Some(Box::new(AvlNode {
                    key: 4,
                    value: 4,
                    height: 1,
                    left: None,
                    right: None
                }))
            })),
            right: Some(Box::new(AvlNode {
                key: 8,
                value: 8,
                height: 2,
                left: Some(Box::new(AvlNode {
                    key: 7,
                    value: 7,
                    height: 1,
                    left: None,
                    right: None
                })),
                right: Some(Box::new(AvlNode {
                    key: 9,
                    value: 9,
                    height: 1,
                    left: None,
                    right: None
                }))
            })),
        }
    );

    new_node = *node.clone().delete(&8).unwrap();
    new_node = *new_node.delete(&9).unwrap();
    assert_eq!(
        new_node,
        AvlNode {
            key: 4,
            value: 4,
            height: 3,
            left: Some(Box::new(AvlNode {
                key: 2,
                value: 2,
                height: 2,
                left: Some(Box::new(AvlNode {
                    key: 1,
                    value: 1,
                    height: 1,
                    left: None,
                    right: None
                })),
                right: Some(Box::new(AvlNode {
                    key: 3,
                    value: 3,
                    height: 1,
                    left: None,
                    right: None
                }))
            })),
            right: Some(Box::new(AvlNode {
                key: 6,
                value: 6,
                height: 2,
                left: Some(Box::new(AvlNode {
                    key: 5,
                    value: 5,
                    height: 1,
                    left: None,
                    right: None
                })),
                right: Some(Box::new(AvlNode {
                    key: 7,
                    value: 7,
                    height: 1,
                    left: None,
                    right: None
                }))
            })),
        }
    );
}

#[test]
fn search() {
    let node = nine_keys();
    assert_eq!(node.search(&1), Some(&1));
    assert_eq!(node.search(&0), None);
}

#[test]
fn delete_of_an_absent_key_changes_nothing() {
    let node = nine_keys();
    let kept = *node.clone().delete(&42).unwrap();
    assert_eq!(kept, node);
}

#[test]
fn delete_of_the_only_key_leaves_nothing() {
    let node: AvlNode<usize, usize> = AvlNode::new(5, 50);
    assert_eq!(node.delete(&5), None);
}

#[test]
fn delete_of_a_root_with_two_subtrees_promotes_the_predecessor() {
    let mut node = AvlNode::new(2usize, 2usize);
    node.insert(1, 1);
    node.insert(3, 3);
    let left = *node.delete(&2).unwrap();
    assert_eq!(
        left,
        AvlNode {
            key: 1,
            value: 1,
            height: 2,
            left: None,
            right: leaf(3, 3),
        }
    );
}

#[test]
fn insert_of_a_present_key_replaces_the_value() {
    let mut node = nine_keys();
    node.insert(7, 70);
    assert_eq!(node.search(&7), Some(&70));
    assert_eq!(node.height, 4);
}

#[test]
fn clone_tree_copies_shape_and_heights() {
    let node = Some(Box::new(nine_keys()));
    assert_eq!(clone_tree(&node), node);
}

#[test]
fn map_with_string_keys_iterates_in_byte_order() {
    let mut map: AvlTreeMap<String, usize> = AvlTreeMap::new();
    for (i, k) in ["b", "a", "ab", "B", ""].iter().enumerate() {
        map.insert(k.to_string(), i);
    }
    let mut seen = Vec::new();
    let mut it = map.iter();
    while let Some((k, v)) = it.next() {
        seen.push((k.clone(), *v));
    }
    assert_eq!(
        seen,
        vec![
            ("".to_string(), 4),
            ("B".to_string(), 3),
            ("a".to_string(), 1),
            ("ab".to_string(), 2),
            ("b".to_string(), 0),
        ]
    );
}

#[test]
fn map_search_and_delete() {
    let mut map: AvlTreeMap<usize, usize> = AvlTreeMap::new();
    assert_eq!(map.search(&1), None);
    for i in 0..100usize {
        map.insert(i, i * 2);
    }
    assert_eq!(map.search(&40), Some(&80));
    map.delete(&40);
    assert_eq!(map.search(&40), None);
    map.delete(&40);
    let mut count = 0usize;
    let mut last: Option<usize> = None;
    let mut it = map.iter();
    while let Some((k, _)) = it.next() {
        if let Some(p) = last {
            assert!(p < *k);
        }
        last = Some(*k);
        count += 1;
    }
    assert_eq!(count, 99);
}

#[test]
fn from_iter_keeps_the_later_of_two_records_with_one_key() {
    let map = AvlTreeMap::from_iter(vec![(1usize, 10usize), (2, 20), (1, 11)]);
    assert_eq!(map.search(&1), Some(&11));
    assert_eq!(map.search(&2), Some(&20));
    let mut same = AvlTreeMap::new();
    same.insert(1usize, 10usize);
    same.insert(2, 20);
    same.insert(1, 11);
    assert_eq!(map, same);
}

#[test]
fn map_clone_is_equal_and_apart() {
    let mut map: AvlTreeMap<usize, usize> = AvlTreeMap::new();
    for i in 0..20usize {
        map.insert(i, i);
    }
    let copy = map.clone();
    assert_eq!(copy, map);
    map.delete(&7);
    assert_eq!(map.search(&7), None);
    assert_eq!(copy.search(&7), Some(&7));
}
