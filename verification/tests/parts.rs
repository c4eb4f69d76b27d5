use imord2::insert::InsertResult;
use imord2::keys::{compare, KeyOrder};
use imord2::node::{clone_children, clone_entries, search, Node};
use imord2::{BTreeConfig, KeyRangeResult, PredicateResult};
use std::sync::Arc;

fn insert_at_root(root: &mut Node<i32, i32>, key: i32, value: i32, config: &BTreeConfig) -> bool {
    match root.insert(key, value, config) {
        InsertResult::Splited { new_k_v, new_l, new_r } => {
            *root = Node::new_with_key_values(vec![new_k_v], vec![new_l, new_r]);
            true
        }
        InsertResult::NotSplited { is_new } => is_new,
    }
}

/// Checks the count and the order of a node and of every node below it, and
/// gives the number of levels below it.
fn check(node: &Node<i32, i32>, low: Option<i32>, high: Option<i32>) -> usize {
    let below: usize = node.children.iter().map(|child| child.count).sum();
    assert_eq!(node.count, node.key_values.len() + below);
    assert!(node.key_values.windows(2).all(|pair| pair[0].0 < pair[1].0));
    if let (Some(low), Some(first)) = (low, node.key_values.first()) {
        assert!(low < first.0);
    }
    if let (Some(high), Some(last)) = (high, node.key_values.last()) {
        assert!(last.0 < high);
    }
    if node.children.is_empty() {
        return 0;
    }
    assert_eq!(node.children.len(), node.key_values.len() + 1);
    let mut heights = vec![];
    for (index, child) in node.children.iter().enumerate() {
        let low = if index == 0 { low } else { Some(node.key_values[index - 1].0) };
        let high = if index == node.key_values.len() { high } else { Some(node.key_values[index].0) };
        heights.push(check(child, low, high));
    }
    assert!(heights.iter().all(|height| *height == heights[0]));
    heights[0] + 1
}

#[test]
fn counts_are_kept_by_inserts_and_deletes() {
    for degree in [3usize, 4, 5] {
        let config = BTreeConfig { max_degree: degree };
        let mut root = Node::<i32, i32>::new();
        for step in 0..200 {
            let key = (step * 37) % 101;
            let is_new = insert_at_root(&mut root, key, step, &config);
            assert_eq!(is_new, step < 101);
            check(&root, None, None);
        }
        assert_eq!(root.count, 101);
        for step in 0..101 {
            let key = (step * 53) % 101;
            assert_eq!(root.delete_by_key(&key, &config).map(|entry| entry.0), Some(key));
            if root.key_values.is_empty() && !root.children.is_empty() {
                let child = root.children.remove(0);
                root = (*child).clone();
            }
            check(&root, None, None);
            assert_eq!(root.count, 100 - step as usize);
        }
        assert!(root.is_leaf());
        assert_eq!(root.count, 0);
    }
}

#[test]
fn insert_says_whether_key_is_new() {
    let config = BTreeConfig { max_degree: 4 };
    let mut node = Node::<i32, i32>::new();
    assert!(matches!(node.insert(2, 20, &config), InsertResult::NotSplited { is_new: true }));
    assert!(matches!(node.insert(2, 21, &config), InsertResult::NotSplited { is_new: false }));
    assert!(matches!(node.insert(1, 10, &config), InsertResult::NotSplited { is_new: true }));
    assert!(matches!(node.insert(3, 30, &config), InsertResult::NotSplited { is_new: true }));
    assert_eq!(node.count, 3);
    assert_eq!(node.get_by_key(&2), Some(&21));
}

#[test]
fn full_leaf_splits_behind_its_middle() {
    let config = BTreeConfig { max_degree: 4 };
    let mut node = Node::<i32, i32>::new_with_key_values(vec![(1, 1), (2, 2), (3, 3)], vec![]);
    match node.insert(4, 4, &config) {
        InsertResult::Splited { new_k_v, new_l, new_r } => {
            assert_eq!(new_k_v, (3, 3));
            assert_eq!(new_l.key_values, vec![(1, 1), (2, 2)]);
            assert_eq!(new_r.key_values, vec![(4, 4)]);
            assert_eq!(new_l.count, 2);
            assert_eq!(new_r.count, 1);
            assert!(new_l.is_leaf());
            assert!(new_r.is_leaf());
        }
        InsertResult::NotSplited { .. } => panic!("the leaf was not split"),
    }
    assert!(node.key_values.is_empty());
    assert!(node.children.is_empty());
}

#[test]
fn new_node_counts_entries_below() {
    let left = Arc::new(Node::<i32, i32>::new_with_key_values(vec![(1, 1), (2, 2)], vec![]));
    let right = Arc::new(Node::<i32, i32>::new_with_key_values(vec![(10, 1)], vec![]));
    let node = Node::<i32, i32>::new_with_key_values(vec![(9, 9)], vec![left, right]);
    assert_eq!(node.count, 4);
    assert!(!node.is_leaf());
    assert_eq!(node.get_by_offset(2), Some(&(9, 9)));
    assert_eq!(node.get_by_offset(3), Some(&(10, 1)));
    assert_eq!(node.get_by_offset(4), None);
    assert_eq!(Node::<i32, i32>::new().count, 0);
}

#[test]
fn merge_of_two_minimal_siblings() {
    let config = BTreeConfig { max_degree: 4 };
    let left = Arc::new(Node::<i32, i32>::new_with_key_values(vec![(1, 1)], vec![]));
    let right = Arc::new(Node::<i32, i32>::new_with_key_values(vec![(5, 5), (7, 7)], vec![]));
    let mut node = Node::<i32, i32>::new_with_key_values(vec![(3, 3)], vec![left, right]);
    // after the removal neither sibling has an entry to spare
    assert_eq!(node.delete_by_key(&7, &config), Some((7, 7)));
    assert_eq!(node.key_values, vec![]);
    assert_eq!(node.children.len(), 1);
    assert_eq!(node.children[0].key_values, vec![(1, 1), (3, 3), (5, 5)]);
    assert_eq!(node.count, 3);
}

#[test]
fn rotation_from_the_right_sibling() {
    let config = BTreeConfig { max_degree: 4 };
    let left = Arc::new(Node::<i32, i32>::new_with_key_values(vec![(1, 1)], vec![]));
    let right = Arc::new(Node::<i32, i32>::new_with_key_values(vec![(5, 5), (7, 7)], vec![]));
    let mut node = Node::<i32, i32>::new_with_key_values(vec![(3, 3)], vec![left.clone(), right]);
    assert_eq!(node.delete_by_key(&1, &config), Some((1, 1)));
    assert_eq!(node.key_values, vec![(5, 5)]);
    assert_eq!(node.children[0].key_values, vec![(3, 3)]);
    assert_eq!(node.children[1].key_values, vec![(7, 7)]);
    assert_eq!(node.count, 3);
    // the shared leaf is as it was
    assert_eq!(left.key_values, vec![(1, 1)]);
    assert_eq!(left.count, 1);
}

#[test]
fn rotation_from_the_left_sibling() {
    let config = BTreeConfig { max_degree: 4 };
    let left = Arc::new(Node::<i32, i32>::new_with_key_values(vec![(1, 1), (2, 2)], vec![]));
    let right = Arc::new(Node::<i32, i32>::new_with_key_values(vec![(5, 5)], vec![]));
    let mut node = Node::<i32, i32>::new_with_key_values(vec![(3, 3)], vec![left, right]);
    assert_eq!(node.delete_by_key(&5, &config), Some((5, 5)));
    assert_eq!(node.key_values, vec![(2, 2)]);
    assert_eq!(node.children[0].key_values, vec![(1, 1)]);
    assert_eq!(node.children[1].key_values, vec![(3, 3)]);
    assert_eq!(node.count, 3);
}

#[test]
fn deleted_inner_key_is_replaced_by_the_key_before_it() {
    let config = BTreeConfig { max_degree: 4 };
    let left = Arc::new(Node::<i32, i32>::new_with_key_values(vec![(1, 1), (2, 2)], vec![]));
    let right = Arc::new(Node::<i32, i32>::new_with_key_values(vec![(5, 5), (6, 6)], vec![]));
    let mut node = Node::<i32, i32>::new_with_key_values(vec![(3, 3)], vec![left, right]);
    assert_eq!(node.delete_by_key(&3, &config), Some((3, 3)));
    assert_eq!(node.key_values, vec![(2, 2)]);
    assert_eq!(node.children[0].key_values, vec![(1, 1)]);
    assert_eq!(node.children[1].key_values, vec![(5, 5), (6, 6)]);
    assert_eq!(node.count, 4);
}

#[test]
fn take_right_most_gives_largest_entry() {
    let config = BTreeConfig { max_degree: 4 };
    let left = Arc::new(Node::<i32, i32>::new_with_key_values(vec![(1, 1), (2, 2)], vec![]));
    let right = Arc::new(Node::<i32, i32>::new_with_key_values(vec![(5, 5), (6, 6)], vec![]));
    let mut node = Node::<i32, i32>::new_with_key_values(vec![(3, 3)], vec![left, right]);
    assert_eq!(node.take_right_most(&config), (6, 6));
    assert_eq!(node.count, 4);
    assert_eq!(node.get_by_offset(3), Some(&(5, 5)));
    assert_eq!(node.get_by_offset(4), None);
}

#[test]
fn rebalance_leaves_sound_children_alone() {
    let config = BTreeConfig { max_degree: 6 };
    let left = Arc::new(Node::<i32, i32>::new_with_key_values(vec![(1, 1), (2, 2), (3, 3)], vec![]));
    let right = Arc::new(Node::<i32, i32>::new_with_key_values(vec![(6, 6), (7, 7)], vec![]));
    let mut node = Node::<i32, i32>::new_with_key_values(vec![(5, 5)], vec![left, right]);
    node.rebalance(0, &config);
    assert_eq!(node.key_values, vec![(5, 5)]);
    assert_eq!(node.children[0].key_values, vec![(1, 1), (2, 2), (3, 3)]);
    assert_eq!(node.children[1].key_values, vec![(6, 6), (7, 7)]);
}

#[test]
fn leaf_range_of_one_and_of_two_keys() {
    let node = Node::<i32, i32>::new_with_key_values(vec![(1, 1), (2, 2), (3, 3), (4, 4)], vec![]);
    let one = node.find_key_range(&|key: &i32| match *key {
        i32::MIN..=1 => PredicateResult::Left,
        2 => PredicateResult::Match,
        3.. => PredicateResult::Right,
    });
    assert_eq!(one.n(), 1);
    assert_eq!(one.start_key(), Some(&2));
    assert_eq!(one.end_key(), Some(&2));
    let two = node.find_key_range(&|key: &i32| match *key {
        i32::MIN..=1 => PredicateResult::Left,
        2..=3 => PredicateResult::Match,
        4.. => PredicateResult::Right,
    });
    assert_eq!(two.n(), 2);
    assert_eq!(two.start_key(), Some(&2));
    assert_eq!(two.end_key(), Some(&3));
}

#[test]
fn two_level_range_across_the_separator() {
    let left = Arc::new(Node::<i32, i32>::new_with_key_values(
        vec![(1, 1), (2, 2), (3, 3), (4, 4)],
        vec![],
    ));
    let right = Arc::new(Node::<i32, i32>::new_with_key_values(
        vec![(10, 1), (20, 2), (30, 3), (40, 4)],
        vec![],
    ));
    let node = Node::<i32, i32>::new_with_key_values(vec![(9, 9)], vec![left, right]);
    let range = node.find_key_range(&|key: &i32| match *key {
        i32::MIN..=1 => PredicateResult::Left,
        2..=20 => PredicateResult::Match,
        21.. => PredicateResult::Right,
    });
    assert_eq!(range.n(), 6);
    assert_eq!(range.start_key(), Some(&2));
    assert_eq!(range.end_key(), Some(&20));
    let all = node.find_key_range(&|_key: &i32| PredicateResult::Match);
    assert_eq!(all.n(), 9);
    assert_eq!(all.start_key(), Some(&1));
    assert_eq!(all.end_key(), Some(&40));
}

#[test]
fn merged_ranges() {
    let (a, b, c, d) = (1, 5, 3, 9);
    let none = || KeyRangeResult::<i32>::Empty;
    let first = || KeyRangeResult::Span { start: &a, end: &b, n: 2 };
    let second = || KeyRangeResult::Span { start: &c, end: &d, n: 4 };

    let merged = first().merge_into(second());
    assert_eq!(merged.n(), 6);
    assert_eq!(merged.start_key(), Some(&1));
    assert_eq!(merged.end_key(), Some(&9));

    let merged = second().merge_into(first());
    assert_eq!(merged.n(), 6);
    assert_eq!(merged.start_key(), Some(&1));
    assert_eq!(merged.end_key(), Some(&9));

    let merged = none().merge_into(second());
    assert_eq!(merged.n(), 4);
    assert_eq!(merged.start_key(), Some(&3));
    assert_eq!(merged.end_key(), Some(&9));

    let merged = first().merge_into(none());
    assert_eq!(merged.n(), 2);
    assert_eq!(merged.start_key(), Some(&1));
    assert_eq!(merged.end_key(), Some(&5));

    let merged = none().merge_into(none());
    assert_eq!(merged.n(), 0);
    assert_eq!(merged.start_key(), None);
    assert_eq!(merged.end_key(), None);
}

#[test]
fn search_finds_index_or_place() {
    let entries = vec![(10, 'a'), (20, 'b'), (30, 'c')];
    assert_eq!(search(&entries, &10), Ok(0));
    assert_eq!(search(&entries, &20), Ok(1));
    assert_eq!(search(&entries, &30), Ok(2));
    assert_eq!(search(&entries, &5), Err(0));
    assert_eq!(search(&entries, &15), Err(1));
    assert_eq!(search(&entries, &25), Err(2));
    assert_eq!(search(&entries, &35), Err(3));
    assert_eq!(search(&Vec::<(i32, char)>::new(), &1), Err(0));
}

#[test]
fn keys_compare_by_their_order() {
    assert_eq!(compare(&1, &2), KeyOrder::Less);
    assert_eq!(compare(&2, &2), KeyOrder::Equal);
    assert_eq!(compare(&3, &2), KeyOrder::Greater);
    assert_eq!(compare(&"a", &"b"), KeyOrder::Less);
}

#[test]
fn copies_of_stretches() {
    let entries = vec![(1, 'a'), (2, 'b'), (3, 'c')];
    assert_eq!(clone_entries(&entries, 0, 3), entries);
    assert_eq!(clone_entries(&entries, 1, 3), vec![(2, 'b'), (3, 'c')]);
    assert_eq!(clone_entries(&entries, 2, 2), vec![]);
    let children = vec![
        Arc::new(Node::<i32, i32>::new_with_key_values(vec![(1, 1)], vec![])),
        Arc::new(Node::<i32, i32>::new_with_key_values(vec![(2, 2)], vec![])),
    ];
    let copies = clone_children(&children, 1, 2);
    assert_eq!(copies.len(), 1);
    assert!(Arc::ptr_eq(&copies[0], &children[1]));
}

#[test]
fn copy_of_node_shares_children() {
    let child = Arc::new(Node::<i32, i32>::new_with_key_values(vec![(1, 1)], vec![]));
    let other = Arc::new(Node::<i32, i32>::new_with_key_values(vec![(3, 3)], vec![]));
    let node = Node::<i32, i32>::new_with_key_values(vec![(2, 2)], vec![child.clone(), other]);
    let copy = node.clone();
    assert_eq!(copy.key_values, node.key_values);
    assert_eq!(copy.count, 3);
    assert!(Arc::ptr_eq(&copy.children[0], &child));
}

#[test]
fn child_mut_copies_a_shared_child_only() {
    let shared = Arc::new(Node::<i32, i32>::new_with_key_values(vec![(1, 1)], vec![]));
    let mut children = vec![shared.clone(), Arc::new(Node::<i32, i32>::new())];
    Node::child_mut(&mut children, 0).key_values[0] = (1, 7);
    assert_eq!(children[0].key_values, vec![(1, 7)]);
    assert_eq!(shared.key_values, vec![(1, 1)]);
    let before = Arc::as_ptr(&children[1]);
    Node::child_mut(&mut children, 1).count = 0;
    assert_eq!(Arc::as_ptr(&children[1]), before);
}
