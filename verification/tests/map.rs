use imord2::visit::VisitStack;
use imord2::{BTree, BTreeConfig, PredicateResult};

fn tree_of(degree: usize, keys: &[i32]) -> BTree<i32, i32> {
    let mut tree = BTree::<i32, i32>::new_with_config(BTreeConfig { max_degree: degree });
    for key in keys {
        tree.insert(*key, key * 100);
    }
    tree
}

fn len_of(tree: &BTree<i32, i32>) -> usize {
    tree.find_key_range(&|_key: &i32| PredicateResult::Match).n()
}

fn entries_of(tree: &BTree<i32, i32>) -> Vec<(i32, i32)> {
    let mut entries = vec![];
    let mut offset = 0;
    while let Some(entry) = tree.get_by_offset(offset) {
        entries.push(*entry);
        offset += 1;
    }
    entries
}

/// The fewest and the most entries among the nodes other than the root.
fn sizes_below_root(tree: &BTree<i32, i32>) -> Option<(usize, usize)> {
    let mut sizes: Option<(usize, usize)> = None;
    tree.visit(&mut |stack: &VisitStack<'_, i32, i32>| {
        if stack.depth > 0 {
            let size = stack.node.key_values.len();
            sizes = Some(match sizes {
                None => (size, size),
                Some((least, most)) => (least.min(size), most.max(size)),
            });
        }
    });
    sizes
}

/// A scrambled order of the keys `1..=n`.
fn scrambled(n: i32) -> Vec<i32> {
    let mut keys: Vec<i32> = (1..=n).collect();
    let mut state: u64 = 0x2545_f491_4f6c_dd1d;
    for i in (1..keys.len()).rev() {
        state ^= state << 13;
        state ^= state >> 7;
        state ^= state << 17;
        let j = (state % (i as u64 + 1)) as usize;
        keys.swap(i, j);
    }
    keys
}

#[test]
fn descending_inserts_keep_node_sizes() {
    let keys: Vec<i32> = (1..13).rev().collect();
    let tree = tree_of(4, &keys);
    let (least, most) = sizes_below_root(&tree).unwrap();
    assert!(1 <= least);
    assert!(most <= 3);
    assert_eq!(tree.get_by_key(&7), Some(&700));
    assert_eq!(len_of(&tree), 12);
}

#[test]
fn ascending_deletes_empty_the_tree() {
    let keys: Vec<i32> = (1..13).rev().collect();
    let mut tree = tree_of(4, &keys);
    for key in 1..13 {
        assert_eq!(tree.delete_by_key(&key), Some((key, key * 100)));
        assert_eq!(len_of(&tree), (12 - key) as usize);
        if let Some((least, most)) = sizes_below_root(&tree) {
            assert!(1 <= least);
            assert!(most <= 3);
        }
    }
    assert_eq!(tree.get_by_key(&1), None);
    assert_eq!(tree.get_by_key(&12), None);
    assert_eq!(tree.get_by_offset(0), None);
    assert_eq!(tree.visit(&mut |_stack: &VisitStack<'_, i32, i32>| {}), None);
    assert_eq!(tree.delete_by_key(&5), None);
}

#[test]
fn insert_of_existing_key_replaces_value_only() {
    let mut tree = tree_of(4, &scrambled(50));
    assert_eq!(len_of(&tree), 50);
    for key in 1..=50 {
        tree.insert(key, -key);
        assert_eq!(len_of(&tree), 50);
        assert_eq!(tree.get_by_key(&key), Some(&-key));
    }
    let entries = entries_of(&tree);
    assert_eq!(entries.len(), 50);
    for (offset, entry) in entries.iter().enumerate() {
        assert_eq!(*entry, (offset as i32 + 1, -(offset as i32 + 1)));
    }
}

#[test]
fn lookup_gives_last_inserted_value() {
    let mut tree = BTree::<i32, i32>::new_with_config(BTreeConfig { max_degree: 5 });
    let ops = [(3, 1), (1, 2), (3, 3), (2, 4), (1, 5), (9, 6), (3, 7), (9, 8)];
    for (key, value) in ops {
        tree.insert(key, value);
    }
    assert_eq!(tree.get_by_key(&1), Some(&5));
    assert_eq!(tree.get_by_key(&2), Some(&4));
    assert_eq!(tree.get_by_key(&3), Some(&7));
    assert_eq!(tree.get_by_key(&9), Some(&8));
    assert_eq!(tree.get_by_key(&4), None);
    assert_eq!(entries_of(&tree), vec![(1, 5), (2, 4), (3, 7), (9, 8)]);
}

#[test]
fn offsets_give_entries_in_ascending_order() {
    for degree in [3, 4, 5, 8] {
        let tree = tree_of(degree, &scrambled(200));
        for offset in 0..200usize {
            let key = offset as i32 + 1;
            assert_eq!(tree.get_by_offset(offset), Some(&(key, key * 100)));
        }
        assert_eq!(tree.get_by_offset(200), None);
        assert_eq!(tree.get_by_offset(usize::MAX), None);
    }
}

#[test]
fn delete_gives_entry_of_present_key_and_nothing_for_absent() {
    let mut tree = tree_of(4, &scrambled(30));
    assert_eq!(tree.delete_by_key(&31), None);
    assert_eq!(tree.delete_by_key(&0), None);
    assert_eq!(len_of(&tree), 30);
    let before = entries_of(&tree);
    assert_eq!(tree.delete_by_key(&17), Some((17, 1700)));
    assert_eq!(len_of(&tree), 29);
    assert_eq!(tree.get_by_key(&17), None);
    assert_eq!(tree.delete_by_key(&17), None);
    assert_eq!(len_of(&tree), 29);
    let after = entries_of(&tree);
    let expected: Vec<(i32, i32)> = before.into_iter().filter(|entry| entry.0 != 17).collect();
    assert_eq!(after, expected);
}

#[test]
fn delete_of_replaced_value_gives_current_value() {
    let mut tree = tree_of(4, &scrambled(20));
    tree.insert(8, 1);
    assert_eq!(tree.delete_by_key(&8), Some((8, 1)));
}

#[test]
fn deleting_every_key_in_any_order_empties_the_tree() {
    for degree in [3, 4, 5, 6, 7] {
        let mut tree = tree_of(degree, &scrambled(150));
        let mut order = scrambled(150);
        order.reverse();
        order.rotate_left(37);
        let mut left = 150;
        for key in order {
            assert_eq!(tree.delete_by_key(&key), Some((key, key * 100)));
            left -= 1;
            assert_eq!(len_of(&tree), left);
            let entries = entries_of(&tree);
            assert_eq!(entries.len(), left);
            assert!(entries.windows(2).all(|pair| pair[0].0 < pair[1].0));
        }
        for key in 0..=151 {
            assert_eq!(tree.get_by_key(&key), None);
        }
        assert_eq!(tree.get_by_offset(0), None);
    }
}

#[test]
fn deleting_keys_of_inner_nodes_keeps_the_count() {
    // every key is at some time the key of an inner node
    for first in 1..=40 {
        let keys: Vec<i32> = (1..=40).collect();
        let mut tree = tree_of(4, &keys);
        assert_eq!(tree.delete_by_key(&first), Some((first, first * 100)));
        assert_eq!(len_of(&tree), 39);
        for offset in 0..39usize {
            let entry = tree.get_by_offset(offset).unwrap();
            let key = if (offset as i32) < first - 1 { offset as i32 + 1 } else { offset as i32 + 2 };
            assert_eq!(entry.0, key);
        }
        assert_eq!(tree.get_by_offset(39), None);
    }
}

#[test]
fn snapshot_does_not_see_later_changes() {
    let mut tree = tree_of(4, &scrambled(60));
    let snapshot = tree.clone();
    let before = entries_of(&snapshot);

    tree.insert(1000, 1);
    tree.insert(5, 2);
    for key in 10..30 {
        assert_eq!(tree.delete_by_key(&key), Some((key, key * 100)));
    }

    assert_eq!(entries_of(&snapshot), before);
    assert_eq!(snapshot.get_by_key(&5), Some(&500));
    assert_eq!(snapshot.get_by_key(&1000), None);
    assert_eq!(snapshot.get_by_key(&15), Some(&1500));
    assert_eq!(len_of(&snapshot), 60);

    assert_eq!(tree.get_by_key(&5), Some(&2));
    assert_eq!(tree.get_by_key(&1000), Some(&1));
    assert_eq!(tree.get_by_key(&15), None);
    assert_eq!(len_of(&tree), 41);
}

#[test]
fn change_to_snapshot_is_not_seen_by_the_map() {
    let tree = tree_of(5, &scrambled(40));
    let mut snapshot = tree.clone();
    for key in 1..=40 {
        snapshot.delete_by_key(&key);
    }
    assert_eq!(len_of(&snapshot), 0);
    assert_eq!(len_of(&tree), 40);
    assert_eq!(tree.get_by_key(&40), Some(&4000));
}

#[test]
fn predicate_matching_everything_gives_whole_map() {
    for degree in [3, 4, 7] {
        for n in [1, 2, 5, 40, 300] {
            let tree = tree_of(degree, &scrambled(n));
            let range = tree.find_key_range(&|_key: &i32| PredicateResult::Match);
            assert_eq!(range.n(), n as usize);
            assert_eq!(range.start_key(), Some(&1));
            assert_eq!(range.end_key(), Some(&n));
        }
    }
}

#[test]
fn range_counts_the_matched_keys() {
    for degree in [3, 4, 5, 16] {
        let tree = tree_of(degree, &scrambled(120));
        for low in (-3..125).step_by(7) {
            for high in (low - 1..130).step_by(11) {
                let predicate = |key: &i32| {
                    if *key < low {
                        PredicateResult::Left
                    } else if *key <= high {
                        PredicateResult::Match
                    } else {
                        PredicateResult::Right
                    }
                };
                let matched: Vec<i32> = (1..=120).filter(|key| low <= *key && *key <= high).collect();
                let range = tree.find_key_range(&predicate);
                assert_eq!(range.n(), matched.len());
                assert_eq!(range.start_key(), matched.first());
                assert_eq!(range.end_key(), matched.last());
            }
        }
    }
}

#[test]
fn range_of_nothing_matched() {
    let tree = tree_of(4, &scrambled(30));
    let left = tree.find_key_range(&|_key: &i32| PredicateResult::Left);
    assert_eq!(left.n(), 0);
    assert_eq!(left.start_key(), None);
    assert_eq!(left.end_key(), None);
    let right = tree.find_key_range(&|_key: &i32| PredicateResult::Right);
    assert_eq!(right.n(), 0);
    let empty = BTree::<i32, i32>::new_with_config(BTreeConfig { max_degree: 4 });
    assert_eq!(empty.find_key_range(&|_key: &i32| PredicateResult::Match).n(), 0);
}

#[test]
fn even_order_keeps_sizes_through_inserts_and_deletes() {
    for degree in [4usize, 6, 8] {
        let min = degree / 2 - 1;
        let max = degree - 1;
        let mut tree = tree_of(degree, &scrambled(300));
        let order = scrambled(300);
        for (step, key) in order.iter().enumerate() {
            tree.delete_by_key(key);
            if step % 3 == 0 {
                tree.insert(1000 + *key, 0);
            }
            if let Some((least, most)) = sizes_below_root(&tree) {
                assert!(min <= least, "degree {} least {}", degree, least);
                assert!(most <= max, "degree {} most {}", degree, most);
            }
        }
    }
}

#[test]
fn odd_order_may_fill_a_node_to_the_order() {
    let keys: Vec<i32> = (1..=6).collect();
    let mut tree = tree_of(3, &keys);
    assert_eq!(sizes_below_root(&tree).map(|sizes| sizes.1 <= 2), Some(true));
    assert_eq!(tree.delete_by_key(&5), Some((5, 500)));
    assert_eq!(sizes_below_root(&tree), Some((1, 3)));
    assert_eq!(entries_of(&tree), vec![(1, 100), (2, 200), (3, 300), (4, 400), (6, 600)]);

    for degree in [3usize, 5, 7] {
        let min = (degree + 1) / 2 - 1;
        let mut tree = tree_of(degree, &scrambled(200));
        for key in scrambled(200) {
            tree.delete_by_key(&key);
            if let Some((least, most)) = sizes_below_root(&tree) {
                assert!(min <= least);
                assert!(most <= degree);
            }
        }
    }
}

#[test]
fn default_order_tree_gives_entries_by_offset() {
    let mut tree = BTree::<&'static str, i32>::new();
    tree.insert("a", 1);
    tree.insert("b", 2);
    assert_eq!(tree.get_by_offset(0).unwrap().0, "a");
    assert_eq!(tree.get_by_offset(1).unwrap().0, "b");

    let mut large = BTree::<i32, i32>::new();
    for key in 0..5000 {
        large.insert(key, key);
    }
    // the default order for entries of 8 bytes is 512
    let mut most = 0;
    large.visit(&mut |stack: &VisitStack<'_, i32, i32>| {
        most = most.max(stack.node.key_values.len());
    });
    assert!(most > 19);
    assert!(most <= 511);
    assert_eq!(large.get_by_offset(4999), Some(&(4999, 4999)));
}

#[test]
fn order_too_small_is_rejected() {
    assert!(BTree::<i32, i32>::try_new_with_config(BTreeConfig { max_degree: 0 }).is_none());
    assert!(BTree::<i32, i32>::try_new_with_config(BTreeConfig { max_degree: 2 }).is_none());
    let mut tree = BTree::<i32, i32>::try_new_with_config(BTreeConfig { max_degree: 3 }).unwrap();
    tree.insert(1, 1);
    assert_eq!(tree.get_by_key(&1), Some(&1));
}

#[test]
fn visit_shows_nodes_before_their_children() {
    let keys: Vec<i32> = (1..=7).collect();
    let tree = tree_of(4, &keys);
    let mut seen: Vec<(Vec<i32>, usize, bool, Vec<(Vec<i32>, usize)>)> = vec![];
    let shown = tree.visit(&mut |stack: &VisitStack<'_, i32, i32>| {
        seen.push((
            stack.node.key_values.iter().map(|entry| entry.0).collect(),
            stack.depth,
            stack.is_leaf,
            stack
                .stacks
                .iter()
                .map(|(above, index)| (above.key_values.iter().map(|entry| entry.0).collect(), *index))
                .collect(),
        ));
    });
    assert_eq!(shown, Some(()));
    assert_eq!(
        seen,
        vec![
            (vec![3, 6], 0, false, vec![]),
            (vec![1, 2], 1, true, vec![(vec![3, 6], 0)]),
            (vec![4, 5], 1, true, vec![(vec![3, 6], 1)]),
            (vec![7], 1, true, vec![(vec![3, 6], 2)]),
        ]
    );
}
