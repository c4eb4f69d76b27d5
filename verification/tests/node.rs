use imord2::insert::InsertResult;
use imord2::node::Node;
use imord2::{BTreeConfig, PredicateResult};
use std::sync::Arc;

#[test]
fn test_node() {
    let config = BTreeConfig { max_degree: 4 };
    let mut node = Node::<i32, i32>::new();
    let keys = (1..100i32).rev().collect::<Vec<_>>();
    for i in keys.clone() {
        match node.insert(i, i * 100, &config) {
            InsertResult::Splited {
                new_k_v,
                new_l,
                new_r,
            } => {
                node = Node::new_with_key_values(vec![new_k_v], vec![new_l, new_r]);
            }
            InsertResult::NotSplited { .. } => {
                // do nothing
            }
        }
    }

    for i in keys.iter() {
        assert_eq!(*node.get_by_key(i).unwrap(), i * 100);
    }

    for i in 0..keys.len() {
        node.get_by_offset(i).unwrap();
    }
}

#[test]
fn test_node_find_key_range() {
    {
        let node =
            Node::<i32, i32>::new_with_key_values(vec![(1, 1), (2, 2), (3, 3), (4, 4)], vec![]);
        {
            let pred = |k: &i32| match *k {
                i32::MIN..=1 => PredicateResult::Left,
                2 => PredicateResult::Match,
                3.. => PredicateResult::Right,
            };
            let find_result = node.find_key_range(&pred);
            assert_eq!(find_result.n(), 1);
        }
        {
            let pred = |k: &i32| match *k {
                i32::MIN..=1 => PredicateResult::Left,
                2..=3 => PredicateResult::Match,
                4.. => PredicateResult::Right,
            };

            let find_result = node.find_key_range(&pred);

            assert_eq!(find_result.n(), 2);
        }
    }

    {
        let left_child = Arc::new(Node::<i32, i32>::new_with_key_values(
            vec![(1, 1), (2, 2), (3, 3), (4, 4)],
            vec![],
        ));

        let right_child = Arc::new(Node::<i32, i32>::new_with_key_values(
            vec![(10, 1), (20, 2), (30, 3), (40, 4)],
            vec![],
        ));

        let node =
            Node::<i32, i32>::new_with_key_values(vec![(9, 9)], vec![left_child, right_child]);

        let pred = |k: &i32| match *k {
            i32::MIN..=1 => PredicateResult::Left,
            2..=20 => PredicateResult::Match,
            21.. => PredicateResult::Right,
        };

        let find_result = node.find_key_range(&pred);
        assert_eq!(find_result.n(), 6);

        let find_result = node.find_key_range(&|_k| PredicateResult::Match);
        assert_eq!(find_result.n(), 9);
        assert_eq!(*find_result.start_key().unwrap(), 1);
        assert_eq!(*find_result.end_key().unwrap(), 40);
    }
}
