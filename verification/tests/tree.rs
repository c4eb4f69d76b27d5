use imord2::{BTree, BTreeConfig};

#[test]
fn test_tree_insert() {
    let mut tree = BTree::<i32, i32>::new_with_config(BTreeConfig { max_degree: 4 });
    let keys = (1..13i32).rev().collect::<Vec<_>>();
    for i in keys.iter() {
        tree.insert(*i, i * 100);
        assert_eq!(*tree.get_by_key(i).unwrap(), i * 100);
    }
}

#[test]
fn test_tree_delete() {
    let mut tree = BTree::<i32, u32>::new_with_config(BTreeConfig { max_degree: 4 });
    let keys = (1..13i32).collect::<Vec<_>>();
    for i in keys.iter() {
        tree.insert(*i, (i * 100) as u32);
    }

    println!("{:?}", &tree);

    let mut key_values = vec![];
    for i in keys.iter() {
        key_values.push(tree.delete_by_key(i).unwrap());
        println!("{:?}", &tree);
    }

    assert_eq!(key_values.len(), keys.len());
}
