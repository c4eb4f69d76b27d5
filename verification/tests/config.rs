use imord2::BTreeConfig;

#[test]
fn sizes_of_an_even_order() {
    let config = BTreeConfig { max_degree: 4 };
    assert_eq!(config.node_max_children(), 4);
    assert_eq!(config.node_min_children(), 2);
    assert_eq!(config.node_max_key_value(), 3);
    assert_eq!(config.node_min_key_value(), 1);
}

#[test]
fn sizes_of_an_odd_order() {
    let config = BTreeConfig { max_degree: 5 };
    assert_eq!(config.node_max_children(), 5);
    assert_eq!(config.node_min_children(), 3);
    assert_eq!(config.node_max_key_value(), 4);
    assert_eq!(config.node_min_key_value(), 2);
    let smallest = BTreeConfig { max_degree: 3 };
    assert_eq!(smallest.node_min_children(), 2);
    assert_eq!(smallest.node_max_key_value(), 2);
    assert_eq!(smallest.node_min_key_value(), 1);
    let default = BTreeConfig { max_degree: 20 };
    assert_eq!(default.node_min_children(), 10);
    assert_eq!(default.node_max_key_value(), 19);
    assert_eq!(default.node_min_key_value(), 9);
}

#[test]
fn size_tests() {
    let config = BTreeConfig { max_degree: 6 };
    assert!(config.node_under_size(0));
    assert!(config.node_under_size(1));
    assert!(!config.node_under_size(2));
    assert!(config.node_at_min_size(1));
    assert!(config.node_at_min_size(2));
    assert!(!config.node_at_min_size(3));
    assert!(!config.node_should_split(4));
    assert!(!config.node_should_split(5));
    assert!(config.node_should_split(6));
    let copy = config;
    assert_eq!(copy.max_degree, 6);
}
