use bst::Tree;

#[test]
fn empty_tree() {
    let mut t = Tree::new();
    assert!(t.is_empty());
    t = t.insert(8, 8);
    assert!(!t.is_empty());
}

#[test]
fn test_insert() {
    let mut t = Tree::new();
    t = t.insert(8, 8);
    t = t.insert(9, 9);
    assert!(t.get(&8) == Some(&8));
    assert!(t.get(&9) == Some(&9));
    assert!(t.get(&1) == None);
}

#[test]
fn test_playing() {
    let z = Box::new(0);
    let mut t = Tree::new();
    let mut x: &Box<i8> = &z;

    t = t.insert(8, Box::new(8i8));
    if let Some(y) = t.get(&8) {
        x = y
    }
    println!("{}", x);
    assert_eq!(**x, 8);
}

#[test]
fn new_tree_is_nil() {
    let t: Tree<u32, u32> = Tree::new();
    assert!(matches!(t, Tree::Nil));
    assert!(t.is_empty());
}

#[test]
fn get_on_empty_tree_is_none() {
    let t: Tree<i64, String> = Tree::new();
    assert_eq!(t.get(&0), None);
    assert_eq!(t.get(&-5), None);
}

#[test]
fn insert_makes_any_tree_nonempty() {
    for k in [-3i32, 0, 7] {
        let t = Tree::new().insert(k, "v");
        assert!(!t.is_empty());
        assert_eq!(t.get(&k), Some(&"v"));
    }
}

#[test]
fn collision_keeps_first_value() {
    let mut t = Tree::new();
    t = t.insert(8, 8);
    t = t.insert(8, 99);
    assert_eq!(t.get(&8), Some(&8));
}

#[test]
fn collision_deep_in_tree_keeps_first_value() {
    let mut t = Tree::new();
    for k in [50u32, 20, 80, 10, 30, 70, 90] {
        t = t.insert(k, k * 10);
    }
    t = t.insert(30, 1);
    t = t.insert(90, 2);
    assert_eq!(t.get(&30), Some(&300));
    assert_eq!(t.get(&90), Some(&900));
}

#[test]
fn round_trip_distinct_keys() {
    let keys = [42i32, -7, 15, 0, 99, 3, -50, 28];
    let mut t = Tree::new();
    for k in keys {
        t = t.insert(k, format!("v{}", k));
    }
    for k in keys {
        assert_eq!(t.get(&k), Some(&format!("v{}", k)));
    }
}

#[test]
fn absent_keys_are_not_found() {
    let mut t = Tree::new();
    for k in [10u8, 5, 15, 1, 7] {
        t = t.insert(k, k);
    }
    for k in [0u8, 2, 6, 8, 11, 16, 255] {
        assert_eq!(t.get(&k), None);
    }
}

#[test]
fn insertion_order_does_not_change_bindings() {
    let pairs = [(4u64, 'd'), (2, 'b'), (6, 'f'), (1, 'a'), (3, 'c'), (5, 'e')];
    let mut forward = Tree::new();
    for (k, v) in pairs {
        forward = forward.insert(k, v);
    }
    let mut backward = Tree::new();
    for (k, v) in pairs.iter().rev() {
        backward = backward.insert(*k, *v);
    }
    for k in 0u64..8 {
        assert_eq!(forward.get(&k), backward.get(&k));
    }
    assert_eq!(forward.get(&5), Some(&'e'));
}

#[test]
fn insert_keeps_earlier_bindings() {
    let mut t = Tree::new();
    for k in [5i32, 3, 8] {
        t = t.insert(k, k + 100);
    }
    let before: Vec<Option<i32>> = [5, 3, 8].iter().map(|k| t.get(k).copied()).collect();
    t = t.insert(4, 0);
    t = t.insert(9, 0);
    let after: Vec<Option<i32>> = [5, 3, 8].iter().map(|k| t.get(k).copied()).collect();
    assert_eq!(before, after);
    assert_eq!(after, vec![Some(105), Some(103), Some(108)]);
}

#[test]
fn sorted_insertion_builds_a_chain() {
    let mut t = Tree::new();
    for k in 0u32..500 {
        t = t.insert(k, k + 1);
    }
    for k in 0u32..500 {
        assert_eq!(t.get(&k), Some(&(k + 1)));
    }
    assert_eq!(t.get(&500), None);
    match &t {
        Tree::Node { left, key, .. } => {
            assert_eq!(*key, 0);
            assert!(left.is_empty());
        },
        Tree::Nil => panic!("tree should not be empty"),
    }
}

#[test]
fn string_keys_are_ordered() {
    let mut t = Tree::new();
    for k in ["pear", "apple", "fig", "quince"] {
        t = t.insert(k.to_string(), k.len());
    }
    assert_eq!(t.get(&"fig".to_string()), Some(&3));
    assert_eq!(t.get(&"quince".to_string()), Some(&6));
    assert_eq!(t.get(&"plum".to_string()), None);
}
