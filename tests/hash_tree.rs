use enso_data::hash_tree::HashTree;

#[test]
fn single_insert_get() {
    let value = "String";
    let path = vec![1, 2, 4, 3];
    let mut tree = HashTree::<i32, String>::empty();
    tree.insert(path.clone(), value.to_string());
    let obtained_val = tree.get_value(&path);
    assert!(obtained_val.is_some());
    assert_eq!(obtained_val.unwrap().as_str(), value);
}

#[test]
fn multi_insert_get() {
    let mut tree = HashTree::<i32, i32>::empty();
    let values = vec![1, 2, 3, 4, 5];
    let paths = vec![vec![1, 2], vec![2, 2, 1, 3], vec![1, 3], vec![1, 2, 4, 1], vec![1, 3, 1]];
    for (val, path) in values.iter().zip(&paths) {
        tree.insert(path.clone(), *val)
    }
    for (val, path) in values.iter().zip(&paths) {
        let obtained_val = tree.get_value(path);
        assert!(obtained_val.is_some());
        assert_eq!(obtained_val.unwrap(), val)
    }
}

#[test]
fn is_leaf() {
    let tree_1 = HashTree::<i32, i32>::singleton(1);
    let tree_2 = HashTree::<i32, i32>::empty();
    let mut tree_3 = HashTree::<i32, i32>::empty();
    tree_3.insert(vec![1], 1);
    assert!(tree_1.is_leaf());
    assert!(tree_2.is_leaf());
    assert!(tree_3.is_non_leaf());
}

#[test]
fn intermediate_nodes_hold_no_value() {
    let mut tree = HashTree::<i32, i32>::empty();
    tree.insert(vec![1, 2, 3], 7);
    assert!(tree.get(&[1, 2]).is_some());
    assert_eq!(tree.get_value(&[1, 2]), None);
    assert_eq!(tree.get_value(&[1, 2, 3]), Some(&7));
    assert!(tree.get(&[2]).is_none());
    assert_eq!(tree.get_value(&[1, 2, 3, 4]), None);
    assert!(tree.get_at_current_level(&1).is_some());
    assert!(tree.get_at_current_level(&2).is_none());
}

#[test]
fn insert_at_root_and_overwrite() {
    let mut tree = HashTree::<i32, i32>::empty();
    assert_eq!(tree.get_value(&[]), None);
    tree.insert(vec![], 3);
    assert_eq!(tree.get_value(&[]), Some(&3));
    assert!(tree.is_leaf());
    tree.insert(vec![5], 1);
    tree.insert(vec![5], 2);
    assert_eq!(tree.get_value(&[5]), Some(&2));
    assert_eq!(tree.get_value(&[]), Some(&3));
}

#[test]
fn mutate_through_paths() {
    let mut tree = HashTree::<i32, i32>::empty();
    tree.insert(vec![1, 2], 10);
    tree.insert(vec![1, 3], 20);
    *tree.get_value_mut(vec![1, 2]).unwrap() += 5;
    assert_eq!(tree.get_value(&[1, 2]), Some(&15));
    assert_eq!(tree.get_value(&[1, 3]), Some(&20));
    assert!(tree.get_value_mut(vec![1]).is_none());
    assert!(tree.get_value_mut(vec![4]).is_none());
    let node = tree.get_mut(vec![1]).unwrap();
    node.value = Some(1);
    assert_eq!(tree.get_value(&[1]), Some(&1));
    assert!(tree.get_mut(vec![1, 9]).is_none());
    let branch = tree.get_at_current_level_mut(1).unwrap();
    branch.insert(vec![4], 40);
    assert_eq!(tree.get_value(&[1, 4]), Some(&40));
    assert!(tree.get_at_current_level_mut(7).is_none());
    assert!(tree.get_mut(vec![]).unwrap().is_non_leaf());
}
