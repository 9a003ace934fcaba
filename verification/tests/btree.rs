use lib::BTree;

#[test]
fn test_new_empty() {
    let bt = BTree::<i32>::new(2);
    assert!(bt.is_empty());
    assert_eq!(bt.len(), 0);
}

#[test]
fn test_insert_search() {
    let mut bt = BTree::new(2);
    bt.insert(5i32);
    assert!(bt.search(&5));
}

#[test]
fn test_insert_new_true() {
    let mut bt = BTree::new(2);
    assert!(bt.insert(42i32));
}

#[test]
fn test_insert_dup_false() {
    let mut bt = BTree::new(2);
    bt.insert(42i32);
    assert!(!bt.insert(42i32));
}

#[test]
fn test_search_miss_empty() {
    let bt = BTree::<i32>::new(2);
    assert!(!bt.search(&5));
}

#[test]
fn test_search_miss_after_inserts() {
    let mut bt = BTree::new(2);
    for i in [1, 2, 3, 4, 6, 7, 8i32] {
        bt.insert(i);
    }
    assert!(!bt.search(&5));
}

#[test]
fn test_inorder_empty() {
    let bt = BTree::<i32>::new(2);
    assert_eq!(bt.inorder(), Vec::<&i32>::new());
}

#[test]
fn test_inorder_sorted() {
    let mut bt = BTree::new(2);
    for k in [5i32, 3, 7, 1, 4, 6, 8] {
        bt.insert(k);
    }
    let result: Vec<i32> = bt.inorder().into_iter().copied().collect();
    assert_eq!(result, vec![1, 3, 4, 5, 6, 7, 8]);
}

#[test]
fn test_len_insert() {
    let mut bt = BTree::new(2);
    for i in 0..10i32 {
        bt.insert(i);
    }
    assert_eq!(bt.len(), 10);
}

#[test]
fn test_split_root() {
    // With t=2, root can hold at most 3 keys (2t-1=3). Inserting 4 forces a root split.
    let mut bt = BTree::new(2);
    for i in 1..=10i32 {
        bt.insert(i);
    }
    let result: Vec<i32> = bt.inorder().into_iter().copied().collect();
    assert_eq!(result, (1..=10).collect::<Vec<_>>());
    assert_eq!(bt.len(), 10);
}

#[test]
fn test_delete_empty_false() {
    let mut bt = BTree::<i32>::new(2);
    assert!(!bt.delete(&5));
}

#[test]
fn test_delete_leaf_key() {
    let mut bt = BTree::new(2);
    bt.insert(1i32);
    bt.insert(2);
    bt.insert(3);
    assert!(bt.delete(&2));
    assert!(!bt.search(&2));
    assert_eq!(bt.len(), 2);
}

#[test]
fn test_delete_internal_key() {
    let mut bt = BTree::new(2);
    // Insert enough to create internal nodes
    for i in 1..=10i32 {
        bt.insert(i);
    }
    // Delete a key that is likely internal
    assert!(bt.delete(&4));
    assert!(!bt.search(&4));
    assert_eq!(bt.len(), 9);
}

#[test]
fn test_delete_nonexistent_false() {
    let mut bt = BTree::new(2);
    bt.insert(1i32);
    bt.insert(2);
    assert!(!bt.delete(&99));
}

#[test]
fn test_delete_inorder_sorted() {
    let mut bt = BTree::new(2);
    for i in 1..=15i32 {
        bt.insert(i);
    }
    for i in [3i32, 7, 11] {
        bt.delete(&i);
    }
    let result: Vec<i32> = bt.inorder().into_iter().copied().collect();
    let expected: Vec<i32> = (1..=15).filter(|x| ![3, 7, 11].contains(x)).collect();
    assert_eq!(result, expected);
}

#[test]
fn test_range_query_empty() {
    let bt = BTree::<i32>::new(2);
    assert_eq!(bt.range_query(&1, &10), Vec::<&i32>::new());
}

#[test]
fn test_range_query_all() {
    let mut bt = BTree::new(2);
    for i in 1..=5i32 {
        bt.insert(i);
    }
    let result: Vec<i32> = bt.range_query(&1, &5).into_iter().copied().collect();
    assert_eq!(result, vec![1, 2, 3, 4, 5]);
}

#[test]
fn test_range_query_partial() {
    let mut bt = BTree::new(2);
    for i in 1..=10i32 {
        bt.insert(i);
    }
    let result: Vec<i32> = bt.range_query(&3, &7).into_iter().copied().collect();
    assert_eq!(result, vec![3, 4, 5, 6, 7]);
}

#[test]
fn test_range_query_miss() {
    let mut bt = BTree::new(2);
    for i in 1..=10i32 {
        bt.insert(i);
    }
    assert_eq!(bt.range_query(&20, &30), Vec::<&i32>::new());
}

#[test]
fn test_height_empty() {
    let bt = BTree::<i32>::new(2);
    assert_eq!(bt.height(), 0);
}

#[test]
fn test_height_root_only() {
    let mut bt = BTree::new(2);
    // Insert t-1 = 1 key (won't split root)
    bt.insert(1i32);
    assert_eq!(bt.height(), 1);
}

#[test]
fn test_height_grows() {
    let mut bt = BTree::new(2);
    // With t=2, inserting 4 keys forces root split (height -> 2)
    // Inserting 8 keys forces another level (height -> 3)
    for i in 1..=8i32 {
        bt.insert(i);
    }
    assert!(bt.height() >= 2);
}

#[test]
fn test_t3_insert_delete() {
    let mut bt = BTree::new(3);
    for i in 1..=20i32 {
        bt.insert(i);
    }
    // Delete 10 elements
    for i in [1i32, 3, 5, 7, 9, 11, 13, 15, 17, 19] {
        assert!(bt.delete(&i));
    }
    let result: Vec<i32> = bt.inorder().into_iter().copied().collect();
    let expected: Vec<i32> = (1..=20)
        .filter(|x| ![1, 3, 5, 7, 9, 11, 13, 15, 17, 19].contains(x))
        .collect();
    assert_eq!(result, expected);
    assert_eq!(bt.len(), 10);
}

#[test]
fn test_mass_insert_inorder() {
    let mut bt = BTree::new(2);
    // Deterministic interleaved order: 200, 1, 199, 2, 198, 3, ...
    let n = 200i32;
    let mut lo = 1i32;
    let mut hi = n;
    let mut keys = Vec::new();
    while lo <= hi {
        if lo == hi {
            keys.push(lo);
            break;
        }
        keys.push(hi);
        keys.push(lo);
        lo += 1;
        hi -= 1;
    }
    for k in &keys {
        bt.insert(*k);
    }
    let result: Vec<i32> = bt.inorder().into_iter().copied().collect();
    let expected: Vec<i32> = (1..=200).collect();
    assert_eq!(result, expected);
    assert_eq!(bt.len(), 200);
}

#[test]
fn test_mass_delete_all() {
    let mut bt = BTree::new(2);
    for i in 1..=50i32 {
        bt.insert(i);
    }
    for i in 1..=50i32 {
        assert!(bt.delete(&i), "failed to delete {}", i);
    }
    assert!(bt.is_empty());
    assert_eq!(bt.len(), 0);
}
