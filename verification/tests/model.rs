use lib::{BTree, BTreeKey, KeyOrder};
use std::collections::BTreeSet;

/// A small deterministic pseudo-random sequence.
struct Lcg(u64);

impl Lcg {
    fn next(&mut self) -> u64 {
        self.0 = self.0.wrapping_mul(6364136223846793005).wrapping_add(1442695040888963407);
        self.0 >> 33
    }
}

fn check_against_model(t: usize, ops: usize, range: u64, seed: u64) {
    let mut tree: BTree<u64> = BTree::new(t);
    let mut model: BTreeSet<u64> = BTreeSet::new();
    let mut rng = Lcg(seed);
    for step in 0..ops {
        let k = rng.next() % range;
        if rng.next() % 3 == 0 {
            assert_eq!(tree.delete(&k), model.remove(&k), "delete {} at step {}", k, step);
        } else {
            assert_eq!(tree.insert(k), model.insert(k), "insert {} at step {}", k, step);
        }
        assert_eq!(tree.len(), model.len());
        if step % 17 == 0 {
            let got: Vec<u64> = tree.inorder().into_iter().copied().collect();
            let want: Vec<u64> = model.iter().copied().collect();
            assert_eq!(got, want);
            let lo = rng.next() % range;
            let hi = rng.next() % range;
            let got: Vec<u64> = tree.range_query(&lo, &hi).into_iter().copied().collect();
            let want: Vec<u64> = model.iter().copied().filter(|x| lo <= *x && *x <= hi).collect();
            assert_eq!(got, want);
        }
        let probe = rng.next() % range;
        assert_eq!(tree.search(&probe), model.contains(&probe));
    }
}

#[test]
fn model_t2_small_range() {
    check_against_model(2, 3000, 64, 1);
}

#[test]
fn model_t2_large_range() {
    check_against_model(2, 3000, 5000, 2);
}

#[test]
fn model_t3() {
    check_against_model(3, 3000, 300, 3);
}

#[test]
fn model_t5() {
    check_against_model(5, 3000, 1000, 4);
}

#[test]
fn model_t50() {
    check_against_model(50, 4000, 3000, 5);
}

#[test]
fn delete_everything_then_reuse() {
    let mut bt = BTree::new(3);
    for i in 0..100i64 {
        assert!(bt.insert(i * 7 % 101));
    }
    for i in 0..100i64 {
        assert!(bt.delete(&(i * 7 % 101)));
    }
    assert!(bt.is_empty());
    assert_eq!(bt.inorder(), Vec::<&i64>::new());
    assert_eq!(bt.height(), 0);
    assert!(bt.insert(42));
    assert!(bt.search(&42));
    assert_eq!(bt.height(), 1);
}

#[test]
fn failed_deletes_keep_tree_usable() {
    // Absent keys still make the descent merge and rotate; the tree must stay a B-tree.
    let mut bt = BTree::new(2);
    for i in (0..60i32).map(|x| x * 2) {
        bt.insert(i);
    }
    for round in 0..3 {
        for i in (0..60i32).map(|x| x * 2 + 1) {
            assert!(!bt.delete(&i), "round {} key {}", round, i);
        }
    }
    let got: Vec<i32> = bt.inorder().into_iter().copied().collect();
    let want: Vec<i32> = (0..60).map(|x| x * 2).collect();
    assert_eq!(got, want);
    for i in (0..60i32).map(|x| x * 2) {
        assert!(bt.delete(&i));
    }
    assert!(bt.is_empty());
}

#[test]
fn height_of_small_trees() {
    let mut bt = BTree::new(2);
    assert_eq!(bt.height(), 0);
    for i in 1..=3i32 {
        bt.insert(i);
    }
    assert_eq!(bt.height(), 1);
    bt.insert(4);
    assert_eq!(bt.height(), 2);
}

#[test]
fn height_stays_within_bounds() {
    // Law: a tree of degree t, height h and n >= 1 keys has 2 t^(h-1) - 1 <= n <= (2t)^h - 1.
    for t in [2usize, 3, 4, 10] {
        let mut bt = BTree::new(t);
        for i in 0..2000u32 {
            bt.insert(i.wrapping_mul(2654435761) % 100_000);
            let n = bt.len() as u128;
            let h = bt.height() as u32;
            let tt = t as u128;
            assert!(2 * tt.pow(h - 1) - 1 <= n);
            assert!(n <= (2 * tt).pow(h) - 1);
        }
    }
}

#[test]
fn height_changes_by_at_most_one() {
    let mut bt = BTree::new(2);
    let mut rng = Lcg(9);
    for _ in 0..2000 {
        let before = bt.height();
        let k = rng.next() % 500;
        if rng.next() % 2 == 0 {
            bt.insert(k);
            assert!(before <= bt.height() && bt.height() <= before + 1);
        } else {
            bt.delete(&k);
            assert!(bt.height() <= before && before <= bt.height() + 1);
        }
    }
}

#[test]
fn insert_then_delete_restores_listing() {
    let mut bt = BTree::new(2);
    for i in [8i32, 3, 10, 1, 6, 14, 4, 7, 13] {
        bt.insert(i);
    }
    let before: Vec<i32> = bt.inorder().into_iter().copied().collect();
    assert!(bt.insert(5));
    assert!(bt.search(&5));
    assert!(bt.delete(&5));
    assert!(!bt.search(&5));
    let after: Vec<i32> = bt.inorder().into_iter().copied().collect();
    assert_eq!(before, after);
}

#[test]
fn delete_then_insert_restores_listing() {
    let mut bt = BTree::new(3);
    for i in 0..40u16 {
        bt.insert(i * 3);
    }
    let before: Vec<u16> = bt.inorder().into_iter().copied().collect();
    assert!(bt.delete(&27));
    assert!(bt.insert(27));
    let after: Vec<u16> = bt.inorder().into_iter().copied().collect();
    assert_eq!(before, after);
}

#[test]
fn range_query_edges() {
    let mut bt = BTree::new(2);
    for i in 1..=10i32 {
        bt.insert(i);
    }
    assert_eq!(bt.range_query(&7, &3), Vec::<&i32>::new());
    let one: Vec<i32> = bt.range_query(&4, &4).into_iter().copied().collect();
    assert_eq!(one, vec![4]);
    let all: Vec<i32> = bt.range_query(&-100, &100).into_iter().copied().collect();
    assert_eq!(all, (1..=10).collect::<Vec<_>>());
    let below: Vec<i32> = bt.range_query(&-5, &0).into_iter().copied().collect();
    assert_eq!(below, Vec::<i32>::new());
}

#[test]
fn negative_and_extreme_keys() {
    let mut bt = BTree::new(2);
    for k in [i8::MIN, -1, 0, 1, i8::MAX, -100, 100] {
        assert!(bt.insert(k));
    }
    assert!(!bt.insert(0));
    let got: Vec<i8> = bt.inorder().into_iter().copied().collect();
    assert_eq!(got, vec![i8::MIN, -100, -1, 0, 1, 100, i8::MAX]);
    let mut wide = BTree::new(4);
    for k in [u128::MAX, 0, u128::MAX / 2] {
        wide.insert(k);
    }
    assert!(wide.search(&u128::MAX));
    assert!(!wide.search(&1));
}

#[test]
fn default_is_degree_two() {
    let mut bt: BTree<usize> = BTree::default();
    assert!(bt.is_empty());
    for i in 1..=4usize {
        bt.insert(i);
    }
    // A 2-3-4 tree splits its root on the fourth key.
    assert_eq!(bt.height(), 2);
}

#[test]
fn compare_orders_by_value() {
    assert_eq!(3i32.compare(&5), KeyOrder::Less);
    assert_eq!(5u64.compare(&5), KeyOrder::Equal);
    assert_eq!((-1i64).compare(&-2), KeyOrder::Greater);
}

#[test]
fn delete_uses_predecessor_and_successor() {
    // t = 3: internal keys whose left child has spare keys take the predecessor,
    // otherwise the successor, otherwise the children merge.
    let mut bt = BTree::new(3);
    for i in 1..=30i32 {
        bt.insert(i);
    }
    for k in [9i32, 10, 11, 12, 3, 27, 15] {
        assert!(bt.delete(&k));
        assert!(!bt.search(&k));
    }
    let got: Vec<i32> = bt.inorder().into_iter().copied().collect();
    let want: Vec<i32> = (1..=30).filter(|x| ![9, 10, 11, 12, 3, 27, 15].contains(x)).collect();
    assert_eq!(got, want);
    assert_eq!(bt.len(), 23);
}

#[test]
fn usage_walkthrough() {
    let mut tree = BTree::new(3);
    assert!(tree.insert(10));
    assert!(tree.insert(20));
    assert!(tree.insert(5));
    assert!(tree.insert(15));
    assert!(!tree.insert(10));
    assert!(tree.search(&15));
    assert!(!tree.search(&99));
    let sorted: Vec<i32> = tree.inorder().into_iter().copied().collect();
    assert_eq!(sorted, vec![5, 10, 15, 20]);
    let range: Vec<i32> = tree.range_query(&8, &18).into_iter().copied().collect();
    assert_eq!(range, vec![10, 15]);
    assert!(tree.delete(&10));
    assert_eq!(tree.len(), 3);

    let mut str_tree = BTree::new(2);
    str_tree.insert("delta");
    str_tree.insert("alpha");
    str_tree.insert("charlie");
    assert_eq!(str_tree.inorder(), vec![&"alpha", &"charlie", &"delta"]);
}

#[test]
fn string_keys_sort_by_characters() {
    let mut queue: BTree<String> = BTree::new(2);
    for task in ["wave-1", "wave-10", "wave-2", "wave-21", "wave-3"] {
        queue.insert(task.to_string());
    }
    let sorted: Vec<&str> = queue.inorder().into_iter().map(|s| s.as_str()).collect();
    assert_eq!(sorted, vec!["wave-1", "wave-10", "wave-2", "wave-21", "wave-3"]);
    let waves: Vec<&str> = queue
        .range_query(&"wave-2".to_string(), &"wave-3".to_string())
        .into_iter()
        .map(|s| s.as_str())
        .collect();
    assert_eq!(waves, vec!["wave-2", "wave-21", "wave-3"]);
    assert!(queue.search(&"wave-10".to_string()));
    assert!(!queue.search(&"wave-4".to_string()));
}

#[test]
fn string_keys_against_model() {
    let words = ["é", "e", "z", "", "ab", "a", "abc", "ä", "中文", "zz", "b", "aa", "Z", "😀", "a\u{0}"];
    let mut tree: BTree<String> = BTree::new(2);
    let mut model: BTreeSet<String> = BTreeSet::new();
    let mut rng = Lcg(11);
    for _ in 0..600 {
        let w = format!("{}{}", words[(rng.next() % 15) as usize], words[(rng.next() % 15) as usize]);
        if rng.next() % 3 == 0 {
            assert_eq!(tree.delete(&w), model.remove(&w));
        } else {
            assert_eq!(tree.insert(w.clone()), model.insert(w));
        }
    }
    let got: Vec<String> = tree.inorder().into_iter().cloned().collect();
    let want: Vec<String> = model.iter().cloned().collect();
    assert_eq!(got, want);
}

#[test]
fn compare_orders_strings_by_characters() {
    assert_eq!("abc".compare(&"abd"), KeyOrder::Less);
    assert_eq!("ab".compare(&"abc"), KeyOrder::Less);
    assert_eq!("b".compare(&"abc"), KeyOrder::Greater);
    assert_eq!(String::from("é").compare(&String::from("é")), KeyOrder::Equal);
    assert_eq!("z".compare(&"é"), KeyOrder::Less);
}

#[test]
fn emptied_tree_has_height_zero() {
    let mut bt = BTree::new(2);
    bt.insert(1i32);
    assert!(bt.delete(&1));
    assert!(bt.is_empty());
    assert_eq!(bt.height(), 0);
    assert_eq!(bt.inorder(), Vec::<&i32>::new());
    assert!(!bt.delete(&1));
    assert_eq!(bt.height(), 0);
}

#[test]
fn failed_delete_shrinks_keyless_root() {
    let mut bt = BTree::new(2);
    for i in 1..=4i32 {
        bt.insert(i);
    }
    assert!(bt.delete(&4));
    assert_eq!(bt.height(), 2);
    assert!(!bt.delete(&5));
    let got: Vec<i32> = bt.inorder().into_iter().copied().collect();
    assert_eq!(got, vec![1, 2, 3]);
    assert_eq!(bt.height(), 1);
}

#[test]
fn largest_degree_is_accepted() {
    let mut bt = BTree::new(usize::MAX);
    assert!(bt.insert(1u8));
    assert_eq!(bt.len(), 1);
    assert!(bt.search(&1));
    for k in 2..=200u8 {
        assert!(bt.insert(k));
    }
    assert_eq!(bt.height(), 1);
    assert!(bt.delete(&100));
    assert_eq!(bt.len(), 199);
}

#[test]
fn pair_char_and_bool_keys() {
    let mut pairs: BTree<(u32, char)> = BTree::new(2);
    let mut model: BTreeSet<(u32, char)> = BTreeSet::new();
    let mut rng = Lcg(21);
    for _ in 0..500 {
        let k = ((rng.next() % 7) as u32, ['a', 'z', 'é', 'b', '中'][(rng.next() % 5) as usize]);
        if rng.next() % 4 == 0 {
            assert_eq!(pairs.delete(&k), model.remove(&k));
        } else {
            assert_eq!(pairs.insert(k), model.insert(k));
        }
    }
    let got: Vec<(u32, char)> = pairs.inorder().into_iter().copied().collect();
    let want: Vec<(u32, char)> = model.iter().copied().collect();
    assert_eq!(got, want);
    let mut flags: BTree<bool> = BTree::new(2);
    assert!(flags.insert(true));
    assert!(flags.insert(false));
    assert!(!flags.insert(true));
    let got: Vec<bool> = flags.inorder().into_iter().copied().collect();
    assert_eq!(got, vec![false, true]);
    assert_eq!((1u8, 'b').compare(&(1u8, 'a')), KeyOrder::Greater);
}
