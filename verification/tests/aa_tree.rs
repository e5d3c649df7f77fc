use aa_tree::Node;
use aa_tree::TotalOrder;
use aa_tree::Tree;
use std::cmp::Ordering;

/// A small deterministic generator, so the randomized trials are
/// reproducible without any outside crate.
fn next_random(state: &mut u64) -> u64 {
    *state = state
        .wrapping_mul(6364136223846793005)
        .wrapping_add(1442695040888963407);
    *state >> 33
}

fn insert_n_check_aa(n: usize, bound: u64, state: &mut u64) {
    let mut t: Tree<u64, ()> = Tree::new();

    for _ in 0..n {
        let a = next_random(state) % bound;
        t.insert(a, ());
    }

    assert!(t.is_aa());
}

#[test]
fn test_find() {
    let mut t: Tree<usize, char> = Tree::new();
    assert_eq!(t.find(&1usize), None);
    t.insert(1usize, 'j');
    assert_eq!(t.find(&1usize), Some(&'j'));
}

// testing whether we can find all the things we inserted
#[test]
fn test_insert() {
    let mut t: Tree<usize, u8> = Tree::new();
    for i in 0..10usize {
        let c = b'a' + i as u8;
        t.insert(i, c);
    }

    for i in 0..10usize {
        let c = b'a' + i as u8;
        assert_eq!(t.find(&i), Some(&c));
    }

    assert_eq!(t.find(&10usize), None);
}

// testing whether, after inserting 20 random keys, is_aa() returns true
#[test]
fn test_insert_is_aa() {
    let mut state: u64 = 0x9e3779b97f4a7c15;

    for _ in 0..300 {
        insert_n_check_aa(20, 100_000, &mut state);
    }
}

// testing whether, after inserting 20 random keys, is_aa() returns true,
// but this time some of the keys are repeated
#[test]
fn test_insert_dups_is_aa() {
    let mut state: u64 = 0x243f6a8885a308d3;

    for _ in 0..300 {
        insert_n_check_aa(20, 15, &mut state);
    }
}

#[test]
fn find_on_empty_tree_is_absent() {
    let t: Tree<char, u64> = Tree::new();
    assert_eq!(t.find(&'b'), None);
    assert_eq!(t.size(), 0);
    assert!(t.is_bst());
    assert!(t.is_aa());
}

#[test]
fn single_insert_then_find() {
    let mut t: Tree<char, u64> = Tree::new();
    t.insert('e', 5);
    assert_eq!(t.find(&'e'), Some(&5));
    assert!(t.is_aa());
}

#[test]
fn three_inserts_keep_order_and_balance() {
    let mut t: Tree<char, u64> = Tree::new();
    t.insert('e', 5);
    t.insert('b', 88);
    t.insert('d', 11);
    assert!(t.is_bst());
    assert!(t.is_aa());
    assert_eq!(t.find(&'b'), Some(&88));
    assert_eq!(t.find(&'d'), Some(&11));
}

#[test]
fn ascending_then_dip_triggers_split() {
    let mut t: Tree<u64, ()> = Tree::new();
    t.insert(7, ());
    t.insert(8, ());
    t.insert(9, ());
    t.insert(6, ());
    assert!(t.is_aa());
}

#[test]
fn insert_reports_previous_value_and_size() {
    let mut t: Tree<u64, u64> = Tree::new();
    assert_eq!(t.size(), 0);
    assert_eq!(t.insert(1, 10), None);
    assert_eq!(t.size(), 1);
    assert_eq!(t.insert(2, 20), None);
    assert_eq!(t.size(), 2);
    assert_eq!(t.insert(1, 30), Some(10));
    assert_eq!(t.size(), 2);
    assert_eq!(t.find(&1), Some(&30));
    assert_eq!(t.find(&2), Some(&20));
}

#[test]
fn reinserting_same_pair_is_idempotent() {
    let mut t: Tree<u64, u64> = Tree::new();
    for k in [4u64, 2, 6, 1, 3, 5, 7] {
        t.insert(k, k * 100);
    }
    t.insert(5, 500);
    let before = t.entries();
    let size_before = t.size();

    let prev = t.insert(5, 500);
    assert_eq!(prev, Some(500));
    assert_eq!(t.size(), size_before);
    assert_eq!(t.entries(), before);
    assert!(t.is_aa());
}

#[test]
fn entries_lists_every_pair() {
    let mut t: Tree<u64, u64> = Tree::new();
    for k in [10u64, 20, 30, 5, 15, 25, 35, 1] {
        t.insert(k, k + 1);
    }
    let v = t.entries();
    assert_eq!(v.len(), t.size());
    for (key, value, level, depth) in &v {
        assert_eq!(t.find(key), Some(value));
        assert!(*level >= 1);
        if *depth == 0 {
            assert_eq!(*key, 20);
        }
    }
    assert_eq!(v[0].3, 0);
}

#[test]
fn descending_inserts_stay_balanced() {
    let mut t: Tree<u64, u64> = Tree::new();
    for k in (0..200u64).rev() {
        t.insert(k, k);
    }
    assert!(t.is_bst());
    assert!(t.is_aa());
    assert_eq!(t.size(), 200);
    for k in 0..200u64 {
        assert_eq!(t.find(&k), Some(&k));
    }
}

#[test]
fn node_new_is_a_singleton_leaf() {
    let n = Node::new('k', 9u64);
    assert_eq!(n.max(), &'k');
    assert_eq!(n.min(), &'k');
    assert!(n.is_bst());
    assert!(n.is_aa());
}

#[test]
fn key_comparisons_decide_order() {
    assert_eq!(3u64.compare(&5u64), Ordering::Less);
    assert_eq!(5u64.compare(&5u64), Ordering::Equal);
    assert_eq!(7u64.compare(&5u64), Ordering::Greater);
    assert_eq!('a'.compare(&'b'), Ordering::Less);
    assert_eq!('b'.compare(&'b'), Ordering::Equal);
    assert_eq!('z'.compare(&'b'), Ordering::Greater);
    assert_eq!(1usize.compare(&2usize), Ordering::Less);
    assert_eq!((-3i64).compare(&2i64), Ordering::Less);
    assert_eq!(2u8.compare(&1u8), Ordering::Greater);
    assert_eq!(9u32.compare(&9u32), Ordering::Equal);
}
