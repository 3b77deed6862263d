use bst::tree::{Node, BST};

fn demo_tree() -> BST {
    let mut n = Box::new(Node::new(1));
    n.left = Some(Box::new(Node::new(0)));
    n.right = Some(Box::new(Node::new(2)));
    BST::from_root(Some(n), Some(3))
}

fn is_non_decreasing(t: &BST) -> bool {
    let text = t.to_string();
    if text.is_empty() {
        return true;
    }
    let keys: Vec<i64> = text.split(' ').map(|w| w.parse().unwrap()).collect();
    keys.windows(2).all(|w| w[0] <= w[1])
}

#[test]
fn demo_sequence() {
    let mut b = demo_tree();
    assert_eq!(b.to_string(), "0 1 2");
    b.add(4);
    b.add(5);
    b.add(6);
    assert_eq!(b.to_string(), "0 1 2 4 5 6");
    let (found, exists) = b.search(6);
    assert!(exists);
    assert_eq!(found.map(|n| n.value), Some(6));
    let (found, exists) = b.search(3);
    assert!(!exists);
    assert!(found.is_none());
    b.remove(6);
    assert_eq!(b.to_string(), "0 1 2 4 5");
    b.remove(3);
    assert_eq!(b.to_string(), "0 1 2 4 5");
}

#[test]
fn empty_tree_renders_empty() {
    let b = BST::new();
    assert_eq!(b.to_string(), "");
    assert_eq!(b.len(), Some(0));
    assert!(!b.search(0).1);
}

#[test]
fn order_kept_through_inserts_and_removals() {
    let mut b = BST::new();
    for v in [50, 20, 70, 20, -5, 60, 80, 65, 50, 10] {
        b.add(v);
        assert!(is_non_decreasing(&b));
    }
    assert_eq!(b.to_string(), "-5 10 20 20 50 50 60 65 70 80");
    for v in [50, 70, 20, 99, -5] {
        b.remove(v);
        assert!(is_non_decreasing(&b));
    }
    assert_eq!(b.to_string(), "10 20 50 60 65 80");
}

#[test]
fn count_tracks_insert_calls() {
    let mut b = demo_tree();
    b.add(7);
    b.add(8);
    b.add(9);
    assert_eq!(b.len(), Some(6));
    b.add(7);
    assert_eq!(b.len(), Some(7));
    b.remove(7);
    assert_eq!(b.len(), Some(7));
}

#[test]
fn untracked_count_stays_untracked() {
    let mut b = BST::from_root(None, None);
    b.add(1);
    assert_eq!(b.len(), None);
    assert_eq!(b.to_string(), "1");
}

#[test]
fn search_finds_inserted_only() {
    let mut b = BST::new();
    for v in [8, 3, 10, 1, 6, 14, 4, 7, 13] {
        b.add(v);
    }
    for v in [8, 3, 10, 1, 6, 14, 4, 7, 13] {
        let (found, exists) = b.search(v);
        assert!(exists);
        assert_eq!(found.unwrap().value, v);
    }
    for v in [0, 2, 5, 9, 11, 12, 15, -1] {
        assert_eq!(b.search(v).1, false);
        assert!(b.search(v).0.is_none());
    }
}

#[test]
fn removal_drops_one_occurrence() {
    let mut b = BST::new();
    for v in [5, 3, 5, 7, 5] {
        b.add(v);
    }
    b.remove(5);
    assert_eq!(b.to_string(), "3 5 5 7");
    assert!(b.search(5).1);
    b.remove(5);
    b.remove(5);
    assert_eq!(b.to_string(), "3 7");
    assert!(!b.search(5).1);
}

#[test]
fn removal_of_absent_key_is_no_op() {
    let mut b = demo_tree();
    b.remove(42);
    assert_eq!(b.to_string(), "0 1 2");
    let mut e = BST::new();
    e.remove(1);
    assert_eq!(e.to_string(), "");
}

#[test]
fn leaf_and_one_child_removals() {
    let mut b = BST::new();
    for v in [10, 5, 15, 12] {
        b.add(v);
    }
    b.remove(5);
    assert_eq!(b.to_string(), "10 12 15");
    b.remove(15);
    assert_eq!(b.to_string(), "10 12");
    b.remove(10);
    assert_eq!(b.to_string(), "12");
    b.remove(12);
    assert_eq!(b.to_string(), "");
}

#[test]
fn two_child_removal_takes_right_minimum() {
    let mut b = BST::new();
    for v in [20, 10, 30, 25, 35, 22, 27] {
        b.add(v);
    }
    b.remove(20);
    assert_eq!(b.to_string(), "10 22 25 27 30 35");
    // the root now holds 22, the smallest key of its former right subtree
    let mut probe = b;
    probe.remove(10);
    probe.remove(25);
    assert_eq!(probe.to_string(), "22 27 30 35");
    assert!(probe.search(22).1);
}

#[test]
fn two_child_removal_keeps_whole_right_subtree() {
    let mut b = demo_tree();
    b.add(4);
    b.add(3);
    b.remove(1);
    assert_eq!(b.to_string(), "0 2 3 4");
}

#[test]
fn negative_and_extreme_keys_render() {
    let mut b = BST::new();
    b.add(i32::MIN);
    b.add(i32::MAX);
    b.add(-7);
    b.add(0);
    b.add(1234567);
    assert_eq!(b.to_string(), "-2147483648 -7 0 1234567 2147483647");
    assert!(b.search(i32::MIN).1);
    b.remove(i32::MIN);
    assert_eq!(b.to_string(), "-7 0 1234567 2147483647");
}

#[test]
fn shape_check_accepts_ordered_and_rejects_others() {
    let mut n = Box::new(Node::new(1));
    n.left = Some(Box::new(Node::new(0)));
    n.right = Some(Box::new(Node::new(1)));
    assert!(BST::is_search_tree(&Some(n)));
    assert!(BST::is_search_tree(&None));

    let mut bad = Box::new(Node::new(5));
    bad.left = Some(Box::new(Node::new(5)));
    assert!(!BST::is_search_tree(&Some(bad)));

    let mut deep = Box::new(Node::new(10));
    let mut l = Box::new(Node::new(4));
    l.right = Some(Box::new(Node::new(12)));
    deep.left = Some(l);
    assert!(!BST::is_search_tree(&Some(deep)));
}

#[test]
fn subtree_operations_hand_back_new_subtree() {
    let b = BST::new();
    let mut t = None;
    for v in [20, 10, 30, 25, 35] {
        t = b.add_by_node(t, v);
    }
    let (found, exists) = b.search_by_node(&t, 25);
    assert!(exists);
    assert_eq!(found.unwrap().value, 25);
    let t = b.remove_by_node(t, 20);
    let root = t.as_ref().unwrap();
    assert_eq!(root.value, 25);
    assert_eq!(root.left.as_ref().unwrap().value, 10);
    let whole = BST::from_root(t, None);
    assert_eq!(whole.to_string(), "10 25 30 35");
}

#[test]
fn traversal_appends_each_key_with_a_space() {
    let b = demo_tree();
    let mut sb = String::from("keys: ");
    let mut n = Box::new(Node::new(-3));
    n.right = Some(Box::new(Node::new(40)));
    b.in_order_traversal(&mut sb, &Some(n));
    assert_eq!(sb, "keys: -3 40 ");
}
