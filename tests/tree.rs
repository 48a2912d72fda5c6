use bst::{Node, Tree};

#[test]
fn check_insertion() {
    let mut bst = Tree::<i32>::new();

    bst.insert(9);
    bst.insert(67);
    bst.insert(236);
    bst.insert(19);
    bst.insert(53);

    assert_eq!(bst.to_string(), "9 19 53 67 236 ");
}

#[test]
fn check_deletion() {
    let mut bst = Tree::<i32>::new();

    bst.insert(89);
    bst.insert(23);
    bst.insert(25);
    bst.insert(1);
    bst.insert(15);
    bst.insert(91);
    bst.insert(123);
    bst.insert(85);
    bst.insert(30);
    bst.insert(62);
    bst.insert(84);

    assert_eq!(bst.to_string(), "1 15 23 25 30 62 84 85 89 91 123 ");

    bst.delete(23);
    assert_eq!(bst.to_string(), "1 15 25 30 62 84 85 89 91 123 ");

    bst.delete(25);
    assert_eq!(bst.to_string(), "1 15 30 62 84 85 89 91 123 ");

    bst.delete(91);
    assert_eq!(bst.to_string(), "1 15 30 62 84 85 89 123 ");
}

#[test]
fn check_lookup() {
    let mut bst = Tree::<i32>::new();

    assert_eq!(bst.lookup(7), false);

    bst.insert(34);
    bst.insert(99);
    bst.insert(63);
    bst.insert(89);
    bst.insert(63);
    bst.insert(47);
    bst.insert(17);
    bst.insert(91);
    bst.insert(37);
    bst.insert(74);
    bst.insert(91);

    assert_eq!(bst.to_string(), "17 34 37 47 63 74 89 91 99 ");

    assert_eq!(bst.lookup(89), true);
    assert_eq!(bst.lookup(5), false);
    assert_eq!(bst.lookup(91), true);
    assert_eq!(bst.lookup(22), false);

    bst.delete(89);
    assert_eq!(bst.to_string(), "17 34 37 47 63 74 91 99 ");
    assert_eq!(bst.lookup(89), false);

    bst.insert(89);
    assert_eq!(bst.to_string(), "17 34 37 47 63 74 89 91 99 ");
    assert_eq!(bst.lookup(89), true);
}

fn build(values: &[i32]) -> Tree<i32> {
    let mut t = Tree::<i32>::new();
    for v in values {
        t.insert(*v);
    }
    t
}

fn rendered_values(t: &Tree<i32>) -> Vec<i32> {
    t.to_string().split_whitespace().map(|w| w.parse::<i32>().unwrap()).collect()
}

#[test]
fn empty_tree_renders_nothing() {
    let mut t = Tree::<i32>::new();
    assert_eq!(t.to_string(), "");
    assert!(t.root.is_none());
    assert!(!t.lookup(0));
}

#[test]
fn new_node_is_a_leaf() {
    let n = Node::new(5);
    assert_eq!(n.data, 5);
    assert!(n.left.is_none());
    assert!(n.right.is_none());
}

#[test]
fn traversal_is_strictly_increasing_after_mixed_operations() {
    let mut t = build(&[50, 20, 80, 10, 30, 70, 90, 25, 35, 75]);
    t.delete(20);
    t.insert(22);
    t.delete(80);
    t.insert(30);
    t.delete(50);
    t.insert(-4);
    let vs = rendered_values(&t);
    assert_eq!(vs, vec![-4, 10, 22, 25, 30, 35, 70, 75, 90]);
    for w in vs.windows(2) {
        assert!(w[0] < w[1]);
    }
}

#[test]
fn inserting_present_value_keeps_traversal() {
    let mut t = build(&[8, 3, 12, 1, 5]);
    let before = t.to_string();
    t.insert(5);
    t.insert(8);
    assert_eq!(t.to_string(), before);
    assert_eq!(before, "1 3 5 8 12 ");
}

#[test]
fn deleting_absent_value_keeps_traversal() {
    let mut t = build(&[8, 3, 12, 1, 5]);
    t.delete(4);
    t.delete(100);
    assert_eq!(t.to_string(), "1 3 5 8 12 ");
    let mut empty = Tree::<i32>::new();
    empty.delete(1);
    assert_eq!(empty.to_string(), "");
}

#[test]
fn insert_then_delete_restores_traversal() {
    let mut t = build(&[40, 20, 60, 10, 30]);
    let before = t.to_string();
    t.insert(25);
    assert_eq!(t.to_string(), "10 20 25 30 40 60 ");
    t.delete(25);
    assert_eq!(t.to_string(), before);
}

#[test]
fn lookup_follows_inserts_and_deletes() {
    let mut t = Tree::<i32>::new();
    t.insert(3);
    t.insert(3);
    assert!(t.lookup(3));
    t.delete(3);
    assert!(!t.lookup(3));
    t.insert(3);
    assert!(t.lookup(3));
    assert!(!t.lookup(4));
}

#[test]
fn deleting_leaf_empties_its_slot() {
    let mut t = build(&[10, 5]);
    t.delete(5);
    let root = t.root.as_ref().as_ref().unwrap();
    assert_eq!(root.data, 10);
    assert!(root.left.is_none());
    assert_eq!(t.to_string(), "10 ");
}

#[test]
fn deleting_node_with_only_left_child_promotes_it() {
    let mut t = build(&[10, 5, 3]);
    t.delete(10);
    let root = t.root.as_ref().as_ref().unwrap();
    assert_eq!(root.data, 5);
    assert_eq!(root.left.as_ref().as_ref().unwrap().data, 3);
    assert!(root.right.is_none());
}

#[test]
fn deleting_node_with_only_right_child_promotes_it() {
    let mut t = build(&[10, 15, 20]);
    t.delete(10);
    let root = t.root.as_ref().as_ref().unwrap();
    assert_eq!(root.data, 15);
    assert!(root.left.is_none());
    assert_eq!(root.right.as_ref().as_ref().unwrap().data, 20);
}

#[test]
fn deleting_node_with_two_children_hangs_left_under_leftmost_of_right() {
    let mut t = build(&[50, 30, 70, 60, 80, 20]);
    t.delete(50);
    let root = t.root.as_ref().as_ref().unwrap();
    assert_eq!(root.data, 70);
    let sixty = root.left.as_ref().as_ref().unwrap();
    assert_eq!(sixty.data, 60);
    let thirty = sixty.left.as_ref().as_ref().unwrap();
    assert_eq!(thirty.data, 30);
    assert_eq!(thirty.left.as_ref().as_ref().unwrap().data, 20);
    assert_eq!(t.to_string(), "20 30 60 70 80 ");
}

#[test]
fn extreme_values_render_in_order() {
    let t = build(&[0, i32::MAX, i32::MIN, -1]);
    assert_eq!(t.to_string(), "-2147483648 -1 0 2147483647 ");
}

#[test]
fn degenerate_chain_keeps_order() {
    let mut t = Tree::<i32>::new();
    let mut i: i32 = 0;
    while i < 500 {
        t.insert(i);
        i += 1;
    }
    assert!(t.lookup(499));
    t.delete(0);
    t.delete(250);
    let vs = rendered_values(&t);
    assert_eq!(vs.len(), 498);
    assert_eq!(vs[0], 1);
    assert_eq!(vs[249], 251);
}

#[test]
fn strings_are_ordered_and_rendered() {
    let mut t = Tree::<String>::new();
    t.insert(String::from("pear"));
    t.insert(String::from("apple"));
    t.insert(String::from("fig"));
    t.insert(String::from("apple"));
    assert_eq!(t.to_string(), "apple fig pear ");
    assert!(t.lookup(String::from("fig")));
    t.delete(String::from("fig"));
    assert_eq!(t.to_string(), "apple pear ");
}
