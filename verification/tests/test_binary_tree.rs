use algorst::binary_tree::{Node, Tree};

fn double(x: i32) -> i32 {
    2 * x
}

#[test]
fn test_binary_tree_new_works() {
    let _empty: Tree<u32> = Tree::new();
}

#[test]
fn peek_works() {
    let elem = 42;

    let mut t: Tree<u32> = Tree::new();
    assert_eq!(t.is_nil(), true);

    t.give(elem);
    assert_eq!(t.is_nil(), false);

    assert_eq!(t.peek(), elem);
    assert_eq!(t.is_nil(), false)
}

#[test]
fn apply_to_nil_works() {
    let mut empty: Tree<i32> = Tree::new();

    empty.apply(double);
    assert_eq!(empty.is_nil(), true);
}

#[test]
fn apply_to_root_works() {
    let elem = 42;
    let mut t: Tree<i32> = Tree::new();

    t.give(elem);
    t.apply(double);

    assert_eq!(t.peek(), double(elem))
}

#[test]
fn give_replaces_the_root_element() {
    let mut t: Tree<u32> = Tree::new();
    t.give(1);
    t.give(2);
    assert_eq!(t.peek(), 2);
    assert_eq!(t.is_nil(), false);
}

#[test]
fn apply_takes_a_closure() {
    let offset = 5;
    let mut t: Tree<i32> = Tree::new();
    t.give(10);
    t.apply(|x| x + offset);
    t.apply(|x| x * 3);
    assert_eq!(t.peek(), 45);
}

#[test]
fn node_wraps_into_a_tree() {
    let t: Tree<u8> = Tree::Node(Node::new(9));
    assert_eq!(t.is_nil(), false);
    assert_eq!(t.peek(), 9);
}
