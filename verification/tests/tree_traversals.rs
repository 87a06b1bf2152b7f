use traversal::tree::{inorder, postorder, preorder, Node};

fn init_graph() -> Node<i32> {
    let mut root = Node::new(1_i32);
    let mut node_1 = Node::new(2_i32);
    let mut node_2 = Node::new(3_i32);
    let mut node_3 = Node::new(4_i32);
    let mut node_4 = Node::new(5_i32);

    node_2.set_left(Node::new(6_i32));
    node_2.set_right(Node::new(7_i32));

    node_3.set_left(Node::new(8_i32));
    node_3.set_right(Node::new(9_i32));

    node_4.set_left(Node::new(10_i32));
    node_4.set_right(Node::new(11_i32));

    node_1.set_left(node_3);
    node_1.set_right(node_4);

    root.set_left(node_1);
    root.set_right(node_2);

    root
}

/// A chain that only ever goes left: 1 <- 2 <- 3 (3 is the deepest).
fn left_chain() -> Node<i32> {
    let mut top = Node::new(1);
    let mut mid = Node::new(2);
    mid.set_left(Node::new(3));
    top.set_left(mid);
    top
}

#[test]
fn test_inorder() {
    let node = init_graph();
    if let Ok(res) = inorder(Some(node)) {
        assert_eq!(vec![8, 4, 9, 2, 10, 5, 11, 1, 6, 3, 7], res);
    };
}

#[test]
fn test_preorder() {
    let node = init_graph();
    if let Ok(res) = preorder(Some(node)) {
        assert_eq!(vec![1, 2, 4, 8, 9, 5, 10, 11, 3, 6, 7], res);
    };
}

#[test]
fn test_postorder() {
    let node = init_graph();
    if let Ok(res) = postorder(Some(node)) {
        assert_eq!(vec![8, 9, 4, 10, 11, 5, 2, 6, 7, 3, 1], res);
    };
}

#[test]
fn fixture_traversals_succeed_with_exact_orders() {
    assert_eq!(
        inorder(Some(init_graph())),
        Ok(vec![8, 4, 9, 2, 10, 5, 11, 1, 6, 3, 7])
    );
    assert_eq!(
        preorder(Some(init_graph())),
        Ok(vec![1, 2, 4, 8, 9, 5, 10, 11, 3, 6, 7])
    );
    assert_eq!(
        postorder(Some(init_graph())),
        Ok(vec![8, 9, 4, 10, 11, 5, 2, 6, 7, 3, 1])
    );
}

#[test]
fn absent_tree_is_an_error_not_an_empty_success() {
    assert_eq!(inorder::<i32>(None), Err(()));
    assert_eq!(preorder::<i32>(None), Err(()));
    assert_eq!(postorder::<i32>(None), Err(()));
}

#[test]
fn single_leaf_yields_its_payload() {
    assert_eq!(inorder(Some(Node::new(42))), Ok(vec![42]));
    assert_eq!(preorder(Some(Node::new(42))), Ok(vec![42]));
    assert_eq!(postorder(Some(Node::new(42))), Ok(vec![42]));
}

#[test]
fn new_node_has_no_children() {
    let node = Node::new(7_u8);
    assert_eq!(node.data, 7);
    assert!(node.left.is_none());
    assert!(node.right.is_none());
}

#[test]
fn set_left_and_set_right_attach_on_their_own_side() {
    let mut only_left = Node::new(1);
    only_left.set_left(Node::new(2));
    assert!(only_left.right.is_none());
    assert_eq!(inorder(Some(only_left)), Ok(vec![2, 1]));

    let mut only_right = Node::new(1);
    only_right.set_right(Node::new(2));
    assert!(only_right.left.is_none());
    assert_eq!(inorder(Some(only_right)), Ok(vec![1, 2]));
}

#[test]
fn attaching_again_replaces_the_subtree() {
    let mut root = Node::new(1);
    root.set_left(Node::new(2));
    root.set_left(Node::new(3));
    assert_eq!(preorder(Some(root)), Ok(vec![1, 3]));
}

#[test]
fn left_chain_orders() {
    assert_eq!(inorder(Some(left_chain())), Ok(vec![3, 2, 1]));
    assert_eq!(preorder(Some(left_chain())), Ok(vec![1, 2, 3]));
    assert_eq!(postorder(Some(left_chain())), Ok(vec![3, 2, 1]));
}

#[test]
fn traversals_have_one_entry_per_node() {
    assert_eq!(inorder(Some(init_graph())).unwrap().len(), 11);
    assert_eq!(preorder(Some(init_graph())).unwrap().len(), 11);
    assert_eq!(postorder(Some(init_graph())).unwrap().len(), 11);
    assert_eq!(inorder(Some(left_chain())).unwrap().len(), 3);
}

#[test]
fn traversals_are_permutations_of_each_other() {
    let mut a = inorder(Some(init_graph())).unwrap();
    let mut b = preorder(Some(init_graph())).unwrap();
    let mut c = postorder(Some(init_graph())).unwrap();
    a.sort();
    b.sort();
    c.sort();
    assert_eq!(a, vec![1, 2, 3, 4, 5, 6, 7, 8, 9, 10, 11]);
    assert_eq!(a, b);
    assert_eq!(a, c);
}

#[test]
fn repeated_payloads_are_all_kept() {
    let mut root = Node::new(5);
    root.set_left(Node::new(5));
    root.set_right(Node::new(5));
    assert_eq!(inorder(Some(root)), Ok(vec![5, 5, 5]));
}

#[test]
fn payloads_need_not_be_numbers() {
    let mut root = Node::new(String::from("root"));
    root.set_left(Node::new(String::from("l")));
    root.set_right(Node::new(String::from("r")));
    let got = postorder(Some(root)).unwrap();
    assert_eq!(got, vec!["l".to_string(), "r".to_string(), "root".to_string()]);
}
