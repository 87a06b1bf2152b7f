//! A binary tree with owned children and its inorder, preorder and
//! postorder traversals.

use vstd::prelude::*;
use vstd::seq_lib::*;

verus! {

/// One node of a binary tree: a payload and up to two owned subtrees.
pub struct Node<T: core::fmt::Debug> {
    pub data: T,
    pub left: Box<Option<Node<T>>>,
    pub right: Box<Option<Node<T>>>,
}

/// The number of nodes of a possibly absent tree.
pub open spec fn size<T: core::fmt::Debug>(tree: Option<Node<T>>) -> nat
    decreases tree,
{
    match tree {
        None => 0,
        Some(n) => size(*n.left) + 1 + size(*n.right),
    }
}

/// The payloads of a possibly absent tree, left subtree first, then the
/// root, then the right subtree.
pub open spec fn inorder_seq<T: core::fmt::Debug>(tree: Option<Node<T>>) -> Seq<T>
    decreases tree,
{
    match tree {
        None => Seq::empty(),
        Some(n) => inorder_seq(*n.left) + seq![n.data] + inorder_seq(*n.right),
    }
}

/// The payloads of a possibly absent tree, the root first, then the left
/// subtree, then the right subtree.
pub open spec fn preorder_seq<T: core::fmt::Debug>(tree: Option<Node<T>>) -> Seq<T>
    decreases tree,
{
    match tree {
        None => Seq::empty(),
        Some(n) => seq![n.data] + preorder_seq(*n.left) + preorder_seq(*n.right),
    }
}

/// The payloads of a possibly absent tree, left subtree first, then the
/// right subtree, then the root.
pub open spec fn postorder_seq<T: core::fmt::Debug>(tree: Option<Node<T>>) -> Seq<T>
    decreases tree,
{
    match tree {
        None => Seq::empty(),
        Some(n) => postorder_seq(*n.left) + postorder_seq(*n.right) + seq![n.data],
    }
}

impl<T: core::fmt::Debug> Node<T> {
    /// A leaf holding `data`.
    pub fn new(data: T) -> (node: Self)
        ensures
            node.data == data,
            *node.left is None,
            *node.right is None,
    {
        Self { data, left: Box::new(None), right: Box::new(None) }
    }

    /// Attaches `node` as the left subtree, replacing what was there.
    pub fn set_left(&mut self, node: Node<T>)
        ensures
            *final(self).left == Some(node),
            final(self).data == old(self).data,
            final(self).right == old(self).right,
    {
        self.left = Box::new(Some(node))
    }

    /// Attaches `node` as the right subtree, replacing what was there.
    pub fn set_right(&mut self, node: Node<T>)
        ensures
            *final(self).right == Some(node),
            final(self).data == old(self).data,
            final(self).left == old(self).left,
    {
        self.right = Box::new(Some(node))
    }
}

/// Each traversal order lists every node exactly once: its length is the
/// number of nodes of the tree.
pub proof fn lemma_traversal_lengths<T: core::fmt::Debug>(tree: Option<Node<T>>)
    ensures
        inorder_seq(tree).len() == size(tree),
        preorder_seq(tree).len() == size(tree),
        postorder_seq(tree).len() == size(tree),
    decreases tree,
{
    if let Some(n) = tree {
        lemma_traversal_lengths(*n.left);
        lemma_traversal_lengths(*n.right);
    }
}

/// The three traversal orders of one tree are rearrangements of each other:
/// they hold the same payloads, each the same number of times.
pub proof fn lemma_traversals_are_permutations<T: core::fmt::Debug>(tree: Option<Node<T>>)
    ensures
        inorder_seq(tree).to_multiset() == preorder_seq(tree).to_multiset(),
        inorder_seq(tree).to_multiset() == postorder_seq(tree).to_multiset(),
        preorder_seq(tree).to_multiset() == postorder_seq(tree).to_multiset(),
    decreases tree,
{
    if let Some(n) = tree {
        lemma_traversals_are_permutations(*n.left);
        lemma_traversals_are_permutations(*n.right);
        let root = seq![n.data];
        lemma_multiset_commutative(inorder_seq(*n.left), root);
        lemma_multiset_commutative(inorder_seq(*n.left) + root, inorder_seq(*n.right));
        lemma_multiset_commutative(root, preorder_seq(*n.left));
        lemma_multiset_commutative(root + preorder_seq(*n.left), preorder_seq(*n.right));
        lemma_multiset_commutative(postorder_seq(*n.left), postorder_seq(*n.right));
        lemma_multiset_commutative(postorder_seq(*n.left) + postorder_seq(*n.right), root);
    }
}

/// Inorder traversal: the left subtree, the root, the right subtree.
///
/// An absent tree yields `Err(())`, never an empty success; a present one
/// always yields `Ok` with one payload per node.
pub fn inorder<T: core::fmt::Debug>(node: Option<Node<T>>) -> (res: Result<Vec<T>, ()>)
    ensures
        node is None <==> res is Err,
        res matches Ok(v) ==> v@ == inorder_seq(node) && v@.len() == size(node),
    decreases node,
{
    let mut res: Vec<T> = Vec::new();
    match node {
        Some(value) => {
            match inorder(*value.left) {
                Ok(mut v) => res.append(&mut v),
                Err(_) => {},
            }
            res.push(value.data);
            match inorder(*value.right) {
                Ok(mut v) => res.append(&mut v),
                Err(_) => {},
            }
            proof {
                reveal_with_fuel(inorder_seq, 2);
                lemma_traversal_lengths(node);
            }
            return Ok(res);
        },
        None => return Err(()),
    }
}

/// Preorder traversal: the root, the left subtree, the right subtree.
///
/// An absent tree yields `Err(())`, never an empty success; a present one
/// always yields `Ok` with one payload per node.
pub fn preorder<T: core::fmt::Debug>(node: Option<Node<T>>) -> (res: Result<Vec<T>, ()>)
    ensures
        node is None <==> res is Err,
        res matches Ok(v) ==> v@ == preorder_seq(node) && v@.len() == size(node),
    decreases node,
{
    let mut res: Vec<T> = Vec::new();
    match node {
        Some(value) => {
            res.push(value.data);
            match preorder(*value.left) {
                Ok(mut v) => res.append(&mut v),
                Err(_) => {},
            }
            match preorder(*value.right) {
                Ok(mut v) => res.append(&mut v),
                Err(_) => {},
            }
            proof {
                reveal_with_fuel(preorder_seq, 2);
                lemma_traversal_lengths(node);
            }
            return Ok(res);
        },
        None => return Err(()),
    }
}

/// Postorder traversal: the left subtree, the right subtree, the root.
///
/// An absent tree yields `Err(())`, never an empty success; a present one
/// always yields `Ok` with one payload per node.
pub fn postorder<T: core::fmt::Debug>(node: Option<Node<T>>) -> (res: Result<Vec<T>, ()>)
    ensures
        node is None <==> res is Err,
        res matches Ok(v) ==> v@ == postorder_seq(node) && v@.len() == size(node),
    decreases node,
{
    let mut res: Vec<T> = Vec::new();
    match node {
        Some(value) => {
            match postorder(*value.left) {
                Ok(mut v) => res.append(&mut v),
                Err(_) => {},
            }
            match postorder(*value.right) {
                Ok(mut v) => res.append(&mut v),
                Err(_) => {},
            }
            res.push(value.data);
            proof {
                reveal_with_fuel(postorder_seq, 2);
                lemma_traversal_lengths(node);
            }
            return Ok(res);
        },
        None => return Err(()),
    }
}

} // verus!
