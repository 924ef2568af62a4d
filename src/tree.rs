use vstd::prelude::*;

verus! {

/// One node of a binary tree: a value and two optional children.
#[derive(Debug)]
pub struct Node<T> {
    pub data: T,
    pub left: Option<Box<Node<T>>>,
    pub right: Option<Box<Node<T>>>,
}

/// A subtree: `None` is the empty tree.
pub type Link<T> = Option<Box<Node<T>>>;

/// The values of a tree in preorder: root, left subtree, right subtree.
pub open spec fn preorder<T>(t: Link<T>) -> Seq<T>
    decreases t,
{
    match t {
        None => Seq::empty(),
        Some(n) => seq![n.data] + preorder(n.left) + preorder(n.right),
    }
}

/// The values of a tree in inorder: left subtree, root, right subtree.
pub open spec fn inorder<T>(t: Link<T>) -> Seq<T>
    decreases t,
{
    match t {
        None => Seq::empty(),
        Some(n) => inorder(n.left) + seq![n.data] + inorder(n.right),
    }
}

/// The values of a tree in postorder: left subtree, right subtree, root.
pub open spec fn postorder<T>(t: Link<T>) -> Seq<T>
    decreases t,
{
    match t {
        None => Seq::empty(),
        Some(n) => postorder(n.left) + postorder(n.right) + seq![n.data],
    }
}

/// The number of levels of a tree.
pub open spec fn height<T>(t: Link<T>) -> nat
    decreases t,
{
    match t {
        None => 0,
        Some(n) => 1 + if height(n.left) >= height(n.right) {
            height(n.left)
        } else {
            height(n.right)
        },
    }
}

/// The values at depth `d`, left to right.
pub open spec fn level<T>(t: Link<T>, d: nat) -> Seq<T>
    decreases t,
{
    match t {
        None => Seq::empty(),
        Some(n) => if d == 0 {
            seq![n.data]
        } else {
            level(n.left, (d - 1) as nat) + level(n.right, (d - 1) as nat)
        },
    }
}

/// The values of the first `k` levels, level by level.
pub open spec fn levels<T>(t: Link<T>, k: nat) -> Seq<T>
    decreases k,
{
    if k == 0 {
        Seq::empty()
    } else {
        levels(t, (k - 1) as nat) + level(t, (k - 1) as nat)
    }
}

/// The values of a tree in level order: top level first, each level left to right.
pub open spec fn levelorder<T>(t: Link<T>) -> Seq<T> {
    levels(t, height(t))
}

/// The number of nodes without children.
pub open spec fn leaf_count<T>(t: Link<T>) -> nat
    decreases t,
{
    match t {
        None => 0,
        Some(n) => if n.left is None && n.right is None {
            1
        } else {
            leaf_count(n.left) + leaf_count(n.right)
        },
    }
}

/// The tree with the two children of every node exchanged.
pub open spec fn mirror<T>(t: Link<T>) -> Link<T>
    decreases t,
{
    match t {
        None => None,
        Some(n) => Some(Box::new(Node { data: n.data, left: mirror(n.right), right: mirror(n.left) })),
    }
}

/// A node with no children.
pub open spec fn leaf<T>(data: T) -> Link<T> {
    Some(Box::new(Node { data, left: None, right: None }))
}

impl<T> Node<T> {
    pub fn new(data: T) -> (r: Node<T>)
        ensures
            r.data == data,
            r.left is None,
            r.right is None,
    {
        Node { data, left: None, right: None }
    }
}

/// A binary tree that owns its nodes.
#[derive(Debug)]
pub struct BinaryTree<T> {
    root: Link<T>,
}

impl<T> BinaryTree<T> {
    /// The tree's nodes, from its root.
    pub closed spec fn tree(self) -> Link<T> {
        self.root
    }

    pub fn new() -> (r: BinaryTree<T>)
        ensures
            r.tree() is None,
    {
        BinaryTree { root: None }
    }

    pub fn is_empty(&self) -> (r: bool)
        ensures
            r == (self.tree() is None),
    {
        self.root.is_none()
    }

    /// A tree whose root holds `item`, with the two given trees as its subtrees.
    pub fn from_subtrees(left: BinaryTree<T>, item: T, right: BinaryTree<T>) -> (r: BinaryTree<T>)
        ensures
            r.tree() == Some(Box::new(Node { data: item, left: left.tree(), right: right.tree() })),
    {
        let node = Node { data: item, left: left.root, right: right.root };
        BinaryTree { root: Some(Box::new(node)) }
    }

    /// The root's value, if the tree is not empty.
    pub fn root_data(&self) -> (r: Option<&T>)
        ensures
            r is None <==> self.tree() is None,
            r is Some ==> *r.unwrap() == self.tree().unwrap().data,
    {
        match &self.root {
            Some(node) => Some(&node.data),
            None => None,
        }
    }

    /// Replaces the whole tree with a single node holding `data`.
    pub fn insert_root(&mut self, data: T)
        ensures
            final(self).tree() == leaf(data),
    {
        self.root = Some(Box::new(Node::new(data)));
    }

    /// Gives the root a new left child holding `data`; an empty tree is left as it is.
    pub fn set_left(&mut self, data: T)
        ensures
            old(self).tree() is None ==> final(self).tree() is None,
            old(self).tree() is Some ==> final(self).tree() == Some(Box::new(Node {
                data: old(self).tree().unwrap().data,
                left: leaf(data),
                right: old(self).tree().unwrap().right,
            })),
    {
        let t = self.root.take();
        match t {
            Some(node) => {
                let n = *node;
                self.root = Some(Box::new(Node { data: n.data, left: Some(Box::new(Node::new(data))), right: n.right }));
            },
            None => {},
        }
    }

    /// Gives the root a new right child holding `data`; an empty tree is left as it is.
    pub fn set_right(&mut self, data: T)
        ensures
            old(self).tree() is None ==> final(self).tree() is None,
            old(self).tree() is Some ==> final(self).tree() == Some(Box::new(Node {
                data: old(self).tree().unwrap().data,
                left: old(self).tree().unwrap().left,
                right: leaf(data),
            })),
    {
        let t = self.root.take();
        match t {
            Some(node) => {
                let n = *node;
                self.root = Some(Box::new(Node { data: n.data, left: n.left, right: Some(Box::new(Node::new(data))) }));
            },
            None => {},
        }
    }

    /// Makes `tree` the root's left subtree; an empty tree is left as it is.
    pub fn set_left_tree(&mut self, tree: BinaryTree<T>)
        ensures
            old(self).tree() is None ==> final(self).tree() is None,
            old(self).tree() is Some ==> final(self).tree() == Some(Box::new(Node {
                data: old(self).tree().unwrap().data,
                left: tree.tree(),
                right: old(self).tree().unwrap().right,
            })),
    {
        let t = self.root.take();
        match t {
            Some(node) => {
                let n = *node;
                self.root = Some(Box::new(Node { data: n.data, left: tree.root, right: n.right }));
            },
            None => {},
        }
    }

    /// Makes `tree` the root's right subtree; an empty tree is left as it is.
    pub fn set_right_tree(&mut self, tree: BinaryTree<T>)
        ensures
            old(self).tree() is None ==> final(self).tree() is None,
            old(self).tree() is Some ==> final(self).tree() == Some(Box::new(Node {
                data: old(self).tree().unwrap().data,
                left: old(self).tree().unwrap().left,
                right: tree.tree(),
            })),
    {
        let t = self.root.take();
        match t {
            Some(node) => {
                let n = *node;
                self.root = Some(Box::new(Node { data: n.data, left: n.left, right: tree.root }));
            },
            None => {},
        }
    }

    /// The number of leaves, that is of nodes without children.
    pub fn count_leaf_nodes(&self) -> (r: usize)
        requires
            leaf_count(self.tree()) <= usize::MAX,
        ensures
            r == leaf_count(self.tree()),
    {
        Self::count_leaf_recursive(&self.root)
    }

    fn count_leaf_recursive(node_opt: &Link<T>) -> (r: usize)
        requires
            leaf_count(*node_opt) <= usize::MAX,
        ensures
            r == leaf_count(*node_opt),
        decreases *node_opt,
    {
        match node_opt {
            None => 0,
            Some(node) => {
                if node.left.is_none() && node.right.is_none() {
                    return 1;
                }
                Self::count_leaf_recursive(&node.left) + Self::count_leaf_recursive(&node.right)
            },
        }
    }

    /// Exchanges the two children of every node.
    pub fn swap_tree(&mut self)
        ensures
            final(self).tree() == mirror(old(self).tree()),
    {
        let t = self.root.take();
        self.root = Self::swap_recursive(t);
    }

    fn swap_recursive(node_opt: Link<T>) -> (r: Link<T>)
        ensures
            r == mirror(node_opt),
        decreases node_opt,
    {
        match node_opt {
            None => None,
            Some(node) => {
                let n = *node;
                let left = Self::swap_recursive(n.right);
                let right = Self::swap_recursive(n.left);
                Some(Box::new(Node { data: n.data, left, right }))
            },
        }
    }
}

impl<T: Copy> BinaryTree<T> {
    fn copy_link(t: &Link<T>) -> (r: Link<T>)
        ensures
            r == *t,
        decreases *t,
    {
        match t {
            None => None,
            Some(n) => {
                let left = Self::copy_link(&n.left);
                let right = Self::copy_link(&n.right);
                Some(Box::new(Node { data: n.data, left, right }))
            },
        }
    }

    /// A copy of the root's left subtree; empty for an empty tree.
    pub fn left_subtree(&self) -> (r: BinaryTree<T>)
        ensures
            self.tree() is None ==> r.tree() is None,
            self.tree() is Some ==> r.tree() == self.tree().unwrap().left,
    {
        match &self.root {
            Some(node) => BinaryTree { root: Self::copy_link(&node.left) },
            None => BinaryTree::new(),
        }
    }

    /// A copy of the root's right subtree; empty for an empty tree.
    pub fn right_subtree(&self) -> (r: BinaryTree<T>)
        ensures
            self.tree() is None ==> r.tree() is None,
            self.tree() is Some ==> r.tree() == self.tree().unwrap().right,
    {
        match &self.root {
            Some(node) => BinaryTree { root: Self::copy_link(&node.right) },
            None => BinaryTree::new(),
        }
    }
}

/// The values that a sequence of references points to.
pub open spec fn derefs<T>(s: Seq<&T>) -> Seq<T> {
    s.map_values(|x: &T| *x)
}

proof fn lemma_derefs_push<T>(s: Seq<&T>, x: &T)
    ensures
        derefs(s.push(x)) == derefs(s) + seq![*x],
{
    assert(derefs(s.push(x)) =~= derefs(s) + seq![*x]);
}

fn collect_pre<'a, T>(t: &'a Link<T>, out: &mut Vec<&'a T>)
    ensures
        derefs(final(out)@) == derefs(old(out)@) + preorder(*t),
    decreases *t,
{
    match t {
        None => {},
        Some(n) => {
            proof { lemma_derefs_push(out@, &n.data); }
            out.push(&n.data);
            collect_pre(&n.left, out);
            collect_pre(&n.right, out);
        },
    }
}

fn collect_in<'a, T>(t: &'a Link<T>, out: &mut Vec<&'a T>)
    ensures
        derefs(final(out)@) == derefs(old(out)@) + inorder(*t),
    decreases *t,
{
    match t {
        None => {},
        Some(n) => {
            collect_in(&n.left, out);
            proof { lemma_derefs_push(out@, &n.data); }
            out.push(&n.data);
            collect_in(&n.right, out);
        },
    }
}

fn collect_post<'a, T>(t: &'a Link<T>, out: &mut Vec<&'a T>)
    ensures
        derefs(final(out)@) == derefs(old(out)@) + postorder(*t),
    decreases *t,
{
    match t {
        None => {},
        Some(n) => {
            collect_post(&n.left, out);
            collect_post(&n.right, out);
            proof { lemma_derefs_push(out@, &n.data); }
            out.push(&n.data);
        },
    }
}

fn collect_level<'a, T>(t: &'a Link<T>, d: usize, out: &mut Vec<&'a T>)
    ensures
        derefs(final(out)@) == derefs(old(out)@) + level(*t, d as nat),
    decreases *t,
{
    match t {
        None => {},
        Some(n) => {
            if d == 0 {
                proof { lemma_derefs_push(out@, &n.data); }
            out.push(&n.data);
            } else {
                collect_level(&n.left, d - 1, out);
                collect_level(&n.right, d - 1, out);
            }
        },
    }
}

fn link_height<T>(t: &Link<T>) -> (r: usize)
    requires
        height(*t) <= usize::MAX,
    ensures
        r == height(*t),
    decreases *t,
{
    match t {
        None => 0,
        Some(n) => {
            let l = link_height(&n.left);
            let r = link_height(&n.right);
            if l >= r {
                l + 1
            } else {
                r + 1
            }
        },
    }
}

/// Hands out, one at a time, the values of a tree in preorder.
pub struct PreOrderIter<'a, T> {
    items: Vec<&'a T>,
    pos: usize,
}

/// Hands out, one at a time, the values of a tree in inorder.
pub struct InOrderIter<'a, T> {
    items: Vec<&'a T>,
    pos: usize,
}

/// Hands out, one at a time, the values of a tree in postorder.
pub struct PostOrderIter<'a, T> {
    items: Vec<&'a T>,
    pos: usize,
}

/// Hands out, one at a time, the values of a tree in level order.
pub struct LevelOrderIter<'a, T> {
    items: Vec<&'a T>,
    pos: usize,
}

impl<'a, T> PreOrderIter<'a, T> {
    /// The values not handed out yet, in order.
    pub closed spec fn rest(self) -> Seq<T> {
        derefs(self.items@.subrange(self.pos as int, self.items@.len() as int))
    }

    pub closed spec fn wf(self) -> bool {
        self.pos <= self.items@.len()
    }

    fn new(root: &'a Link<T>) -> (r: Self)
        ensures
            r.wf(),
            r.rest() == preorder(*root),
    {
        let mut items: Vec<&'a T> = Vec::new();
        collect_pre(root, &mut items);
        assert(derefs(items@) =~= Seq::<T>::empty() + preorder(*root));
        assert(items@.subrange(0, items@.len() as int) == items@);
        PreOrderIter { items, pos: 0 }
    }

    /// The next value, or `None` once all have been handed out.
    pub fn next(&mut self) -> (r: Option<&'a T>)
        requires
            old(self).wf(),
        ensures
            final(self).wf(),
            old(self).rest().len() == 0 ==> r is None && final(self).rest() == old(self).rest(),
            old(self).rest().len() > 0 ==> r == Some(&old(self).rest()[0]) && final(self).rest()
                == old(self).rest().drop_first(),
    {
        if self.pos < self.items.len() {
            proof {
                assert(derefs(self.items@.subrange(self.pos as int + 1, self.items@.len() as int))
                    =~= derefs(self.items@.subrange(self.pos as int, self.items@.len() as int)).drop_first());
            }
            let v = self.items[self.pos];
            self.pos = self.pos + 1;
            Some(v)
        } else {
            None
        }
    }
}

impl<'a, T> InOrderIter<'a, T> {
    /// The values not handed out yet, in order.
    pub closed spec fn rest(self) -> Seq<T> {
        derefs(self.items@.subrange(self.pos as int, self.items@.len() as int))
    }

    pub closed spec fn wf(self) -> bool {
        self.pos <= self.items@.len()
    }

    fn new(root: &'a Link<T>) -> (r: Self)
        ensures
            r.wf(),
            r.rest() == inorder(*root),
    {
        let mut items: Vec<&'a T> = Vec::new();
        collect_in(root, &mut items);
        assert(derefs(items@) =~= Seq::<T>::empty() + inorder(*root));
        assert(items@.subrange(0, items@.len() as int) == items@);
        InOrderIter { items, pos: 0 }
    }

    /// The next value, or `None` once all have been handed out.
    pub fn next(&mut self) -> (r: Option<&'a T>)
        requires
            old(self).wf(),
        ensures
            final(self).wf(),
            old(self).rest().len() == 0 ==> r is None && final(self).rest() == old(self).rest(),
            old(self).rest().len() > 0 ==> r == Some(&old(self).rest()[0]) && final(self).rest()
                == old(self).rest().drop_first(),
    {
        if self.pos < self.items.len() {
            proof {
                assert(derefs(self.items@.subrange(self.pos as int + 1, self.items@.len() as int))
                    =~= derefs(self.items@.subrange(self.pos as int, self.items@.len() as int)).drop_first());
            }
            let v = self.items[self.pos];
            self.pos = self.pos + 1;
            Some(v)
        } else {
            None
        }
    }
}

impl<'a, T> PostOrderIter<'a, T> {
    /// The values not handed out yet, in order.
    pub closed spec fn rest(self) -> Seq<T> {
        derefs(self.items@.subrange(self.pos as int, self.items@.len() as int))
    }

    pub closed spec fn wf(self) -> bool {
        self.pos <= self.items@.len()
    }

    fn new(root: &'a Link<T>) -> (r: Self)
        ensures
            r.wf(),
            r.rest() == postorder(*root),
    {
        let mut items: Vec<&'a T> = Vec::new();
        collect_post(root, &mut items);
        assert(derefs(items@) =~= Seq::<T>::empty() + postorder(*root));
        assert(items@.subrange(0, items@.len() as int) == items@);
        PostOrderIter { items, pos: 0 }
    }

    /// The next value, or `None` once all have been handed out.
    pub fn next(&mut self) -> (r: Option<&'a T>)
        requires
            old(self).wf(),
        ensures
            final(self).wf(),
            old(self).rest().len() == 0 ==> r is None && final(self).rest() == old(self).rest(),
            old(self).rest().len() > 0 ==> r == Some(&old(self).rest()[0]) && final(self).rest()
                == old(self).rest().drop_first(),
    {
        if self.pos < self.items.len() {
            proof {
                assert(derefs(self.items@.subrange(self.pos as int + 1, self.items@.len() as int))
                    =~= derefs(self.items@.subrange(self.pos as int, self.items@.len() as int)).drop_first());
            }
            let v = self.items[self.pos];
            self.pos = self.pos + 1;
            Some(v)
        } else {
            None
        }
    }
}

impl<'a, T> LevelOrderIter<'a, T> {
    /// The values not handed out yet, in order.
    pub closed spec fn rest(self) -> Seq<T> {
        derefs(self.items@.subrange(self.pos as int, self.items@.len() as int))
    }

    pub closed spec fn wf(self) -> bool {
        self.pos <= self.items@.len()
    }

    fn new(root: &'a Link<T>) -> (r: Self)
        requires
            height(*root) <= usize::MAX,
        ensures
            r.wf(),
            r.rest() == levelorder(*root),
    {
        let mut items: Vec<&'a T> = Vec::new();
        let h = link_height(root);
        let mut d: usize = 0;
        assert(derefs(items@) =~= levels(*root, 0));
        while d < h
            invariant
                d <= h,
                h == height(*root),
                derefs(items@) == levels(*root, d as nat),
            decreases h - d,
        {
            collect_level(root, d, &mut items);
            d = d + 1;
        }
        assert(items@.subrange(0, items@.len() as int) == items@);
        LevelOrderIter { items, pos: 0 }
    }

    /// The next value, or `None` once all have been handed out.
    pub fn next(&mut self) -> (r: Option<&'a T>)
        requires
            old(self).wf(),
        ensures
            final(self).wf(),
            old(self).rest().len() == 0 ==> r is None && final(self).rest() == old(self).rest(),
            old(self).rest().len() > 0 ==> r == Some(&old(self).rest()[0]) && final(self).rest()
                == old(self).rest().drop_first(),
    {
        if self.pos < self.items.len() {
            proof {
                assert(derefs(self.items@.subrange(self.pos as int + 1, self.items@.len() as int))
                    =~= derefs(self.items@.subrange(self.pos as int, self.items@.len() as int)).drop_first());
            }
            let v = self.items[self.pos];
            self.pos = self.pos + 1;
            Some(v)
        } else {
            None
        }
    }
}

impl<T> BinaryTree<T> {
    /// The values in preorder.
    pub fn iter_preorder(&self) -> (r: PreOrderIter<'_, T>)
        ensures
            r.wf(),
            r.rest() == preorder(self.tree()),
    {
        PreOrderIter::new(&self.root)
    }

    /// The values in inorder.
    pub fn iter_inorder(&self) -> (r: InOrderIter<'_, T>)
        ensures
            r.wf(),
            r.rest() == inorder(self.tree()),
    {
        InOrderIter::new(&self.root)
    }

    /// The values in postorder.
    pub fn iter_postorder(&self) -> (r: PostOrderIter<'_, T>)
        ensures
            r.wf(),
            r.rest() == postorder(self.tree()),
    {
        PostOrderIter::new(&self.root)
    }

    /// The values in level order.
    pub fn iter_levelorder(&self) -> (r: LevelOrderIter<'_, T>)
        requires
            height(self.tree()) <= usize::MAX,
        ensures
            r.wf(),
            r.rest() == levelorder(self.tree()),
    {
        LevelOrderIter::new(&self.root)
    }
}

} // verus!
