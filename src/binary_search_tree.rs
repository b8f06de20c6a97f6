use std::collections::VecDeque;
use vstd::prelude::*;

verus! {

/// A tree node. Fields are public so that callers can inspect the shape.
pub struct Node {
    pub elem: i32,
    pub left: Option<Box<Node>>,
    pub right: Option<Box<Node>>,
}

/// An unbalanced binary search tree of distinct values.
pub struct Tree {
    pub root: Option<Box<Node>>,
}

/// The tree that inserting `x` into `t` yields: `x` goes down the search
/// path and becomes a new leaf, unless it is already present.
pub open spec fn inserted(t: Option<Box<Node>>, x: i32) -> Option<Box<Node>>
    decreases t,
{
    match t {
        None => Some(Box::new(Node { elem: x, left: None, right: None })),
        Some(n) => if x < n.elem {
            Some(Box::new(Node { elem: n.elem, left: inserted(n.left, x), right: n.right }))
        } else if x > n.elem {
            Some(Box::new(Node { elem: n.elem, left: n.left, right: inserted(n.right, x) }))
        } else {
            Some(n)
        },
    }
}

/// The values held in `t`.
pub open spec fn elems(t: Option<Box<Node>>) -> Set<i32>
    decreases t,
{
    match t {
        None => Set::empty(),
        Some(n) => elems(n.left).union(elems(n.right)).insert(n.elem),
    }
}

/// Every value left of a node is smaller than it, every value right of it larger.
pub open spec fn is_bst(t: Option<Box<Node>>) -> bool
    decreases t,
{
    match t {
        None => true,
        Some(n) => {
            &&& is_bst(n.left)
            &&& is_bst(n.right)
            &&& forall|v: i32| elems(n.left).contains(v) ==> v < n.elem
            &&& forall|v: i32| elems(n.right).contains(v) ==> v > n.elem
        },
    }
}

/// Node, then left subtree, then right subtree.
pub open spec fn pre_order_of(t: Option<Box<Node>>) -> Seq<i32>
    decreases t,
{
    match t {
        None => Seq::empty(),
        Some(n) => seq![n.elem] + pre_order_of(n.left) + pre_order_of(n.right),
    }
}

/// Left subtree, then right subtree, then node.
pub open spec fn post_order_of(t: Option<Box<Node>>) -> Seq<i32>
    decreases t,
{
    match t {
        None => Seq::empty(),
        Some(n) => post_order_of(n.left) + post_order_of(n.right) + seq![n.elem],
    }
}

/// Left subtree, then node, then right subtree.
pub open spec fn in_order_of(t: Option<Box<Node>>) -> Seq<i32>
    decreases t,
{
    match t {
        None => Seq::empty(),
        Some(n) => in_order_of(n.left) + seq![n.elem] + in_order_of(n.right),
    }
}

/// Edges on the longest path from the root down to a leaf; -1 for no tree.
pub open spec fn height_of(t: Option<Box<Node>>) -> int
    decreases t,
{
    match t {
        None => -1,
        Some(n) => {
            let l = height_of(n.left);
            let r = height_of(n.right);
            1 + if l >= r {
                l
            } else {
                r
            }
        },
    }
}

/// The number of nodes in `t`.
pub open spec fn size_of(t: Option<Box<Node>>) -> nat
    decreases t,
{
    match t {
        None => 0,
        Some(n) => 1 + size_of(n.left) + size_of(n.right),
    }
}

/// The number of nodes in the subtrees rooted at the nodes of `q`.
pub open spec fn forest_size(q: Seq<Node>) -> nat
    decreases q.len(),
{
    if q.len() == 0 {
        0
    } else {
        forest_size(q.drop_last()) + 1 + size_of(q.last().left) + size_of(q.last().right)
    }
}

/// The children of `n` that exist, left first.
pub open spec fn children(n: Node) -> Seq<Node> {
    (match n.left {
        Some(l) => seq![*l],
        None => Seq::empty(),
    }) + (match n.right {
        Some(r) => seq![*r],
        None => Seq::empty(),
    })
}

/// Breadth-first visit of the queue `q`: take the front node, record its
/// value and queue its children. `fuel` bounds the number of steps; it is
/// enough when it is at least `forest_size(q)`.
pub open spec fn breadth_first(q: Seq<Node>, fuel: nat) -> Seq<i32>
    decreases fuel,
{
    if fuel == 0 || q.len() == 0 {
        Seq::empty()
    } else {
        seq![q[0].elem] + breadth_first(q.drop_first() + children(q[0]), (fuel - 1) as nat)
    }
}

/// The values of `t` level by level from the root, each level left to right.
pub open spec fn level_order_of(t: Option<Box<Node>>) -> Seq<i32> {
    match t {
        None => Seq::empty(),
        Some(n) => breadth_first(seq![*n], size_of(t)),
    }
}

proof fn lemma_forest_size_concat(a: Seq<Node>, b: Seq<Node>)
    ensures
        forest_size(a + b) == forest_size(a) + forest_size(b),
    decreases b.len(),
{
    if b.len() > 0 {
        lemma_forest_size_concat(a, b.drop_last());
        assert((a + b).drop_last() =~= a + b.drop_last());
    } else {
        assert(a + b =~= a);
    }
}

/// A queue of the subtree `t`, if there is one, has its size.
proof fn lemma_forest_size_single(t: Option<Box<Node>>)
    ensures
        forest_size(match t {
            Some(x) => seq![*x],
            None => Seq::empty(),
        }) == size_of(t),
{
    if let Some(x) = t {
        assert(seq![*x].drop_last() =~= Seq::<Node>::empty());
        assert(forest_size(Seq::<Node>::empty()) == 0);
    }
}

/// Replacing the front node of a queue by its children removes one node.
proof fn lemma_forest_size_step(q: Seq<Node>)
    requires
        q.len() > 0,
    ensures
        forest_size(q.drop_first() + children(q[0])) + 1 == forest_size(q),
{
    let n = q[0];
    lemma_forest_size_concat(seq![n], q.drop_first());
    assert(seq![n] + q.drop_first() =~= q);
    assert(seq![n].drop_last() =~= Seq::<Node>::empty());
    lemma_forest_size_concat(q.drop_first(), children(n));
    let l: Seq<Node> = match n.left {
        Some(x) => seq![*x],
        None => Seq::empty(),
    };
    let r: Seq<Node> = match n.right {
        Some(x) => seq![*x],
        None => Seq::empty(),
    };
    lemma_forest_size_concat(l, r);
    lemma_forest_size_single(n.left);
    lemma_forest_size_single(n.right);
    assert(forest_size(seq![n]) == 1 + size_of(n.left) + size_of(n.right)) by {
        assert(seq![n].drop_last() =~= Seq::<Node>::empty());
        assert(forest_size(Seq::<Node>::empty()) == 0);
        assert(seq![n].last() == n);
    }
}

/// Inserting into a search tree yields a search tree holding exactly the old
/// values and the new one.
pub proof fn lemma_insertion_keeps_search_order(t: Option<Box<Node>>, x: i32)
    requires
        is_bst(t),
    ensures
        is_bst(inserted(t, x)),
        elems(inserted(t, x)) == elems(t).insert(x),
    decreases t,
{
    match t {
        None => {
            assert(elems(inserted(t, x)) =~= elems(t).insert(x));
        },
        Some(n) => {
            if x < n.elem {
                lemma_insertion_keeps_search_order(n.left, x);
            } else if x > n.elem {
                lemma_insertion_keeps_search_order(n.right, x);
            }
            assert(elems(inserted(t, x)) =~= elems(t).insert(x));
        },
    }
}

/// The in-order traversal of a search tree lists its values in strictly
/// increasing order.
pub proof fn lemma_in_order_is_sorted(t: Option<Box<Node>>)
    requires
        is_bst(t),
    ensures
        forall|i: int| 0 <= i < in_order_of(t).len() ==> elems(t).contains(#[trigger] in_order_of(t)[i]),
        forall|i: int, j: int| 0 <= i < j < in_order_of(t).len() ==> in_order_of(t)[i] < in_order_of(t)[j],
    decreases t,
{
    if let Some(n) = t {
        lemma_in_order_is_sorted(n.left);
        lemma_in_order_is_sorted(n.right);
        let l = in_order_of(n.left);
        let r = in_order_of(n.right);
        let s = in_order_of(t);
        assert(s =~= l + seq![n.elem] + r);
        assert forall|i: int| 0 <= i < s.len() implies elems(t).contains(#[trigger] s[i]) by {
            if i < l.len() {
                assert(s[i] == l[i]);
            } else if i > l.len() {
                assert(s[i] == r[i - l.len() - 1]);
            }
        }
        assert forall|i: int, j: int| 0 <= i < j < s.len() implies s[i] < s[j] by {
            if i < l.len() {
                assert(elems(n.left).contains(l[i]));
            } else if i > l.len() {
                assert(s[i] == r[i - l.len() - 1]);
            }
            if j < l.len() {
                assert(s[j] == l[j]);
            } else if j > l.len() {
                assert(s[j] == r[j - l.len() - 1]);
                assert(elems(n.right).contains(r[j - l.len() - 1]));
            }
        }
    }
}

impl Node {
    pub fn new(elem: i32) -> (r: Node)
        ensures
            r.elem == elem,
            r.left is None,
            r.right is None,
    {
        Node { elem, left: None, right: None }
    }
}

impl Tree {
    pub fn new() -> (r: Tree)
        ensures
            r.root is None,
    {
        Tree { root: None }
    }

    /// Adds `elem` as a new leaf on its search path; a value already present
    /// leaves the tree as it was.
    pub fn insertion(&mut self, elem: i32)
        ensures
            final(self).root == inserted(old(self).root, elem),
    {
        let root = self.root.take();
        self.root = Self::insert(root, elem);
    }

    fn insert(link: Option<Box<Node>>, elem: i32) -> (r: Option<Box<Node>>)
        ensures
            r == inserted(link, elem),
        decreases link,
    {
        match link {
            None => Some(Box::new(Node::new(elem))),
            Some(node) => {
                let Node { elem: e, left, right } = *node;
                if elem < e {
                    Some(Box::new(Node { elem: e, left: Self::insert(left, elem), right }))
                } else if elem > e {
                    Some(Box::new(Node { elem: e, left, right: Self::insert(right, elem) }))
                } else {
                    Some(Box::new(Node { elem: e, left, right }))
                }
            },
        }
    }

    pub fn pre_order_traversal(&mut self) -> (r: Vec<i32>)
        ensures
            r@ == pre_order_of(old(self).root),
            *final(self) == *old(self),
    {
        let mut result = Vec::new();
        Self::pre_order(&self.root, &mut result);
        assert(result@ =~= pre_order_of(self.root));
        result
    }

    fn pre_order(node: &Option<Box<Node>>, result: &mut Vec<i32>)
        ensures
            final(result)@ == old(result)@ + pre_order_of(*node),
        decreases node,
    {
        if let Some(n) = node {
            result.push(n.elem);
            Self::pre_order(&n.left, result);
            Self::pre_order(&n.right, result);
            assert(final(result)@ =~= old(result)@ + pre_order_of(*node));
        } else {
            assert(final(result)@ =~= old(result)@ + pre_order_of(*node));
        }
    }

    pub fn post_order_traversal(&mut self) -> (r: Vec<i32>)
        ensures
            r@ == post_order_of(old(self).root),
            *final(self) == *old(self),
    {
        let mut result = Vec::new();
        Self::post_order(&self.root, &mut result);
        assert(result@ =~= post_order_of(self.root));
        result
    }

    fn post_order(node: &Option<Box<Node>>, result: &mut Vec<i32>)
        ensures
            final(result)@ == old(result)@ + post_order_of(*node),
        decreases node,
    {
        if let Some(n) = node {
            Self::post_order(&n.left, result);
            Self::post_order(&n.right, result);
            result.push(n.elem);
            assert(final(result)@ =~= old(result)@ + post_order_of(*node));
        } else {
            assert(final(result)@ =~= old(result)@ + post_order_of(*node));
        }
    }

    pub fn in_order_traversal(&mut self) -> (r: Vec<i32>)
        ensures
            r@ == in_order_of(old(self).root),
            *final(self) == *old(self),
    {
        let mut result = Vec::new();
        Self::in_order(&self.root, &mut result);
        assert(result@ =~= in_order_of(self.root));
        result
    }

    fn in_order(node: &Option<Box<Node>>, result: &mut Vec<i32>)
        ensures
            final(result)@ == old(result)@ + in_order_of(*node),
        decreases node,
    {
        if let Some(n) = node {
            Self::in_order(&n.left, result);
            result.push(n.elem);
            Self::in_order(&n.right, result);
            assert(final(result)@ =~= old(result)@ + in_order_of(*node));
        } else {
            assert(final(result)@ =~= old(result)@ + in_order_of(*node));
        }
    }

    pub fn level_order_traversal(&self) -> (r: Vec<i32>)
        ensures
            r@ == level_order_of(self.root),
    {
        let mut result = Vec::new();
        let mut queue: VecDeque<&Node> = VecDeque::new();
        if let Some(root) = &self.root {
            queue.push_back(&**root);
            assert(queue@.map_values(|x: &Node| *x) =~= seq![**root]);
            proof {
                lemma_forest_size_single(self.root);
            }
        } else {
            assert(queue@.map_values(|x: &Node| *x) =~= Seq::<Node>::empty());
        }
        let ghost mut fuel: nat = size_of(self.root);
        loop
            invariant
                result@ + breadth_first(queue@.map_values(|x: &Node| *x), fuel) == level_order_of(self.root),
                forest_size(queue@.map_values(|x: &Node| *x)) <= fuel,
            ensures
                result@ == level_order_of(self.root),
            decreases fuel,
        {
            let ghost q = queue@.map_values(|x: &Node| *x);
            match queue.pop_front() {
                None => {
                    assert(q.len() == 0);
                    assert(result@ + breadth_first(q, fuel) =~= result@);
                    break;
                },
                Some(node) => {
                    proof {
                        lemma_forest_size_step(q);
                    }
                    let ghost n = *node;
                    let ghost before = result@;
                    result.push(node.elem);
                    if let Some(left) = &node.left {
                        queue.push_back(&**left);
                    }
                    if let Some(right) = &node.right {
                        queue.push_back(&**right);
                    }
                    proof {
                        assert(queue@.map_values(|x: &Node| *x) =~= q.drop_first() + children(n));
                        assert(q[0] == n);
                        assert(breadth_first(q, fuel) == seq![n.elem] + breadth_first(
                            q.drop_first() + children(n),
                            (fuel - 1) as nat,
                        ));
                        assert(result@ + breadth_first(queue@.map_values(|x: &Node| *x), (fuel - 1) as nat)
                            =~= before + breadth_first(q, fuel));
                        fuel = (fuel - 1) as nat;
                    }
                },
            }
        }
        result
    }

    pub fn height(&self) -> (r: i32)
        requires
            height_of(self.root) < i32::MAX,
        ensures
            r == height_of(self.root),
    {
        Self::tree_height(&self.root)
    }

    fn tree_height(node: &Option<Box<Node>>) -> (r: i32)
        requires
            height_of(*node) < i32::MAX,
        ensures
            r == height_of(*node),
        decreases node,
    {
        match node {
            Some(n) => {
                let left_height = Self::tree_height(&n.left);
                let right_height = Self::tree_height(&n.right);
                1 + if left_height >= right_height {
                    left_height
                } else {
                    right_height
                }
            },
            None => -1,
        }
    }
}

} // verus!
