//! An unbalanced binary search tree of integers.
use vstd::prelude::*;

verus! {

/// The shape of a tree, with its values.
pub enum Tree {
    Leaf,
    Node { left: Box<Tree>, val: i64, right: Box<Tree> },
}

impl Tree {
    /// The tree after inserting `v`: it goes to the leaf that comparisons from
    /// the root lead to; a value already in the tree changes nothing.
    pub open spec fn insert(self, v: i64) -> Tree
        decreases self,
    {
        match self {
            Tree::Leaf => Tree::Node { left: Box::new(Tree::Leaf), val: v, right: Box::new(Tree::Leaf) },
            Tree::Node { left, val, right } => if val < v {
                Tree::Node { left, val, right: Box::new(right.insert(v)) }
            } else if val > v {
                Tree::Node { left: Box::new(left.insert(v)), val, right }
            } else {
                self
            },
        }
    }

    /// Whether comparisons from the root lead to `v`.
    pub open spec fn search(self, v: i64) -> bool
        decreases self,
    {
        match self {
            Tree::Leaf => false,
            Tree::Node { left, val, right } => if val < v {
                right.search(v)
            } else if val > v {
                left.search(v)
            } else {
                true
            },
        }
    }

    pub open spec fn values(self) -> Set<i64>
        decreases self,
    {
        match self {
            Tree::Leaf => Set::empty(),
            Tree::Node { left, val, right } => left.values().union(right.values()).insert(val),
        }
    }

    /// Every value is greater than those to its left and less than those to its right.
    pub open spec fn ordered(self) -> bool
        decreases self,
    {
        match self {
            Tree::Leaf => true,
            Tree::Node { left, val, right } => {
                &&& left.ordered()
                &&& right.ordered()
                &&& forall|x: i64| left.values().contains(x) ==> x < val
                &&& forall|x: i64| right.values().contains(x) ==> x > val
            },
        }
    }

    /// Every value lies strictly between `lo` and `hi`, and each subtree lies
    /// strictly between its parent and the parent's own bounds.
    pub open spec fn bounded(self, lo: i64, hi: i64) -> bool
        decreases self,
    {
        match self {
            Tree::Leaf => true,
            Tree::Node { left, val, right } => lo < val && val < hi && left.bounded(lo, val) && right.bounded(
                val,
                hi,
            ),
        }
    }

    pub open spec fn in_order(self) -> Seq<i64>
        decreases self,
    {
        match self {
            Tree::Leaf => Seq::empty(),
            Tree::Node { left, val, right } => left.in_order() + seq![val] + right.in_order(),
        }
    }

    pub open spec fn pre_order(self) -> Seq<i64>
        decreases self,
    {
        match self {
            Tree::Leaf => Seq::empty(),
            Tree::Node { left, val, right } => seq![val] + left.pre_order() + right.pre_order(),
        }
    }

    pub open spec fn post_order(self) -> Seq<i64>
        decreases self,
    {
        match self {
            Tree::Leaf => Seq::empty(),
            Tree::Node { left, val, right } => left.post_order() + right.post_order() + seq![val],
        }
    }

    pub open spec fn size(self) -> nat
        decreases self,
    {
        match self {
            Tree::Leaf => 0,
            Tree::Node { left, val, right } => left.size() + right.size() + 1,
        }
    }
}

/// The subtrees pending in a level-order walk, and the values emitted.
pub struct LevelWalk {
    pub queue: Seq<Tree>,
    pub out: Seq<i64>,
}

/// One round of a level-order walk: the first pending subtree emits its value
/// and its non-empty children join the end of the queue, left first.
pub open spec fn level_step(w: LevelWalk) -> LevelWalk {
    let t = w.queue[0];
    let rest = w.queue.drop_first();
    match t {
        Tree::Leaf => LevelWalk { queue: rest, out: w.out },
        Tree::Node { left, val, right } => {
            let q1 = if *left is Leaf { rest } else { rest.push(*left) };
            let q2 = if *right is Leaf { q1 } else { q1.push(*right) };
            LevelWalk { queue: q2, out: w.out.push(val) }
        },
    }
}

pub open spec fn level_run(w: LevelWalk, k: nat) -> LevelWalk
    decreases k,
{
    if k == 0 || w.queue.len() == 0 {
        w
    } else {
        level_run(level_step(w), (k - 1) as nat)
    }
}

/// The values of `t` level by level, each level from left to right.
pub open spec fn level_order(t: Tree) -> Seq<i64> {
    let w0 = LevelWalk { queue: if t is Leaf { Seq::empty() } else { seq![t] }, out: Seq::empty() };
    let k = choose|k: nat| level_run(w0, k).queue.len() == 0;
    level_run(w0, k).out
}

pub proof fn lemma_level_run_add(w: LevelWalk, a: nat, b: nat)
    ensures
        level_run(w, a + b) == level_run(level_run(w, a), b),
    decreases a,
{
    if a > 0 && w.queue.len() > 0 {
        lemma_level_run_add(level_step(w), (a - 1) as nat, b);
        assert((a + b - 1) as nat == ((a - 1) as nat + b) as nat);
    }
}

pub proof fn lemma_level_order_is(t: Tree, k: nat)
    requires
        level_run(
            LevelWalk { queue: if t is Leaf { Seq::empty() } else { seq![t] }, out: Seq::empty() },
            k,
        ).queue.len() == 0,
    ensures
        level_order(t) == level_run(
            LevelWalk { queue: if t is Leaf { Seq::empty() } else { seq![t] }, out: Seq::empty() },
            k,
        ).out,
{
    let w0 = LevelWalk { queue: if t is Leaf { Seq::empty() } else { seq![t] }, out: Seq::empty() };
    let j = choose|j: nat| level_run(w0, j).queue.len() == 0;
    if j <= k {
        lemma_level_run_add(w0, j, (k - j) as nat);
        assert(k == j + (k - j) as nat);
    } else {
        lemma_level_run_add(w0, k, (j - k) as nat);
        assert(j == k + (j - k) as nat);
    }
}

/// The total size of the subtrees in `q`.
pub open spec fn sizes(q: Seq<Tree>) -> nat
    decreases q.len(),
{
    if q.len() == 0 {
        0
    } else {
        sizes(q.drop_last()) + q.last().size()
    }
}

pub proof fn lemma_sizes_front(q: Seq<Tree>)
    requires
        q.len() > 0,
    ensures
        sizes(q) == q[0].size() + sizes(q.drop_first()),
    decreases q.len(),
{
    if q.len() > 1 {
        lemma_sizes_front(q.drop_last());
        assert(q.drop_last().drop_first() =~= q.drop_first().drop_last());
    } else {
        assert(q.drop_last() =~= Seq::<Tree>::empty());
        assert(q.drop_first() =~= Seq::<Tree>::empty());
    }
}

/// In an ordered tree, comparisons lead to a value exactly when it is present.
pub proof fn lemma_search_finds(t: Tree, v: i64)
    requires
        t.ordered(),
    ensures
        t.search(v) == t.values().contains(v),
    decreases t,
{
    match t {
        Tree::Leaf => {},
        Tree::Node { left, val, right } => {
            lemma_search_finds(*left, v);
            lemma_search_finds(*right, v);
        },
    }
}

/// Insertion adds exactly the value and keeps the tree ordered.
pub proof fn lemma_insert_ordered(t: Tree, v: i64)
    requires
        t.ordered(),
    ensures
        t.insert(v).ordered(),
        t.insert(v).values() == t.values().insert(v),
    decreases t,
{
    match t {
        Tree::Leaf => {
            assert(t.insert(v).values() =~= t.values().insert(v));
        },
        Tree::Node { left, val, right } => {
            lemma_insert_ordered(*left, v);
            lemma_insert_ordered(*right, v);
            assert(t.insert(v).values() =~= t.values().insert(v));
        },
    }
}

#[derive(Debug)]
struct Node {
    val: i64,
    left: Option<Box<Node>>,
    right: Option<Box<Node>>,
}

spec fn shape(link: Option<Box<Node>>) -> Tree
    decreases link,
{
    match link {
        None => Tree::Leaf,
        Some(n) => Tree::Node { left: Box::new(shape(n.left)), val: n.val, right: Box::new(shape(n.right)) },
    }
}

spec fn node_shape(n: &Node) -> Tree {
    Tree::Node { left: Box::new(shape(n.left)), val: n.val, right: Box::new(shape(n.right)) }
}

#[derive(Debug)]
pub struct BST {
    root: Option<Box<Node>>,
}

impl View for BST {
    type V = Tree;

    closed spec fn view(&self) -> Tree {
        shape(self.root)
    }
}

fn insert_at(link: &mut Option<Box<Node>>, val: i64)
    ensures
        shape(*final(link)) == shape(*old(link)).insert(val),
    decreases shape(*old(link)).size(),
{
    let mut taken: Option<Box<Node>> = None;
    std::mem::swap(&mut taken, link);
    match taken {
        None => {
            *link = Some(Box::new(Node { val, left: None, right: None }));
        },
        Some(node) => {
            let mut node = *node;
            if node.val < val {
                insert_at(&mut node.right, val);
            } else if node.val > val {
                insert_at(&mut node.left, val);
            }
            *link = Some(Box::new(node));
        },
    }
}

fn search_at(link: &Option<Box<Node>>, val: i64) -> (r: bool)
    ensures
        r == shape(*link).search(val),
    decreases shape(*link).size(),
{
    match link {
        None => false,
        Some(node) => if node.val < val {
            search_at(&node.right, val)
        } else if node.val > val {
            search_at(&node.left, val)
        } else {
            true
        },
    }
}

fn in_order_at(link: &Option<Box<Node>>, result: &mut Vec<i64>)
    ensures
        final(result)@ == old(result)@ + shape(*link).in_order(),
    decreases shape(*link).size(),
{
    if let Some(node) = link {
        in_order_at(&node.left, result);
        result.push(node.val);
        in_order_at(&node.right, result);
        assert(final(result)@ =~= old(result)@ + shape(*link).in_order());
    } else {
        assert(result@ =~= old(result)@ + shape(*link).in_order());
    }
}

fn pre_order_at(link: &Option<Box<Node>>, result: &mut Vec<i64>)
    ensures
        final(result)@ == old(result)@ + shape(*link).pre_order(),
    decreases shape(*link).size(),
{
    if let Some(node) = link {
        result.push(node.val);
        pre_order_at(&node.left, result);
        pre_order_at(&node.right, result);
        assert(final(result)@ =~= old(result)@ + shape(*link).pre_order());
    } else {
        assert(result@ =~= old(result)@ + shape(*link).pre_order());
    }
}

fn post_order_at(link: &Option<Box<Node>>, result: &mut Vec<i64>)
    ensures
        final(result)@ == old(result)@ + shape(*link).post_order(),
    decreases shape(*link).size(),
{
    if let Some(node) = link {
        post_order_at(&node.left, result);
        post_order_at(&node.right, result);
        result.push(node.val);
        assert(final(result)@ =~= old(result)@ + shape(*link).post_order());
    } else {
        assert(result@ =~= old(result)@ + shape(*link).post_order());
    }
}

fn bounded_at(link: &Option<Box<Node>>, lo: i64, hi: i64) -> (r: bool)
    ensures
        r == shape(*link).bounded(lo, hi),
    decreases shape(*link).size(),
{
    match link {
        None => true,
        Some(node) => {
            if node.val <= lo || node.val >= hi {
                return false;
            }
            bounded_at(&node.left, lo, node.val) && bounded_at(&node.right, node.val, hi)
        },
    }
}

impl BST {
    pub closed spec fn wf(&self) -> bool {
        self@.ordered()
    }

    pub fn new() -> (r: Self)
        ensures
            r@ == Tree::Leaf,
            r.wf(),
    {
        BST { root: None }
    }

    /// Adds `val` where comparisons from the root lead; a value already
    /// present is not added again.
    pub fn insert(&mut self, val: i64)
        requires
            old(self).wf(),
        ensures
            final(self)@ == old(self)@.insert(val),
            final(self)@.values() == old(self)@.values().insert(val),
            final(self).wf(),
    {
        proof {
            lemma_insert_ordered(self@, val);
        }
        insert_at(&mut self.root, val);
    }

    /// Whether `val` is in the tree.
    pub fn search(&self, val: i64) -> (r: bool)
        requires
            self.wf(),
        ensures
            r == self@.values().contains(val),
    {
        proof {
            lemma_search_finds(self@, val);
        }
        search_at(&self.root, val)
    }

    /// The values left subtree first, then the node, then the right subtree.
    pub fn dfs_in_order(&self) -> (r: Vec<i64>)
        ensures
            r@ == self@.in_order(),
    {
        let mut result = Vec::new();
        in_order_at(&self.root, &mut result);
        assert(result@ =~= self@.in_order());
        result
    }

    /// The values node first, then the left subtree, then the right.
    pub fn dfs_pre_order(&self) -> (r: Vec<i64>)
        ensures
            r@ == self@.pre_order(),
    {
        let mut result = Vec::new();
        pre_order_at(&self.root, &mut result);
        assert(result@ =~= self@.pre_order());
        result
    }

    /// The values left subtree first, then the right, then the node.
    pub fn dfs_post_order(&self) -> (r: Vec<i64>)
        ensures
            r@ == self@.post_order(),
    {
        let mut result = Vec::new();
        post_order_at(&self.root, &mut result);
        assert(result@ =~= self@.post_order());
        result
    }

    /// Whether every value lies strictly between the bounds that the path to it
    /// sets, starting from the whole range of `i64` with its two ends excluded.
    pub fn validate(&self) -> (r: bool)
        requires
            self@ != Tree::Leaf,
        ensures
            r == self@.bounded(i64::MIN, i64::MAX),
    {
        bounded_at(&self.root, i64::MIN, i64::MAX)
    }

    /// The values level by level from the root, each level from left to right.
    pub fn bfs(&self) -> (r: Vec<i64>)
        ensures
            r@ == level_order(self@),
    {
        let mut result: Vec<i64> = Vec::new();
        let ghost t = self@;
        let ghost w0 = LevelWalk { queue: if t is Leaf { Seq::empty() } else { seq![t] }, out: Seq::empty() };
        let mut queue: Vec<&Node> = Vec::new();
        if let Some(root) = &self.root {
            queue.push(root);
            assert(node_shape(root) == t);
        }
        let mut head: usize = 0;
        let ghost mut k: nat = 0;
        proof {
            assert(queue@.subrange(0, queue@.len() as int).map_values(|n: &Node| node_shape(n)) =~= w0.queue);
            if !(t is Leaf) {
                assert(w0.queue.drop_last() =~= Seq::<Tree>::empty());
                assert(sizes(w0.queue) == sizes(w0.queue.drop_last()) + t.size());
            }
        }
        while head < queue.len()
            invariant
                head <= queue@.len(),
                level_run(w0, k) == (LevelWalk {
                    queue: queue@.subrange(head as int, queue@.len() as int).map_values(|n: &Node| node_shape(n)),
                    out: result@,
                }),
                result@.len() + sizes(queue@.subrange(head as int, queue@.len() as int).map_values(|n: &Node| node_shape(n))) == t.size(),
            decreases t.size() - result@.len(),
        {
            let ghost q = queue@.subrange(head as int, queue@.len() as int).map_values(|n: &Node| node_shape(n));
            let ghost cur = LevelWalk { queue: q, out: result@ };
            proof {
                lemma_level_run_add(w0, k, 1);
                assert(level_run(cur, 1) == level_run(level_step(cur), 0));
                lemma_sizes_front(q);
            }
            let node = queue[head];
            assert(q[0] == node_shape(node));
            head = head + 1;
            assert(queue@.subrange(head as int, queue@.len() as int).map_values(|n: &Node| node_shape(n)) =~= q.drop_first());
            result.push(node.val);
            assert(q[0].size() == shape(node.left).size() + shape(node.right).size() + 1);
            let ghost mut acc = sizes(q.drop_first());
            assert(sizes(queue@.subrange(head as int, queue@.len() as int).map_values(|n: &Node| node_shape(n))) == acc);
            if let Some(left) = &node.left {
                let ghost before = queue@.subrange(head as int, queue@.len() as int).map_values(|n: &Node| node_shape(n));
                queue.push(left);
                assert(queue@.subrange(head as int, queue@.len() as int).map_values(|n: &Node| node_shape(n)) =~= before.push(node_shape(left)));
                assert(node_shape(left) == shape(node.left));
                assert(before.push(node_shape(left)).drop_last() =~= before);
                assert(sizes(before) == acc);
                assert(sizes(before.push(node_shape(left))) == sizes(before) + node_shape(left).size());
                proof { acc = acc + shape(node.left).size(); }
            }
            if let Some(right) = &node.right {
                let ghost before = queue@.subrange(head as int, queue@.len() as int).map_values(|n: &Node| node_shape(n));
                queue.push(right);
                assert(queue@.subrange(head as int, queue@.len() as int).map_values(|n: &Node| node_shape(n)) =~= before.push(node_shape(right)));
                assert(node_shape(right) == shape(node.right));
                assert(before.push(node_shape(right)).drop_last() =~= before);
                assert(sizes(before) == acc);
                assert(sizes(before.push(node_shape(right))) == sizes(before) + node_shape(right).size());
                proof { acc = acc + shape(node.right).size(); }
            }
            assert(sizes(queue@.subrange(head as int, queue@.len() as int).map_values(|n: &Node| node_shape(n))) == acc);
            assert(acc == sizes(q.drop_first()) + shape(node.left).size() + shape(node.right).size());
            proof {
                k = k + 1;
            }
        }
        proof {
            lemma_level_order_is(t, k);
        }
        result
    }
}

} // verus!
