use vstd::prelude::*;
use vstd::arithmetic::power2::{pow2, lemma_pow2_unfold, lemma_pow2_pos, lemma2_to64};
use vstd::set_lib::set_int_range;

verus! {

/// Number of nodes in a complete binary tree of depth `d`: `2^(d+1) - 1`.
pub open spec fn tree_size(d: nat) -> nat {
    (pow2(d + 1) - 1) as nat
}

/// A tree of depth `d` is a root over two trees of depth `d - 1`.
pub proof fn lemma_tree_size_step(d: nat)
    ensures
        tree_size(0) == 1,
        d > 0 ==> tree_size(d) == 2 * tree_size((d - 1) as nat) + 1,
        tree_size(d) >= 1,
{
    lemma2_to64();
    lemma_pow2_pos(d);
    lemma_pow2_unfold(d + 1);
    if d > 0 {
        lemma_pow2_unfold(d);
    }
}



/// The header word written into every freshly allocated tree node.
pub const NODE_HEADER: u64 = 0b1100_0011;

/// A binary tree node of the benchmark. Children are indices into the
/// `ObjectHeap` that holds the node; `None` is a null child.
#[derive(Clone, Copy, Debug)]
pub struct Node {
    pub hdr: u64,
    pub left: Option<usize>,
    pub right: Option<usize>,
    pub i: i32,
    pub j: i32,
}

/// The node as the allocator hands it out: header written, no children.
pub open spec fn fresh_node() -> Node {
    Node { hdr: NODE_HEADER, left: None, right: None, i: 0, j: 0 }
}

/// A node that kept everything the allocator wrote except, possibly, its children.
pub open spec fn has_fresh_fields(n: Node) -> bool {
    n.hdr == NODE_HEADER && n.i == 0 && n.j == 0
}

/// The heap in which the benchmark allocates its nodes: every allocation
/// appends one node, so a node's index is its address and the number of
/// nodes is the number of allocations made.
pub struct ObjectHeap {
    nodes: Vec<Node>,
}

impl View for ObjectHeap {
    type V = Seq<Node>;

    closed spec fn view(&self) -> Seq<Node> {
        self.nodes@
    }
}

/// `s` is `t` with nodes appended.
pub open spec fn extends(s: Seq<Node>, t: Seq<Node>) -> bool {
    t.len() <= s.len() && s.subrange(0, t.len() as int) == t
}

/// Every node at an index in `lo..hi` of `s` kept the allocator's fields.
pub open spec fn fresh_between(s: Seq<Node>, lo: int, hi: int) -> bool {
    forall|k: int| lo <= k < hi ==> #[trigger] has_fresh_fields(s[k])
}

impl ObjectHeap {
    /// An empty heap.
    pub fn new() -> (h: ObjectHeap)
        ensures
            h@ == Seq::<Node>::empty(),
    {
        ObjectHeap { nodes: Vec::new() }
    }

    /// Number of nodes allocated so far.
    pub fn len(&self) -> (n: usize)
        ensures
            n == self@.len(),
    {
        self.nodes.len()
    }

    /// The node at index `k`.
    pub fn node(&self, k: usize) -> (n: Node)
        requires
            k < self@.len(),
        ensures
            n == self@[k as int],
    {
        self.nodes[k]
    }

    /// Allocates one node with its header written and no children; returns its index.
    pub fn alloc_node(&mut self) -> (k: usize)
        ensures
            k == old(self)@.len(),
            final(self)@ == old(self)@.push(fresh_node()),
    {
        let k = self.nodes.len();
        self.nodes.push(Node { hdr: NODE_HEADER, left: None, right: None, i: 0, j: 0 });
        k
    }

    /// Makes `l` and `r` the children of node `me`.
    pub fn init_node(&mut self, me: usize, l: usize, r: usize)
        requires
            me < old(self)@.len(),
        ensures
            final(self)@ == old(self)@.update(
                me as int,
                Node { left: Some(l), right: Some(r), ..old(self)@[me as int] },
            ),
    {
        let mut n = self.nodes[me];
        n.left = Some(l);
        n.right = Some(r);
        self.nodes.set(me, n);
    }
}

/// Node `r` of `s` is the root of a complete binary tree of depth `d`:
/// every path from it has exactly `d` edges before a node with two null children.
pub open spec fn is_complete(s: Seq<Node>, r: int, d: nat) -> bool
    decreases d,
{
    &&& 0 <= r < s.len()
    &&& if d == 0 {
        s[r].left is None && s[r].right is None
    } else {
        match (s[r].left, s[r].right) {
            (Some(a), Some(b)) => is_complete(s, a as int, (d - 1) as nat) && is_complete(
                s,
                b as int,
                (d - 1) as nat,
            ),
            _ => false,
        }
    }
}

/// The indices of the nodes reached from `r` by following children for `d` levels.
pub open spec fn tree_nodes(s: Seq<Node>, r: int, d: nat) -> Set<int>
    decreases d,
{
    if d == 0 {
        set![r]
    } else {
        match (s[r].left, s[r].right) {
            (Some(a), Some(b)) => set![r].union(tree_nodes(s, a as int, (d - 1) as nat)).union(
                tree_nodes(s, b as int, (d - 1) as nat),
            ),
            _ => set![r],
        }
    }
}

/// Two heaps agree on the children of every node of a set.
pub open spec fn same_children_on(s: Seq<Node>, t: Seq<Node>, nodes: Set<int>) -> bool {
    forall|k: int|
        #![trigger nodes.contains(k)]
        nodes.contains(k) ==> 0 <= k < s.len() && 0 <= k < t.len() && s[k].left == t[k].left
            && s[k].right == t[k].right
}

/// The nodes of a complete tree lie inside the heap.
pub proof fn lemma_tree_nodes_in_heap(s: Seq<Node>, r: int, d: nat)
    requires
        is_complete(s, r, d),
    ensures
        forall|k: int| #[trigger] tree_nodes(s, r, d).contains(k) ==> 0 <= k < s.len(),
    decreases d,
{
    if d > 0 {
        let a = s[r].left.unwrap() as int;
        let b = s[r].right.unwrap() as int;
        lemma_tree_nodes_in_heap(s, a, (d - 1) as nat);
        lemma_tree_nodes_in_heap(s, b, (d - 1) as nat);
        assert(tree_nodes(s, r, d) == set![r].union(tree_nodes(s, a, (d - 1) as nat)).union(
            tree_nodes(s, b, (d - 1) as nat),
        ));
    } else {
        assert(tree_nodes(s, r, d) == set![r]);
    }
}

/// A complete tree stays complete, with the same nodes, in any heap that
/// gives its nodes the same children.
pub proof fn lemma_tree_frame(s: Seq<Node>, t: Seq<Node>, r: int, d: nat)
    requires
        is_complete(s, r, d),
        forall|k: int| #[trigger] tree_nodes(s, r, d).contains(k) ==> 0 <= k < t.len()
            && s[k].left == t[k].left && s[k].right == t[k].right,
    ensures
        is_complete(t, r, d),
        tree_nodes(t, r, d) == tree_nodes(s, r, d),
    decreases d,
{
    assert(tree_nodes(s, r, d).contains(r));
    if d > 0 {
        let a = s[r].left.unwrap() as int;
        let b = s[r].right.unwrap() as int;
        assert forall|k: int| #[trigger] tree_nodes(s, a, (d - 1) as nat).contains(k) implies 0 <= k
            < t.len() && s[k].left == t[k].left && s[k].right == t[k].right by {
            assert(tree_nodes(s, r, d).contains(k));
        }
        assert forall|k: int| #[trigger] tree_nodes(s, b, (d - 1) as nat).contains(k) implies 0 <= k
            < t.len() && s[k].left == t[k].left && s[k].right == t[k].right by {
            assert(tree_nodes(s, r, d).contains(k));
        }
        lemma_tree_frame(s, t, a, (d - 1) as nat);
        lemma_tree_frame(s, t, b, (d - 1) as nat);
    }
}

/// A complete tree is unaffected by appending nodes to its heap.
pub proof fn lemma_tree_extend(s: Seq<Node>, t: Seq<Node>, r: int, d: nat)
    requires
        is_complete(s, r, d),
        extends(t, s),
    ensures
        is_complete(t, r, d),
        tree_nodes(t, r, d) == tree_nodes(s, r, d),
{
    lemma_tree_nodes_in_heap(s, r, d);
    assert forall|k: int| #[trigger] tree_nodes(s, r, d).contains(k) implies 0 <= k < t.len()
        && s[k].left == t[k].left && s[k].right == t[k].right by {
        assert(t.subrange(0, s.len() as int)[k] == t[k]);
    }
    lemma_tree_frame(s, t, r, d);
}

/// The tree of depth `d` rooted at `r` was built bottom-up into the indices
/// `lo..lo + tree_size(d)`: the left subtree first, then the right subtree,
/// then the root, each subtree laid out the same way.
pub open spec fn bottom_up_layout(s: Seq<Node>, r: int, d: nat, lo: int) -> bool
    decreases d,
{
    &&& 0 <= lo
    &&& r == lo + tree_size(d) - 1
    &&& r < s.len()
    &&& if d == 0 {
        s[r].left is None && s[r].right is None
    } else {
        let h = tree_size((d - 1) as nat) as int;
        &&& s[r].left is Some && s[r].left.unwrap() == lo + h - 1
        &&& s[r].right is Some && s[r].right.unwrap() == lo + 2 * h - 1
        &&& bottom_up_layout(s, lo + h - 1, (d - 1) as nat, lo)
        &&& bottom_up_layout(s, lo + 2 * h - 1, (d - 1) as nat, lo + h)
    }
}

/// The tree of depth `d` rooted at `r` was built top-down, its nodes below the
/// root in the indices `lo..lo + tree_size(d) - 1`: the root's two children
/// first, at `lo` and `lo + 1`, then the left child's subtree, then the right
/// child's, each laid out the same way.
pub open spec fn top_down_layout(s: Seq<Node>, r: int, d: nat, lo: int) -> bool
    decreases d,
{
    &&& 0 <= r < s.len()
    &&& 0 <= lo
    &&& if d == 0 {
        s[r].left is None && s[r].right is None
    } else {
        let h = tree_size((d - 1) as nat) as int;
        &&& s[r].left is Some && s[r].left.unwrap() == lo
        &&& s[r].right is Some && s[r].right.unwrap() == lo + 1
        &&& top_down_layout(s, lo, (d - 1) as nat, lo + 2)
        &&& top_down_layout(s, lo + 1, (d - 1) as nat, lo + 1 + h)
    }
}

/// Two heaps give the same children to every node with an index in `lo..hi`.
pub open spec fn same_children_between(s: Seq<Node>, t: Seq<Node>, lo: int, hi: int) -> bool {
    forall|k: int|
        lo <= k < hi ==> k < s.len() && k < t.len() && #[trigger] s[k].left == t[k].left && s[k].right
            == t[k].right
}

/// A bottom-up layout depends only on the children of the nodes in its block.
pub proof fn lemma_bottom_up_frame(s: Seq<Node>, t: Seq<Node>, r: int, d: nat, lo: int)
    requires
        bottom_up_layout(s, r, d, lo),
        same_children_between(s, t, lo, lo + tree_size(d)),
    ensures
        bottom_up_layout(t, r, d, lo),
    decreases d,
{
    lemma_tree_size_step(d);
    assert(s[r].left == t[r].left);
    if d > 0 {
        let h = tree_size((d - 1) as nat) as int;
        lemma_tree_size_step((d - 1) as nat);
        lemma_bottom_up_frame(s, t, lo + h - 1, (d - 1) as nat, lo);
        lemma_bottom_up_frame(s, t, lo + 2 * h - 1, (d - 1) as nat, lo + h);
    }
}

/// A top-down layout depends only on the children of its root and of the nodes in its block.
pub proof fn lemma_top_down_frame(s: Seq<Node>, t: Seq<Node>, r: int, d: nat, lo: int)
    requires
        top_down_layout(s, r, d, lo),
        r < t.len(),
        s[r].left == t[r].left,
        s[r].right == t[r].right,
        same_children_between(s, t, lo, lo + tree_size(d) - 1),
    ensures
        top_down_layout(t, r, d, lo),
    decreases d,
{
    lemma_tree_size_step(d);
    if d > 0 {
        let h = tree_size((d - 1) as nat) as int;
        lemma_tree_size_step((d - 1) as nat);
        assert(s[lo].left == t[lo].left);
        assert(s[lo + 1].left == t[lo + 1].left);
        lemma_top_down_frame(s, t, lo, (d - 1) as nat, lo + 2);
        lemma_top_down_frame(s, t, lo + 1, (d - 1) as nat, lo + 1 + h);
    }
}

/// A bottom-up layout is a complete tree whose nodes are exactly its block.
pub proof fn lemma_bottom_up_complete(s: Seq<Node>, r: int, d: nat, lo: int)
    requires
        bottom_up_layout(s, r, d, lo),
    ensures
        is_complete(s, r, d),
        tree_nodes(s, r, d) == set_int_range(lo, lo + tree_size(d)),
    decreases d,
{
    lemma_tree_size_step(d);
    if d == 0 {
        assert(tree_nodes(s, r, d) =~= set_int_range(lo, lo + tree_size(d)));
    } else {
        let h = tree_size((d - 1) as nat) as int;
        lemma_bottom_up_complete(s, lo + h - 1, (d - 1) as nat, lo);
        lemma_bottom_up_complete(s, lo + 2 * h - 1, (d - 1) as nat, lo + h);
        assert(tree_nodes(s, r, d) =~= set_int_range(lo, lo + tree_size(d)));
    }
}

/// A top-down layout is a complete tree whose nodes are its root and its block.
pub proof fn lemma_top_down_complete(s: Seq<Node>, r: int, d: nat, lo: int)
    requires
        top_down_layout(s, r, d, lo),
    ensures
        is_complete(s, r, d),
        tree_nodes(s, r, d) == set_int_range(lo, lo + tree_size(d) - 1).insert(r),
    decreases d,
{
    lemma_tree_size_step(d);
    if d == 0 {
        assert(tree_nodes(s, r, d) =~= set_int_range(lo, lo + tree_size(d) - 1).insert(r));
    } else {
        let h = tree_size((d - 1) as nat) as int;
        lemma_tree_size_step((d - 1) as nat);
        lemma_top_down_complete(s, lo, (d - 1) as nat, lo + 2);
        lemma_top_down_complete(s, lo + 1, (d - 1) as nat, lo + 1 + h);
        assert(tree_nodes(s, r, d) =~= set_int_range(lo, lo + tree_size(d) - 1).insert(r));
    }
}

} // verus!
