use vstd::prelude::*;
use vstd::arithmetic::power2::{pow2, lemma2_to64};
use vstd::bits::{lemma_u32_shl_is_mul, lemma_u32_pow2_no_overflow};
use vstd::set_lib::set_int_range;
use crate::object_heap::{
    tree_size, lemma_tree_size_step, ObjectHeap, Node, extends, fresh_between, has_fresh_fields, is_complete,
    tree_nodes, lemma_tree_extend, bottom_up_layout, top_down_layout, lemma_bottom_up_frame,
    lemma_top_down_frame, lemma_bottom_up_complete, lemma_top_down_complete, lemma_tree_frame, lemma_tree_nodes_in_heap,
};

verus! {

/// Depth of the tree built at the start to stretch the heap.
pub const K_STRETCH_TREE_DEPTH: i32 = 18;

/// Depth of the tree that stays live for the whole run.
pub const K_LONG_LIVED_TREE_DEPTH: i32 = 16;

/// Number of doubles in the long-lived array.
pub const K_ARRAY_SIZE: i32 = 500000;

/// Smallest depth of the temporary trees.
pub const K_MIN_TREE_DEPTH: i32 = 4;

/// Largest depth of the temporary trees.
pub const K_MAX_TREE_DEPTH: i32 = 16;

/// The depth a tree gets when asked for depth `d`: depths below one build a single node.
pub open spec fn depth_of(d: int) -> nat {
    if d <= 0 {
        0
    } else {
        d as nat
    }
}

/// Number of nodes of a complete binary tree of depth `i`, i.e. `2^(i+1) - 1`.
#[allow(non_snake_case)]
pub fn TreeSize(i: i32) -> (r: i32)
    requires
        -1 <= i <= 29,
    ensures
        r == pow2((i + 1) as nat) - 1,
        i >= 0 ==> r == tree_size(i as nat),
{
    let k: i32 = i + 1;
    proof {
        let ku: u32 = k as u32;
        lemma_u32_pow2_no_overflow(ku as nat);
        lemma_u32_shl_is_mul(1u32, ku);
        assert((1i32 << ku) as int == (1u32 << ku) as int) by (bit_vector)
            requires
                ku <= 30,
        ;
    }
    (1i32 << (k as u32)) - 1
}

/// Number of trees of depth `d` built in one timed phase.
pub open spec fn num_iters(d: nat) -> int {
    (2 * tree_size(K_STRETCH_TREE_DEPTH as nat) / tree_size(d)) as int
}

/// Each timed phase allocates about the same number of nodes whatever its
/// depth: the trees it builds make up at most twice the stretch tree, and one
/// tree more would exceed that.
pub proof fn lemma_phase_work(d: nat)
    ensures
        num_iters(d) * tree_size(d) <= 2 * tree_size(K_STRETCH_TREE_DEPTH as nat),
        2 * tree_size(K_STRETCH_TREE_DEPTH as nat) < (num_iters(d) + 1) * tree_size(d),
{
    lemma_tree_size_step(d);
    let x = 2 * tree_size(K_STRETCH_TREE_DEPTH as nat) as int;
    let y = tree_size(d) as int;
    vstd::arithmetic::div_mod::lemma_fundamental_div_mod(x, y);
    assert(0 <= x % y < y) by {
        vstd::arithmetic::div_mod::lemma_mod_pos_bound(x, y);
    }
    assert((x / y + 1) * y == x / y * y + y) by (nonlinear_arith);
    assert(x / y * y == y * (x / y)) by (nonlinear_arith);
}

/// Number of trees of depth `i` built in one timed phase: as many as make up
/// twice the number of nodes of the stretch tree.
#[allow(non_snake_case)]
pub fn NumIters(i: i32) -> (r: i32)
    requires
        0 <= i <= 29,
    ensures
        r == num_iters(i as nat),
{
    let stretch = TreeSize(K_STRETCH_TREE_DEPTH);
    let t = TreeSize(i);
    proof {
        lemma2_to64();
        lemma_tree_size_step(i as nat);
    }
    2 * stretch / t
}

/// Gives the diagnostics of the benchmark: there are none to give.
#[allow(non_snake_case)]
pub fn PrintDiagnostics() {
}

/// `h` is `old` where node `me` may have new children, and nothing else changed.
pub open spec fn same_but_children(h: Seq<Node>, old: Seq<Node>, me: int) -> bool {
    &&& h.len() == old.len()
    &&& 0 <= me < old.len()
    &&& h == old.update(me, Node { left: h[me].left, right: h[me].right, ..old[me] })
}

/// Gives node `this_node` two fresh children, then does the same to each of them,
/// down to depth `i_depth`: the tree is built from the root towards the leaves.
#[allow(non_snake_case)]
pub fn Populate(i_depth: i32, this_node: usize, heap: &mut ObjectHeap)
    requires
        i_depth > 0 ==> this_node < old(heap)@.len(),
        old(heap)@.len() + tree_size(depth_of(i_depth as int)) - 1 <= usize::MAX,
    ensures
        i_depth <= 0 ==> final(heap)@ == old(heap)@,
        i_depth > 0 ==> {
            let n0 = old(heap)@.len() as int;
            let h = final(heap)@;
            &&& h.len() == n0 + tree_size(i_depth as nat) - 1
            &&& same_but_children(h.subrange(0, n0), old(heap)@, this_node as int)
            &&& fresh_between(h, n0, h.len() as int)
            &&& top_down_layout(h, this_node as int, i_depth as nat, n0)
            &&& is_complete(h, this_node as int, i_depth as nat)
            &&& tree_nodes(h, this_node as int, i_depth as nat) == set_int_range(n0, h.len() as int).insert(
                this_node as int,
            )
        },
    decreases i_depth,
{
    if i_depth <= 0 {
        return;
    }
    let ghost s0 = heap@;
    let ghost n0 = s0.len() as int;
    let ghost d = i_depth as nat;
    proof {
        lemma_tree_size_step(d);
        lemma_tree_size_step((d - 1) as nat);
    }
    let l = heap.alloc_node();
    let r = heap.alloc_node();
    heap.init_node(this_node, l, r);
    let ghost s3 = heap@;
    Populate(i_depth - 1, l, heap);
    let ghost s4 = heap@;
    let ghost m = s4.len() as int;
    // the left subtree
    proof {
        if i_depth == 1 {
            assert(s4 == s3);
            assert(is_complete(s4, l as int, 0));
            assert(tree_nodes(s4, l as int, 0) == set![l as int]);
            assert(set_int_range(n0 + 2, m).insert(l as int) =~= set![l as int]);
        }
        assert(tree_nodes(s4, l as int, (d - 1) as nat) =~= set_int_range(n0 + 2, m).insert(
            l as int,
        ));
        assert(s4[this_node as int] == s3[this_node as int]) by {
            if i_depth > 1 {
                assert(s4.subrange(0, s3.len() as int)[this_node as int] == s4[this_node as int]);
            }
        }
        assert(s4[r as int] == s3[r as int]) by {
            if i_depth > 1 {
                assert(s4.subrange(0, s3.len() as int)[r as int] == s4[r as int]);
            }
        }
    }
    Populate(i_depth - 1, r, heap);
    let ghost s5 = heap@;
    proof {
        let dd = (d - 1) as nat;
        // the right subtree
        if i_depth == 1 {
            assert(s5 == s4);
            assert(is_complete(s5, r as int, 0));
            assert(tree_nodes(s5, r as int, 0) == set![r as int]);
        }
        assert(tree_nodes(s5, r as int, dd) =~= set_int_range(m, s5.len() as int).insert(r as int));
        // the left subtree is left alone by the right one
        lemma_tree_nodes_in_heap(s4, l as int, dd);
        assert forall|k: int| #[trigger] tree_nodes(s4, l as int, dd).contains(k) implies 0 <= k
            < s5.len() && s4[k].left == s5[k].left && s4[k].right == s5[k].right by {
            if i_depth > 1 {
                assert(s5.subrange(0, m)[k] == s5[k]);
            }
        }
        lemma_tree_frame(s4, s5, l as int, dd);
        assert(s5[this_node as int] == s4[this_node as int]) by {
            if i_depth > 1 {
                assert(s5.subrange(0, m)[this_node as int] == s5[this_node as int]);
            }
        }
        assert(s5[this_node as int].left == Some(l) && s5[this_node as int].right == Some(r));
        assert(is_complete(s5, l as int, dd));
        assert(is_complete(s5, r as int, dd));
        assert(is_complete(s5, this_node as int, d));
        // the layout: children first, then the left subtree, then the right one
        let h = tree_size(dd) as int;
        if i_depth == 1 {
            assert(top_down_layout(s5, l as int, 0, n0 + 2));
            assert(top_down_layout(s5, r as int, 0, n0 + 1 + h));
        } else {
            assert(m == n0 + 1 + h);
            assert forall|k: int| n0 + 2 <= k < n0 + 2 + h - 1 implies k < s4.len() && k < s5.len()
                && #[trigger] s4[k].left == s5[k].left && s4[k].right == s5[k].right by {
                assert(s5.subrange(0, m)[k] == s5[k]);
            }
            assert(s5.subrange(0, m)[l as int] == s5[l as int]);
            lemma_top_down_frame(s4, s5, l as int, dd, n0 + 2);
        }
        assert(top_down_layout(s5, this_node as int, d, n0));
        assert(tree_nodes(s5, this_node as int, d) =~= set_int_range(n0, s5.len() as int).insert(
            this_node as int,
        ));
        assert(s5.subrange(0, n0) =~= s0.update(
            this_node as int,
            Node { left: s5[this_node as int].left, right: s5[this_node as int].right, ..s0[this_node as int] },
        )) by {
            assert forall|k: int| 0 <= k < n0 implies #[trigger] s5.subrange(0, n0)[k] == s0.update(
                this_node as int,
                Node { left: s5[this_node as int].left, right: s5[this_node as int].right, ..s0[this_node as int] },
            )[k] by {
                if i_depth > 1 {
                    assert(s5.subrange(0, m)[k] == s5[k]);
                    assert(s4.subrange(0, s3.len() as int)[k] == s4[k]);
                }
            }
        }
        assert forall|k: int| n0 <= k < s5.len() implies #[trigger] has_fresh_fields(s5[k]) by {
            if i_depth > 1 {
                if k < m {
                    assert(s5.subrange(0, m)[k] == s5[k]);
                    if k < s3.len() {
                        assert(s4.subrange(0, s3.len() as int)[k] == s4[k]);
                    }
                }
            }
        }
    }
}

/// The two ways the benchmark builds a tree of depth `d` give the same tree:
/// bottom-up (`MakeTree`) and top-down from a fresh root (`Populate`) both make
/// a complete tree of depth `d` on exactly `tree_size(d)` consecutive nodes.
/// They differ only in order: the bottom-up root comes after all its
/// descendants, the top-down root before them.
pub proof fn lemma_orders_build_same_trees(
    s: Seq<Node>,
    r: int,
    lo: int,
    t: Seq<Node>,
    q: int,
    d: nat,
)
    requires
        bottom_up_layout(s, r, d, lo),
        top_down_layout(t, q, d, q + 1),
    ensures
        is_complete(s, r, d),
        is_complete(t, q, d),
        tree_nodes(s, r, d) == set_int_range(lo, lo + tree_size(d)),
        tree_nodes(t, q, d) == set_int_range(q, q + tree_size(d)),
        tree_nodes(s, r, d).len() == tree_size(d),
        tree_nodes(t, q, d).len() == tree_size(d),
        forall|k: int| #[trigger] tree_nodes(s, r, d).contains(k) ==> k <= r,
        forall|k: int| #[trigger] tree_nodes(t, q, d).contains(k) ==> q <= k,
{
    lemma_tree_size_step(d);
    lemma_bottom_up_complete(s, r, d, lo);
    lemma_top_down_complete(t, q, d, q + 1);
    assert(set_int_range(q + 1, q + 1 + tree_size(d) - 1).insert(q) =~= set_int_range(
        q,
        q + tree_size(d),
    ));
    vstd::set_lib::lemma_int_range(lo, lo + tree_size(d));
    vstd::set_lib::lemma_int_range(q, q + tree_size(d));
}

/// Builds a complete tree of depth `i_depth` from the leaves towards the root:
/// the two subtrees first, then the root over them. Returns the root.
#[allow(non_snake_case)]
pub fn MakeTree(i_depth: i32, heap: &mut ObjectHeap) -> (root: usize)
    requires
        old(heap)@.len() + tree_size(depth_of(i_depth as int)) <= usize::MAX,
    ensures
        extends(final(heap)@, old(heap)@),
        final(heap)@.len() == old(heap)@.len() + tree_size(depth_of(i_depth as int)),
        root == final(heap)@.len() - 1,
        fresh_between(final(heap)@, old(heap)@.len() as int, final(heap)@.len() as int),
        bottom_up_layout(final(heap)@, root as int, depth_of(i_depth as int), old(heap)@.len() as int),
        is_complete(final(heap)@, root as int, depth_of(i_depth as int)),
        tree_nodes(final(heap)@, root as int, depth_of(i_depth as int)) == set_int_range(
            old(heap)@.len() as int,
            final(heap)@.len() as int,
        ),
    decreases i_depth,
{
    let ghost s0 = heap@;
    let ghost n0 = s0.len() as int;
    if i_depth <= 0 {
        let root = heap.alloc_node();
        proof {
            lemma_tree_size_step(0);
            assert(heap@.subrange(0, n0) =~= s0);
            assert(tree_nodes(heap@, root as int, 0) =~= set_int_range(n0, n0 + 1));
            assert(bottom_up_layout(heap@, root as int, 0, n0));
        }
        return root;
    }
    let ghost d = i_depth as nat;
    proof {
        lemma_tree_size_step(d);
    }
    let left = MakeTree(i_depth - 1, heap);
    let ghost s1 = heap@;
    let right = MakeTree(i_depth - 1, heap);
    let ghost s2 = heap@;
    let result = heap.alloc_node();
    let ghost s3 = heap@;
    heap.init_node(result, left, right);
    let ghost s4 = heap@;
    proof {
        let dd = (d - 1) as nat;
        assert(extends(s3, s2)) by {
            assert(s3.subrange(0, s2.len() as int) =~= s2);
        }
        // both subtrees survive the later allocations and the root's update
        lemma_tree_extend(s1, s2, left as int, dd);
        lemma_tree_extend(s2, s3, left as int, dd);
        lemma_tree_extend(s2, s3, right as int, dd);
        assert forall|k: int| #[trigger] tree_nodes(s3, left as int, dd).contains(k) implies 0 <= k
            < s4.len() && s3[k].left == s4[k].left && s3[k].right == s4[k].right by {}
        assert forall|k: int| #[trigger] tree_nodes(s3, right as int, dd).contains(k) implies 0 <= k
            < s4.len() && s3[k].left == s4[k].left && s3[k].right == s4[k].right by {}
        lemma_tree_frame(s3, s4, left as int, dd);
        lemma_tree_frame(s3, s4, right as int, dd);
        // the layout: left subtree, right subtree, root
        let h = tree_size(dd) as int;
        let n1 = s1.len() as int;
        assert forall|k: int| n0 <= k < n0 + h implies k < s1.len() && k < s4.len()
            && #[trigger] s1[k].left == s4[k].left && s1[k].right == s4[k].right by {
            assert(s2.subrange(0, n1)[k] == s2[k]);
        }
        lemma_bottom_up_frame(s1, s4, left as int, dd, n0);
        assert forall|k: int| n1 <= k < n1 + h implies k < s2.len() && k < s4.len()
            && #[trigger] s2[k].left == s4[k].left && s2[k].right == s4[k].right by {}
        lemma_bottom_up_frame(s2, s4, right as int, dd, n1);
        assert(bottom_up_layout(s4, result as int, d, n0));
        assert(is_complete(s4, result as int, d));
        assert(tree_nodes(s4, result as int, d) =~= set_int_range(n0, s4.len() as int));
        assert(s4.subrange(0, n0) =~= s0) by {
            assert forall|k: int| 0 <= k < n0 implies #[trigger] s4.subrange(0, n0)[k] == s0[k] by {
                assert(s1.subrange(0, n0)[k] == s1[k]);
                assert(s2.subrange(0, s1.len() as int)[k] == s2[k]);
            }
        }
        assert forall|k: int| n0 <= k < s4.len() implies #[trigger] has_fresh_fields(s4[k]) by {
            if k < s1.len() {
                assert(s2.subrange(0, s1.len() as int)[k] == s2[k]);
            }
        }
    }
    result
}

/// The depths of the timed phases, in the order they run: from
/// `K_MIN_TREE_DEPTH` to `K_MAX_TREE_DEPTH` in steps of two.
pub fn construction_depths() -> (v: Vec<i32>)
    ensures
        v@.len() == (K_MAX_TREE_DEPTH - K_MIN_TREE_DEPTH) / 2 + 1,
        forall|k: int| 0 <= k < v@.len() ==> #[trigger] v@[k] == K_MIN_TREE_DEPTH + 2 * k,
{
    let mut v: Vec<i32> = Vec::new();
    let mut d: i32 = K_MIN_TREE_DEPTH;
    while d <= K_MAX_TREE_DEPTH
        invariant
            K_MIN_TREE_DEPTH <= d <= K_MAX_TREE_DEPTH + 2,
            (d - K_MIN_TREE_DEPTH) % 2 == 0,
            v@.len() == (d - K_MIN_TREE_DEPTH) / 2,
            forall|k: int| 0 <= k < v@.len() ==> #[trigger] v@[k] == K_MIN_TREE_DEPTH + 2 * k,
        decreases K_MAX_TREE_DEPTH + 2 - d,
    {
        v.push(d);
        d += 2;
    }
    v
}

/// Allocates the long-lived tree: a node populated to depth `K_LONG_LIVED_TREE_DEPTH`.
/// Returns its root.
pub fn make_long_lived_tree(heap: &mut ObjectHeap) -> (root: usize)
    requires
        old(heap)@.len() + tree_size(K_LONG_LIVED_TREE_DEPTH as nat) <= usize::MAX,
    ensures
        extends(final(heap)@, old(heap)@),
        root == old(heap)@.len(),
        final(heap)@.len() == old(heap)@.len() + tree_size(K_LONG_LIVED_TREE_DEPTH as nat),
        fresh_between(final(heap)@, old(heap)@.len() as int, final(heap)@.len() as int),
        top_down_layout(final(heap)@, root as int, K_LONG_LIVED_TREE_DEPTH as nat, root + 1),
        is_complete(final(heap)@, root as int, K_LONG_LIVED_TREE_DEPTH as nat),
        tree_nodes(final(heap)@, root as int, K_LONG_LIVED_TREE_DEPTH as nat) == set_int_range(
            old(heap)@.len() as int,
            final(heap)@.len() as int,
        ),
{
    let ghost s0 = heap@;
    let long_lived_tree = heap.alloc_node();
    let ghost s1 = heap@;
    Populate(K_LONG_LIVED_TREE_DEPTH, long_lived_tree, heap);
    let ghost s2 = heap@;
    proof {
        let n0 = s0.len() as int;
        assert(tree_nodes(s2, n0, K_LONG_LIVED_TREE_DEPTH as nat) =~= set_int_range(
            n0,
            s2.len() as int,
        ));
        assert(s2.subrange(0, n0) =~= s0) by {
            assert forall|k: int| 0 <= k < n0 implies #[trigger] s2.subrange(0, n0)[k] == s0[k] by {
                assert(s2.subrange(0, s1.len() as int)[k] == s2[k]);
            }
        }
        assert forall|k: int| n0 <= k < s2.len() implies #[trigger] has_fresh_fields(s2[k]) by {
            if k == n0 {
                assert(s2.subrange(0, s1.len() as int)[k] == s2[k]);
            }
        }
    }
    long_lived_tree
}

/// `x` fits an `i32`.
pub open spec fn fits_i32(x: int) -> bool {
    i32::MIN <= x <= i32::MAX
}

/// The peak of live storage the benchmark announces: two long-lived trees'
/// worth of nodes of `node_size` bytes, plus the array of `array_size` bytes,
/// computed in `i32` from left to right.
pub fn live_storage_bytes(node_size: i32, array_size: i32) -> (r: i32)
    requires
        fits_i32(2 * node_size),
        fits_i32(2 * node_size * tree_size(K_LONG_LIVED_TREE_DEPTH as nat)),
        fits_i32(2 * node_size * tree_size(K_LONG_LIVED_TREE_DEPTH as nat) + array_size),
    ensures
        r == 2 * node_size * tree_size(K_LONG_LIVED_TREE_DEPTH as nat) + array_size,
{
    let t = TreeSize(K_LONG_LIVED_TREE_DEPTH);
    2 * node_size * t + array_size
}

/// Index of the root of the `k`-th of a row of trees of `size` nodes that
/// starts at index `start`, when each root is allocated before its subtrees.
pub open spec fn root_before(start: int, k: int, size: int) -> int {
    start + k * size
}

/// The same, when each root is allocated after its subtrees.
pub open spec fn root_after(start: int, k: int, size: int) -> int {
    start + k * size + size - 1
}

proof fn lemma_row_step(start: int, i: int, n: int, size: int)
    requires
        0 <= i < n,
        size >= 1,
    ensures
        start + (i + 1) * size == start + i * size + size,
        start + (i + 1) * size <= start + n * size,
        start + i * size >= start,
{
    assert((i + 1) * size == i * size + size) by (nonlinear_arith);
    assert((i + 1) * size <= n * size) by (nonlinear_arith)
        requires
            i + 1 <= n,
            size >= 1,
    ;
    assert(i * size >= 0) by (nonlinear_arith)
        requires
            i >= 0,
            size >= 1,
    ;
}

/// The timed top-down phase for depth `depth`: `NumIters(depth)` times, allocates
/// a node and populates it into a complete tree of depth `depth`.
pub fn construct_top_down(depth: i32, heap: &mut ObjectHeap)
    requires
        0 <= depth <= 29,
        old(heap)@.len() + num_iters(depth as nat) * tree_size(depth as nat) <= usize::MAX,
    ensures
        ({
            let n0 = old(heap)@.len() as int;
            let ts = tree_size(depth as nat) as int;
            let h = final(heap)@;
            &&& extends(h, old(heap)@)
            &&& h.len() == n0 + num_iters(depth as nat) * ts
            &&& fresh_between(h, n0, h.len() as int)
            &&& forall|k: int|
                0 <= k < num_iters(depth as nat) ==> top_down_layout(
                    h,
                    #[trigger] root_before(n0, k, ts),
                    depth as nat,
                    root_before(n0, k, ts) + 1,
                ) && is_complete(h, root_before(n0, k, ts), depth as nat) && tree_nodes(h, root_before(n0, k, ts), depth as nat) == set_int_range(
                    root_before(n0, k, ts),
                    root_before(n0, k + 1, ts),
                )
        }),
{
    let ghost s0 = heap@;
    let ghost n0 = s0.len() as int;
    let ghost d = depth as nat;
    let ghost ts = tree_size(d) as int;
    proof {
        lemma_tree_size_step(d);
    }
    let iters = NumIters(depth);
    assert(s0.subrange(0, n0) =~= s0);
    let mut i: i32 = 0;
    while i < iters
        invariant
            0 <= i <= iters,
            iters == num_iters(d),
            d == depth as nat,
            0 <= depth <= 29,
            ts == tree_size(d),
            ts >= 1,
            tree_size(0) == 1,
            n0 == s0.len(),
            n0 + iters * ts <= usize::MAX,
            heap@.len() == n0 + i * ts,
            extends(heap@, s0),
            fresh_between(heap@, n0, heap@.len() as int),
            forall|k: int|
                0 <= k < i ==> top_down_layout(heap@, #[trigger] root_before(n0, k, ts), d, root_before(n0, k, ts) + 1)
                    && is_complete(heap@, root_before(n0, k, ts), d)
                    && tree_nodes(heap@, root_before(n0, k, ts), d) == set_int_range(
                    root_before(n0, k, ts),
                    root_before(n0, k + 1, ts),
                ),
        decreases iters - i,
    {
        let ghost h0 = heap@;
        proof {
            lemma_row_step(n0, i as int, iters as int, ts);
        }
        let temp_tree = heap.alloc_node();
        let ghost h1 = heap@;
        Populate(depth, temp_tree, heap);
        let ghost h2 = heap@;
        proof {
            let t = temp_tree as int;
            assert(h1.len() == n0 + i * ts + 1);
            if depth == 0 {
                assert(h2.len() == h1.len());
                assert(ts == 1);
            } else {
                assert(h2.len() == h1.len() + ts - 1);
            }
            assert(h2.len() == n0 + (i + 1) * ts);
            assert(t == root_before(n0, i as int, ts));
            if depth == 0 {
                assert(is_complete(h2, t, 0));
                assert(tree_nodes(h2, t, 0) =~= set_int_range(t, t + 1));
            } else {
                assert(tree_nodes(h2, t, d) =~= set_int_range(t, h2.len() as int));
            }
            assert forall|k: int| 0 <= k < h0.len() implies #[trigger] h2[k] == h0[k] by {
                if depth > 0 {
                    assert(h2.subrange(0, h1.len() as int)[k] == h2[k]);
                }
            }
            if depth == 0 {
                assert(top_down_layout(h2, t, 0, t + 1));
            }
            assert forall|k: int|
                0 <= k < i + 1 implies top_down_layout(h2, #[trigger] root_before(n0, k, ts), d, root_before(n0, k, ts) + 1)
                && is_complete(h2, root_before(n0, k, ts), d)
                && tree_nodes(h2, root_before(n0, k, ts), d) == set_int_range(
                root_before(n0, k, ts),
                root_before(n0, k + 1, ts),
            ) by {
                if k < i {
                    lemma_row_step(n0, k, i as int, ts);
                    let rk = root_before(n0, k, ts);
                    lemma_tree_nodes_in_heap(h0, rk, d);
                    assert forall|j: int| #[trigger] tree_nodes(h0, rk, d).contains(j) implies 0
                        <= j < h2.len() && h0[j].left == h2[j].left && h0[j].right == h2[j].right by {}
                    lemma_tree_frame(h0, h2, rk, d);
                    assert forall|j: int| rk + 1 <= j < rk + 1 + ts - 1 implies j < h0.len() && j < h2.len()
                        && #[trigger] h0[j].left == h2[j].left && h0[j].right == h2[j].right by {
                        lemma_row_step(n0, k, i as int, ts);
                    }
                    lemma_top_down_frame(h0, h2, rk, d, rk + 1);
                }
            }
            assert(h2.subrange(0, n0) =~= s0) by {
                assert forall|k: int| 0 <= k < n0 implies #[trigger] h2.subrange(0, n0)[k] == s0[k] by {
                    assert(h0.subrange(0, n0)[k] == h0[k]);
                }
            }
            assert forall|k: int| n0 <= k < h2.len() implies #[trigger] has_fresh_fields(h2[k]) by {
                if k < h0.len() {
                } else if k == t {
                    if depth > 0 {
                        assert(h2.subrange(0, h1.len() as int)[k] == h2[k]);
                    }
                }
            }
        }
        i = i + 1;
    }
}

/// The timed bottom-up phase for depth `depth`: `NumIters(depth)` times, makes a
/// complete tree of depth `depth` with `MakeTree`.
pub fn construct_bottom_up(depth: i32, heap: &mut ObjectHeap)
    requires
        0 <= depth <= 29,
        old(heap)@.len() + num_iters(depth as nat) * tree_size(depth as nat) <= usize::MAX,
    ensures
        ({
            let n0 = old(heap)@.len() as int;
            let ts = tree_size(depth as nat) as int;
            let h = final(heap)@;
            &&& extends(h, old(heap)@)
            &&& h.len() == n0 + num_iters(depth as nat) * ts
            &&& fresh_between(h, n0, h.len() as int)
            &&& forall|k: int|
                0 <= k < num_iters(depth as nat) ==> bottom_up_layout(
                    h,
                    #[trigger] root_after(n0, k, ts),
                    depth as nat,
                    root_before(n0, k, ts),
                ) && is_complete(h, root_after(n0, k, ts), depth as nat) && tree_nodes(h, root_after(n0, k, ts), depth as nat) == set_int_range(
                    root_before(n0, k, ts),
                    root_before(n0, k + 1, ts),
                )
        }),
{
    let ghost s0 = heap@;
    let ghost n0 = s0.len() as int;
    let ghost d = depth as nat;
    let ghost ts = tree_size(d) as int;
    proof {
        lemma_tree_size_step(d);
    }
    let iters = NumIters(depth);
    assert(s0.subrange(0, n0) =~= s0);
    let mut i: i32 = 0;
    while i < iters
        invariant
            0 <= i <= iters,
            iters == num_iters(d),
            d == depth as nat,
            0 <= depth <= 29,
            ts == tree_size(d),
            ts >= 1,
            tree_size(0) == 1,
            n0 == s0.len(),
            n0 + iters * ts <= usize::MAX,
            heap@.len() == n0 + i * ts,
            extends(heap@, s0),
            fresh_between(heap@, n0, heap@.len() as int),
            forall|k: int|
                0 <= k < i ==> bottom_up_layout(heap@, #[trigger] root_after(n0, k, ts), d, root_before(n0, k, ts))
                    && is_complete(heap@, root_after(n0, k, ts), d)
                    && tree_nodes(heap@, root_after(n0, k, ts), d) == set_int_range(
                    root_before(n0, k, ts),
                    root_before(n0, k + 1, ts),
                ),
        decreases iters - i,
    {
        let ghost h0 = heap@;
        proof {
            lemma_row_step(n0, i as int, iters as int, ts);
        }
        let temp_tree = MakeTree(depth, heap);
        let ghost h2 = heap@;
        proof {
            assert(depth_of(depth as int) == d);
            assert(h2.len() == n0 + (i + 1) * ts);
            assert forall|k: int|
                0 <= k < i + 1 implies bottom_up_layout(h2, #[trigger] root_after(n0, k, ts), d, root_before(n0, k, ts))
                && is_complete(h2, root_after(n0, k, ts), d)
                && tree_nodes(h2, root_after(n0, k, ts), d) == set_int_range(
                root_before(n0, k, ts),
                root_before(n0, k + 1, ts),
            ) by {
                if k < i {
                    lemma_row_step(n0, k, i as int, ts);
                    lemma_tree_extend(h0, h2, root_after(n0, k, ts), d);
                    let lo = root_before(n0, k, ts);
                    assert forall|j: int| lo <= j < lo + ts implies j < h0.len() && j < h2.len()
                        && #[trigger] h0[j].left == h2[j].left && h0[j].right == h2[j].right by {
                        assert(h2.subrange(0, h0.len() as int)[j] == h2[j]);
                    }
                    lemma_bottom_up_frame(h0, h2, root_after(n0, k, ts), d, lo);
                } else {
                    assert(root_after(n0, k, ts) == temp_tree);
                }
            }
            assert(h2.subrange(0, n0) =~= s0) by {
                assert forall|k: int| 0 <= k < n0 implies #[trigger] h2.subrange(0, n0)[k] == s0[k] by {
                    assert(h0.subrange(0, n0)[k] == h0[k]);
                    assert(h2.subrange(0, h0.len() as int)[k] == h2[k]);
                }
            }
            assert forall|k: int| n0 <= k < h2.len() implies #[trigger] has_fresh_fields(h2[k]) by {
                if k < h0.len() {
                    assert(h2.subrange(0, h0.len() as int)[k] == h2[k]);
                }
            }
        }
        i = i + 1;
    }
}

} // verus!
