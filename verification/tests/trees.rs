use immix_bench::gcbench::{
    construct_bottom_up, construct_top_down, construction_depths, live_storage_bytes,
    make_long_lived_tree, MakeTree, NumIters, Populate, PrintDiagnostics, TreeSize,
    K_LONG_LIVED_TREE_DEPTH, K_STRETCH_TREE_DEPTH,
};
use immix_bench::object_heap::{ObjectHeap, NODE_HEADER};

/// Counts the nodes of the tree under `root` and checks that it is complete of depth `d`.
fn complete_size(heap: &ObjectHeap, root: usize, d: i32) -> usize {
    let n = heap.node(root);
    assert_eq!(n.hdr, NODE_HEADER);
    if d <= 0 {
        assert!(n.left.is_none() && n.right.is_none());
        1
    } else {
        1 + complete_size(heap, n.left.unwrap(), d - 1) + complete_size(heap, n.right.unwrap(), d - 1)
    }
}

#[test]
fn tree_size_values() {
    assert_eq!(TreeSize(-1), 0);
    assert_eq!(TreeSize(0), 1);
    assert_eq!(TreeSize(4), 31);
    assert_eq!(TreeSize(K_STRETCH_TREE_DEPTH), 524287);
    assert_eq!(TreeSize(29), (1 << 30) - 1);
}

#[test]
fn tree_size_is_two_subtrees_and_a_root() {
    for d in 1..29 {
        assert_eq!(TreeSize(d), 2 * TreeSize(d - 1) + 1);
    }
}

#[test]
fn num_iters_values() {
    let expected = [33824, 8256, 2052, 512, 128, 32, 8];
    for (k, d) in (4..=16).step_by(2).enumerate() {
        assert_eq!(NumIters(d), expected[k]);
    }
    assert_eq!(NumIters(0), 2 * 524287);
    assert_eq!(NumIters(29), 0);
}

#[test]
fn num_iters_balances_phases() {
    for d in 0..=29 {
        let t = TreeSize(d) as i64;
        let n = NumIters(d) as i64;
        let budget = 2 * TreeSize(K_STRETCH_TREE_DEPTH) as i64;
        assert!(n * t <= budget);
        assert!(budget < (n + 1) * t);
    }
}

#[test]
fn make_tree_builds_complete_tree() {
    let mut heap = ObjectHeap::new();
    let root = MakeTree(3, &mut heap);
    assert_eq!(heap.len(), 15);
    assert_eq!(root, 14);
    assert_eq!(complete_size(&heap, root, 3), 15);
}

#[test]
fn make_tree_nonpositive_depth_is_one_node() {
    let mut heap = ObjectHeap::new();
    let a = MakeTree(0, &mut heap);
    let b = MakeTree(-5, &mut heap);
    assert_eq!((a, b), (0, 1));
    assert_eq!(heap.len(), 2);
    assert_eq!(complete_size(&heap, b, 0), 1);
}

#[test]
fn make_tree_keeps_earlier_nodes() {
    let mut heap = ObjectHeap::new();
    let first = MakeTree(2, &mut heap);
    let before: Vec<_> = (0..heap.len()).map(|k| heap.node(k)).collect();
    let second = MakeTree(2, &mut heap);
    assert_eq!(heap.len(), 14);
    assert_eq!(second, 13);
    for (k, n) in before.iter().enumerate() {
        let m = heap.node(k);
        assert_eq!((n.left, n.right), (m.left, m.right));
    }
    assert_eq!(complete_size(&heap, first, 2), 7);
    assert_eq!(complete_size(&heap, second, 2), 7);
}

#[test]
fn populate_builds_from_the_root() {
    let mut heap = ObjectHeap::new();
    let root = heap.alloc_node();
    Populate(3, root, &mut heap);
    assert_eq!(heap.len(), 15);
    assert_eq!(complete_size(&heap, root, 3), 15);
    let r = heap.node(root);
    assert_eq!((r.left, r.right), (Some(1), Some(2)));
}

#[test]
fn populate_nonpositive_depth_changes_nothing() {
    let mut heap = ObjectHeap::new();
    let root = heap.alloc_node();
    Populate(0, root, &mut heap);
    Populate(-3, root, &mut heap);
    assert_eq!(heap.len(), 1);
    assert!(heap.node(root).left.is_none());
}

#[test]
fn long_lived_tree_has_tree_size_nodes() {
    let mut heap = ObjectHeap::new();
    let root = make_long_lived_tree(&mut heap);
    assert_eq!(root, 0);
    assert_eq!(heap.len(), TreeSize(K_LONG_LIVED_TREE_DEPTH) as usize);
    assert_eq!(complete_size(&heap, root, K_LONG_LIVED_TREE_DEPTH), 131071);
}

#[test]
fn top_and_bottom_phases_allocate_the_same() {
    let mut top = ObjectHeap::new();
    construct_top_down(14, &mut top);
    let mut bottom = ObjectHeap::new();
    construct_bottom_up(14, &mut bottom);
    let expected = (NumIters(14) * TreeSize(14)) as usize;
    assert_eq!(top.len(), expected);
    assert_eq!(bottom.len(), expected);
    let t = TreeSize(14) as usize;
    for k in 0..NumIters(14) as usize {
        assert_eq!(complete_size(&top, k * t, 14), t);
        assert_eq!(complete_size(&bottom, k * t + t - 1, 14), t);
    }
}

#[test]
fn depth_zero_phase_allocates_single_nodes() {
    let mut heap = ObjectHeap::new();
    let _ = MakeTree(1, &mut heap);
    construct_top_down(0, &mut heap);
    assert_eq!(heap.len(), 3 + NumIters(0) as usize);
}

#[test]
fn construction_depths_values() {
    assert_eq!(construction_depths(), vec![4, 6, 8, 10, 12, 14, 16]);
}

#[test]
fn live_storage_values() {
    assert_eq!(live_storage_bytes(24, 4000000), 10291408);
    assert_eq!(live_storage_bytes(0, 7), 7);
}

#[test]
fn print_diagnostics_prints_nothing() {
    PrintDiagnostics();
}

#[test]
fn populate_nonpositive_depth_ignores_the_node() {
    let mut heap = ObjectHeap::new();
    Populate(0, 12345, &mut heap);
    Populate(-7, usize::MAX, &mut heap);
    assert_eq!(heap.len(), 0);
}

#[test]
fn populate_allocates_children_before_subtrees() {
    let mut heap = ObjectHeap::new();
    let root = heap.alloc_node();
    Populate(2, root, &mut heap);
    let kids = |k: usize| {
        let n = heap.node(k);
        (n.left, n.right)
    };
    assert_eq!(kids(0), (Some(1), Some(2)));
    assert_eq!(kids(1), (Some(3), Some(4)));
    assert_eq!(kids(2), (Some(5), Some(6)));
    for k in 3..7 {
        assert_eq!(kids(k), (None, None));
    }
}

#[test]
fn make_tree_allocates_in_post_order() {
    let mut heap = ObjectHeap::new();
    let root = MakeTree(2, &mut heap);
    assert_eq!(root, 6);
    let kids = |k: usize| {
        let n = heap.node(k);
        (n.left, n.right)
    };
    assert_eq!(kids(6), (Some(2), Some(5)));
    assert_eq!(kids(2), (Some(0), Some(1)));
    assert_eq!(kids(5), (Some(3), Some(4)));
    for k in [0, 1, 3, 4] {
        assert_eq!(kids(k), (None, None));
    }
}
