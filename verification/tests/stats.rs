use immix_bench::heap_stats::{bench_heap_stat, myStat, record_line_hits, HeapStat, SpaceSnapshot};
use immix_bench::mt_gcbench::mt_heap_stat;
use std::collections::HashMap;

fn snapshot() -> SpaceSnapshot {
    SpaceSnapshot {
        used_blocks: vec![1000, 1048],
        usable_blocks: vec![2000],
        bytes_in_block: 96,
        start: 1000,
        log_bytes_in_line: 4,
        bytes_in_line: 16,
        lines_in_block: 6,
        line_is_free: (0..80).map(|i| i % 2 == 0).collect(),
    }
}

fn entries() -> Vec<(usize, bool)> {
    vec![
        (1010, true),
        (1050, true),
        (1100, false),
        (2000, true),
        (1500, false),
        (2096, false),
        (1096, true),
        (1120, false),
    ]
}

fn counts(s: &HeapStat) -> [u64; 9] {
    [
        s.hash_size,
        s.true_found,
        s.true_in_used_blocks,
        s.true_in_usable_blocks,
        s.false_found,
        s.false_in_used_blocks,
        s.false_in_usable_blocks,
        s.false_not_in_free_lines,
        s.false_in_free_lines,
    ]
}

#[test]
fn my_stat_counts_every_holding_block() {
    let st = myStat(&entries(), &snapshot());
    assert_eq!(counts(&st), [8, 4, 5, 1, 4, 2, 1, 2, 2]);
}

#[test]
fn bench_stat_counts_objects_once() {
    let st = bench_heap_stat(&entries(), &snapshot());
    assert_eq!(counts(&st), [8, 4, 3, 1, 4, 2, 1, 3, 5]);
}

#[test]
fn mt_stat_counts_extra_blocks() {
    let st = mt_heap_stat(&entries(), &snapshot());
    assert_eq!(counts(&st.stat), [8, 4, 3, 1, 4, 2, 1, 2, 2]);
    assert_eq!(
        [
            st.true_extra_used_blocks,
            st.true_extra_usable_blocks,
            st.false_extra_used_blocks,
            st.false_extra_usable_blocks
        ],
        [2, 0, 0, 0]
    );
}

#[test]
fn mt_stat_splits_my_stat() {
    let my = myStat(&entries(), &snapshot());
    let mt = mt_heap_stat(&entries(), &snapshot());
    assert_eq!(mt.stat.true_in_used_blocks + mt.true_extra_used_blocks, my.true_in_used_blocks);
    assert_eq!(mt.stat.false_in_used_blocks + mt.false_extra_used_blocks, my.false_in_used_blocks);
}

#[test]
fn stats_of_no_objects_are_zero() {
    let none: Vec<(usize, bool)> = Vec::new();
    assert_eq!(counts(&myStat(&none, &snapshot())), [0; 9]);
    assert_eq!(counts(&bench_heap_stat(&none, &snapshot())), [0; 9]);
}

#[test]
fn block_end_is_inside_the_block() {
    let snap = snapshot();
    let e = vec![(1096usize, true), (1097usize, true)];
    let st = myStat(&e, &snap);
    // 1096 is the last address of the block at 1000 and inside the block at 1048
    assert_eq!(st.true_in_used_blocks, 3);
}

#[test]
fn line_hits_counts_first_blocks() {
    let mut hits: HashMap<usize, u64> = HashMap::new();
    record_line_hits(&entries(), &snapshot(), &mut hits);
    let mut got: Vec<(usize, u64)> = hits.into_iter().collect();
    got.sort();
    assert_eq!(got, vec![(1000, 1), (1048, 1), (1080, 1), (2000, 1)]);
}

#[test]
fn line_hits_add_to_existing_counters() {
    let mut hits: HashMap<usize, u64> = HashMap::new();
    hits.insert(1000, 5);
    hits.insert(7, 2);
    record_line_hits(&entries(), &snapshot(), &mut hits);
    record_line_hits(&vec![(1016usize, true)], &snapshot(), &mut hits);
    assert_eq!(hits.get(&1000), Some(&7));
    assert_eq!(hits.get(&1016), Some(&1));
    assert_eq!(hits.get(&7), Some(&2));
    assert_eq!(hits.len(), 6);
}
