use vstd::prelude::*;
use crate::heap_stats::{
    Entry, HeapStat, SpaceSnapshot, block_holds, count_holding, first_holding, flag, sum_of,
    is_my_stat, is_bench_stat, line_hits_in_block, hits_in, line_hits, counter, counters_added,
};
use crate::mt_gcbench::{SanityStat, is_sanity_stat};

verus! {

/// Whether the mark table entry for the line of `key` says `Free`: entry
/// `(key - start) >> log_bytes_in_line` of `line_is_free`.
pub open spec fn mark_says_free(snap: SpaceSnapshot, key: usize) -> bool {
    snap.line_is_free@[(((key - snap.start) as usize) >> snap.log_bytes_in_line) as int]
}

/// Some block of `blocks` holds `key`: it starts at or below `key` and ends at or above it.
pub open spec fn some_block_has(blocks: Seq<usize>, bytes: usize, key: usize) -> bool {
    exists|j: int| 0 <= j < blocks.len() && blocks[j] <= key && key <= blocks[j] + bytes
}

/// A block of `bytes` bytes that starts at `b` holds `key`, ends included.
pub open spec fn has_key(bytes: usize, key: usize) -> spec_fn(usize) -> bool {
    |b: usize| b <= key && key <= b + bytes
}

/// The blocks of `blocks` that hold `key`, in order.
pub open spec fn blocks_having(blocks: Seq<usize>, bytes: usize, key: usize) -> Seq<usize> {
    blocks.filter(has_key(bytes, key))
}

/// `j` is the first index of `blocks` whose block holds `key`.
pub open spec fn is_first_having(blocks: Seq<usize>, bytes: usize, key: usize, j: int) -> bool {
    &&& 0 <= j < blocks.len()
    &&& blocks[j] <= key && key <= blocks[j] + bytes
    &&& forall|k: int| 0 <= k < j ==> !(blocks[k] <= key && key <= #[trigger] blocks[k] + bytes)
}

/// Start address of line `i` of the block at `b`, for lines of `bytes_in_line` bytes.
pub open spec fn line_start(b: usize, i: int, bytes_in_line: usize) -> int {
    b + i * bytes_in_line
}

/// Address `a` starts a line of the first block of `blocks` that holds `key`
/// (line `i`, for some `i < lines_in_block`), and that line holds `key`, ends included.
pub open spec fn hit_in_first_block(blocks: Seq<usize>, snap: SpaceSnapshot, key: usize, a: usize) -> bool {
    exists|j: int, i: int|
        #[trigger] is_first_having(blocks, snap.bytes_in_block, key, j) && 0 <= i < snap.lines_in_block
            && #[trigger] line_start(blocks[j], i, snap.bytes_in_line) == a && a <= key && key <= a
            + snap.bytes_in_line
}

proof fn lemma_sum_push(s: Seq<Entry>, e: Entry, f: spec_fn(Entry) -> nat)
    ensures
        sum_of(s.push(e), f) == sum_of(s, f) + f(e),
{
    assert(s.push(e).drop_last() =~= s);
}

proof fn lemma_some_block(blocks: Seq<usize>, bytes: usize, key: usize)
    ensures
        (count_holding(blocks, bytes, key) > 0) == some_block_has(blocks, bytes, key),
    decreases blocks.len(),
{
    if blocks.len() > 0 {
        let rest = blocks.drop_first();
        lemma_some_block(rest, bytes, key);
        if some_block_has(rest, bytes, key) {
            let j = choose|j: int| 0 <= j < rest.len() && rest[j] <= key && key <= rest[j] + bytes;
            assert(blocks[j + 1] == rest[j]);
        }
        if some_block_has(blocks, bytes, key) && !block_holds(blocks[0], bytes, key) {
            let j = choose|j: int| 0 <= j < blocks.len() && blocks[j] <= key && key <= blocks[j] + bytes;
            assert(rest[j - 1] == blocks[j]);
        }
    }
}

proof fn lemma_count_is_filter(blocks: Seq<usize>, bytes: usize, key: usize)
    ensures
        count_holding(blocks, bytes, key) == blocks_having(blocks, bytes, key).len(),
    decreases blocks.len(),
{
    let pred = has_key(bytes, key);
    if blocks.len() == 0 {
        reveal(Seq::filter);
    } else {
        let rest = blocks.drop_first();
        lemma_count_is_filter(rest, bytes, key);
        let head = seq![blocks[0]];
        assert(blocks =~= head + rest);
        Seq::filter_distributes_over_add(head, rest, pred);
        assert(head.drop_last() =~= Seq::<usize>::empty());
        assert(head.last() == blocks[0]);
        reveal_with_fuel(Seq::filter, 2);
        assert(head.filter(pred).len() == flag(block_holds(blocks[0], bytes, key)));
    }
}

proof fn lemma_first_raw(blocks: Seq<usize>, bytes: usize, key: usize)
    ensures
        first_holding(blocks, bytes, key) is Some ==> exists|j: int|
            is_first_having(blocks, bytes, key, j) && blocks[j] == first_holding(blocks, bytes, key).unwrap(),
        forall|j: int|
            is_first_having(blocks, bytes, key, j) ==> first_holding(blocks, bytes, key) == Some(
                blocks[j],
            ),
    decreases blocks.len(),
{
    if blocks.len() > 0 {
        let rest = blocks.drop_first();
        lemma_first_raw(rest, bytes, key);
        if block_holds(blocks[0], bytes, key) {
            assert(is_first_having(blocks, bytes, key, 0));
            assert forall|j: int| is_first_having(blocks, bytes, key, j) implies first_holding(
                blocks,
                bytes,
                key,
            ) == Some(blocks[j]) by {
                if j > 0 {
                    assert(!(blocks[0] <= key && key <= blocks[0] + bytes));
                }
            }
        } else {
            if first_holding(rest, bytes, key) is Some {
                let j = choose|j: int|
                    is_first_having(rest, bytes, key, j) && rest[j] == first_holding(rest, bytes, key).unwrap();
                assert forall|k: int| 0 <= k < j + 1 implies !(blocks[k] <= key && key <= #[trigger] blocks[k]
                    + bytes) by {
                    if k > 0 {
                        assert(blocks[k] == rest[k - 1]);
                    }
                }
                assert(is_first_having(blocks, bytes, key, j + 1));
            }
            assert forall|j: int| is_first_having(blocks, bytes, key, j) implies first_holding(
                blocks,
                bytes,
                key,
            ) == Some(blocks[j]) by {
                assert(j > 0);
                assert forall|k: int| 0 <= k < j - 1 implies !(rest[k] <= key && key <= #[trigger] rest[k]
                    + bytes) by {
                    assert(rest[k] == blocks[k + 1]);
                }
                assert(is_first_having(rest, bytes, key, j - 1));
            }
        }
    }
}

proof fn lemma_hits_in_block_raw(b: usize, lb: usize, n: nat, key: usize, a: usize)
    requires
        lb > 0,
    ensures
        line_hits_in_block(b, lb, n, key, a) == flag(
            exists|i: int| 0 <= i < n && #[trigger] line_start(b, i, lb) == a && a <= key && key <= a + lb,
        ),
    decreases n,
{
    if n > 0 {
        let m = (n - 1) as nat;
        lemma_hits_in_block_raw(b, lb, m, key, a);
        if exists|i: int| 0 <= i < m && #[trigger] line_start(b, i, lb) == a && a <= key && key <= a + lb {
            let i = choose|i: int| 0 <= i < m && #[trigger] line_start(b, i, lb) == a && a <= key && key <= a + lb;
            if b + m * lb == a {
                assert(i * lb == m * lb);
                assert(i == m) by (nonlinear_arith)
                    requires
                        i * lb == m * lb,
                        lb > 0,
                ;
            }
        }
        if b + m * lb == a && a <= key && key <= a + lb {
            assert(0 <= m < n && line_start(b, m as int, lb) == a && a <= key && key <= a + lb);
        }
        if exists|i: int| 0 <= i < n && #[trigger] line_start(b, i, lb) == a && a <= key && key <= a + lb {
            let i = choose|i: int| 0 <= i < n && #[trigger] line_start(b, i, lb) == a && a <= key && key <= a + lb;
            if i < m {
                assert(0 <= i < m && line_start(b, i, lb) == a && a <= key && key <= a + lb);
            }
        }
    }
}

proof fn lemma_hits_in_raw(blocks: Seq<usize>, snap: SpaceSnapshot, key: usize, a: usize)
    requires
        snap.bytes_in_line > 0,
    ensures
        hits_in(first_holding(blocks, snap.bytes_in_block, key), snap, key, a) == flag(
            hit_in_first_block(blocks, snap, key, a),
        ),
{
    let bb = snap.bytes_in_block;
    let lb = snap.bytes_in_line;
    let n = snap.lines_in_block as nat;
    lemma_first_raw(blocks, bb, key);
    match first_holding(blocks, bb, key) {
        Some(b) => {
            lemma_hits_in_block_raw(b, lb, n, key, a);
            let j = choose|j: int| is_first_having(blocks, bb, key, j) && blocks[j] == b;
            if exists|i: int| 0 <= i < n && #[trigger] line_start(b, i, lb) == a && a <= key && key <= a + lb {
                let i = choose|i: int| 0 <= i < n && #[trigger] line_start(b, i, lb) == a && a <= key && key <= a + lb;
                assert(is_first_having(blocks, bb, key, j) && 0 <= i < snap.lines_in_block
                    && line_start(blocks[j], i, lb) == a && a <= key && key <= a + lb);
            }
            if hit_in_first_block(blocks, snap, key, a) {
                let (j2, i) = choose|j2: int, i: int|
                    is_first_having(blocks, bb, key, j2) && 0 <= i < snap.lines_in_block
                        && line_start(blocks[j2], i, lb) == a && a <= key && key <= a + lb;
                assert(first_holding(blocks, bb, key) == Some(blocks[j2]));
                assert(0 <= i < n && line_start(b, i, lb) == a && a <= key && key <= a + lb);
            }
        },
        None => {
            if hit_in_first_block(blocks, snap, key, a) {
                let (j2, i) = choose|j2: int, i: int|
                    is_first_having(blocks, bb, key, j2) && 0 <= i < snap.lines_in_block
                        && line_start(blocks[j2], i, lb) == a && a <= key && key <= a + lb;
                assert(first_holding(blocks, bb, key) == Some(blocks[j2]));
            }
        },
    }
}

/// Recording one more object in the line-hit counters: an object with a clear
/// flag adds nothing; an object with its flag set adds one at the start address
/// of each line that holds it, ends included, in the first used block and in
/// the first usable block that hold it (lines of a positive size). Two calls of
/// `record_line_hits` from the same counters, on `entries` and on `entries`
/// with `e` appended, differ exactly so.
pub proof fn lemma_record_line_hits_step(
    m0: Map<usize, u64>,
    m1: Map<usize, u64>,
    m2: Map<usize, u64>,
    entries: Seq<Entry>,
    e: Entry,
    snap: SpaceSnapshot,
)
    requires
        snap.bytes_in_line > 0,
        counters_added(m1, m0, |a: usize| line_hits(entries, snap, a)),
        counters_added(m2, m0, |a: usize| line_hits(entries.push(e), snap, a)),
    ensures
        forall|a: usize|
            #[trigger] counter(m2, a) == counter(m1, a) + flag(
                e.1 && hit_in_first_block(snap.used_blocks@, snap, e.0, a),
            ) + flag(e.1 && hit_in_first_block(snap.usable_blocks@, snap, e.0, a)),
{
    assert forall|a: usize|
        #[trigger] counter(m2, a) == counter(m1, a) + flag(
            e.1 && hit_in_first_block(snap.used_blocks@, snap, e.0, a),
        ) + flag(e.1 && hit_in_first_block(snap.usable_blocks@, snap, e.0, a)) by {
        assert(entries.push(e).drop_last() =~= entries);
        assert(counter(m1, a) == counter(m0, a) + line_hits(entries, snap, a));
        assert(counter(m2, a) == counter(m0, a) + line_hits(entries.push(e), snap, a));
        lemma_hits_in_raw(snap.used_blocks@, snap, e.0, a);
        lemma_hits_in_raw(snap.usable_blocks@, snap, e.0, a);
    }
}

/// Recording no objects leaves the counters as they were.
pub proof fn lemma_record_no_line_hits(m0: Map<usize, u64>, m1: Map<usize, u64>, snap: SpaceSnapshot)
    requires
        counters_added(m1, m0, |a: usize| line_hits(Seq::<Entry>::empty(), snap, a)),
    ensures
        m1 == m0,
{
    assert forall|a: usize| #[trigger] m1.contains_key(a) == m0.contains_key(a) by {}
    assert forall|a: usize| m1.contains_key(a) implies #[trigger] m1[a] == m0[a] by {
        assert(counter(m1, a) == counter(m0, a));
    }
    assert(m1 =~= m0);
}

/// The whole-heap report of no objects is all zeros.
pub proof fn lemma_my_stat_empty(st: HeapStat, snap: SpaceSnapshot)
    requires
        is_my_stat(st, Seq::<Entry>::empty(), snap),
    ensures
        st.hash_size == 0 && st.true_found == 0 && st.true_in_used_blocks == 0
            && st.true_in_usable_blocks == 0 && st.false_found == 0 && st.false_in_used_blocks == 0
            && st.false_in_usable_blocks == 0 && st.false_not_in_free_lines == 0
            && st.false_in_free_lines == 0,
{
}

/// One more object in the whole-heap report: it adds one to the objects, one to
/// the count of its flag, the number of used and of usable blocks that hold it
/// to the block counts of its flag, and, when its flag is clear, one to the
/// objects in a `Free` line when the mark table entry of its line says `Free`
/// and one to the objects not in a `Free` line otherwise.
pub proof fn lemma_my_stat_step(
    st1: HeapStat,
    st2: HeapStat,
    entries: Seq<Entry>,
    e: Entry,
    snap: SpaceSnapshot,
)
    requires
        is_my_stat(st1, entries, snap),
        is_my_stat(st2, entries.push(e), snap),
    ensures
        st2.hash_size == st1.hash_size + 1,
        st2.true_found == st1.true_found + flag(e.1),
        st2.false_found == st1.false_found + flag(!e.1),
        st2.true_in_used_blocks == st1.true_in_used_blocks + if e.1 {
            blocks_having(snap.used_blocks@, snap.bytes_in_block, e.0).len()
        } else {
            0
        },
        st2.true_in_usable_blocks == st1.true_in_usable_blocks + if e.1 {
            blocks_having(snap.usable_blocks@, snap.bytes_in_block, e.0).len()
        } else {
            0
        },
        st2.false_in_used_blocks == st1.false_in_used_blocks + if !e.1 {
            blocks_having(snap.used_blocks@, snap.bytes_in_block, e.0).len()
        } else {
            0
        },
        st2.false_in_usable_blocks == st1.false_in_usable_blocks + if !e.1 {
            blocks_having(snap.usable_blocks@, snap.bytes_in_block, e.0).len()
        } else {
            0
        },
        st2.false_in_free_lines == st1.false_in_free_lines + flag(!e.1 && mark_says_free(snap, e.0)),
        st2.false_not_in_free_lines == st1.false_not_in_free_lines + flag(
            !e.1 && !mark_says_free(snap, e.0),
        ),
{
    assert(entries.push(e).drop_last() =~= entries);
    lemma_count_is_filter(snap.used_blocks@, snap.bytes_in_block, e.0);
    lemma_count_is_filter(snap.usable_blocks@, snap.bytes_in_block, e.0);
}

/// The benchmark's report of no objects is all zeros.
pub proof fn lemma_bench_stat_empty(st: HeapStat, snap: SpaceSnapshot)
    requires
        is_bench_stat(st, Seq::<Entry>::empty(), snap),
    ensures
        st.hash_size == 0 && st.true_found == 0 && st.true_in_used_blocks == 0
            && st.true_in_usable_blocks == 0 && st.false_found == 0 && st.false_in_used_blocks == 0
            && st.false_in_usable_blocks == 0 && st.false_not_in_free_lines == 0
            && st.false_in_free_lines == 0,
{
}

/// One more object in the benchmark's report: it adds one to the objects, one
/// to the count of its flag, one to the used-block and to the usable-block
/// count of its flag when some such block holds it, and, whatever its flag,
/// one to the objects in a `Free` line when the mark table entry of its line
/// says `Free` and one to the objects not in a `Free` line otherwise.
pub proof fn lemma_bench_stat_step(
    st1: HeapStat,
    st2: HeapStat,
    entries: Seq<Entry>,
    e: Entry,
    snap: SpaceSnapshot,
)
    requires
        is_bench_stat(st1, entries, snap),
        is_bench_stat(st2, entries.push(e), snap),
    ensures
        st2.hash_size == st1.hash_size + 1,
        st2.true_found == st1.true_found + flag(e.1),
        st2.false_found == st1.false_found + flag(!e.1),
        st2.true_in_used_blocks == st1.true_in_used_blocks + flag(
            e.1 && some_block_has(snap.used_blocks@, snap.bytes_in_block, e.0),
        ),
        st2.true_in_usable_blocks == st1.true_in_usable_blocks + flag(
            e.1 && some_block_has(snap.usable_blocks@, snap.bytes_in_block, e.0),
        ),
        st2.false_in_used_blocks == st1.false_in_used_blocks + flag(
            !e.1 && some_block_has(snap.used_blocks@, snap.bytes_in_block, e.0),
        ),
        st2.false_in_usable_blocks == st1.false_in_usable_blocks + flag(
            !e.1 && some_block_has(snap.usable_blocks@, snap.bytes_in_block, e.0),
        ),
        st2.false_in_free_lines == st1.false_in_free_lines + flag(mark_says_free(snap, e.0)),
        st2.false_not_in_free_lines == st1.false_not_in_free_lines + flag(!mark_says_free(snap, e.0)),
{
    assert(entries.push(e).drop_last() =~= entries);
    lemma_some_block(snap.used_blocks@, snap.bytes_in_block, e.0);
    lemma_some_block(snap.usable_blocks@, snap.bytes_in_block, e.0);
}

/// The multi-threaded report of no objects is all zeros.
pub proof fn lemma_sanity_stat_empty(st: SanityStat, snap: SpaceSnapshot)
    requires
        is_sanity_stat(st, Seq::<Entry>::empty(), snap),
    ensures
        st.stat.hash_size == 0 && st.stat.true_found == 0 && st.stat.true_in_used_blocks == 0
            && st.stat.true_in_usable_blocks == 0 && st.stat.false_found == 0
            && st.stat.false_in_used_blocks == 0 && st.stat.false_in_usable_blocks == 0
            && st.stat.false_not_in_free_lines == 0 && st.stat.false_in_free_lines == 0
            && st.true_extra_used_blocks == 0 && st.true_extra_usable_blocks == 0
            && st.false_extra_used_blocks == 0 && st.false_extra_usable_blocks == 0,
{
}

/// One more object in the multi-threaded report: as in the benchmark's report
/// for the objects and the blocks, with every holding block beyond the first
/// added to the extra count of its flag and kind of block, and, when its flag is
/// clear, one to the objects in a `Free` line when the mark table entry of its
/// line says `Free` and one to the objects not in a `Free` line otherwise.
pub proof fn lemma_sanity_stat_step(
    st1: SanityStat,
    st2: SanityStat,
    entries: Seq<Entry>,
    e: Entry,
    snap: SpaceSnapshot,
)
    requires
        is_sanity_stat(st1, entries, snap),
        is_sanity_stat(st2, entries.push(e), snap),
    ensures
        ({
            let used = blocks_having(snap.used_blocks@, snap.bytes_in_block, e.0).len();
            let usable = blocks_having(snap.usable_blocks@, snap.bytes_in_block, e.0).len();
            &&& st2.stat.hash_size == st1.stat.hash_size + 1
            &&& st2.stat.true_found == st1.stat.true_found + flag(e.1)
            &&& st2.stat.false_found == st1.stat.false_found + flag(!e.1)
            &&& st2.stat.true_in_used_blocks == st1.stat.true_in_used_blocks + flag(e.1 && used > 0)
            &&& st2.stat.true_in_usable_blocks == st1.stat.true_in_usable_blocks + flag(
                e.1 && usable > 0,
            )
            &&& st2.stat.false_in_used_blocks == st1.stat.false_in_used_blocks + flag(!e.1 && used > 0)
            &&& st2.stat.false_in_usable_blocks == st1.stat.false_in_usable_blocks + flag(
                !e.1 && usable > 0,
            )
            &&& st2.true_extra_used_blocks == st1.true_extra_used_blocks + if e.1 && used > 0 {
                used - 1
            } else {
                0
            }
            &&& st2.true_extra_usable_blocks == st1.true_extra_usable_blocks + if e.1 && usable > 0 {
                usable - 1
            } else {
                0
            }
            &&& st2.false_extra_used_blocks == st1.false_extra_used_blocks + if !e.1 && used > 0 {
                used - 1
            } else {
                0
            }
            &&& st2.false_extra_usable_blocks == st1.false_extra_usable_blocks + if !e.1 && usable
                > 0 {
                usable - 1
            } else {
                0
            }
            &&& st2.stat.false_in_free_lines == st1.stat.false_in_free_lines + flag(
                !e.1 && mark_says_free(snap, e.0),
            )
            &&& st2.stat.false_not_in_free_lines == st1.stat.false_not_in_free_lines + flag(
                !e.1 && !mark_says_free(snap, e.0),
            )
        }),
{
    assert(entries.push(e).drop_last() =~= entries);
    lemma_count_is_filter(snap.used_blocks@, snap.bytes_in_block, e.0);
    lemma_count_is_filter(snap.usable_blocks@, snap.bytes_in_block, e.0);
}

} // verus!
