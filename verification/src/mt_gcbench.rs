use vstd::prelude::*;
use crate::gcbench::{fits_i32, K_LONG_LIVED_TREE_DEPTH};
use crate::object_heap::tree_size;
use crate::heap_stats::{
    Entry, HeapStat, SpaceSnapshot, count_holding, sum_of, marked, marked_in_some_block,
    marked_on_line, snapshot_fits, lines_known, block_counts_fit, lemma_sum_take_step,
    lemma_count_step, count_blocks_holding, line_free, is_my_stat, is_bench_stat,
    marked_in_blocks, lemma_sum_add,
};

pub use crate::gcbench::{TreeSize, NumIters, MakeTree, PrintDiagnostics};

verus! {

/// Number of threads when none is given on the command line.
pub const DEFAULT_THREADS: i32 = 8;

/// The value of a string of decimal digits.
pub open spec fn digits_value(s: Seq<char>) -> int
    decreases s.len(),
{
    if s.len() == 0 {
        0
    } else {
        digits_value(s.drop_last()) * 10 + (s.last() as int - '0' as int)
    }
}

/// Every character of `s` is a decimal digit.
pub open spec fn all_digits(s: Seq<char>) -> bool {
    forall|k: int| 0 <= k < s.len() ==> '0' <= #[trigger] s[k] <= '9'
}

/// The `i32` that `s` spells in decimal: an optional `+` or `-`, then one or
/// more digits and nothing else; `None` where `s` is not of that form or its
/// value does not fit an `i32`.
pub open spec fn decimal_i32(s: Seq<char>) -> Option<i32> {
    let signed = s.len() > 0 && (s[0] == '-' || s[0] == '+');
    let digits = if signed {
        s.drop_first()
    } else {
        s
    };
    let v = if signed && s[0] == '-' {
        -digits_value(digits)
    } else {
        digits_value(digits)
    };
    if digits.len() == 0 || !all_digits(digits) || !fits_i32(v) {
        None
    } else {
        Some(v as i32)
    }
}

/// `i32::from_str_radix(s, 10)` with the error dropped. Its documentation: the
/// string is an optional `+` or `-` sign followed by only digits (here `0`-`9`);
/// anything else, an empty string, a sign alone, or a value out of range is an error.
#[verifier::external_body]
fn parse_decimal_i32(s: &str) -> (r: Option<i32>)
    ensures
        r == decimal_i32(s@),
{
    i32::from_str_radix(s, 10).ok()
}

/// The number of threads the multi-threaded benchmark runs: the first
/// argument after the program's name, read in decimal, or `DEFAULT_THREADS`
/// when there is none. `None` when that argument is not a decimal `i32`.
pub fn thread_count(args: &Vec<String>) -> (r: Option<i32>)
    ensures
        args@.len() > 1 ==> r == decimal_i32(args@[1]@),
        args@.len() <= 1 ==> r == Some(DEFAULT_THREADS),
{
    if args.len() > 1 {
        parse_decimal_i32(args[1].as_str())
    } else {
        Some(DEFAULT_THREADS)
    }
}

/// The peak of live storage the multi-threaded benchmark announces: two
/// long-lived trees' worth of nodes of `node_size` bytes per thread, plus the
/// array of `array_size` bytes, computed in `i32` from left to right.
pub fn live_storage_bytes_mt(node_size: i32, n_threads: i32, array_size: i32) -> (r: i32)
    requires
        fits_i32(2 * node_size),
        fits_i32(2 * node_size * n_threads),
        fits_i32(2 * node_size * n_threads * tree_size(K_LONG_LIVED_TREE_DEPTH as nat)),
        fits_i32(2 * node_size * n_threads * tree_size(K_LONG_LIVED_TREE_DEPTH as nat) + array_size),
    ensures
        r == 2 * node_size * n_threads * tree_size(K_LONG_LIVED_TREE_DEPTH as nat) + array_size,
{
    let t = TreeSize(K_LONG_LIVED_TREE_DEPTH);
    2 * node_size * n_threads * t + array_size
}

/// The counts of the multi-threaded benchmark's report: the benchmark's own
/// counts, and for each kind of block how many holding blocks there were
/// beyond the first, which a sound heap never has.
pub struct SanityStat {
    pub stat: HeapStat,
    pub true_extra_used_blocks: u64,
    pub true_extra_usable_blocks: u64,
    pub false_extra_used_blocks: u64,
    pub false_extra_usable_blocks: u64,
}

/// Counts, for each object whose flag is `m`, the blocks of `blocks` beyond the first that hold it.
pub open spec fn marked_extra_blocks(m: bool, blocks: Seq<usize>, bytes: usize) -> spec_fn(Entry) -> nat {
    |e: Entry|
        if e.1 == m && count_holding(blocks, bytes, e.0) > 0 {
            (count_holding(blocks, bytes, e.0) - 1) as nat
        } else {
            0
        }
}

/// `st` holds the counts of the multi-threaded report over `entries`: an object
/// is counted once against a kind of block when some block of it holds the
/// object, each further holding block counts as extra, and only objects with
/// a clear flag are looked up in the line mark table.
pub open spec fn is_sanity_stat(st: SanityStat, entries: Seq<Entry>, snap: SpaceSnapshot) -> bool {
    let used = snap.used_blocks@;
    let usable = snap.usable_blocks@;
    let bb = snap.bytes_in_block;
    &&& st.stat.hash_size == entries.len()
    &&& st.stat.true_found == sum_of(entries, marked(true))
    &&& st.stat.true_in_used_blocks == sum_of(entries, marked_in_some_block(true, used, bb))
    &&& st.stat.true_in_usable_blocks == sum_of(entries, marked_in_some_block(true, usable, bb))
    &&& st.stat.false_found == sum_of(entries, marked(false))
    &&& st.stat.false_in_used_blocks == sum_of(entries, marked_in_some_block(false, used, bb))
    &&& st.stat.false_in_usable_blocks == sum_of(entries, marked_in_some_block(false, usable, bb))
    &&& st.stat.false_not_in_free_lines == sum_of(entries, marked_on_line(false, false, snap))
    &&& st.stat.false_in_free_lines == sum_of(entries, marked_on_line(false, true, snap))
    &&& st.true_extra_used_blocks == sum_of(entries, marked_extra_blocks(true, used, bb))
    &&& st.true_extra_usable_blocks == sum_of(entries, marked_extra_blocks(true, usable, bb))
    &&& st.false_extra_used_blocks == sum_of(entries, marked_extra_blocks(false, used, bb))
    &&& st.false_extra_usable_blocks == sum_of(entries, marked_extra_blocks(false, usable, bb))
}

/// The counts of the multi-threaded benchmark's report over the recorded
/// objects `entries`: for each object, by its flag, whether some used block
/// and some usable block holds it and how many more do; for an object with a
/// clear flag, whether its line is marked `Free`.
pub fn mt_heap_stat(entries: &Vec<Entry>, snap: &SpaceSnapshot) -> (st: SanityStat)
    requires
        snapshot_fits(*snap),
        lines_known(entries@, *snap, false),
        block_counts_fit(entries@, *snap),
    ensures
        is_sanity_stat(st, entries@, *snap),
{
    let mut st = SanityStat {
        stat: HeapStat {
            hash_size: 0,
            true_found: 0,
            true_in_used_blocks: 0,
            true_in_usable_blocks: 0,
            false_found: 0,
            false_in_used_blocks: 0,
            false_in_usable_blocks: 0,
            false_not_in_free_lines: 0,
            false_in_free_lines: 0,
        },
        true_extra_used_blocks: 0,
        true_extra_usable_blocks: 0,
        false_extra_used_blocks: 0,
        false_extra_usable_blocks: 0,
    };
    let ghost used = snap.used_blocks@;
    let ghost usable = snap.usable_blocks@;
    let ghost bb = snap.bytes_in_block;
    let mut i: usize = 0;
    while i < entries.len()
        invariant
            i <= entries@.len(),
            snapshot_fits(*snap),
            lines_known(entries@, *snap, false),
            block_counts_fit(entries@, *snap),
            used == snap.used_blocks@,
            usable == snap.usable_blocks@,
            bb == snap.bytes_in_block,
            is_sanity_stat(st, entries@.take(i as int), *snap),
            st.stat.true_found + st.stat.false_found == i,
            st.stat.true_in_used_blocks + st.stat.false_in_used_blocks <= i,
            st.stat.true_in_usable_blocks + st.stat.false_in_usable_blocks <= i,
            st.true_extra_used_blocks + st.false_extra_used_blocks <= i * used.len(),
            st.true_extra_usable_blocks + st.false_extra_usable_blocks <= i * usable.len(),
            st.stat.false_not_in_free_lines + st.stat.false_in_free_lines <= i,
        decreases entries@.len() - i,
    {
        let (key, val) = entries[i];
        let in_used = count_blocks_holding(&snap.used_blocks, snap.bytes_in_block, key);
        let in_usable = count_blocks_holding(&snap.usable_blocks, snap.bytes_in_block, key);
        let extra_used: usize = if in_used > 0 { in_used - 1 } else { 0 };
        let extra_usable: usize = if in_usable > 0 { in_usable - 1 } else { 0 };
        proof {
            lemma_count_step(
                st.true_extra_used_blocks + st.false_extra_used_blocks,
                i as int,
                entries@.len() as int,
                used.len() as int,
                extra_used as int,
            );
            lemma_count_step(
                st.true_extra_usable_blocks + st.false_extra_usable_blocks,
                i as int,
                entries@.len() as int,
                usable.len() as int,
                extra_usable as int,
            );
        }
        st.stat.hash_size = st.stat.hash_size + 1;
        if val {
            st.stat.true_found = st.stat.true_found + 1;
            if in_used > 0 {
                st.stat.true_in_used_blocks = st.stat.true_in_used_blocks + 1;
            }
            st.true_extra_used_blocks = st.true_extra_used_blocks + extra_used as u64;
            if in_usable > 0 {
                st.stat.true_in_usable_blocks = st.stat.true_in_usable_blocks + 1;
            }
            st.true_extra_usable_blocks = st.true_extra_usable_blocks + extra_usable as u64;
        } else {
            st.stat.false_found = st.stat.false_found + 1;
            if in_used > 0 {
                st.stat.false_in_used_blocks = st.stat.false_in_used_blocks + 1;
            }
            st.false_extra_used_blocks = st.false_extra_used_blocks + extra_used as u64;
            if in_usable > 0 {
                st.stat.false_in_usable_blocks = st.stat.false_in_usable_blocks + 1;
            }
            st.false_extra_usable_blocks = st.false_extra_usable_blocks + extra_usable as u64;
            assert(entries@[i as int].1 == false);
            if !line_free(snap, key) {
                st.stat.false_not_in_free_lines = st.stat.false_not_in_free_lines + 1;
            } else {
                st.stat.false_in_free_lines = st.stat.false_in_free_lines + 1;
            }
        }
        proof {
            let s = entries@;
            let ii = i as int;
            lemma_sum_take_step(s, ii, marked(true));
            lemma_sum_take_step(s, ii, marked(false));
            lemma_sum_take_step(s, ii, marked_in_some_block(true, used, bb));
            lemma_sum_take_step(s, ii, marked_in_some_block(true, usable, bb));
            lemma_sum_take_step(s, ii, marked_in_some_block(false, used, bb));
            lemma_sum_take_step(s, ii, marked_in_some_block(false, usable, bb));
            lemma_sum_take_step(s, ii, marked_on_line(false, false, *snap));
            lemma_sum_take_step(s, ii, marked_on_line(false, true, *snap));
            lemma_sum_take_step(s, ii, marked_extra_blocks(true, used, bb));
            lemma_sum_take_step(s, ii, marked_extra_blocks(true, usable, bb));
            lemma_sum_take_step(s, ii, marked_extra_blocks(false, used, bb));
            lemma_sum_take_step(s, ii, marked_extra_blocks(false, usable, bb));
        }
        i = i + 1;
    }
    assert(entries@.take(entries@.len() as int) =~= entries@);
    st
}

/// The multi-threaded report splits each of the whole-heap report's block
/// counts into the objects some block holds and the further holding blocks,
/// and agrees with it on every other count.
pub proof fn lemma_sanity_splits_my_stat(
    st: SanityStat,
    my: HeapStat,
    entries: Seq<Entry>,
    snap: SpaceSnapshot,
)
    requires
        is_sanity_stat(st, entries, snap),
        is_my_stat(my, entries, snap),
    ensures
        st.stat.true_in_used_blocks + st.true_extra_used_blocks == my.true_in_used_blocks,
        st.stat.true_in_usable_blocks + st.true_extra_usable_blocks == my.true_in_usable_blocks,
        st.stat.false_in_used_blocks + st.false_extra_used_blocks == my.false_in_used_blocks,
        st.stat.false_in_usable_blocks + st.false_extra_usable_blocks == my.false_in_usable_blocks,
        st.stat.hash_size == my.hash_size,
        st.stat.true_found == my.true_found,
        st.stat.false_found == my.false_found,
        st.stat.false_not_in_free_lines == my.false_not_in_free_lines,
        st.stat.false_in_free_lines == my.false_in_free_lines,
{
    let used = snap.used_blocks@;
    let usable = snap.usable_blocks@;
    let bb = snap.bytes_in_block;
    lemma_sum_add(
        entries,
        marked_in_some_block(true, used, bb),
        marked_extra_blocks(true, used, bb),
        marked_in_blocks(true, used, bb),
    );
    lemma_sum_add(
        entries,
        marked_in_some_block(true, usable, bb),
        marked_extra_blocks(true, usable, bb),
        marked_in_blocks(true, usable, bb),
    );
    lemma_sum_add(
        entries,
        marked_in_some_block(false, used, bb),
        marked_extra_blocks(false, used, bb),
        marked_in_blocks(false, used, bb),
    );
    lemma_sum_add(
        entries,
        marked_in_some_block(false, usable, bb),
        marked_extra_blocks(false, usable, bb),
        marked_in_blocks(false, usable, bb),
    );
}

/// The multi-threaded report counts the objects in blocks as the benchmark's report does.
pub proof fn lemma_sanity_agrees_with_bench(
    st: SanityStat,
    bench: HeapStat,
    entries: Seq<Entry>,
    snap: SpaceSnapshot,
)
    requires
        is_sanity_stat(st, entries, snap),
        is_bench_stat(bench, entries, snap),
    ensures
        st.stat.hash_size == bench.hash_size,
        st.stat.true_found == bench.true_found,
        st.stat.false_found == bench.false_found,
        st.stat.true_in_used_blocks == bench.true_in_used_blocks,
        st.stat.true_in_usable_blocks == bench.true_in_usable_blocks,
        st.stat.false_in_used_blocks == bench.false_in_used_blocks,
        st.stat.false_in_usable_blocks == bench.false_in_usable_blocks,
{
}

} // verus!
