use vstd::prelude::*;
use std::collections::HashMap;

verus! {

broadcast use vstd::std_specs::hash::group_hash_axioms;

/// What the statistics read of the Immix space after a run: the start
/// addresses of the used and of the usable blocks, the block and line
/// geometry, and for each line of the space whether its mark is `Free`.
pub struct SpaceSnapshot {
    pub used_blocks: Vec<usize>,
    pub usable_blocks: Vec<usize>,
    pub bytes_in_block: usize,
    pub start: usize,
    pub log_bytes_in_line: usize,
    pub bytes_in_line: usize,
    pub lines_in_block: usize,
    pub line_is_free: Vec<bool>,
}

/// The counts printed after a run, over the recorded objects: each object
/// is an address with a flag.
pub struct HeapStat {
    /// Number of recorded objects.
    pub hash_size: u64,
    /// Number of objects whose flag is set.
    pub true_found: u64,
    /// Objects with the flag set, counted against the used blocks.
    pub true_in_used_blocks: u64,
    /// Objects with the flag set, counted against the usable blocks.
    pub true_in_usable_blocks: u64,
    /// Number of objects whose flag is clear.
    pub false_found: u64,
    /// Objects with the flag clear, counted against the used blocks.
    pub false_in_used_blocks: u64,
    /// Objects with the flag clear, counted against the usable blocks.
    pub false_in_usable_blocks: u64,
    /// Objects counted whose line is not marked `Free`.
    pub false_not_in_free_lines: u64,
    /// Objects counted whose line is marked `Free`.
    pub false_in_free_lines: u64,
}

/// A recorded object: its address and its flag.
pub type Entry = (usize, bool);

/// The block that starts at `start` holds address `key`; the end is included.
pub open spec fn block_holds(start: usize, bytes: usize, key: usize) -> bool {
    start <= key && key <= start + bytes
}

/// How many of `blocks` hold `key`.
pub open spec fn count_holding(blocks: Seq<usize>, bytes: usize, key: usize) -> nat
    decreases blocks.len(),
{
    if blocks.len() == 0 {
        0
    } else {
        flag(block_holds(blocks[0], bytes, key)) + count_holding(blocks.drop_first(), bytes, key)
    }
}

/// The first of `blocks` that holds `key`.
pub open spec fn first_holding(blocks: Seq<usize>, bytes: usize, key: usize) -> Option<usize>
    decreases blocks.len(),
{
    if blocks.len() == 0 {
        None
    } else if block_holds(blocks[0], bytes, key) {
        Some(blocks[0])
    } else {
        first_holding(blocks.drop_first(), bytes, key)
    }
}

/// One for true, zero for false.
pub open spec fn flag(b: bool) -> nat {
    if b {
        1
    } else {
        0
    }
}

/// The sum of `f` over `entries`.
pub open spec fn sum_of(entries: Seq<Entry>, f: spec_fn(Entry) -> nat) -> nat
    decreases entries.len(),
{
    if entries.len() == 0 {
        0
    } else {
        sum_of(entries.drop_last(), f) + f(entries.last())
    }
}

/// Every block of `blocks` ends at an address that fits a `usize`.
pub open spec fn blocks_fit(blocks: Seq<usize>, bytes: usize) -> bool {
    forall|k: int| 0 <= k < blocks.len() ==> #[trigger] blocks[k] + bytes <= usize::MAX
}

/// The snapshot's blocks end at addresses that fit a `usize`, and its line shift is in range.
pub open spec fn snapshot_fits(snap: SpaceSnapshot) -> bool {
    &&& blocks_fit(snap.used_blocks@, snap.bytes_in_block)
    &&& blocks_fit(snap.usable_blocks@, snap.bytes_in_block)
    &&& snap.log_bytes_in_line < usize::BITS
}

/// Index in the line mark table of the line that holds `key`.
pub open spec fn line_index(snap: SpaceSnapshot, key: usize) -> int {
    (((key - snap.start) as usize) >> snap.log_bytes_in_line) as int
}

/// The line of `key` can be looked up in the mark table.
pub open spec fn line_known(snap: SpaceSnapshot, key: usize) -> bool {
    snap.start <= key && line_index(snap, key) < snap.line_is_free@.len()
}

/// The line of `key` is marked `Free`.
pub open spec fn line_free_at(snap: SpaceSnapshot, key: usize) -> bool {
    snap.line_is_free@[line_index(snap, key)]
}

/// Counts the objects whose flag is `m`.
pub open spec fn marked(m: bool) -> spec_fn(Entry) -> nat {
    |e: Entry| flag(e.1 == m)
}

/// Counts, for each object whose flag is `m`, every block of `blocks` that holds it.
pub open spec fn marked_in_blocks(m: bool, blocks: Seq<usize>, bytes: usize) -> spec_fn(Entry) -> nat {
    |e: Entry|
        if e.1 == m {
            count_holding(blocks, bytes, e.0)
        } else {
            0
        }
}

/// Counts the objects whose flag is `m` and that some block of `blocks` holds.
pub open spec fn marked_in_some_block(m: bool, blocks: Seq<usize>, bytes: usize) -> spec_fn(
    Entry,
) -> nat {
    |e: Entry| flag(e.1 == m && count_holding(blocks, bytes, e.0) > 0)
}

/// Counts the objects whose flag is `m` and whose line is (`free`) or is not (`!free`) marked `Free`.
pub open spec fn marked_on_line(m: bool, free: bool, snap: SpaceSnapshot) -> spec_fn(Entry) -> nat {
    |e: Entry| flag(e.1 == m && line_free_at(snap, e.0) == free)
}

/// Counts the objects whose line is (`free`) or is not (`!free`) marked `Free`.
pub open spec fn on_line(free: bool, snap: SpaceSnapshot) -> spec_fn(Entry) -> nat {
    |e: Entry| flag(line_free_at(snap, e.0) == free)
}

/// Every object of `entries` whose flag is `m` has a line in the mark table.
pub open spec fn lines_known(entries: Seq<Entry>, snap: SpaceSnapshot, m: bool) -> bool {
    forall|k: int| 0 <= k < entries.len() && #[trigger] entries[k].1 == m ==> line_known(snap, entries[k].0)
}

pub(crate) proof fn lemma_sum_take_step(s: Seq<Entry>, i: int, f: spec_fn(Entry) -> nat)
    requires
        0 <= i < s.len(),
    ensures
        sum_of(s.take(i + 1), f) == sum_of(s.take(i), f) + f(s[i]),
{
    assert(s.take(i + 1).drop_last() =~= s.take(i));
}

pub(crate) proof fn lemma_count_holding_bounds(blocks: Seq<usize>, bytes: usize, key: usize)
    ensures
        count_holding(blocks, bytes, key) <= blocks.len(),
        (count_holding(blocks, bytes, key) > 0) == (first_holding(blocks, bytes, key) is Some),
    decreases blocks.len(),
{
    if blocks.len() > 0 {
        lemma_count_holding_bounds(blocks.drop_first(), bytes, key);
    }
}

/// How many of `blocks` hold `key`.
pub(crate) fn count_blocks_holding(blocks: &Vec<usize>, bytes: usize, key: usize) -> (n: usize)
    requires
        blocks_fit(blocks@, bytes),
    ensures
        n == count_holding(blocks@, bytes, key),
        n <= blocks@.len(),
{
    let mut n: usize = 0;
    let mut j: usize = 0;
    assert(blocks@.skip(0) =~= blocks@);
    while j < blocks.len()
        invariant
            j <= blocks@.len(),
            blocks_fit(blocks@, bytes),
            n <= j,
            n + count_holding(blocks@.skip(j as int), bytes, key) == count_holding(blocks@, bytes, key),
        decreases blocks@.len() - j,
    {
        let b = blocks[j];
        let end = b + bytes;
        assert(blocks@.skip(j as int).drop_first() =~= blocks@.skip(j + 1));
        if key >= b && key <= end {
            n = n + 1;
        }
        j = j + 1;
    }
    n
}

/// The first of `blocks` that holds `key`, if any.
fn first_block_holding(blocks: &Vec<usize>, bytes: usize, key: usize) -> (r: Option<usize>)
    requires
        blocks_fit(blocks@, bytes),
    ensures
        r == first_holding(blocks@, bytes, key),
{
    let mut j: usize = 0;
    assert(blocks@.skip(0) =~= blocks@);
    while j < blocks.len()
        invariant
            j <= blocks@.len(),
            blocks_fit(blocks@, bytes),
            first_holding(blocks@.skip(j as int), bytes, key) == first_holding(blocks@, bytes, key),
        decreases blocks@.len() - j,
    {
        let b = blocks[j];
        let end = b + bytes;
        assert(blocks@.skip(j as int).drop_first() =~= blocks@.skip(j + 1));
        if key >= b && key <= end {
            return Some(b);
        }
        j = j + 1;
    }
    None
}

/// Whether the line of `key` is marked `Free`.
pub(crate) fn line_free(snap: &SpaceSnapshot, key: usize) -> (free: bool)
    requires
        snapshot_fits(*snap),
        line_known(*snap, key),
    ensures
        free == line_free_at(*snap, key),
{
    let idx = (key - snap.start) >> snap.log_bytes_in_line;
    snap.line_is_free[idx]
}

/// `st` holds the counts over `entries` that the whole-heap report gives:
/// every block holding an object is counted, and only objects with a clear
/// flag are looked up in the line mark table.
pub open spec fn is_my_stat(st: HeapStat, entries: Seq<Entry>, snap: SpaceSnapshot) -> bool {
    let used = snap.used_blocks@;
    let usable = snap.usable_blocks@;
    let bb = snap.bytes_in_block;
    &&& st.hash_size == entries.len()
    &&& st.true_found == sum_of(entries, marked(true))
    &&& st.true_in_used_blocks == sum_of(entries, marked_in_blocks(true, used, bb))
    &&& st.true_in_usable_blocks == sum_of(entries, marked_in_blocks(true, usable, bb))
    &&& st.false_found == sum_of(entries, marked(false))
    &&& st.false_in_used_blocks == sum_of(entries, marked_in_blocks(false, used, bb))
    &&& st.false_in_usable_blocks == sum_of(entries, marked_in_blocks(false, usable, bb))
    &&& st.false_not_in_free_lines == sum_of(entries, marked_on_line(false, false, snap))
    &&& st.false_in_free_lines == sum_of(entries, marked_on_line(false, true, snap))
}

/// The products that bound the block counts fit a `u64`.
pub open spec fn block_counts_fit(entries: Seq<Entry>, snap: SpaceSnapshot) -> bool {
    &&& entries.len() * snap.used_blocks@.len() <= u64::MAX
    &&& entries.len() * snap.usable_blocks@.len() <= u64::MAX
}

pub(crate) proof fn lemma_count_step(c: int, i: int, n: int, len: int, add: int)
    requires
        0 <= c <= i * len,
        0 <= add <= len,
        0 <= i < n,
        n * len <= u64::MAX,
    ensures
        c + add <= (i + 1) * len,
        (i + 1) * len <= u64::MAX,
{
    assert((i + 1) * len == i * len + len) by (nonlinear_arith);
    assert((i + 1) * len <= n * len) by (nonlinear_arith)
        requires
            i + 1 <= n,
            len >= 0,
    ;
}

/// The counts of the whole-heap report over the recorded objects `entries`:
/// for each object, by its flag, how many used and usable blocks hold it and,
/// for an object with a clear flag, whether its line is marked `Free`.
#[allow(non_snake_case)]
pub fn myStat(entries: &Vec<Entry>, snap: &SpaceSnapshot) -> (st: HeapStat)
    requires
        snapshot_fits(*snap),
        lines_known(entries@, *snap, false),
        block_counts_fit(entries@, *snap),
    ensures
        is_my_stat(st, entries@, *snap),
{
    let mut st = HeapStat {
        hash_size: 0,
        true_found: 0,
        true_in_used_blocks: 0,
        true_in_usable_blocks: 0,
        false_found: 0,
        false_in_used_blocks: 0,
        false_in_usable_blocks: 0,
        false_not_in_free_lines: 0,
        false_in_free_lines: 0,
    };
    let ghost used = snap.used_blocks@;
    let ghost usable = snap.usable_blocks@;
    let ghost bb = snap.bytes_in_block;
    let mut i: usize = 0;
    while i < entries.len()
        invariant
            i <= entries@.len(),
            snapshot_fits(*snap),
            lines_known(entries@, *snap, false),
            block_counts_fit(entries@, *snap),
            used == snap.used_blocks@,
            usable == snap.usable_blocks@,
            bb == snap.bytes_in_block,
            is_my_stat(st, entries@.take(i as int), *snap),
            st.true_found + st.false_found == i,
            st.true_in_used_blocks + st.false_in_used_blocks <= i * used.len(),
            st.true_in_usable_blocks + st.false_in_usable_blocks <= i * usable.len(),
            st.false_not_in_free_lines + st.false_in_free_lines <= i,
        decreases entries@.len() - i,
    {
        let (key, val) = entries[i];
        let in_used = count_blocks_holding(&snap.used_blocks, snap.bytes_in_block, key);
        let in_usable = count_blocks_holding(&snap.usable_blocks, snap.bytes_in_block, key);
        proof {
            lemma_count_step(
                st.true_in_used_blocks + st.false_in_used_blocks,
                i as int,
                entries@.len() as int,
                used.len() as int,
                in_used as int,
            );
            lemma_count_step(
                st.true_in_usable_blocks + st.false_in_usable_blocks,
                i as int,
                entries@.len() as int,
                usable.len() as int,
                in_usable as int,
            );
        }
        st.hash_size = st.hash_size + 1;
        if val {
            st.true_found = st.true_found + 1;
            st.true_in_used_blocks = st.true_in_used_blocks + in_used as u64;
            st.true_in_usable_blocks = st.true_in_usable_blocks + in_usable as u64;
        } else {
            st.false_found = st.false_found + 1;
            st.false_in_used_blocks = st.false_in_used_blocks + in_used as u64;
            st.false_in_usable_blocks = st.false_in_usable_blocks + in_usable as u64;
            assert(entries@[i as int].1 == false);
            if !line_free(snap, key) {
                st.false_not_in_free_lines = st.false_not_in_free_lines + 1;
            } else {
                st.false_in_free_lines = st.false_in_free_lines + 1;
            }
        }
        proof {
            let s = entries@;
            let ii = i as int;
            lemma_sum_take_step(s, ii, marked(true));
            lemma_sum_take_step(s, ii, marked(false));
            lemma_sum_take_step(s, ii, marked_in_blocks(true, used, bb));
            lemma_sum_take_step(s, ii, marked_in_blocks(true, usable, bb));
            lemma_sum_take_step(s, ii, marked_in_blocks(false, used, bb));
            lemma_sum_take_step(s, ii, marked_in_blocks(false, usable, bb));
            lemma_sum_take_step(s, ii, marked_on_line(false, false, *snap));
            lemma_sum_take_step(s, ii, marked_on_line(false, true, *snap));
        }
        i = i + 1;
    }
    assert(entries@.take(entries@.len() as int) =~= entries@);
    st
}

/// Sums add up pointwise.
pub proof fn lemma_sum_add(
    s: Seq<Entry>,
    f: spec_fn(Entry) -> nat,
    g: spec_fn(Entry) -> nat,
    h: spec_fn(Entry) -> nat,
)
    requires
        forall|e: Entry| #[trigger] h(e) == f(e) + g(e),
    ensures
        sum_of(s, h) == sum_of(s, f) + sum_of(s, g),
    decreases s.len(),
{
    if s.len() > 0 {
        lemma_sum_add(s.drop_last(), f, g, h);
        assert(h(s.last()) == f(s.last()) + g(s.last()));
    }
}

/// A sum of a pointwise smaller function is smaller.
pub proof fn lemma_sum_le(s: Seq<Entry>, f: spec_fn(Entry) -> nat, g: spec_fn(Entry) -> nat)
    requires
        forall|e: Entry| #[trigger] f(e) <= g(e),
    ensures
        sum_of(s, f) <= sum_of(s, g),
    decreases s.len(),
{
    if s.len() > 0 {
        lemma_sum_le(s.drop_last(), f, g);
        assert(f(s.last()) <= g(s.last()));
    }
}

/// Summing one over every object counts the objects.
proof fn lemma_sum_ones(s: Seq<Entry>, f: spec_fn(Entry) -> nat)
    requires
        forall|e: Entry| #[trigger] f(e) == 1,
    ensures
        sum_of(s, f) == s.len(),
    decreases s.len(),
{
    if s.len() > 0 {
        lemma_sum_ones(s.drop_last(), f);
        assert(f(s.last()) == 1);
    }
}

/// Every object has its flag set or clear: the two counts make up the number of objects.
pub proof fn lemma_flags_partition(entries: Seq<Entry>)
    ensures
        sum_of(entries, marked(true)) + sum_of(entries, marked(false)) == entries.len(),
{
    let one = |e: Entry| 1nat;
    lemma_sum_add(entries, marked(true), marked(false), one);
    lemma_sum_ones(entries, one);
}

/// In the whole-heap report the objects split by flag, and the objects with a
/// clear flag split by whether their line is marked `Free`.
pub proof fn lemma_my_stat_partitions(st: HeapStat, entries: Seq<Entry>, snap: SpaceSnapshot)
    requires
        is_my_stat(st, entries, snap),
    ensures
        st.hash_size == st.true_found + st.false_found,
        st.false_not_in_free_lines + st.false_in_free_lines == st.false_found,
{
    lemma_flags_partition(entries);
    lemma_sum_add(
        entries,
        marked_on_line(false, false, snap),
        marked_on_line(false, true, snap),
        marked(false),
    );
}

/// In the benchmark's report the objects split by flag and by whether their
/// line is marked `Free`, and no more objects lie in blocks than have the flag.
pub proof fn lemma_bench_stat_partitions(st: HeapStat, entries: Seq<Entry>, snap: SpaceSnapshot)
    requires
        is_bench_stat(st, entries, snap),
    ensures
        st.hash_size == st.true_found + st.false_found,
        st.false_not_in_free_lines + st.false_in_free_lines == st.hash_size,
        st.true_in_used_blocks <= st.true_found,
        st.true_in_usable_blocks <= st.true_found,
        st.false_in_used_blocks <= st.false_found,
        st.false_in_usable_blocks <= st.false_found,
{
    let used = snap.used_blocks@;
    let usable = snap.usable_blocks@;
    let bb = snap.bytes_in_block;
    let one = |e: Entry| 1nat;
    lemma_flags_partition(entries);
    lemma_sum_add(entries, on_line(false, snap), on_line(true, snap), one);
    lemma_sum_ones(entries, one);
    lemma_sum_le(entries, marked_in_some_block(true, used, bb), marked(true));
    lemma_sum_le(entries, marked_in_some_block(true, usable, bb), marked(true));
    lemma_sum_le(entries, marked_in_some_block(false, used, bb), marked(false));
    lemma_sum_le(entries, marked_in_some_block(false, usable, bb), marked(false));
}

/// Every recorded object has a line in the mark table.
pub open spec fn all_lines_known(entries: Seq<Entry>, snap: SpaceSnapshot) -> bool {
    forall|k: int| 0 <= k < entries.len() ==> line_known(snap, #[trigger] entries[k].0)
}

/// `st` holds the counts over `entries` that the benchmark's report gives:
/// an object is counted once against the used blocks and once against the
/// usable blocks when some block holds it, and every object is looked up in
/// the line mark table.
pub open spec fn is_bench_stat(st: HeapStat, entries: Seq<Entry>, snap: SpaceSnapshot) -> bool {
    let used = snap.used_blocks@;
    let usable = snap.usable_blocks@;
    let bb = snap.bytes_in_block;
    &&& st.hash_size == entries.len()
    &&& st.true_found == sum_of(entries, marked(true))
    &&& st.true_in_used_blocks == sum_of(entries, marked_in_some_block(true, used, bb))
    &&& st.true_in_usable_blocks == sum_of(entries, marked_in_some_block(true, usable, bb))
    &&& st.false_found == sum_of(entries, marked(false))
    &&& st.false_in_used_blocks == sum_of(entries, marked_in_some_block(false, used, bb))
    &&& st.false_in_usable_blocks == sum_of(entries, marked_in_some_block(false, usable, bb))
    &&& st.false_not_in_free_lines == sum_of(entries, on_line(false, snap))
    &&& st.false_in_free_lines == sum_of(entries, on_line(true, snap))
}

/// The counts of the benchmark's report over the recorded objects `entries`:
/// for each object, by its flag, whether some used block and some usable
/// block holds it; and for every object whether its line is marked `Free`.
pub fn bench_heap_stat(entries: &Vec<Entry>, snap: &SpaceSnapshot) -> (st: HeapStat)
    requires
        snapshot_fits(*snap),
        all_lines_known(entries@, *snap),
    ensures
        is_bench_stat(st, entries@, *snap),
{
    let mut st = HeapStat {
        hash_size: 0,
        true_found: 0,
        true_in_used_blocks: 0,
        true_in_usable_blocks: 0,
        false_found: 0,
        false_in_used_blocks: 0,
        false_in_usable_blocks: 0,
        false_not_in_free_lines: 0,
        false_in_free_lines: 0,
    };
    let ghost used = snap.used_blocks@;
    let ghost usable = snap.usable_blocks@;
    let ghost bb = snap.bytes_in_block;
    let mut i: usize = 0;
    while i < entries.len()
        invariant
            i <= entries@.len(),
            snapshot_fits(*snap),
            all_lines_known(entries@, *snap),
            used == snap.used_blocks@,
            usable == snap.usable_blocks@,
            bb == snap.bytes_in_block,
            is_bench_stat(st, entries@.take(i as int), *snap),
            st.true_found + st.false_found == i,
            st.true_in_used_blocks + st.false_in_used_blocks <= i,
            st.true_in_usable_blocks + st.false_in_usable_blocks <= i,
            st.false_not_in_free_lines + st.false_in_free_lines == i,
        decreases entries@.len() - i,
    {
        let (key, val) = entries[i];
        let in_used = first_block_holding(&snap.used_blocks, snap.bytes_in_block, key);
        let in_usable = first_block_holding(&snap.usable_blocks, snap.bytes_in_block, key);
        proof {
            lemma_count_holding_bounds(used, bb, key);
            lemma_count_holding_bounds(usable, bb, key);
        }
        st.hash_size = st.hash_size + 1;
        if val {
            st.true_found = st.true_found + 1;
            if in_used.is_some() {
                st.true_in_used_blocks = st.true_in_used_blocks + 1;
            }
            if in_usable.is_some() {
                st.true_in_usable_blocks = st.true_in_usable_blocks + 1;
            }
        } else {
            st.false_found = st.false_found + 1;
            if in_used.is_some() {
                st.false_in_used_blocks = st.false_in_used_blocks + 1;
            }
            if in_usable.is_some() {
                st.false_in_usable_blocks = st.false_in_usable_blocks + 1;
            }
        }
        if !line_free(snap, key) {
            st.false_not_in_free_lines = st.false_not_in_free_lines + 1;
        } else {
            st.false_in_free_lines = st.false_in_free_lines + 1;
        }
        proof {
            let s = entries@;
            let ii = i as int;
            lemma_sum_take_step(s, ii, marked(true));
            lemma_sum_take_step(s, ii, marked(false));
            lemma_sum_take_step(s, ii, marked_in_some_block(true, used, bb));
            lemma_sum_take_step(s, ii, marked_in_some_block(true, usable, bb));
            lemma_sum_take_step(s, ii, marked_in_some_block(false, used, bb));
            lemma_sum_take_step(s, ii, marked_in_some_block(false, usable, bb));
            lemma_sum_take_step(s, ii, on_line(false, *snap));
            lemma_sum_take_step(s, ii, on_line(true, *snap));
        }
        i = i + 1;
    }
    assert(entries@.take(entries@.len() as int) =~= entries@);
    st
}

/// How many of the first `n` lines of the block at `b` start at address `a`
/// and hold `key`; a line holds the addresses from its start to its end, both included.
pub open spec fn line_hits_in_block(b: usize, bytes_in_line: usize, n: nat, key: usize, a: usize) -> nat
    decreases n,
{
    if n == 0 {
        0
    } else {
        line_hits_in_block(b, bytes_in_line, (n - 1) as nat, key, a) + flag(
            b + (n - 1) * bytes_in_line == a && a <= key && key <= a + bytes_in_line,
        )
    }
}

/// Line hits at `a` of `key` in the block `first`, if there is one.
pub open spec fn hits_in(first: Option<usize>, snap: SpaceSnapshot, key: usize, a: usize) -> nat {
    match first {
        Some(b) => line_hits_in_block(b, snap.bytes_in_line, snap.lines_in_block as nat, key, a),
        None => 0,
    }
}

/// Line hits at `a` of one object: an object with its flag set is looked up in the
/// first used block and in the first usable block that hold it.
pub open spec fn entry_line_hits(e: Entry, snap: SpaceSnapshot, a: usize) -> nat {
    if e.1 {
        hits_in(first_holding(snap.used_blocks@, snap.bytes_in_block, e.0), snap, e.0, a)
            + hits_in(first_holding(snap.usable_blocks@, snap.bytes_in_block, e.0), snap, e.0, a)
    } else {
        0
    }
}

/// Line hits at `a` of all of `entries`.
pub open spec fn line_hits(entries: Seq<Entry>, snap: SpaceSnapshot, a: usize) -> nat
    decreases entries.len(),
{
    if entries.len() == 0 {
        0
    } else {
        line_hits(entries.drop_last(), snap, a) + entry_line_hits(entries.last(), snap, a)
    }
}

/// The count a table of counters holds for `a`; zero where it has none.
pub open spec fn counter(m: Map<usize, u64>, a: usize) -> nat {
    if m.contains_key(a) {
        m[a] as nat
    } else {
        0
    }
}

/// Every line of every block ends at an address that fits a `usize`.
pub open spec fn lines_fit(snap: SpaceSnapshot) -> bool {
    &&& snap.lines_in_block * snap.bytes_in_line <= usize::MAX
    &&& forall|k: int|
        0 <= k < snap.used_blocks@.len() ==> #[trigger] snap.used_blocks@[k] + snap.lines_in_block
            * snap.bytes_in_line <= usize::MAX
    &&& forall|k: int|
        0 <= k < snap.usable_blocks@.len() ==> #[trigger] snap.usable_blocks@[k]
            + snap.lines_in_block * snap.bytes_in_line <= usize::MAX
}

/// `new` is `old` with `inc(a)` added to the counter of every `a`; a counter
/// appears exactly where it was or where something was added.
pub open spec fn counters_added(
    new: Map<usize, u64>,
    old: Map<usize, u64>,
    inc: spec_fn(usize) -> nat,
) -> bool {
    forall|a: usize|
        #![trigger new.contains_key(a)]
        #![trigger counter(new, a)]
        (new.contains_key(a) <==> (old.contains_key(a) || inc(a) > 0)) && counter(new, a) == counter(
            old,
            a,
        ) + inc(a)
}

proof fn lemma_line_hits_in_block_bound(b: usize, bytes_in_line: usize, n: nat, key: usize, a: usize)
    ensures
        line_hits_in_block(b, bytes_in_line, n, key, a) <= n,
    decreases n,
{
    if n > 0 {
        lemma_line_hits_in_block_bound(b, bytes_in_line, (n - 1) as nat, key, a);
    }
}

proof fn lemma_line_hits_bound(entries: Seq<Entry>, snap: SpaceSnapshot, a: usize)
    ensures
        line_hits(entries, snap, a) <= 2 * entries.len() * snap.lines_in_block,
    decreases entries.len(),
{
    if entries.len() > 0 {
        let e = entries.last();
        lemma_line_hits_bound(entries.drop_last(), snap, a);
        let n = snap.lines_in_block as nat;
        match first_holding(snap.used_blocks@, snap.bytes_in_block, e.0) {
            Some(b) => lemma_line_hits_in_block_bound(b, snap.bytes_in_line, n, e.0, a),
            None => {},
        }
        match first_holding(snap.usable_blocks@, snap.bytes_in_block, e.0) {
            Some(b) => lemma_line_hits_in_block_bound(b, snap.bytes_in_line, n, e.0, a),
            None => {},
        }
        let len = entries.len() as int;
        assert(2 * len * n == 2 * (len - 1) * n + 2 * n) by (nonlinear_arith);
    }
}

/// Adds one to the counter of `a`.
fn bump(hits: &mut HashMap<usize, u64>, a: usize)
    requires
        counter(old(hits)@, a) < u64::MAX,
    ensures
        final(hits)@ == old(hits)@.insert(a, (counter(old(hits)@, a) + 1) as u64),
{
    let n: u64 = match hits.get(&a) {
        Some(v) => *v,
        None => 0,
    };
    hits.insert(a, n + 1);
}

proof fn lemma_first_holding_in(blocks: Seq<usize>, bytes: usize, key: usize)
    ensures
        first_holding(blocks, bytes, key) matches Some(b) ==> exists|k: int|
            0 <= k < blocks.len() && blocks[k] == b,
    decreases blocks.len(),
{
    if blocks.len() > 0 && !block_holds(blocks[0], bytes, key) {
        lemma_first_holding_in(blocks.drop_first(), bytes, key);
        if first_holding(blocks, bytes, key) is Some {
            let k = choose|k: int| 0 <= k < blocks.drop_first().len() && blocks.drop_first()[k]
                == first_holding(blocks, bytes, key).unwrap();
            assert(blocks[k + 1] == first_holding(blocks, bytes, key).unwrap());
        }
    }
}

/// Counts, for each line of the block at `b` that holds `key`, one hit at the line's start.
fn add_block_line_hits(b: usize, key: usize, snap: &SpaceSnapshot, hits: &mut HashMap<usize, u64>)
    requires
        b + snap.lines_in_block * snap.bytes_in_line <= usize::MAX,
        snap.lines_in_block * snap.bytes_in_line <= usize::MAX,
        forall|a: usize| counter(old(hits)@, a) + snap.lines_in_block <= u64::MAX,
    ensures
        counters_added(
            final(hits)@,
            old(hits)@,
            |a: usize| line_hits_in_block(b, snap.bytes_in_line, snap.lines_in_block as nat, key, a),
        ),
{
    let ghost h0 = hits@;
    let ghost lb = snap.bytes_in_line;
    let ghost n = snap.lines_in_block;
    let mut i: usize = 0;
    while i < snap.lines_in_block
        invariant
            i <= n,
            n == snap.lines_in_block,
            lb == snap.bytes_in_line,
            b + n * lb <= usize::MAX,
            n * lb <= usize::MAX,
            forall|a: usize| counter(h0, a) + n <= u64::MAX,
            counters_added(hits@, h0, |a: usize| line_hits_in_block(b, lb, i as nat, key, a)),
        decreases n - i,
    {
        assert(i * lb + lb <= n * lb) by (nonlinear_arith)
            requires
                i < n,
        ;
        assert((i + 1) * lb == i * lb + lb) by (nonlinear_arith);
        let address = b + i * snap.bytes_in_line;
        let line_end = address + snap.bytes_in_line;
        let ghost h1 = hits@;
        if key >= address && key <= line_end {
            proof {
                lemma_line_hits_in_block_bound(b, lb, i as nat, key, address);
                assert(counter(h1, address) == counter(h0, address) + line_hits_in_block(b, lb, i as nat, key, address));
            }
            bump(hits, address);
        }
        proof {
            let h2 = hits@;
            assert forall|a: usize| #![trigger h2.contains_key(a)] #![trigger counter(h2, a)]
                (h2.contains_key(a) <==> (h0.contains_key(a) || line_hits_in_block(b, lb, (i + 1) as nat, key, a) > 0))
                && counter(h2, a) == counter(h0, a) + line_hits_in_block(b, lb, (i + 1) as nat, key, a) by {
                assert(counter(h1, a) == counter(h0, a) + line_hits_in_block(b, lb, i as nat, key, a));
                assert(h1.contains_key(a) <==> (h0.contains_key(a) || line_hits_in_block(b, lb, i as nat, key, a) > 0));
            }
        }
        i = i + 1;
    }
}

/// Records, for each object with its flag set, a hit on every line that holds it
/// in the first used block and in the first usable block holding the object;
/// each hit adds one to the counter of the line's start address in `hits`.
pub fn record_line_hits(entries: &Vec<Entry>, snap: &SpaceSnapshot, hits: &mut HashMap<usize, u64>)
    requires
        snapshot_fits(*snap),
        lines_fit(*snap),
        forall|a: usize| counter(old(hits)@, a) + 2 * entries@.len() * snap.lines_in_block <= u64::MAX,
    ensures
        counters_added(final(hits)@, old(hits)@, |a: usize| line_hits(entries@, *snap, a)),
{
    let ghost h0 = hits@;
    let ghost n = snap.lines_in_block;
    let mut i: usize = 0;
    while i < entries.len()
        invariant
            i <= entries@.len(),
            n == snap.lines_in_block,
            snapshot_fits(*snap),
            lines_fit(*snap),
            forall|a: usize| counter(h0, a) + 2 * entries@.len() * n <= u64::MAX,
            counters_added(hits@, h0, |a: usize| line_hits(entries@.take(i as int), *snap, a)),
        decreases entries@.len() - i,
    {
        let (key, val) = entries[i];
        let ghost before = hits@;
        let ghost ii = i as int;
        let ghost e = entries@[ii];
        proof {
            assert(entries@.take(ii + 1).drop_last() =~= entries@.take(ii));
            assert forall|a: usize| counter(before, a) + 2 * n <= u64::MAX by {
                lemma_line_hits_bound(entries@.take(ii), *snap, a);
                assert(2 * ii * n + 2 * n <= 2 * entries@.len() * n) by (nonlinear_arith)
                    requires ii < entries@.len(), n >= 0;
            }
        }
        if val {
            let in_used = first_block_holding(&snap.used_blocks, snap.bytes_in_block, key);
            match in_used {
                Some(b) => {
                    proof { lemma_first_holding_in(snap.used_blocks@, snap.bytes_in_block, key); }
                    add_block_line_hits(b, key, snap, hits);
                },
                None => {},
            }
            let ghost mid = hits@;
            proof {
                assert forall|a: usize| counter(mid, a) + n <= u64::MAX by {
                    assert(counter(mid, a) == counter(before, a) + hits_in(in_used, *snap, key, a));
                    match in_used {
                        Some(b) => lemma_line_hits_in_block_bound(b, snap.bytes_in_line, n as nat, key, a),
                        None => {},
                    }
                }
            }
            let in_usable = first_block_holding(&snap.usable_blocks, snap.bytes_in_block, key);
            match in_usable {
                Some(b) => {
                    proof { lemma_first_holding_in(snap.usable_blocks@, snap.bytes_in_block, key); }
                    add_block_line_hits(b, key, snap, hits);
                },
                None => {},
            }
            proof {
                let h2 = hits@;
                assert forall|a: usize| #![trigger h2.contains_key(a)] #![trigger counter(h2, a)]
                    (h2.contains_key(a) <==> (before.contains_key(a) || entry_line_hits(e, *snap, a) > 0))
                    && counter(h2, a) == counter(before, a) + entry_line_hits(e, *snap, a) by {
                    assert(counter(mid, a) == counter(before, a) + hits_in(in_used, *snap, key, a));
                    assert(counter(h2, a) == counter(mid, a) + hits_in(in_usable, *snap, key, a));
                    assert(mid.contains_key(a) <==> (before.contains_key(a) || hits_in(in_used, *snap, key, a) > 0));
                    assert(h2.contains_key(a) <==> (mid.contains_key(a) || hits_in(in_usable, *snap, key, a) > 0));
                }
            }
        }
        proof {
            let h2 = hits@;
            assert forall|a: usize| #![trigger h2.contains_key(a)] #![trigger counter(h2, a)]
                (h2.contains_key(a) <==> (h0.contains_key(a) || line_hits(entries@.take(ii + 1), *snap, a) > 0))
                && counter(h2, a) == counter(h0, a) + line_hits(entries@.take(ii + 1), *snap, a) by {
                assert(counter(before, a) == counter(h0, a) + line_hits(entries@.take(ii), *snap, a));
                assert(before.contains_key(a) <==> (h0.contains_key(a) || line_hits(entries@.take(ii), *snap, a) > 0));
                if !val {
                    assert(h2 == before);
                }
            }
        }
        i = i + 1;
    }
    assert(entries@.take(entries@.len() as int) =~= entries@);
}

} // verus!
