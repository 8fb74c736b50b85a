//! A verified model of the Immix GC benchmark driver: the arithmetic that
//! sizes the benchmark's binary trees, the construction of those trees on a
//! node heap, the statistics gathered over the heap after a run, and the
//! record of the spaces a collector instance manages.
pub mod object_heap;
pub mod gcbench;
pub mod heap_stats;
pub mod mt_gcbench;
pub mod gc;
pub mod heap_stat_laws;
