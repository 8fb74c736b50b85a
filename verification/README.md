# immix_bench

The driver of the Immix garbage-collector benchmarks (GCBench and its
multi-threaded variant), with its logic verified by Verus.

- `src/object_heap.rs`: the heap the benchmark allocates tree nodes in, and
  the specification of complete binary trees over it.
- `src/gcbench.rs`: tree sizes, the number of trees per timed phase, building
  trees top-down (`Populate`) and bottom-up (`MakeTree`), the timed phases, and
  the announced peak of live storage.
- `src/heap_stats.rs`: the counts reported over the recorded objects after a
  run, and the per-line hit counters.
- `src/mt_gcbench.rs`: the thread count, the multi-threaded storage estimate and
  report.
- `src/gc.rs`: the sizes of the spaces a collector manages.
- `app/main.rs`: the program: clock, threads, printing.
