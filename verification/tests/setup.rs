use immix_bench::gc::GC;
use immix_bench::mt_gcbench::{live_storage_bytes_mt, thread_count, DEFAULT_THREADS};

fn args(v: &[&str]) -> Vec<String> {
    v.iter().map(|s| s.to_string()).collect()
}

#[test]
fn thread_count_defaults_without_argument() {
    assert_eq!(thread_count(&args(&["bench"])), Some(DEFAULT_THREADS));
    assert_eq!(thread_count(&args(&[])), Some(8));
}

#[test]
fn thread_count_reads_decimal() {
    assert_eq!(thread_count(&args(&["bench", "12"])), Some(12));
    assert_eq!(thread_count(&args(&["bench", "+5", "x"])), Some(5));
    assert_eq!(thread_count(&args(&["bench", "-3"])), Some(-3));
    assert_eq!(thread_count(&args(&["bench", "007"])), Some(7));
}

#[test]
fn thread_count_rejects_non_decimal() {
    assert_eq!(thread_count(&args(&["bench", ""])), None);
    assert_eq!(thread_count(&args(&["bench", "x"])), None);
    assert_eq!(thread_count(&args(&["bench", "-"])), None);
    assert_eq!(thread_count(&args(&["bench", " 4"])), None);
    assert_eq!(thread_count(&args(&["bench", "2147483648"])), None);
    assert_eq!(thread_count(&args(&["bench", "-2147483648"])), Some(i32::MIN));
}

#[test]
fn live_storage_mt_values() {
    assert_eq!(live_storage_bytes_mt(24, 8, 4000000), 54331264);
    assert_eq!(live_storage_bytes_mt(24, 0, 4000000), 4000000);
    assert_eq!(live_storage_bytes_mt(24, -1, 4000000), 4000000 - 2 * 24 * 131071);
}

#[test]
fn gc_heap_size() {
    let gc = GC::new(120, 30);
    assert_eq!((gc.immix_size, gc.lo_size), (120, 30));
    assert_eq!(gc.heap_size(), Some(150));
    assert_eq!(GC::new(usize::MAX, 1).heap_size(), None);
}
