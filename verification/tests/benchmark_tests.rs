use sabo_os_v3::benchmark::{
    bench_array_sum_rust, bench_fibonacci_rust, bench_hashmap_rust, bench_heap_alloc_rust,
    BenchRunner,
};
use std::cell::Cell;

#[test]
fn test_fibonacci_correctness() {
    assert_eq!(bench_fibonacci_rust(0), 0);
    assert_eq!(bench_fibonacci_rust(1), 1);
    assert_eq!(bench_fibonacci_rust(10), 55);
    assert_eq!(bench_fibonacci_rust(20), 6765);
}

#[test]
fn test_array_sum_nonzero() {
    assert!(bench_array_sum_rust(1000) > 0);
}

#[test]
fn test_bench_runner_collects() {
    let mut runner = BenchRunner::new(2, 10);
    runner.run("fib_test", "Rust", || bench_fibonacci_rust(30));
    assert_eq!(runner.results().len(), 1);
    let r = &runner.results()[0];
    let avg_ns = r.total_ns as f64 / r.samples.len() as f64;
    assert!(avg_ns > 0.0);
}

#[test]
fn fibonacci_known_values() {
    assert_eq!(bench_fibonacci_rust(2), 1);
    assert_eq!(bench_fibonacci_rust(40), 102334155);
    assert_eq!(bench_fibonacci_rust(93), 12200160415121876738);
}

#[test]
fn fibonacci_wraps_past_u64() {
    // fib(94) = 19740274219868223167, which is 2^64 + 1293530146158671551.
    assert_eq!(bench_fibonacci_rust(94), 1293530146158671551);
    assert_eq!(
        bench_fibonacci_rust(95),
        bench_fibonacci_rust(93).wrapping_add(bench_fibonacci_rust(94))
    );
}

#[test]
fn array_sum_closed_form() {
    assert_eq!(bench_array_sum_rust(0), 0);
    assert_eq!(bench_array_sum_rust(1), 0);
    assert_eq!(bench_array_sum_rust(1000), 499500);
    assert_eq!(bench_array_sum_rust(10_000), 49_995_000);
}

#[test]
fn heap_alloc_counts_bytes() {
    assert_eq!(bench_heap_alloc_rust(0), 0);
    assert_eq!(bench_heap_alloc_rust(1), 64);
    assert_eq!(bench_heap_alloc_rust(100), 6400);
}

#[test]
fn hashmap_sums_doubled_keys() {
    assert_eq!(bench_hashmap_rust(0), 0);
    assert_eq!(bench_hashmap_rust(1), 0);
    assert_eq!(bench_hashmap_rust(2), 2);
    assert_eq!(bench_hashmap_rust(500), 249_500);
}

#[test]
fn runner_statistics_agree_with_samples() {
    let mut runner = BenchRunner::new(1, 25);
    let r = runner.run("heap", "Rust", || bench_heap_alloc_rust(10) as u64);
    assert_eq!(r.name, "heap");
    assert_eq!(r.language, "Rust");
    assert_eq!(r.iterations, 25);
    assert_eq!(r.samples.len(), 25);
    assert_eq!(r.total_ns, r.samples.iter().fold(0u64, |a, &x| a.wrapping_add(x)));
    assert_eq!(r.min_ns, *r.samples.iter().min().unwrap());
    assert_eq!(r.max_ns, *r.samples.iter().max().unwrap());
    assert!(r.min_ns <= r.max_ns);
    let exact: u128 = r.samples.iter().map(|&x| x as u128).sum();
    assert!(r.min_ns as u128 * 25 <= exact);
    assert!(exact <= r.max_ns as u128 * 25);
}

#[test]
fn runner_keeps_results_in_order() {
    let mut runner = BenchRunner::new(0, 3);
    runner.run("first", "Rust", || 1);
    runner.run("second", "C++", || 2);
    let all = runner.results();
    assert_eq!(all.len(), 2);
    assert_eq!(all[0].name, "first");
    assert_eq!(all[1].name, "second");
    assert_eq!(all[1].language, "C++");
    assert_eq!(all[0].iterations, 3);
}

#[test]
fn runner_warmup_and_measure_call_counts() {
    let calls = Cell::new(0u64);
    let mut runner = BenchRunner::new(4, 6);
    runner.run("count", "Rust", || {
        calls.set(calls.get() + 1);
        calls.get()
    });
    assert_eq!(calls.get(), 10);
}

#[test]
fn results_follow_three_runs() {
    let mut runner = BenchRunner::new(1, 2);
    let names = ["a", "b", "c"];
    let langs = ["Rust", "C++", "Go"];
    for i in 0..3 {
        runner.run(names[i], langs[i], || 7);
    }
    let all = runner.results();
    assert_eq!(all.len(), 3);
    for i in 0..3 {
        assert_eq!(all[i].name, names[i]);
        assert_eq!(all[i].language, langs[i]);
        assert_eq!(all[i].iterations, 2);
    }
}
