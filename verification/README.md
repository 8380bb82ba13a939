# SABO OS v3

A priority task scheduler and a small benchmark suite, with their behaviour
stated as Verus contracts and proved.

- `src/scheduler.rs`: priorities, tasks, the ready queue (most urgent entry
  handed out first, first come first served within a priority) and the
  dispatcher state with its tick (`tick_post` states what one tick does).
- `src/benchmark.rs`: the benchmark kernels (Fibonacci, array sum, heap
  allocation, `HashMap`) and the runner that times them and keeps integer
  statistics.
- `src/clock.rs`: the clock readings and the memory fence the library takes
  from the standard library, with what is stated of them.
- `app/`: the Tokio program: channels, the dispatch loop, the printed
  reports, and the floating-point statistics.
- `tests/`: tests of the library on concrete values.
