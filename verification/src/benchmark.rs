//! Micro-benchmark kernels and the runner that measures them.
use crate::clock::{duration_as_nanos, instant_elapsed, instant_now, memory_fence};
use std::collections::HashMap;
use vstd::prelude::*;

verus! {

/// 2^64: the modulus of `u64` arithmetic that wraps.
pub open spec fn u64_modulus() -> int {
    0x1_0000_0000_0000_0000
}

/// The Fibonacci numbers: fib(0) = 0, fib(1) = 1, fib(n) = fib(n - 2) + fib(n - 1).
pub open spec fn fib(n: nat) -> nat
    decreases n,
{
    if n <= 1 {
        n
    } else {
        fib((n - 2) as nat) + fib((n - 1) as nat)
    }
}

/// Iterative Fibonacci in wrapping `u64` arithmetic: the `n`-th Fibonacci
/// number modulo 2^64.
pub fn bench_fibonacci_rust(n: u64) -> (r: u64)
    ensures
        r == fib(n as nat) as int % u64_modulus(),
{
    if n <= 1 {
        return n;
    }
    let mut a: u64 = 0;
    let mut b: u64 = 1;
    let mut i: u64 = 1;
    while i < n
        invariant
            1 <= i <= n,
            a == fib((i - 1) as nat) as int % u64_modulus(),
            b == fib(i as nat) as int % u64_modulus(),
        decreases n - i,
    {
        let c = a.wrapping_add(b);
        proof {
            vstd::arithmetic::div_mod::lemma_add_mod_noop(
                fib((i - 1) as nat) as int,
                fib(i as nat) as int,
                u64_modulus(),
            );
            assert(fib((i + 1) as nat) == fib((i - 1) as nat) + fib(i as nat));
        }
        a = b;
        b = c;
        i = i + 1;
    }
    b
}

/// The sum of a sequence of `u64`, as an unbounded integer.
pub open spec fn seq_sum(s: Seq<u64>) -> int {
    s.fold_left(0int, |acc: int, x: u64| acc + x)
}

/// 0 + 1 + ... + (n - 1).
pub open spec fn sum_below(n: nat) -> nat
    decreases n,
{
    if n == 0 {
        0
    } else {
        sum_below((n - 1) as nat) + (n - 1) as nat
    }
}

/// The sum of the first `n` naturals has the closed form n (n - 1) / 2.
pub proof fn lemma_sum_below_closed_form(n: nat)
    ensures
        2 * sum_below(n) == n * (n - 1),
    decreases n,
{
    if n > 0 {
        lemma_sum_below_closed_form((n - 1) as nat);
        assert(2 * sum_below(n) == (n - 1) * (n - 2) + 2 * (n - 1));
        assert((n - 1) * (n - 2) + 2 * (n - 1) == n * (n - 1)) by (nonlinear_arith);
    } else {
        assert(n * (n - 1) == 0) by (nonlinear_arith)
            requires
                n == 0,
        ;
    }
}

/// Adding one more element to a prefix adds it to the sum.
proof fn lemma_seq_sum_step(s: Seq<u64>, i: int)
    requires
        0 <= i < s.len(),
    ensures
        seq_sum(s.take(i + 1)) == seq_sum(s.take(i)) + s[i],
{
    assert(s.take(i + 1).drop_last() =~= s.take(i));
}

/// Sums a slice in wrapping `u64` arithmetic: the sum modulo 2^64.
fn wrapping_sum(data: &[u64]) -> (r: u64)
    ensures
        r == seq_sum(data@) % u64_modulus(),
{
    let n = data.len();
    let mut acc: u64 = 0;
    let mut i: usize = 0;
    while i < n
        invariant
            n == data@.len(),
            i <= n,
            acc == seq_sum(data@.take(i as int)) % u64_modulus(),
        decreases n - i,
    {
        proof {
            lemma_seq_sum_step(data@, i as int);
            vstd::arithmetic::div_mod::lemma_add_mod_noop(
                seq_sum(data@.take(i as int)),
                data@[i as int] as int,
                u64_modulus(),
            );
        }
        acc = acc.wrapping_add(data[i]);
        i = i + 1;
    }
    proof {
        assert(data@.take(n as int) =~= data@);
    }
    acc
}

/// Sums the array 0, 1, ..., size - 1 in wrapping `u64` arithmetic:
/// size (size - 1) / 2 modulo 2^64.
pub fn bench_array_sum_rust(size: usize) -> (r: u64)
    ensures
        r == (size * (size - 1) / 2) % u64_modulus(),
{
    let mut data: Vec<u64> = Vec::new();
    let top = size as u64;
    let mut k: u64 = 0;
    while k < top
        invariant
            top == size,
            k <= top,
            data@.len() == k,
            forall|j: int| 0 <= j < k ==> #[trigger] data@[j] == j,
            seq_sum(data@) == sum_below(k as nat),
        decreases top - k,
    {
        let ghost before = data@;
        data.push(k);
        proof {
            assert(data@.drop_last() =~= before);
        }
        k = k + 1;
    }
    proof {
        lemma_sum_below_closed_form(size as nat);
    }
    wrapping_sum(data.as_slice())
}

/// Allocates `count` vectors of 64 bytes one after the other, dropping each
/// at the end of its round, and returns the number of bytes allocated.
pub fn bench_heap_alloc_rust(count: usize) -> (total: usize)
    requires
        count * 64 <= usize::MAX,
    ensures
        total == count * 64,
{
    let mut total: usize = 0;
    let mut i: usize = 0;
    while i < count
        invariant
            i <= count,
            count * 64 <= usize::MAX,
            total == i * 64,
        decreases count - i,
    {
        let v: Vec<u8> = vec![i as u8; 64];
        total = total + v.len();
        i = i + 1;
    }
    total
}


/// The integer statistics of one benchmark: its name and language, how
/// many timed runs it made, their durations in nanoseconds, and their total,
/// least and greatest. Averages and spreads are taken from `samples`.
#[derive(Debug, Clone)]
pub struct BenchResult {
    pub name: String,
    pub language: String,
    pub iterations: u64,
    pub total_ns: u64,
    pub min_ns: u64,
    pub max_ns: u64,
    pub samples: Vec<u64>,
}

/// `m` is the least element of `s`.
pub open spec fn is_min_of(m: u64, s: Seq<u64>) -> bool {
    &&& s.contains(m)
    &&& forall|i: int| 0 <= i < s.len() ==> m <= #[trigger] s[i]
}

/// `m` is the greatest element of `s`.
pub open spec fn is_max_of(m: u64, s: Seq<u64>) -> bool {
    &&& s.contains(m)
    &&& forall|i: int| 0 <= i < s.len() ==> #[trigger] s[i] <= m
}

/// What one run of a benchmark records: `r` holds the given name and
/// language, `iterations` timed samples, their total modulo 2^64, and
/// their least and greatest.
pub open spec fn summarizes(r: BenchResult, name: Seq<char>, lang: Seq<char>, iterations: u64) -> bool {
    &&& r.name@ == name
    &&& r.language@ == lang
    &&& r.iterations == iterations
    &&& r.samples@.len() == iterations
    &&& r.total_ns == seq_sum(r.samples@) % u64_modulus()
    &&& is_min_of(r.min_ns, r.samples@)
    &&& is_max_of(r.max_ns, r.samples@)
}

fn min_of(s: &[u64]) -> (m: u64)
    requires
        s@.len() > 0,
    ensures
        is_min_of(m, s@),
{
    let mut m = s[0];
    proof {
        assert(s@.take(1)[0] == m);
    }
    let mut i: usize = 1;
    while i < s.len()
        invariant
            1 <= i <= s@.len(),
            s@.take(i as int).contains(m),
            forall|k: int| 0 <= k < i ==> m <= #[trigger] s@[k],
        decreases s@.len() - i,
    {
        if s[i] < m {
            m = s[i];
            proof {
                assert(s@.take(i + 1)[i as int] == m);
            }
        } else {
            proof {
                let w = choose|w: int| 0 <= w < i && s@.take(i as int)[w] == m;
                assert(s@.take(i + 1)[w] == m);
            }
        }
        i = i + 1;
    }
    proof {
        assert(s@.take(s@.len() as int) =~= s@);
    }
    m
}

fn max_of(s: &[u64]) -> (m: u64)
    requires
        s@.len() > 0,
    ensures
        is_max_of(m, s@),
{
    let mut m = s[0];
    proof {
        assert(s@.take(1)[0] == m);
    }
    let mut i: usize = 1;
    while i < s.len()
        invariant
            1 <= i <= s@.len(),
            s@.take(i as int).contains(m),
            forall|k: int| 0 <= k < i ==> #[trigger] s@[k] <= m,
        decreases s@.len() - i,
    {
        if s[i] > m {
            m = s[i];
            proof {
                assert(s@.take(i + 1)[i as int] == m);
            }
        } else {
            proof {
                let w = choose|w: int| 0 <= w < i && s@.take(i as int)[w] == m;
                assert(s@.take(i + 1)[w] == m);
            }
        }
        i = i + 1;
    }
    proof {
        assert(s@.take(s@.len() as int) =~= s@);
    }
    m
}

/// The mean of a run lies between its extremes: the least sample times the
/// number of samples is at most their (unwrapped) total, and that total is
/// at most the greatest sample times their number.
pub proof fn lemma_mean_between_extremes(r: BenchResult, name: Seq<char>, lang: Seq<char>, iterations: u64)
    requires
        summarizes(r, name, lang, iterations),
    ensures
        r.min_ns * iterations <= seq_sum(r.samples@) <= r.max_ns * iterations,
{
    lemma_sum_bounds(r.samples@, r.min_ns, r.max_ns);
}

proof fn lemma_sum_bounds(s: Seq<u64>, lo: u64, hi: u64)
    requires
        forall|i: int| 0 <= i < s.len() ==> lo <= #[trigger] s[i] <= hi,
    ensures
        lo * s.len() <= seq_sum(s) <= hi * s.len(),
    decreases s.len(),
{
    if s.len() > 0 {
        let init = s.drop_last();
        assert forall|i: int| 0 <= i < init.len() implies lo <= #[trigger] init[i] <= hi by {
            assert(init[i] == s[i]);
        }
        lemma_sum_bounds(init, lo, hi);
        assert(seq_sum(s) == seq_sum(init) + s.last());
        assert(lo * s.len() == lo * init.len() + lo) by (nonlinear_arith)
            requires
                s.len() == init.len() + 1,
        ;
        assert(hi * s.len() == hi * init.len() + hi) by (nonlinear_arith)
            requires
                s.len() == init.len() + 1,
        ;
    }
}

/// Runs benchmarks: each is warmed up, then timed run by run, and its
/// statistics are kept in the order the benchmarks ran.
pub struct BenchRunner {
    warmup_iters: u64,
    measure_iters: u64,
    results: Vec<BenchResult>,
}

impl BenchRunner {
    /// How many untimed runs precede the timed ones.
    pub closed spec fn warmup_iterations(&self) -> u64 {
        self.warmup_iters
    }

    /// How many runs are timed.
    pub closed spec fn measure_iterations(&self) -> u64 {
        self.measure_iters
    }

    /// The results collected so far, oldest first.
    pub closed spec fn results_view(&self) -> Seq<BenchResult> {
        self.results@
    }

    pub fn new(warmup: u64, measure: u64) -> (r: BenchRunner)
        ensures
            r.warmup_iterations() == warmup,
            r.measure_iterations() == measure,
            r.results_view() == Seq::<BenchResult>::empty(),
    {
        BenchRunner { warmup_iters: warmup, measure_iters: measure, results: Vec::new() }
    }

    /// Runs `f` the warm-up number of times untimed, then the measured number
    /// of times, timing each run, and records the statistics of the timed
    /// runs under `name` and `lang`. Returns that record.
    pub fn run<F: Fn() -> u64>(&mut self, name: &str, lang: &str, f: F) -> (r: &BenchResult)
        requires
            old(self).measure_iterations() > 0,
            f.requires(()),
        ensures
            final(self).warmup_iterations() == old(self).warmup_iterations(),
            final(self).measure_iterations() == old(self).measure_iterations(),
            final(self).results_view() == old(self).results_view().push(*r),
            summarizes(*r, name@, lang@, old(self).measure_iterations()),
    {
        let mut w: u64 = 0;
        while w < self.warmup_iters
            invariant
                f.requires(()),
            decreases self.warmup_iters - w,
        {
            let _ = f();
            w = w + 1;
        }
        let measure = self.measure_iters;
        let mut samples: Vec<u64> = Vec::with_capacity(measure as usize);
        let mut m: u64 = 0;
        while m < measure
            invariant
                f.requires(()),
                m <= measure,
                samples@.len() == m,
            decreases measure - m,
        {
            memory_fence();
            let t0 = instant_now();
            let _ = f();
            let elapsed = instant_elapsed(&t0);
            let nanos = duration_as_nanos(&elapsed);
            samples.push(nanos as u64);
            m = m + 1;
        }
        let total_ns = wrapping_sum(samples.as_slice());
        let min_ns = min_of(samples.as_slice());
        let max_ns = max_of(samples.as_slice());
        let result = BenchResult {
            name: name.to_string(),
            language: lang.to_string(),
            iterations: measure,
            total_ns,
            min_ns,
            max_ns,
            samples,
        };
        self.results.push(result);
        let last = self.results.len() - 1;
        &self.results[last]
    }

    /// The results collected so far, oldest first.
    pub fn results(&self) -> (r: &[BenchResult])
        ensures
            r@ == self.results_view(),
    {
        self.results.as_slice()
    }
}


/// 0, 2, 4, ..., 2 (n - 1).
pub open spec fn doubles(n: nat) -> Seq<u64> {
    Seq::new(n, |j: int| (2 * j) as u64)
}

proof fn lemma_doubles_sum(n: nat)
    requires
        2 * n <= u64::MAX + 1,
    ensures
        seq_sum(doubles(n)) == 2 * sum_below(n),
    decreases n,
{
    if n > 0 {
        lemma_doubles_sum((n - 1) as nat);
        assert(doubles(n).drop_last() =~= doubles((n - 1) as nat));
    }
}

/// Two sequences without repeats that hold the same elements have the same
/// sum.
proof fn lemma_sum_of_same_elements(a: Seq<u64>, b: Seq<u64>)
    requires
        a.no_duplicates(),
        b.no_duplicates(),
        a.to_set() == b.to_set(),
    ensures
        seq_sum(a) == seq_sum(b),
{
    broadcast use vstd::seq_lib::group_to_multiset_ensures;
    broadcast use vstd::set::group_set_axioms;

    a.lemma_multiset_has_no_duplicates();
    b.lemma_multiset_has_no_duplicates();
    assert forall|x: u64| a.to_multiset().count(x) == b.to_multiset().count(x) by {
        assert(a.contains(x) == a.to_set().contains(x));
        assert(b.contains(x) == b.to_set().contains(x));
        if a.contains(x) {
            assert(a.to_multiset().count(x) == 1);
            assert(b.to_multiset().count(x) == 1);
        } else {
            assert(a.to_multiset().count(x) == 0);
            assert(b.to_multiset().count(x) == 0);
        }
    }
    assert(a.to_multiset() =~= b.to_multiset());
    let f = |acc: int, x: u64| acc + x;
    vstd::seq_lib::lemma_fold_left_permutation(a, b, f, 0int);
}

/// A prefix of a sequence of `u64` sums to no more than the whole.
proof fn lemma_prefix_sum_le(s: Seq<u64>, k: int)
    requires
        0 <= k <= s.len(),
    ensures
        seq_sum(s.take(k)) <= seq_sum(s),
    decreases s.len(),
{
    if k < s.len() {
        lemma_prefix_sum_le(s.drop_last(), k);
        assert(s.drop_last().take(k) =~= s.take(k));
    } else {
        assert(s.take(k) =~= s);
    }
}

/// Fills a `HashMap` with the pairs i -> 2 i for i below `entries`, then
/// sums its values: entries (entries - 1).
pub fn bench_hashmap_rust(entries: usize) -> (r: u64)
    requires
        entries * (entries - 1) <= u64::MAX,
    ensures
        r == entries * (entries - 1),
{
    broadcast use vstd::std_specs::hash::group_hash_axioms;

    let mut map: HashMap<u64, u64> = HashMap::with_capacity(entries);
    let top = entries as u64;
    proof {
        if top > 0x1_0000_0000 {
            assert(top * (top - 1) > u64::MAX) by (nonlinear_arith)
                requires
                    top > 0x1_0000_0000,
            ;
        }
    }
    let mut i: u64 = 0;
    while i < top
        invariant
            top == entries,
            top <= 0x1_0000_0000,
            i <= top,
            map@ =~= Map::new(|k: u64| k < i, |k: u64| (2 * k) as u64),
            map@.dom().len() == i,
        decreases top - i,
    {
        proof {
            broadcast use vstd::set::group_set_axioms;
            assert(!map@.dom().contains(i));
        }
        map.insert(i, i * 2);
        i = i + 1;
    }
    let ghost vals = vstd::std_specs::iter::IteratorSpec::remaining(&vstd::std_specs::hash::spec_values_iter(&map)).unref();
    proof {
        let c = doubles(top as nat);
        assert(map@.values() =~= c.to_set()) by {
            assert forall|x: u64| map@.values().contains(x) implies c.to_set().contains(x) by {
                let k = choose|k: u64| #[trigger] map@.dom().contains(k) && map@[k] == x;
                assert(c[k as int] == x);
            }
            assert forall|x: u64| c.to_set().contains(x) implies map@.values().contains(x) by {
                let j = choose|j: int| 0 <= j < c.len() && c[j] == x;
                assert(map@.dom().contains(j as u64) && map@[j as u64] == x);
            }
        }
        assert(c.no_duplicates());
        c.unique_seq_to_set();
        assert(vals.to_set() == map@.values());
        assert(vals.len() == map@.dom().len());
        vals.lemma_no_dup_set_cardinality();
        lemma_sum_of_same_elements(vals, c);
        lemma_doubles_sum(top as nat);
        lemma_sum_below_closed_form(top as nat);
    }
    let mut total: u64 = 0;
    for v in it: map.values()
        invariant
            it.seq().unref() == vals,
            seq_sum(vals) == top * (top - 1),
            top * (top - 1) <= u64::MAX,
            total == seq_sum(vals.take(it.index())),
    {
        proof {
            lemma_seq_sum_step(vals, it.index());
            lemma_prefix_sum_le(vals, it.index() + 1);
        }
        total = total + *v;
    }
    proof {
        assert(vals.take(vals.len() as int) =~= vals);
    }
    total
}


/// One call of `run` took runner `before` to runner `after`, with the given
/// name and language: its record was appended and the counts stayed.
pub open spec fn run_step(before: BenchRunner, after: BenchRunner, name: Seq<char>, lang: Seq<char>) -> bool {
    &&& after.warmup_iterations() == before.warmup_iterations()
    &&& after.measure_iterations() == before.measure_iterations()
    &&& exists|r: BenchResult|
        after.results_view() == before.results_view().push(r) && #[trigger] summarizes(
            r,
            name,
            lang,
            before.measure_iterations(),
        )
}

/// Results keep the order of the runs: after `j` runs from a runner with
/// no results, it holds `j` results, the `i`-th carrying the name and
/// language of the `i`-th run and the runner's measured count.
pub proof fn lemma_results_follow_runs(
    runners: Seq<BenchRunner>,
    names: Seq<Seq<char>>,
    langs: Seq<Seq<char>>,
    j: int,
)
    requires
        runners.len() == names.len() + 1,
        langs.len() == names.len(),
        0 <= j <= names.len(),
        runners[0].results_view() == Seq::<BenchResult>::empty(),
        forall|i: int|
            0 <= i < names.len() ==> #[trigger] run_step(runners[i], runners[i + 1], names[i], langs[i]),
    ensures
        runners[j].results_view().len() == j,
        runners[j].measure_iterations() == runners[0].measure_iterations(),
        forall|i: int|
            0 <= i < j ==> {
                &&& (#[trigger] runners[j].results_view()[i]).name@ == names[i]
                &&& runners[j].results_view()[i].language@ == langs[i]
                &&& runners[j].results_view()[i].iterations == runners[0].measure_iterations()
            },
    decreases j,
{
    if j > 0 {
        lemma_results_follow_runs(runners, names, langs, j - 1);
        let k = j - 1;
        assert(run_step(runners[k], runners[k + 1], names[k], langs[k]));
        assert(k + 1 == j);
        let r = choose|r: BenchResult|
            runners[j].results_view() == runners[j - 1].results_view().push(r) && #[trigger] summarizes(
                r,
                names[j - 1],
                langs[j - 1],
                runners[j - 1].measure_iterations(),
            );
        assert forall|i: int| 0 <= i < j implies {
            &&& (#[trigger] runners[j].results_view()[i]).name@ == names[i]
            &&& runners[j].results_view()[i].language@ == langs[i]
            &&& runners[j].results_view()[i].iterations == runners[0].measure_iterations()
        } by {
            if i < j - 1 {
                assert(runners[j].results_view()[i] == runners[j - 1].results_view()[i]);
            } else {
                assert(runners[j].results_view()[i] == r);
            }
        }
    }
}

} // verus!
