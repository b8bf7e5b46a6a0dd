//! Decisions of the blocking thread pool: the arrival counter, the sliding
//! window of arrival frequencies, its exponentially weighted moving average,
//! the upscaling rule, and the admission of dynamic workers.
//!
//! The average is kept exactly. With `α = 2/11` and the newest sample first,
//! `EMA = α · Σ Yᵢ · (1 − α)^i`; every window holds at most ten samples, so
//! `EMA · 11^11 = Σ Yᵢ · 2 · 9^i · 11^(10 − i)` is an integer, and that integer
//! is what the pool compares. Two such values differ by at least `11^-11`, far
//! above the machine epsilon, so "the averages differ by less than epsilon"
//! is exactly "the scaled averages are equal".
use std::collections::VecDeque;
use vstd::prelude::*;

verus! {

/// Scaler value used when no low watermark is configured.
pub const DEFAULT_LOW_WATERMARK: u64 = 2;

/// Interval between two runs of the pool manager, in milliseconds.
pub const MANAGER_POLL_INTERVAL: u64 = 200;

/// Number of frequency samples that the sliding window keeps.
pub const FREQUENCY_QUEUE_SIZE: usize = 10;

/// Initial bound on the number of pool threads.
pub const DEFAULT_MAX_THREADS: u64 = 10_000;

/// Factor by which an average is scaled to make it an integer: `11^11`.
pub const EMA_SCALE: u128 = 285_311_670_611;

/// Smallest idle window of a dynamic worker, in milliseconds.
pub const MIN_IDLE_MS: u64 = 1000;

/// Width of the random part of a dynamic worker's idle window, in milliseconds.
pub const IDLE_JITTER_MS: u64 = 10_000;

pub open spec fn pow(b: int, e: nat) -> int
    decreases e,
{
    if e == 0 {
        1
    } else {
        b * pow(b, (e - 1) as nat)
    }
}

/// Weight of the sample at age `i` (the newest has age 0) in a scaled average.
pub open spec fn ema_weight(i: nat) -> int {
    2 * pow(9, i) * pow(11, (10 - i) as nat)
}

/// Scaled average of the `k` newest samples of `w` (oldest first in `w`).
pub open spec fn ema_prefix(w: Seq<u64>, k: nat) -> int
    decreases k,
{
    if k == 0 || k > w.len() {
        0
    } else {
        ema_prefix(w, (k - 1) as nat) + w[w.len() - k] * ema_weight((k - 1) as nat)
    }
}

/// `EMA(w) · 11^11`, where `w` lists the samples oldest first.
pub open spec fn scaled_ema(w: Seq<u64>) -> int {
    ema_prefix(w, w.len())
}

/// The window after one sample is appended: the oldest sample leaves once
/// more than `FREQUENCY_QUEUE_SIZE` are held.
pub open spec fn window_push(w: Seq<u64>, sample: u64) -> Seq<u64> {
    let p = w.push(sample);
    if p.len() > FREQUENCY_QUEUE_SIZE {
        p.subrange(1, p.len() as int)
    } else {
        p
    }
}

/// The window that a manager run starts from: one zero sample if it is empty.
pub open spec fn window_seeded(w: Seq<u64>) -> Seq<u64> {
    if w.len() == 0 {
        seq![0u64]
    } else {
        w
    }
}

pub open spec fn min_int(a: int, b: int) -> int {
    if a <= b {
        a
    } else {
        b
    }
}

/// Workers to add when the scaled average grows from `prev` to `curr`:
/// `min(cpus, floor(lw · Δ + lw))` with `Δ = (curr − prev) / 11^11`.
pub open spec fn upscale_amount(prev: int, curr: int, lw: int, cpus: int) -> int {
    min_int(cpus, (lw * (curr - prev) + lw * EMA_SCALE) / (EMA_SCALE as int))
}

/// Workers that one manager run adds, given the arrivals of the interval and
/// the scaled averages before and after the new sample.
pub open spec fn spawn_count(arrivals: u64, prev: int, curr: int, lw: int, cpus: int) -> int {
    if curr > prev {
        upscale_amount(prev, curr, lw, cpus)
    } else if curr == prev && arrivals != 0 {
        lw
    } else {
        0
    }
}

proof fn lemma_weight_step(i: nat)
    requires
        i < 10,
    ensures
        ema_weight(i) / 11 * 9 == ema_weight(i + 1),
        0 < ema_weight(i + 1),
        ema_weight(i + 1) <= ema_weight(i),
{
    let a = pow(9, i);
    let b = pow(11, (10 - (i + 1)) as nat);
    assert(pow(9, i + 1) == 9 * a);
    assert(pow(11, (10 - i) as nat) == 11 * b);
    lemma_pow_positive(9, i);
    lemma_pow_positive(11, (10 - (i + 1)) as nat);
    let m = 2 * a * b;
    assert(0 < m) by (nonlinear_arith)
        requires
            0 < a,
            0 < b,
            m == 2 * a * b,
    ;
    assert(ema_weight(i + 1) == 9 * m) by (nonlinear_arith)
        requires
            ema_weight(i + 1) == 2 * (9 * a) * b,
            m == 2 * a * b,
    ;
    assert(ema_weight(i) == 11 * m) by (nonlinear_arith)
        requires
            ema_weight(i) == 2 * a * (11 * b),
            m == 2 * a * b,
    ;
    assert((11 * m) / 11 == m) by (nonlinear_arith);
}

proof fn lemma_pow_positive(b: int, e: nat)
    requires
        b > 0,
    ensures
        pow(b, e) > 0,
    decreases e,
{
    if e > 0 {
        lemma_pow_positive(b, (e - 1) as nat);
        let p = pow(b, (e - 1) as nat);
        assert(b * p > 0) by (nonlinear_arith)
            requires
                b > 0,
                p > 0,
        ;
    }
}

proof fn lemma_weight_bounds(i: nat)
    requires
        i <= 10,
    ensures
        0 < ema_weight(i) <= 2 * 25_937_424_601,
    decreases i,
{
    if i == 0 {
        reveal_with_fuel(pow, 11);
        assert(pow(11, 10) == 25_937_424_601);
    } else {
        lemma_weight_bounds((i - 1) as nat);
        lemma_weight_step((i - 1) as nat);
    }
}

proof fn lemma_ema_prefix_nonneg(w: Seq<u64>, k: nat)
    requires
        k <= w.len(),
        w.len() <= 11,
    ensures
        0 <= ema_prefix(w, k) <= k * (u64::MAX as int) * (2 * 25_937_424_601),
    decreases k,
{
    if k > 0 {
        lemma_ema_prefix_nonneg(w, (k - 1) as nat);
        lemma_weight_bounds((k - 1) as nat);
        let y = w[w.len() - k] as int;
        let g = ema_weight((k - 1) as nat);
        assert(0 <= y * g <= (u64::MAX as int) * (2 * 25_937_424_601)) by (nonlinear_arith)
            requires
                0 <= y <= u64::MAX,
                0 < g <= 2 * 25_937_424_601,
        ;
        assert((k - 1) * (u64::MAX as int) * (2 * 25_937_424_601) + (u64::MAX as int) * (2
            * 25_937_424_601) == k * (u64::MAX as int) * (2 * 25_937_424_601)) by (nonlinear_arith);
    }
}

/// Exponentially weighted moving average of a window, scaled by `11^11`.
pub fn calculate_ema(freq_queue: &VecDeque<u64>) -> (r: u128)
    requires
        freq_queue@.len() <= FREQUENCY_QUEUE_SIZE,
    ensures
        r == scaled_ema(freq_queue@),
{
    let n = freq_queue.len();
    let mut acc: u128 = 0;
    let mut weight: u128 = 2 * 25_937_424_601;
    let mut k: usize = 0;
    proof {
        reveal_with_fuel(pow, 11);
        assert(ema_weight(0) == 2 * 25_937_424_601);
    }
    while k < n
        invariant
            n == freq_queue@.len(),
            n <= FREQUENCY_QUEUE_SIZE,
            k <= n,
            acc == ema_prefix(freq_queue@, k as nat),
            k < n ==> weight == ema_weight(k as nat),
        decreases n - k,
    {
        proof {
            lemma_ema_prefix_nonneg(freq_queue@, (k + 1) as nat);
            assert((k + 1) * (u64::MAX as int) * (2 * 25_937_424_601) <= 10 * (u64::MAX as int)
                * (2 * 25_937_424_601)) by (nonlinear_arith)
                requires
                    k + 1 <= 10,
            ;
            lemma_weight_bounds(k as nat);
        }
        let y = freq_queue[n - 1 - k] as u128;
        assert(y * weight <= (u64::MAX as int) * (2 * 25_937_424_601)) by (nonlinear_arith)
            requires
                y <= u64::MAX,
                weight <= 2 * 25_937_424_601,
        ;
        acc = acc + y * weight;
        if k + 1 < n {
            proof {
                lemma_weight_step(k as nat);
            }
            weight = weight / 11 * 9;
        }
        k = k + 1;
    }
    acc
}

/// Workers that one manager run adds: the exact form of `spawn_count`.
fn spawn_amount(arrivals: u64, prev: u128, curr: u128, lw: u64, cpus: usize) -> (r: u64)
    requires
        curr <= 10 * (u64::MAX as int) * (2 * 25_937_424_601),
    ensures
        r == spawn_count(arrivals, prev as int, curr as int, lw as int, cpus as int),
{
    if curr > prev {
        let d = curr - prev;
        let s = d + EMA_SCALE;
        assert((lw as int) * (d as int) + (lw as int) * (EMA_SCALE as int) == (lw as int) * (
        s as int)) by (nonlinear_arith)
            requires
                s == d + EMA_SCALE,
        ;
        match (lw as u128).checked_mul(s) {
            Some(x) => {
                let q = x / EMA_SCALE;
                if q < cpus as u128 {
                    q as u64
                } else {
                    cpus as u64
                }
            },
            None => {
                proof {
                    let big: int = (u64::MAX as int) * (EMA_SCALE as int);
                    let x: int = (lw as int) * (s as int);
                    assert(big / (EMA_SCALE as int) == u64::MAX as int) by (nonlinear_arith)
                        requires
                            big == (u64::MAX as int) * (EMA_SCALE as int),
                    ;
                    assert(big / (EMA_SCALE as int) <= x / (EMA_SCALE as int)) by (nonlinear_arith)
                        requires
                            big <= x,
                    ;
                }
                cpus as u64
            },
        }
    } else if curr == prev && arrivals != 0 {
        lw
    } else {
        0
    }
}

/// Where a worker thread pins itself: a logical core number.
#[derive(Clone, Copy, Debug, PartialEq, Eq)]
pub struct CoreId {
    pub id: usize,
}

/// Chooses the core for the next worker and advances the round-robin pin.
/// Pinning is done only on machines with more than one core.
pub fn affinity_pinner(pin: &mut CoreId, core_count: usize) -> (r: Option<CoreId>)
    ensures
        core_count > 1 ==> r == Some(*old(pin)) && final(pin).id == (old(pin).id + 1) % (
        core_count as int),
        core_count <= 1 ==> r.is_none() && *final(pin) == *old(pin),
{
    if core_count > 1 {
        let core = *pin;
        let next = pin.id % core_count + 1;
        pin.id = next % core_count;
        proof {
            let n = core_count as int;
            let i = old(pin).id as int;
            assert((i % n + 1) % n == (i + 1) % n) by (nonlinear_arith)
                requires
                    n > 1,
                    i >= 0,
            ;
        }
        Some(core)
    } else {
        None
    }
}

/// Idle window of a dynamic worker, in milliseconds, from a random draw in
/// `[0, IDLE_JITTER_MS)`.
pub fn idle_limit_ms(draw: u64) -> (r: u64)
    requires
        draw < IDLE_JITTER_MS,
    ensures
        r == MIN_IDLE_MS + draw,
        MIN_IDLE_MS <= r < MIN_IDLE_MS + IDLE_JITTER_MS,
{
    MIN_IDLE_MS + draw
}

/// The process-wide counters and the frequency window of the blocking pool.
pub struct PoolState {
    /// Tasks scheduled since the last manager run.
    pub arrivals: u64,
    /// Frequency samples, oldest first.
    pub window: VecDeque<u64>,
    /// Number of running worker threads.
    pub pool_size: u64,
    /// Bound on the number of worker threads.
    pub max_threads: u64,
    /// Bare minimum of workers, and the unit in which the pool grows.
    pub low_watermark: u64,
}

impl PoolState {
    pub open spec fn wf(&self) -> bool {
        self.window@.len() <= FREQUENCY_QUEUE_SIZE
    }

    /// The window that the next manager run leaves behind.
    pub open spec fn next_window(&self) -> Seq<u64> {
        window_push(
            window_seeded(self.window@),
            (self.arrivals / MANAGER_POLL_INTERVAL) as u64,
        )
    }

    /// Workers that the next manager run adds on a machine with `cpus` cores.
    pub open spec fn next_spawn(&self, cpus: int) -> int {
        spawn_count(
            self.arrivals,
            scaled_ema(window_seeded(self.window@)),
            scaled_ema(self.next_window()),
            self.low_watermark as int,
            cpus,
        )
    }

    /// A pool whose static workers, `low_watermark` of them, are running.
    pub fn new(low_watermark: u64) -> (r: PoolState)
        ensures
            r.wf(),
            r.arrivals == 0,
            r.window@.len() == 0,
            r.pool_size == low_watermark,
            r.max_threads == DEFAULT_MAX_THREADS,
            r.low_watermark == low_watermark,
    {
        PoolState {
            arrivals: 0,
            window: VecDeque::new(),
            pool_size: low_watermark,
            max_threads: DEFAULT_MAX_THREADS,
            low_watermark,
        }
    }

    /// Counts one scheduled task (the counter wraps as an atomic add does).
    pub fn schedule(&mut self)
        ensures
            final(self).arrivals == (old(self).arrivals + 1) % 0x1_0000_0000_0000_0000,
            final(self).window@ == old(self).window@,
            final(self).pool_size == old(self).pool_size,
            final(self).max_threads == old(self).max_threads,
            final(self).low_watermark == old(self).low_watermark,
    {
        self.arrivals = self.arrivals.wrapping_add(1);
    }

    /// One run of the pool manager on a machine with `cpus` cores: takes and
    /// clears the arrival counter, records the interval's frequency in the
    /// window, and returns how many dynamic workers to add.
    pub fn manager_tick(&mut self, cpus: usize) -> (r: u64)
        requires
            old(self).wf(),
        ensures
            final(self).wf(),
            final(self).arrivals == 0,
            final(self).window@ == old(self).next_window(),
            r == old(self).next_spawn(cpus as int),
            final(self).pool_size == old(self).pool_size,
            final(self).max_threads == old(self).max_threads,
            final(self).low_watermark == old(self).low_watermark,
    {
        let current = self.arrivals;
        self.arrivals = 0;
        if self.window.len() == 0 {
            self.window.push_back(0);
            assert(self.window@ =~= seq![0u64]);
        }
        let frequency = current / MANAGER_POLL_INTERVAL;
        let prev = calculate_ema(&self.window);
        self.window.push_back(frequency);
        if self.window.len() == FREQUENCY_QUEUE_SIZE + 1 {
            self.window.pop_front();
        }
        assert(self.window@ =~= old(self).next_window());
        let curr = calculate_ema(&self.window);
        proof {
            lemma_ema_prefix_nonneg(self.window@, self.window@.len());
            let k = self.window@.len();
            assert(k * (u64::MAX as int) * (2 * 25_937_424_601) <= 10 * (u64::MAX as int) * (2
                * 25_937_424_601)) by (nonlinear_arith)
                requires
                    k <= 10,
            ;
        }
        spawn_amount(current, prev, curr, self.low_watermark, cpus)
    }

    /// One run of the pool manager on this machine.
    pub fn scale_pool(&mut self) -> (r: u64)
        requires
            old(self).wf(),
        ensures
            final(self).wf(),
            final(self).arrivals == 0,
            final(self).window@ == old(self).next_window(),
            exists|cpus: int| cpus >= 1 && r == old(self).next_spawn(cpus),
            final(self).pool_size == old(self).pool_size,
            final(self).max_threads == old(self).max_threads,
            final(self).low_watermark == old(self).low_watermark,
    {
        let cpus = cpu_count();
        self.manager_tick(cpus)
    }

    /// Decides whether one more dynamic worker may start. At the bound the
    /// pool declines and the bound goes back to its initial value.
    pub fn admit_dynamic_worker(&mut self) -> (r: bool)
        ensures
            r == (old(self).pool_size < old(self).max_threads),
            r ==> *final(self) == *old(self),
            !r ==> final(self).max_threads == DEFAULT_MAX_THREADS,
            final(self).arrivals == old(self).arrivals,
            final(self).window@ == old(self).window@,
            final(self).pool_size == old(self).pool_size,
            final(self).low_watermark == old(self).low_watermark,
    {
        if self.pool_size >= self.max_threads {
            self.max_threads = DEFAULT_MAX_THREADS;
            false
        } else {
            true
        }
    }

    /// A dynamic worker has started.
    pub fn worker_started(&mut self)
        requires
            old(self).pool_size < u64::MAX,
        ensures
            final(self).pool_size == old(self).pool_size + 1,
            final(self).arrivals == old(self).arrivals,
            final(self).window@ == old(self).window@,
            final(self).max_threads == old(self).max_threads,
            final(self).low_watermark == old(self).low_watermark,
    {
        self.pool_size = self.pool_size + 1;
    }

    /// A dynamic worker has exited after its idle window.
    pub fn worker_exited(&mut self)
        requires
            old(self).pool_size > 0,
        ensures
            final(self).pool_size == old(self).pool_size - 1,
            final(self).arrivals == old(self).arrivals,
            final(self).window@ == old(self).window@,
            final(self).max_threads == old(self).max_threads,
            final(self).low_watermark == old(self).low_watermark,
    {
        self.pool_size = self.pool_size - 1;
    }

    /// The system refused a new thread because it would block: the pool
    /// limits itself to one thread less than it runs.
    pub fn spawn_refused(&mut self)
        requires
            old(self).pool_size > 0,
        ensures
            final(self).max_threads == old(self).pool_size - 1,
            final(self).arrivals == old(self).arrivals,
            final(self).window@ == old(self).window@,
            final(self).pool_size == old(self).pool_size,
            final(self).low_watermark == old(self).low_watermark,
    {
        self.max_threads = self.pool_size - 1;
    }
}

/// Relies on num_cpus::get: the number of logical cores, documented to be at
/// least one.
#[verifier::external_body]
fn cpu_count() -> (r: usize)
    ensures
        r >= 1,
{
    num_cpus::get()
}

/// Why the pool's configuration was refused.
#[derive(Clone, Copy, Debug, PartialEq, Eq)]
pub enum ConfigError {
    /// The low watermark is not a decimal integer that fits in 64 bits.
    MalformedLowWatermark,
}

pub open spec fn is_digit(b: u8) -> bool {
    48 <= b <= 57
}

/// The value of a string of decimal digits.
pub open spec fn digits_value(s: Seq<u8>) -> int
    decreases s.len(),
{
    if s.len() == 0 {
        0
    } else {
        digits_value(s.drop_last()) * 10 + (s.last() - 48)
    }
}

/// The digits of a decimal integer, after an optional leading `+`.
pub open spec fn unsigned_digits(s: Seq<u8>) -> Seq<u8> {
    if s.len() > 0 && s[0] == 43 {
        s.subrange(1, s.len() as int)
    } else {
        s
    }
}

/// `s` writes a decimal integer that fits in a `u64`.
pub open spec fn is_decimal_u64(s: Seq<u8>) -> bool {
    let d = unsigned_digits(s);
    &&& d.len() > 0
    &&& forall|i: int| 0 <= i < d.len() ==> is_digit(#[trigger] d[i])
    &&& digits_value(d) <= u64::MAX
}

proof fn lemma_digits_value_grows(s: Seq<u8>, k: int)
    requires
        0 <= k <= s.len(),
        forall|i: int| 0 <= i < s.len() ==> is_digit(#[trigger] s[i]),
    ensures
        0 <= digits_value(s.subrange(0, k)) <= digits_value(s),
    decreases s.len(),
{
    if s.len() > 0 {
        let t = s.drop_last();
        if k == s.len() {
            assert(s.subrange(0, k) =~= s);
            lemma_digits_value_grows(t, 0);
        } else {
            lemma_digits_value_grows(t, k);
            assert(s.subrange(0, k) =~= t.subrange(0, k));
            lemma_digits_value_grows(t, t.len() as int);
            assert(t.subrange(0, t.len() as int) =~= t);
        }
    }
}

/// The low watermark configured by the text `var` of an environment variable,
/// or the default where the variable is not set.
pub fn low_watermark(var: Option<&[u8]>) -> (r: Result<u64, ConfigError>)
    ensures
        var.is_none() ==> r == Ok::<u64, ConfigError>(DEFAULT_LOW_WATERMARK),
        var.is_some() && is_decimal_u64(var.unwrap()@) ==> r == Ok::<u64, ConfigError>(
            digits_value(unsigned_digits(var.unwrap()@)) as u64,
        ),
        var.is_some() && !is_decimal_u64(var.unwrap()@) ==> r == Err::<u64, ConfigError>(
            ConfigError::MalformedLowWatermark,
        ),
{
    match var {
        None => Ok(DEFAULT_LOW_WATERMARK),
        Some(text) => {
            let n = text.len();
            let mut start: usize = 0;
            if n > 0 && text[0] == 43 {
                start = 1;
            }
            let ghost d = unsigned_digits(text@);
            assert(d =~= text@.subrange(start as int, n as int));
            if start == n {
                assert(d.len() == 0);
                return Err(ConfigError::MalformedLowWatermark);
            }
            let mut i: usize = start;
            let mut value: u64 = 0;
            let mut overflow = false;
            while i < n
                invariant
                    var == Some(text),
                    d == unsigned_digits(text@),
                    start <= i <= n,
                    n == text@.len(),
                    d == text@.subrange(start as int, n as int),
                    forall|j: int| 0 <= j < i - start ==> is_digit(#[trigger] d[j]),
                    !overflow ==> value == digits_value(d.subrange(0, i - start)),
                    overflow ==> digits_value(d.subrange(0, i - start)) > u64::MAX,
                decreases n - i,
            {
                let b = text[i];
                if b < 48 || b > 57 {
                    assert(!is_digit(d[i - start]));
                    return Err(ConfigError::MalformedLowWatermark);
                }
                let digit = (b - 48) as u64;
                let ghost prefix = d.subrange(0, i - start + 1);
                assert(prefix.drop_last() =~= d.subrange(0, i - start));
                if overflow {
                    proof {
                        assert(digits_value(prefix) >= digits_value(d.subrange(0, i - start)) * 10);
                    }
                } else if value > (u64::MAX - digit) / 10 {
                    overflow = true;
                } else {
                    value = value * 10 + digit;
                }
                i = i + 1;
            }
            assert(d.subrange(0, d.len() as int) =~= d);
            if overflow {
                Err(ConfigError::MalformedLowWatermark)
            } else {
                Ok(value)
            }
        },
    }
}

/// An interval without arrivals adds no worker: the new sample is zero, so
/// the average cannot grow, and no task was seen.
pub proof fn lemma_quiet_interval_spawns_none(w: Seq<u64>, lw: u64, cpus: int)
    requires
        w.len() <= FREQUENCY_QUEUE_SIZE,
    ensures
        spawn_count(
            0,
            scaled_ema(window_seeded(w)),
            scaled_ema(window_push(window_seeded(w), 0)),
            lw as int,
            cpus,
        ) == 0,
{
    let s = window_seeded(w);
    let q = window_push(s, 0);
    lemma_push_zero_prefix(s, (q.len() - 1) as nat);
    lemma_ema_prefix_monotone(s, (q.len() - 1) as nat, s.len());
}

/// With a zero sample pushed, the `k + 1` newest samples weigh no more than
/// the `k` newest before.
proof fn lemma_push_zero_prefix(s: Seq<u64>, k: nat)
    requires
        1 <= s.len() <= FREQUENCY_QUEUE_SIZE,
        k + 1 <= window_push(s, 0).len(),
    ensures
        ema_prefix(window_push(s, 0), k + 1) <= ema_prefix(s, k),
    decreases k,
{
    let q = window_push(s, 0);
    assert(q[q.len() - 1] == 0);
    if k == 0 {
        assert(ema_prefix(q, 1) == ema_prefix(q, 0) + q[q.len() - 1] * ema_weight(0));
    } else {
        lemma_push_zero_prefix(s, (k - 1) as nat);
        assert(ema_prefix(q, k + 1) == ema_prefix(q, k) + q[q.len() - (k + 1)] * ema_weight(k));
        assert(ema_prefix(s, k) == ema_prefix(s, (k - 1) as nat) + s[s.len() - k] * ema_weight((k - 1) as nat));
        assert(q[q.len() - (k + 1)] == s[s.len() - k]);
        lemma_weight_step((k - 1) as nat);
        let y = s[s.len() - k] as int;
        let a = ema_weight(k as nat);
        let b = ema_weight((k - 1) as nat);
        assert(y * a <= y * b) by (nonlinear_arith)
            requires
                0 <= y,
                a <= b,
        ;
    }
}

proof fn lemma_ema_prefix_monotone(s: Seq<u64>, j: nat, k: nat)
    requires
        j <= k <= s.len(),
        s.len() <= FREQUENCY_QUEUE_SIZE,
    ensures
        ema_prefix(s, j) <= ema_prefix(s, k),
    decreases k - j,
{
    if j < k {
        lemma_ema_prefix_monotone(s, j, (k - 1) as nat);
        lemma_weight_bounds((k - 1) as nat);
        let y = s[s.len() - k] as int;
        let g = ema_weight((k - 1) as nat);
        assert(0 <= y * g) by (nonlinear_arith)
            requires
                0 <= y,
                0 < g,
        ;
    }
}

/// Arrivals that leave the average unchanged add exactly `lw` workers: the
/// pool sees tasks that cannot be handed off.
pub proof fn lemma_stalled_interval_spawns_low_watermark(w: Seq<u64>, arrivals: u64, lw: u64, cpus: int)
    requires
        w.len() <= FREQUENCY_QUEUE_SIZE,
        arrivals != 0,
        scaled_ema(window_seeded(w)) == scaled_ema(
            window_push(window_seeded(w), (arrivals / MANAGER_POLL_INTERVAL) as u64),
        ),
    ensures
        spawn_count(
            arrivals,
            scaled_ema(window_seeded(w)),
            scaled_ema(window_push(window_seeded(w), (arrivals / MANAGER_POLL_INTERVAL) as u64)),
            lw as int,
            cpus,
        ) == lw,
{
}

/// The average depends on the window alone: the same window gives the same
/// value each time it is fed in.
pub proof fn lemma_ema_same_window(w1: Seq<u64>, w2: Seq<u64>)
    requires
        w1 == w2,
    ensures
        scaled_ema(w1) == scaled_ema(w2),
{
}

/// One manager run adds at most `max(cpus, lw)` workers.
pub proof fn lemma_spawn_bounded(arrivals: u64, prev: int, curr: int, lw: u64, cpus: int)
    requires
        cpus >= 0,
    ensures
        0 <= spawn_count(arrivals, prev, curr, lw as int, cpus),
        spawn_count(arrivals, prev, curr, lw as int, cpus) <= cpus || spawn_count(
            arrivals,
            prev,
            curr,
            lw as int,
            cpus,
        ) == lw,
{
    if curr > prev {
        let d = curr - prev;
        assert(0 <= (lw as int) * d) by (nonlinear_arith)
            requires
                d > 0,
        ;
    }
}

/// Pool size after a run of dynamic-worker events from `size`: `true` is
/// `worker_started`, `false` is `worker_exited`.
pub open spec fn size_after(size: int, events: Seq<bool>) -> int
    decreases events.len(),
{
    if events.len() == 0 {
        size
    } else {
        size_after(size, events.drop_last()) + if events.last() {
            1int
        } else {
            -1int
        }
    }
}

/// Each dynamic worker exits only after it started: no prefix of `events`
/// has more exits than starts.
pub open spec fn exits_follow_starts(events: Seq<bool>) -> bool {
    forall|k: int| 0 <= k <= events.len() ==> size_after(0, #[trigger] events.subrange(0, k)) >= 0
}

/// The pool never runs fewer threads than its static workers: starting from
/// `low_watermark` threads, any run of worker starts and exits in which each
/// exit follows its start leaves at least `low_watermark` threads, and
/// exactly `low_watermark` plus the dynamic workers alive.
pub proof fn lemma_pool_never_below_low_watermark(low_watermark: int, events: Seq<bool>)
    requires
        exits_follow_starts(events),
    ensures
        size_after(low_watermark, events) == low_watermark + size_after(0, events),
        size_after(low_watermark, events) >= low_watermark,
    decreases events.len(),
{
    assert(events.subrange(0, events.len() as int) =~= events);
    if events.len() > 0 {
        let prefix = events.drop_last();
        assert forall|k: int| 0 <= k <= prefix.len() implies size_after(
            0,
            #[trigger] prefix.subrange(0, k),
        ) >= 0 by {
            assert(prefix.subrange(0, k) =~= events.subrange(0, k));
        }
        lemma_pool_never_below_low_watermark(low_watermark, prefix);
    }
}

} // verus!
