//! Evaluation grids and the windows that end on them.
use vstd::prelude::*;
use crate::error::{ErrorView, ReadError, TooBroadReason};

verus! {

/// The most grid intervals a range query may ask for.
pub const MAX_CLIENT_AGG_BUCKETS: u64 = 11_000;

/// A positive number of nanoseconds that fits a timestamp.
#[derive(Debug, Clone, Copy)]
pub struct DurationNs {
    ns: i64,
}

impl DurationNs {
    #[verifier::type_invariant]
    spec fn positive(self) -> bool {
        self.ns > 0
    }

    /// The number of nanoseconds.
    pub closed spec fn value(self) -> int {
        self.ns as int
    }

    /// Accepts a number of nanoseconds that is positive and fits a timestamp.
    pub fn new(ns: u64) -> (d: Option<DurationNs>)
        ensures
            match d {
                Some(d) => d.value() == ns && 0 < ns <= i64::MAX,
                None => ns == 0 || ns > i64::MAX,
            },
    {
        if ns == 0 || ns > 0x7FFF_FFFF_FFFF_FFFF {
            None
        } else {
            Some(DurationNs { ns: ns as i64 })
        }
    }

    /// The number of nanoseconds.
    pub fn get(self) -> (ns: i64)
        ensures
            ns == self.value(),
            ns > 0,
    {
        proof {
            use_type_invariant(&self);
        }
        self.ns
    }
}

/// When a range aggregation is evaluated.
#[derive(Debug, Clone, Copy)]
pub enum ClientWindow {
    /// At one instant, over the lines of one window.
    Instant,
    /// On a grid, over one sliding window for each grid point.
    Range {
        grid_start_ns: i64,
        end_ns: i64,
        step_ns: DurationNs,
        range_ns: DurationNs,
        /// How far the grid was moved back before evaluation.
        offset_ns: i64,
    },
}

/// `a / b`, rounded up.
pub open spec fn ceil_div(a: int, b: int) -> int {
    -((-a) / b)
}

proof fn lemma_ceil_div_bounds(a: int, b: int)
    requires
        b > 0,
    ensures
        b * (ceil_div(a, b) - 1) < a <= b * ceil_div(a, b),
{
    let q = (-a) / b;
    vstd::arithmetic::div_mod::lemma_fundamental_div_mod(-a, b);
    vstd::arithmetic::div_mod::lemma_mod_bound(-a, b);
    assert(b * (-q) == -(b * q)) by (nonlinear_arith);
    assert(b * (-q - 1) == -(b * q) - b) by (nonlinear_arith);
}

/// A multiple of `b` reaches `a` exactly from the rounded-up quotient on.
pub proof fn lemma_ceil_div_reach(a: int, b: int, k: int)
    requires
        b > 0,
    ensures
        a <= k * b <==> ceil_div(a, b) <= k,
{
    let q = ceil_div(a, b);
    lemma_ceil_div_bounds(a, b);
    if q <= k {
        assert(b * q <= k * b) by (nonlinear_arith)
            requires
                q <= k,
                b > 0,
        ;
    } else {
        assert(k * b <= b * (q - 1)) by (nonlinear_arith)
            requires
                k <= q - 1,
                b > 0,
        ;
    }
}

/// `a / b`, rounded up.
pub fn ceil_div_i128(a: i128, b: i128) -> (q: i128)
    requires
        b > 0,
    ensures
        q == ceil_div(a as int, b as int),
{
    let down: Option<i128> = a.checked_div_euclid(b);
    let left: Option<i128> = a.checked_rem_euclid(b);
    proof {
        let (x, y) = (a as int, b as int);
        let (d, r) = (x / y, x % y);
        vstd::arithmetic::div_mod::lemma_fundamental_div_mod(x, y);
        vstd::arithmetic::div_mod::lemma_mod_bound(x, y);
        lemma_ceil_div_reach(x, y, d);
        lemma_ceil_div_reach(x, y, d - 1);
        lemma_ceil_div_reach(x, y, d + 1);
        assert(d * y == y * d) by (nonlinear_arith);
        assert((d - 1) * y == y * d - y) by (nonlinear_arith);
        assert((d + 1) * y == y * d + y) by (nonlinear_arith);
        assert(i128::MIN <= d && (r != 0 ==> d < i128::MAX)) by (nonlinear_arith)
            requires
                x == y * d + r,
                0 <= r < y,
                i128::MIN <= x <= i128::MAX,
                y > 0,
        ;
        assert(d <= i128::MAX) by (nonlinear_arith)
            requires
                x == y * d + r,
                0 <= r < y,
                x <= i128::MAX,
                y > 0,
        ;
    }
    match (down, left) {
        (Some(q), Some(r)) => if r != 0 {
            q + 1
        } else {
            q
        },
        _ => 0,
    }
}

/// The nearest timestamp to `t`.
pub open spec fn clamped(t: int) -> i64 {
    if t < i64::MIN {
        i64::MIN
    } else if t > i64::MAX {
        i64::MAX
    } else {
        t as i64
    }
}

/// The nearest timestamp to `t`.
pub fn clamp_bucket(t: i128) -> (r: i64)
    ensures
        r == clamped(t as int),
{
    if t < -0x8000_0000_0000_0000 {
        i64::MIN
    } else if t > 0x7FFF_FFFF_FFFF_FFFF {
        i64::MAX
    } else {
        t as i64
    }
}

/// The points at which a range query is evaluated, `start + k * step` for `k` in
/// `0..=kmax`, with the width of the window that ends on each.
#[derive(Debug, Clone, Copy)]
pub struct Grid {
    pub start: i64,
    pub step: u64,
    pub range: i64,
    /// The last index, `-1` for a grid without points.
    pub kmax: i64,
}

impl Grid {
    /// The grid has a step, its windows a width, and every point is a timestamp.
    pub open spec fn wf(self) -> bool {
        &&& self.step > 0
        &&& self.range > 0
        &&& -1 <= self.kmax < 0x1000_0000
        &&& self.at(self.kmax as int) <= i64::MAX
    }

    /// The grid point of index `k`.
    pub open spec fn at(self, k: int) -> int {
        self.start + k * self.step
    }

    /// Whether the window that ends on point `k` holds timestamp `ts`.
    pub open spec fn covers(self, k: int, ts: int) -> bool {
        self.at(k) - self.range < ts <= self.at(k)
    }

    /// How many points the grid has.
    pub open spec fn slots(self) -> int {
        self.kmax + 1
    }

    /// The first index whose window holds `ts`, past the grid when there is none.
    pub open spec fn first_cover(self, ts: int) -> int {
        let k = ceil_div(ts - self.start, self.step as int);
        if k < 0 {
            0
        } else if k > self.kmax + 1 {
            self.kmax + 1
        } else {
            k
        }
    }

    /// The last index whose window holds `ts`, `-1` when there is none before the
    /// grid ends.
    pub open spec fn last_cover(self, ts: int) -> int {
        let k = ceil_div(ts + self.range - self.start, self.step as int) - 1;
        if k < -1 {
            -1
        } else if k > self.kmax {
            self.kmax as int
        } else {
            k
        }
    }

    /// Later points are later.
    pub proof fn lemma_at_monotone(self, j: int, k: int)
        requires
            self.step > 0,
        ensures
            j <= k ==> self.at(j) <= self.at(k),
            j < k ==> self.at(j) < self.at(k),
            self.at(k) == self.at(k - 1) + self.step,
    {
        assert(j <= k ==> j * self.step <= k * self.step) by (nonlinear_arith)
            requires
                self.step > 0,
        ;
        assert(j < k ==> j * self.step < k * self.step) by (nonlinear_arith)
            requires
                self.step > 0,
        ;
        assert(k * self.step == (k - 1) * self.step + self.step) by (nonlinear_arith);
    }

    /// Every grid point is a timestamp.
    pub proof fn lemma_at_in_range(self, k: int)
        requires
            self.wf(),
            0 <= k <= self.kmax,
        ensures
            self.start <= self.at(k) <= i64::MAX,
            self.at(k) <= self.at(self.kmax as int),
    {
        self.lemma_at_monotone(0, k);
        self.lemma_at_monotone(k, self.kmax as int);
        assert(0 * self.step == 0) by (nonlinear_arith);
    }

    /// The windows that hold a timestamp are those of one run of indices.
    pub proof fn lemma_cover_run(self, ts: int)
        requires
            self.wf(),
        ensures
            0 <= self.first_cover(ts) <= self.kmax + 1,
            -1 <= self.last_cover(ts) <= self.kmax,
            forall|k: int|
                0 <= k <= self.kmax ==> (#[trigger] self.covers(k, ts) <==> self.first_cover(ts)
                    <= k <= self.last_cover(ts)),
    {
        assert forall|k: int| 0 <= k <= self.kmax implies (#[trigger] self.covers(k, ts)
            <==> self.first_cover(ts) <= k <= self.last_cover(ts)) by {
            lemma_ceil_div_reach(ts - self.start, self.step as int, k);
            lemma_ceil_div_reach(ts + self.range - self.start, self.step as int, k);
        }
    }

    /// Later timestamps are held by later windows.
    pub proof fn lemma_cover_monotone(self, a: int, b: int)
        requires
            self.wf(),
            a <= b,
        ensures
            self.first_cover(a) <= self.first_cover(b),
            self.last_cover(a) <= self.last_cover(b),
    {
        let (ca, cb) = (a - self.start, b - self.start);
        lemma_ceil_div_bounds(cb, self.step as int);
        lemma_ceil_div_reach(ca, self.step as int, ceil_div(cb, self.step as int));
        assert(self.step * ceil_div(cb, self.step as int) == ceil_div(cb, self.step as int)
            * self.step) by (nonlinear_arith);
        let (ea, eb) = (a + self.range - self.start, b + self.range - self.start);
        lemma_ceil_div_bounds(eb, self.step as int);
        lemma_ceil_div_reach(ea, self.step as int, ceil_div(eb, self.step as int));
        assert(self.step * ceil_div(eb, self.step as int) == ceil_div(eb, self.step as int)
            * self.step) by (nonlinear_arith);
    }

    /// The grid point of index `k`.
    pub fn point(&self, k: i64) -> (t: i64)
        requires
            self.wf(),
            0 <= k <= self.kmax,
        ensures
            t == self.at(k as int),
    {
        proof {
            self.lemma_at_in_range(k as int);
            assert(0 <= k * self.step <= 0x1_0000_0000_0000_0000_0000_0000) by (nonlinear_arith)
                requires
                    0 <= k < 0x1_0000_0000,
                    0 <= self.step < 0x1_0000_0000_0000_0000,
            ;
        }
        let offset: i128 = k as i128 * self.step as i128;
        clamp_bucket(self.start as i128 + offset)
    }

    /// The run of indices whose windows hold `ts`, empty when the first is past
    /// the last.
    pub fn covering_k(&self, ts: i64) -> (run: (i64, i64))
        requires
            self.wf(),
        ensures
            run.0 == self.first_cover(ts as int),
            run.1 == self.last_cover(ts as int),
            0 <= run.0 <= self.kmax + 1,
            -1 <= run.1 <= self.kmax,
            forall|k: int|
                0 <= k <= self.kmax ==> (#[trigger] self.covers(k, ts as int) <==> run.0 <= k
                    <= run.1),
    {
        proof {
            self.lemma_cover_run(ts as int);
        }
        let lo: i128 = ceil_div_i128(ts as i128 - self.start as i128, self.step as i128);
        proof {
            let (a, b) = (ts + self.range - self.start, self.step as int);
            lemma_ceil_div_bounds(a, b);
            let q = ceil_div(a, b);
            assert(q >= -0x1_0000_0000_0000_0000_0000) by (nonlinear_arith)
                requires
                    a <= b * q,
                    b >= 1,
                    a >= -0x1_0000_0000_0000_0000_0000,
            ;
        }
        let hi: i128 = ceil_div_i128(
            ts as i128 + self.range as i128 - self.start as i128,
            self.step as i128,
        ) - 1;
        let k_lo: i64 = if lo < 0 {
            0
        } else if lo > self.kmax as i128 + 1 {
            self.kmax + 1
        } else {
            lo as i64
        };
        let k_hi: i64 = if hi < -1 {
            -1
        } else if hi > self.kmax as i128 {
            self.kmax
        } else {
            hi as i64
        };
        (k_lo, k_hi)
    }

    /// How many points the grid has.
    pub fn slot_count(&self) -> (n: u64)
        requires
            self.wf(),
        ensures
            n == self.slots(),
    {
        (self.kmax + 1) as u64
    }
}

/// How many intervals of `step` the span from `start` to `end` holds, the span
/// pinned at the largest timestamp.
pub open spec fn fence_intervals(start: i64, end: i64, step: u64) -> int {
    let span = end - start;
    (if span < 0 {
        0
    } else if span > i64::MAX {
        i64::MAX as int
    } else {
        span
    }) / (step as int)
}

/// How many points `start + k * step` lie in `start..=end`.
pub open spec fn grid_points(start: i64, end: i64, step: u64) -> int {
    if end < start {
        0
    } else {
        (end - start) / (step as int) + 1
    }
}

/// Counts the grid points of a range query and refuses a grid of too many
/// intervals.
pub fn ensure_grid_resolution(start: i64, end: i64, step: u64) -> (r: Result<u64, ReadError>)
    requires
        0 < step <= i64::MAX,
    ensures
        match r {
            Ok(n) => {
                &&& fence_intervals(start, end, step) <= MAX_CLIENT_AGG_BUCKETS
                &&& n == grid_points(start, end, step)
                &&& n <= 2 * MAX_CLIENT_AGG_BUCKETS + 3
                &&& start + (n - 1) * step <= end || n == 0
            },
            Err(e) => {
                &&& fence_intervals(start, end, step) > MAX_CLIENT_AGG_BUCKETS
                &&& e@ == ErrorView::QueryTooBroad(
                    TooBroadReason::MetricBuckets {
                        buckets: fence_intervals(start, end, step) as u64,
                        cap: MAX_CLIENT_AGG_BUCKETS,
                    },
                )
            },
        },
{
    if end < start {
        proof {
            assert(0int / (step as int) == 0) by (nonlinear_arith)
                requires
                    step > 0,
            ;
        }
        return Ok(0);
    }
    let span: u128 = (end as i128 - start as i128) as u128;
    let fence_span: u64 = if span > 0x7FFF_FFFF_FFFF_FFFF {
        0x7FFF_FFFF_FFFF_FFFF
    } else {
        span as u64
    };
    let intervals: u64 = fence_span / step;
    if intervals > MAX_CLIENT_AGG_BUCKETS {
        return Err(
            ReadError::QueryTooBroad(
                TooBroadReason::MetricBuckets { buckets: intervals, cap: MAX_CLIENT_AGG_BUCKETS },
            ),
        );
    }
    let q: u128 = span / step as u128;
    proof {
        let (s, d) = (span as int, step as int);
        let f = fence_span as int;
        vstd::arithmetic::div_mod::lemma_fundamental_div_mod(s, d);
        vstd::arithmetic::div_mod::lemma_fundamental_div_mod(f, d);
        vstd::arithmetic::div_mod::lemma_mod_bound(s, d);
        vstd::arithmetic::div_mod::lemma_mod_bound(f, d);
        assert(s <= 2 * f + 1);
        assert(q <= 2 * intervals + 2) by (nonlinear_arith)
            requires
                s <= 2 * f + 1,
                d * q <= s,
                f < d * intervals + d,
                d >= 1,
                s == span,
                q >= 0,
        ;
        assert(q * step <= s) by (nonlinear_arith)
            requires
                d * q <= s,
                d == step,
        ;
    }
    Ok(q as u64 + 1)
}

} // verus!
