//! The reducers: what each makes of its values.
//!
//! Numbers are bit patterns, and every formula is stated over the caller's
//! arithmetic, operation by operation, so that the order of the operations is fixed.
use vstd::prelude::*;
use crate::agg::{self, total_le};
use crate::instant::{BucketAcc, Moments, SimpleAcc};
use crate::model::{ClientValue, RangeAggOp, VectorAggOp};
use crate::number::{
    self, compute, float_is_number, float_lt, Arith, INFINITY, ONE, THOUSAND, TWO, ZERO,
    NEGATIVE_INFINITY, NOT_A_NUMBER, ONE_AND_A_TENTH,
};
use crate::order::{self, stable_sorted, Ranked};
use crate::slide::{self, Reducer, ReducerClass, WinSample};

verus! {

// ---------------------------------------------------------------------
// Vector aggregations.
// ---------------------------------------------------------------------

/// What a vector aggregation keeps of the members it has seen.
#[derive(Debug, Clone, Copy, PartialEq, Eq, Structural)]
pub struct VectorAccum {
    pub value: u64,
    pub mean: u64,
    pub count: u64,
}

/// One step of a running mean.
pub open spec fn mean_step<A: Fn(Arith, u64, u64) -> u64>(
    arith: A,
    mean: u64,
    f: u64,
    count: u64,
) -> u64 {
    let delta = number::calc(arith, Arith::Sub, f, mean);
    let n = number::calc(arith, Arith::OfInteger, count, 0);
    number::calc(arith, Arith::Add, mean, number::calc(arith, Arith::Div, delta, n))
}

/// One step of a running sum of squared deviations.
pub open spec fn deviation_step<A: Fn(Arith, u64, u64) -> u64>(
    arith: A,
    m2: u64,
    mean: u64,
    f: u64,
    count: u64,
) -> u64 {
    let delta = number::calc(arith, Arith::Sub, f, mean);
    let left = number::calc(arith, Arith::Sub, f, mean_step(arith, mean, f, count));
    number::calc(arith, Arith::Add, m2, number::calc(arith, Arith::Mul, delta, left))
}

/// Does one step of a running mean, and of a running sum of squared deviations.
fn welford<A: Fn(Arith, u64, u64) -> u64>(arith: &A, m2: u64, mean: u64, f: u64, count: u64) -> (r:
    (u64, u64))
    requires
        number::computes(*arith),
    ensures
        r.0 == mean_step(*arith, mean, f, count),
        r.1 == deviation_step(*arith, m2, mean, f, count),
{
    let delta: u64 = compute(arith, Arith::Sub, f, mean);
    let n: u64 = compute(arith, Arith::OfInteger, count, 0);
    let part: u64 = compute(arith, Arith::Div, delta, n);
    let next: u64 = compute(arith, Arith::Add, mean, part);
    let left: u64 = compute(arith, Arith::Sub, f, next);
    let square: u64 = compute(arith, Arith::Mul, delta, left);
    (next, compute(arith, Arith::Add, m2, square))
}

/// What is kept of one member.
pub open spec fn seeded(op: VectorAggOp, f: u64) -> VectorAccum {
    VectorAccum {
        value: if op is Stddev || op is Stdvar {
            ZERO
        } else {
            f
        },
        mean: f,
        count: 1,
    }
}

/// What is kept once one more member has been seen. A value that is not a number
/// never survives as an extreme.
pub open spec fn updated<A: Fn(Arith, u64, u64) -> u64>(
    arith: A,
    op: VectorAggOp,
    a: VectorAccum,
    f: u64,
) -> VectorAccum {
    let count = (a.count + 1) as u64;
    match op {
        VectorAggOp::Sum => VectorAccum {
            value: number::calc(arith, Arith::Add, a.value, f),
            ..a
        },
        VectorAggOp::Avg => VectorAccum { mean: mean_step(arith, a.mean, f, count), count, ..a },
        VectorAggOp::Max => if number::number_lt(a.value, f) || !number::is_number(a.value) {
            VectorAccum { value: f, ..a }
        } else {
            a
        },
        VectorAggOp::Min => if number::number_lt(f, a.value) || !number::is_number(a.value) {
            VectorAccum { value: f, ..a }
        } else {
            a
        },
        VectorAggOp::Count => VectorAccum { count, ..a },
        VectorAggOp::Stddev | VectorAggOp::Stdvar => VectorAccum {
            value: deviation_step(arith, a.value, a.mean, f, count),
            mean: mean_step(arith, a.mean, f, count),
            count,
        },
        _ => a,
    }
}

/// The variance of squared deviations.
pub open spec fn variance<A: Fn(Arith, u64, u64) -> u64>(arith: A, m2: u64, count: u64) -> u64 {
    number::calc(arith, Arith::Div, m2, number::calc(arith, Arith::OfInteger, count, 0))
}

/// The value of an aggregation.
pub open spec fn finished<A: Fn(Arith, u64, u64) -> u64>(
    arith: A,
    op: VectorAggOp,
    a: VectorAccum,
) -> u64 {
    match op {
        VectorAggOp::Avg => a.mean,
        VectorAggOp::Count => number::calc(arith, Arith::OfInteger, a.count, 0),
        VectorAggOp::Stddev => number::calc(
            arith,
            Arith::Sqrt,
            variance(arith, a.value, a.count),
            0,
        ),
        VectorAggOp::Stdvar => variance(arith, a.value, a.count),
        _ => a.value,
    }
}

/// What is kept of some members, in order.
pub open spec fn accumulated<A: Fn(Arith, u64, u64) -> u64>(
    arith: A,
    op: VectorAggOp,
    values: Seq<u64>,
) -> VectorAccum
    decreases values.len(),
{
    if values.len() <= 1 {
        seeded(op, values[0])
    } else {
        updated(arith, op, accumulated(arith, op, values.drop_last()), values.last())
    }
}

/// The value of an aggregation of some members, in order. Of none it is not a
/// number.
pub open spec fn reduced<A: Fn(Arith, u64, u64) -> u64>(
    arith: A,
    op: VectorAggOp,
    values: Seq<u64>,
) -> u64 {
    if values.len() == 0 {
        NOT_A_NUMBER
    } else {
        finished(arith, op, accumulated(arith, op, values))
    }
}

/// The variance of squared deviations.
fn variance_of<A: Fn(Arith, u64, u64) -> u64>(arith: &A, m2: u64, count: u64) -> (r: u64)
    requires
        number::computes(*arith),
    ensures
        r == variance(*arith, m2, count),
{
    let n: u64 = compute(arith, Arith::OfInteger, count, 0);
    compute(arith, Arith::Div, m2, n)
}

impl VectorAccum {
    /// No member yet.
    pub fn empty() -> (a: VectorAccum)
        ensures
            a == (VectorAccum { value: ZERO, mean: ZERO, count: 0 }),
    {
        VectorAccum { value: ZERO, mean: ZERO, count: 0 }
    }

    /// Whether no member has been seen.
    pub fn is_empty(&self) -> (r: bool)
        ensures
            r == (self.count == 0),
    {
        self.count == 0
    }

    /// What is kept of one member.
    pub fn seed(op: VectorAggOp, f: u64) -> (a: VectorAccum)
        ensures
            a == seeded(op, f),
    {
        let value: u64 = match op {
            VectorAggOp::Stddev | VectorAggOp::Stdvar => ZERO,
            _ => f,
        };
        VectorAccum { value, mean: f, count: 1 }
    }

    /// Takes one more member.
    pub fn update<A: Fn(Arith, u64, u64) -> u64>(&mut self, op: VectorAggOp, f: u64, arith: &A)
        requires
            agg::reduces(op),
            old(self).count < u64::MAX,
            number::computes(*arith),
        ensures
            *final(self) == updated(*arith, op, *old(self), f),
    {
        match op {
            VectorAggOp::Sum => {
                self.value = compute(arith, Arith::Add, self.value, f);
            },
            VectorAggOp::Avg => {
                self.count = self.count + 1;
                self.mean = welford(arith, ZERO, self.mean, f, self.count).0;
            },
            VectorAggOp::Max => {
                if float_lt(self.value, f) || !float_is_number(self.value) {
                    self.value = f;
                }
            },
            VectorAggOp::Min => {
                if float_lt(f, self.value) || !float_is_number(self.value) {
                    self.value = f;
                }
            },
            VectorAggOp::Count => {
                self.count = self.count + 1;
            },
            VectorAggOp::Stddev | VectorAggOp::Stdvar => {
                self.count = self.count + 1;
                let (mean, value) = welford(arith, self.value, self.mean, f, self.count);
                self.mean = mean;
                self.value = value;
            },
            _ => {},
        }
    }

    /// The value of the aggregation.
    pub fn finish<A: Fn(Arith, u64, u64) -> u64>(self, op: VectorAggOp, arith: &A) -> (r: u64)
        requires
            agg::reduces(op),
            number::computes(*arith),
        ensures
            r == finished(*arith, op, self),
    {
        match op {
            VectorAggOp::Avg => self.mean,
            VectorAggOp::Count => compute(arith, Arith::OfInteger, self.count, 0),
            VectorAggOp::Stddev => {
                let v: u64 = variance_of(arith, self.value, self.count);
                compute(arith, Arith::Sqrt, v, 0)
            },
            VectorAggOp::Stdvar => variance_of(arith, self.value, self.count),
            _ => self.value,
        }
    }
}

/// Reduces members in order.
pub fn reduce<A: Fn(Arith, u64, u64) -> u64>(op: VectorAggOp, values: &[u64], arith: &A) -> (r: u64)
    requires
        agg::reduces(op),
        number::computes(*arith),
    ensures
        r == reduced(*arith, op, values@),
{
    if values.len() == 0 {
        return NOT_A_NUMBER;
    }
    let mut acc = VectorAccum::seed(op, values[0]);
    let mut i: usize = 1;
    proof {
        assert(values@.take(1)[0] == values@[0]);
    }
    while i < values.len()
        invariant
            1 <= i <= values@.len(),
            agg::reduces(op),
            number::computes(*arith),
            acc == accumulated(*arith, op, values@.take(i as int)),
            acc.count <= i,
        decreases values@.len() - i,
    {
        proof {
            assert(values@.take(i + 1).drop_last() =~= values@.take(i as int));
            assert(values@.take(i + 1).last() == values@[i as int]);
        }
        acc.update(op, values[i], arith);
        i = i + 1;
    }
    proof {
        assert(values@.take(values@.len() as int) =~= values@);
    }
    acc.finish(op, arith)
}

/// How many members a selection keeps: its parameter rounded down, nothing where
/// that is less than one or not a number.
pub open spec fn selected<A: Fn(Arith, u64, u64) -> u64>(arith: A, param: Option<u64>) -> u64 {
    match param {
        Some(p) => if number::is_number(p) && !number::number_lt(p, ONE) {
            number::calc(arith, Arith::ToInteger, number::calc(arith, Arith::Floor, p, 0), 0)
        } else {
            0
        },
        None => 0,
    }
}

/// How many members a selection keeps.
pub fn k_of<A: Fn(Arith, u64, u64) -> u64>(param: Option<u64>, arith: &A) -> (k: u64)
    requires
        number::computes(*arith),
    ensures
        k == selected(*arith, param),
{
    match param {
        Some(p) => {
            if float_is_number(p) && !float_lt(p, ONE) {
                let whole: u64 = compute(arith, Arith::Floor, p, 0);
                compute(arith, Arith::ToInteger, whole, 0)
            } else {
                0
            }
        },
        None => 0,
    }
}

/// The least and the greatest of numbers ignore what is not a number: as long as a
/// number has been seen, a number is kept.
pub proof fn law_extremes_keep_numbers<A: Fn(Arith, u64, u64) -> u64>(
    arith: A,
    op: VectorAggOp,
    a: VectorAccum,
    f: u64,
)
    requires
        op is Min || op is Max,
    ensures
        number::is_number(a.value) || number::is_number(f) ==> number::is_number(
            updated(arith, op, a, f).value,
        ),
        number::is_number(f) ==> !number::number_lt(f, updated(arith, op, a, f).value)
            || op is Max,
        number::is_number(f) ==> !number::number_lt(updated(arith, op, a, f).value, f)
            || op is Min,
        updated(arith, op, a, f).value == a.value || updated(arith, op, a, f).value == f,
{
}

// ---------------------------------------------------------------------
// Range aggregations.
// ---------------------------------------------------------------------

/// A sample's number: an unwrapped one is one already, a count is turned into one.
pub open spec fn number_of<A: Fn(Arith, u64, u64) -> u64>(
    arith: A,
    kind: ClientValue,
    v: u64,
) -> u64 {
    if kind is Unwrap {
        v
    } else {
        number::calc(arith, Arith::OfInteger, v, 0)
    }
}

/// A sample's number.
fn as_number<A: Fn(Arith, u64, u64) -> u64>(arith: &A, kind: ClientValue, v: u64) -> (r: u64)
    requires
        number::computes(*arith),
    ensures
        r == number_of(*arith, kind, v),
{
    if matches!(kind, ClientValue::Unwrap) {
        v
    } else {
        compute(arith, Arith::OfInteger, v, 0)
    }
}

/// The moments of one more number, the `count`-th.
pub open spec fn moments_after<A: Fn(Arith, u64, u64) -> u64>(
    arith: A,
    prev: Option<Moments>,
    count: u64,
    x: u64,
) -> Moments {
    match prev {
        None => Moments { sum: x, min: x, max: x, mean: x, m2: ZERO },
        Some(m) => Moments {
            sum: number::calc(arith, Arith::Add, m.sum, x),
            min: number::calc(arith, Arith::Min, m.min, x),
            max: number::calc(arith, Arith::Max, m.max, x),
            mean: mean_step(arith, m.mean, x, count),
            m2: deviation_step(arith, m.m2, m.mean, x, count),
        },
    }
}

/// Takes one more sample, the `count`-th, into running moments.
pub fn step_moments<A: Fn(Arith, u64, u64) -> u64>(
    arith: &A,
    r: &Reducer,
    prev: Option<Moments>,
    count: u64,
    v: u64,
) -> (m: Moments)
    requires
        number::computes(*arith),
    ensures
        m == moments_after(*arith, prev, count, number_of(*arith, r.value, v)),
{
    let x: u64 = as_number(arith, r.value, v);
    match prev {
        None => Moments { sum: x, min: x, max: x, mean: x, m2: ZERO },
        Some(m) => {
            let sum: u64 = compute(arith, Arith::Add, m.sum, x);
            let min: u64 = compute(arith, Arith::Min, m.min, x);
            let max: u64 = compute(arith, Arith::Max, m.max, x);
            let (mean, m2) = welford(arith, m.m2, m.mean, x, count);
            Moments { sum, min, max, mean, m2 }
        },
    }
}

/// A number as a rate.
pub open spec fn rated<A: Fn(Arith, u64, u64) -> u64>(
    arith: A,
    x: u64,
    window_ns: Option<u64>,
) -> u64 {
    match window_ns {
        Some(w) => number::calc(arith, Arith::PerSecond, x, w),
        None => number::calc(arith, Arith::PerNothing, x, 0),
    }
}

/// A number as a rate.
fn apply_rate<A: Fn(Arith, u64, u64) -> u64>(arith: &A, x: u64, window_ns: Option<u64>) -> (r: u64)
    requires
        number::computes(*arith),
    ensures
        r == rated(*arith, x, window_ns),
{
    match window_ns {
        Some(w) => compute(arith, Arith::PerSecond, x, w),
        None => compute(arith, Arith::PerNothing, x, 0),
    }
}

// -- Quantiles.

impl Ranked for u64 {
    open spec fn rank_le() -> spec_fn(Self, Self) -> bool {
        |a: u64, b: u64| agg::total_key(a) <= agg::total_key(b)
    }

    proof fn rank_is_preorder() {
    }

    fn ranks_le(&self, other: &Self) -> (r: bool) {
        total_le(*self, *other)
    }
}

/// The number at a rank of sorted numbers, held at the last.
pub open spec fn ranked_value(sorted: Seq<u64>, i: u64) -> u64 {
    if i < sorted.len() {
        sorted[i as int]
    } else {
        sorted.last()
    }
}

/// A quantile: linear between the two sorted numbers about its rank. Below zero and
/// above one it is infinite.
pub open spec fn quantile<A: Fn(Arith, u64, u64) -> u64>(
    arith: A,
    values: Seq<u64>,
    q: u64,
) -> u64 {
    if values.len() == 0 || !number::is_number(q) {
        NOT_A_NUMBER
    } else if number::number_lt(q, ZERO) {
        NEGATIVE_INFINITY
    } else if number::number_lt(ONE, q) {
        INFINITY
    } else {
        let sorted = order::stable_sort(values, u64::rank_le());
        let last = number::calc(arith, Arith::OfInteger, (values.len() - 1) as u64, 0);
        let rank = number::calc(arith, Arith::Mul, q, last);
        let down = number::calc(arith, Arith::Floor, rank, 0);
        let up = number::calc(arith, Arith::Ceil, rank, 0);
        let low = ranked_value(sorted, number::calc(arith, Arith::ToInteger, down, 0));
        let high = ranked_value(sorted, number::calc(arith, Arith::ToInteger, up, 0));
        let weight = number::calc(arith, Arith::Sub, rank, down);
        let rest = number::calc(arith, Arith::Sub, ONE, weight);
        number::calc(
            arith,
            Arith::Add,
            number::calc(arith, Arith::Mul, low, rest),
            number::calc(arith, Arith::Mul, high, weight),
        )
    }
}

/// The number at a rank of sorted numbers.
fn value_at(sorted: &Vec<u64>, i: u64) -> (v: u64)
    requires
        sorted@.len() > 0,
    ensures
        v == ranked_value(sorted@, i),
{
    if i < sorted.len() as u64 {
        sorted[i as usize]
    } else {
        sorted[sorted.len() - 1]
    }
}

/// A quantile of some numbers.
pub fn quantile_of<A: Fn(Arith, u64, u64) -> u64>(arith: &A, values: Vec<u64>, q: u64) -> (r: u64)
    requires
        number::computes(*arith),
    ensures
        r == quantile(*arith, values@, q),
{
    if values.len() == 0 || !float_is_number(q) {
        return NOT_A_NUMBER;
    }
    if float_lt(q, ZERO) {
        return NEGATIVE_INFINITY;
    }
    if float_lt(ONE, q) {
        return INFINITY;
    }
    let count: u64 = values.len() as u64;
    let sorted = stable_sorted(values);
    let last: u64 = compute(arith, Arith::OfInteger, count - 1, 0);
    let rank: u64 = compute(arith, Arith::Mul, q, last);
    let down: u64 = compute(arith, Arith::Floor, rank, 0);
    let up: u64 = compute(arith, Arith::Ceil, rank, 0);
    let low: u64 = value_at(&sorted, compute(arith, Arith::ToInteger, down, 0));
    let high: u64 = value_at(&sorted, compute(arith, Arith::ToInteger, up, 0));
    let weight: u64 = compute(arith, Arith::Sub, rank, down);
    let rest: u64 = compute(arith, Arith::Sub, ONE, weight);
    let a: u64 = compute(arith, Arith::Mul, low, rest);
    let b: u64 = compute(arith, Arith::Mul, high, weight);
    compute(arith, Arith::Add, a, b)
}

// -- Counters.

/// The increase of a counter over its points, from the plain difference on: wherever
/// a value falls below the one before, that one is added.
pub open spec fn increase<A: Fn(Arith, u64, u64) -> u64>(
    arith: A,
    points: Seq<(i64, u64)>,
    from: u64,
) -> u64
    decreases points.len(),
{
    if points.len() == 0 {
        from
    } else {
        let so_far = increase(arith, points.drop_last(), from);
        let before = if points.len() == 1 {
            ZERO
        } else {
            points[points.len() - 2].1
        };
        if number::number_lt(points.last().1, before) {
            number::calc(arith, Arith::Add, so_far, before)
        } else {
            so_far
        }
    }
}

/// The span from the first point back to where the window starts, or to where the
/// counter would have been zero, whichever is nearer.
pub open spec fn lead_in<A: Fn(Arith, u64, u64) -> u64>(
    arith: A,
    sampled: u64,
    grown: u64,
    first: u64,
    window_ns: u64,
) -> u64 {
    let to_start = number::calc(
        arith,
        Arith::Div,
        number::calc(arith, Arith::OfInteger, (window_ns / 1_000_000) as u64, 0),
        THOUSAND,
    );
    if number::number_lt(ZERO, grown) && number::is_number(first) && !number::number_lt(
        first,
        ZERO,
    ) {
        let to_zero = number::calc(
            arith,
            Arith::Mul,
            sampled,
            number::calc(arith, Arith::Div, first, grown),
        );
        if number::number_lt(to_zero, to_start) {
            to_zero
        } else {
            to_start
        }
    } else {
        to_start
    }
}

/// The per-second rate of a counter over its points, extrapolated to the ends of its
/// window. With fewer than two points, or no window, it is zero.
pub open spec fn counter_rate<A: Fn(Arith, u64, u64) -> u64>(
    arith: A,
    points: Seq<(i64, u64)>,
    window_ns: Option<u64>,
) -> u64 {
    if points.len() < 2 || window_ns is None || window_ns->0 == 0 {
        ZERO
    } else {
        let w = window_ns->0;
        let first = points[0];
        let last = points.last();
        let grown = increase(
            arith,
            points,
            number::calc(arith, Arith::Sub, last.1, first.1),
        );
        let sampled = number::calc(
            arith,
            Arith::Div,
            number::calc(arith, Arith::OfInteger, (last.0 - first.0) as u64, 0),
            THOUSAND,
        );
        let average = number::calc(
            arith,
            Arith::Div,
            sampled,
            number::calc(arith, Arith::OfInteger, (points.len() - 1) as u64, 0),
        );
        let lead = lead_in(arith, sampled, grown, first.1, w);
        let threshold = number::calc(arith, Arith::Mul, average, ONE_AND_A_TENTH);
        let half = number::calc(arith, Arith::Div, average, TWO);
        let with_lead = number::calc(
            arith,
            Arith::Add,
            sampled,
            if number::number_lt(lead, threshold) {
                lead
            } else {
                half
            },
        );
        let whole = number::calc(
            arith,
            Arith::Add,
            with_lead,
            if number::number_lt(ZERO, threshold) {
                ZERO
            } else {
                half
            },
        );
        let factor = number::calc(arith, Arith::Div, whole, sampled);
        number::calc(
            arith,
            Arith::Div,
            number::calc(arith, Arith::Mul, grown, factor),
            number::calc(arith, Arith::Seconds, w, 0),
        )
    }
}

/// The increase of a counter over its points.
fn reset_aware_increase<A: Fn(Arith, u64, u64) -> u64>(
    arith: &A,
    points: &[(i64, u64)],
    from: u64,
) -> (r: u64)
    requires
        number::computes(*arith),
    ensures
        r == increase(*arith, points@, from),
{
    let mut grown: u64 = from;
    let mut before: u64 = ZERO;
    let mut i: usize = 0;
    proof {
        assert(points@.take(0) =~= Seq::<(i64, u64)>::empty());
    }
    while i < points.len()
        invariant
            i <= points@.len(),
            number::computes(*arith),
            grown == increase(*arith, points@.take(i as int), from),
            before == (if i == 0 {
                ZERO
            } else {
                points@[i - 1].1
            }),
        decreases points@.len() - i,
    {
        proof {
            let next = points@.take(i + 1);
            assert(next.drop_last() =~= points@.take(i as int));
            assert(next.last() == points@[i as int]);
            if i > 0 {
                assert(next[next.len() - 2] == points@[i - 1]);
            }
        }
        let f: u64 = points[i].1;
        if float_lt(f, before) {
            grown = compute(arith, Arith::Add, grown, before);
        }
        before = f;
        i = i + 1;
    }
    proof {
        assert(points@.take(points@.len() as int) =~= points@);
    }
    grown
}

/// The span from the first point back to where the window or the counter starts.
fn lead_in_of<A: Fn(Arith, u64, u64) -> u64>(
    arith: &A,
    sampled: u64,
    grown: u64,
    first: u64,
    window_ns: u64,
) -> (r: u64)
    requires
        number::computes(*arith),
    ensures
        r == lead_in(*arith, sampled, grown, first, window_ns),
{
    let millis: u64 = compute(arith, Arith::OfInteger, window_ns / 1_000_000, 0);
    let to_start: u64 = compute(arith, Arith::Div, millis, THOUSAND);
    if float_lt(ZERO, grown) && float_is_number(first) && !float_lt(first, ZERO) {
        let share: u64 = compute(arith, Arith::Div, first, grown);
        let to_zero: u64 = compute(arith, Arith::Mul, sampled, share);
        if float_lt(to_zero, to_start) {
            return to_zero;
        }
    }
    to_start
}

/// The time between two points, the first no later than the last.
fn span(first: i64, last: i64) -> (n: u64)
    requires
        first <= last,
    ensures
        n == last - first,
{
    (last as i128 - first as i128) as u64
}

/// Whether points stand in time order.
pub open spec fn in_time_order(points: Seq<(i64, u64)>) -> bool {
    forall|i: int, j: int| 0 <= i <= j < points.len() ==> points[i].0 <= points[j].0
}

/// The per-second rate of a counter over points in time order.
pub fn rate_counter_over_sorted<A: Fn(Arith, u64, u64) -> u64>(
    arith: &A,
    points: &[(i64, u64)],
    rate_window_ns: Option<u64>,
) -> (r: u64)
    requires
        number::computes(*arith),
        in_time_order(points@),
    ensures
        r == counter_rate(*arith, points@, rate_window_ns),
{
    let n: usize = points.len();
    if n < 2 {
        return ZERO;
    }
    let w: u64 = match rate_window_ns {
        Some(w) => w,
        None => {
            return ZERO;
        },
    };
    if w == 0 {
        return ZERO;
    }
    let (first_t, first_f) = points[0];
    let (last_t, last_f) = points[n - 1];
    let plain: u64 = compute(arith, Arith::Sub, last_f, first_f);
    let grown: u64 = reset_aware_increase(arith, points, plain);
    let spanned: u64 = compute(arith, Arith::OfInteger, span(first_t, last_t), 0);
    let sampled: u64 = compute(arith, Arith::Div, spanned, THOUSAND);
    let gaps: u64 = compute(arith, Arith::OfInteger, (n - 1) as u64, 0);
    let average: u64 = compute(arith, Arith::Div, sampled, gaps);
    let lead: u64 = lead_in_of(arith, sampled, grown, first_f, w);
    let threshold: u64 = compute(arith, Arith::Mul, average, ONE_AND_A_TENTH);
    let half: u64 = compute(arith, Arith::Div, average, TWO);
    let head: u64 = if float_lt(lead, threshold) {
        lead
    } else {
        half
    };
    let with_lead: u64 = compute(arith, Arith::Add, sampled, head);
    let tail: u64 = if float_lt(ZERO, threshold) {
        ZERO
    } else {
        half
    };
    let whole: u64 = compute(arith, Arith::Add, with_lead, tail);
    let factor: u64 = compute(arith, Arith::Div, whole, sampled);
    let scaled: u64 = compute(arith, Arith::Mul, grown, factor);
    let seconds: u64 = compute(arith, Arith::Seconds, w, 0);
    compute(arith, Arith::Div, scaled, seconds)
}

impl Ranked for (i64, u64) {
    open spec fn rank_le() -> spec_fn(Self, Self) -> bool {
        |a: (i64, u64), b: (i64, u64)| a.0 <= b.0
    }

    proof fn rank_is_preorder() {
    }

    fn ranks_le(&self, other: &Self) -> (r: bool) {
        self.0 <= other.0
    }
}

/// The per-second rate of a counter over points in any order: those of one time stay
/// as they came.
pub fn rate_counter_extrapolated<A: Fn(Arith, u64, u64) -> u64>(
    arith: &A,
    points: Vec<(i64, u64)>,
    rate_window_ns: Option<u64>,
) -> (r: u64)
    requires
        number::computes(*arith),
    ensures
        r == counter_rate(
            *arith,
            order::stable_sort(points@, <(i64, u64) as Ranked>::rank_le()),
            rate_window_ns,
        ),
{
    let ghost all = points@;
    proof {
        assert(points@.len() == points.len());
        <(i64, u64) as Ranked>::rank_is_preorder();
        order::lemma_stable_sort_ascends(all, <(i64, u64) as Ranked>::rank_le());
        order::lemma_stable_sort_permutes(all, <(i64, u64) as Ranked>::rank_le());
    }
    let sorted = stable_sorted(points);
    proof {
        let le = <(i64, u64) as Ranked>::rank_le();
        assert forall|i: int, j: int| 0 <= i <= j < sorted@.len() implies sorted@[i].0
            <= sorted@[j].0 by {
            assert(le(order::stable_sort(all, le)[i], order::stable_sort(all, le)[j]));
        }
    }
    rate_counter_over_sorted(arith, sorted.as_slice(), rate_window_ns)
}

/// Points that stand in time order already give the same rate as they stand and
/// sorted.
pub proof fn law_points_in_order_need_no_sorting<A: Fn(Arith, u64, u64) -> u64>(
    arith: A,
    points: Seq<(i64, u64)>,
    rate_window_ns: Option<u64>,
)
    requires
        points.len() <= usize::MAX,
        in_time_order(points),
    ensures
        counter_rate(
            arith,
            order::stable_sort(points, <(i64, u64) as Ranked>::rank_le()),
            rate_window_ns,
        ) == counter_rate(arith, points, rate_window_ns),
{
    <(i64, u64) as Ranked>::rank_is_preorder();
    order::lemma_stable_sort_of_sorted(points, <(i64, u64) as Ranked>::rank_le());
}

// -- Windows and groups.

/// Whether a reducer goes by a running integer.
pub open spec fn is_integer_op(op: RangeAggOp) -> bool {
    op is CountOverTime || op is BytesOverTime || op is BytesRate || op is Rate
}

/// The value of a running integer.
pub open spec fn integer_value<A: Fn(Arith, u64, u64) -> u64>(
    arith: A,
    op: RangeAggOp,
    window_ns: Option<u64>,
    n: u64,
) -> u64 {
    let x = number::calc(arith, Arith::OfInteger, n, 0);
    if op is BytesRate || op is Rate {
        rated(arith, x, window_ns)
    } else {
        x
    }
}

/// The value of a running integer.
pub fn reduce_int_cell<A: Fn(Arith, u64, u64) -> u64>(
    arith: &A,
    op: RangeAggOp,
    rate_window_ns: Option<u64>,
    run_int: u64,
) -> (r: u64)
    requires
        number::computes(*arith),
        is_integer_op(op),
    ensures
        r == integer_value(*arith, op, rate_window_ns, run_int),
{
    let x: u64 = compute(arith, Arith::OfInteger, run_int, 0);
    match op {
        RangeAggOp::BytesRate | RangeAggOp::Rate => apply_rate(arith, x, rate_window_ns),
        _ => x,
    }
}

/// The value a reducer makes of streaming statistics.
pub open spec fn simple_value<A: Fn(Arith, u64, u64) -> u64>(
    arith: A,
    r: Reducer,
    acc: SimpleAcc,
) -> u64 {
    match r.op {
        RangeAggOp::Rate | RangeAggOp::BytesRate => rated(
            arith,
            acc.moments.sum,
            r.rate_window_ns,
        ),
        RangeAggOp::CountOverTime => number::calc(arith, Arith::OfInteger, acc.count, 0),
        RangeAggOp::BytesOverTime | RangeAggOp::SumOverTime => acc.moments.sum,
        RangeAggOp::AvgOverTime => acc.moments.mean,
        RangeAggOp::MinOverTime => acc.moments.min,
        RangeAggOp::MaxOverTime => acc.moments.max,
        RangeAggOp::StddevOverTime => number::calc(
            arith,
            Arith::Sqrt,
            variance(arith, acc.moments.m2, acc.count),
            0,
        ),
        RangeAggOp::StdvarOverTime => variance(arith, acc.moments.m2, acc.count),
        RangeAggOp::FirstOverTime => number_of(arith, r.value, acc.first_v),
        RangeAggOp::LastOverTime => number_of(arith, r.value, acc.last_v),
        _ => NOT_A_NUMBER,
    }
}

/// Whether a reducer makes a value of streaming statistics.
pub open spec fn is_simple_op(op: RangeAggOp) -> bool {
    !(op is QuantileOverTime || op is RateCounter || op is AbsentOverTime)
}

/// The value a reducer makes of streaming statistics.
fn simple_finish<A: Fn(Arith, u64, u64) -> u64>(arith: &A, r: &Reducer, acc: SimpleAcc) -> (v: u64)
    requires
        number::computes(*arith),
        is_simple_op(r.op),
    ensures
        v == simple_value(*arith, *r, acc),
{
    match r.op {
        RangeAggOp::Rate | RangeAggOp::BytesRate => apply_rate(
            arith,
            acc.moments.sum,
            r.rate_window_ns,
        ),
        RangeAggOp::CountOverTime => compute(arith, Arith::OfInteger, acc.count, 0),
        RangeAggOp::BytesOverTime | RangeAggOp::SumOverTime => acc.moments.sum,
        RangeAggOp::AvgOverTime => acc.moments.mean,
        RangeAggOp::MinOverTime => acc.moments.min,
        RangeAggOp::MaxOverTime => acc.moments.max,
        RangeAggOp::StddevOverTime => {
            let v: u64 = variance_of(arith, acc.moments.m2, acc.count);
            compute(arith, Arith::Sqrt, v, 0)
        },
        RangeAggOp::StdvarOverTime => variance_of(arith, acc.moments.m2, acc.count),
        RangeAggOp::FirstOverTime => as_number(arith, r.value, acc.first_v),
        RangeAggOp::LastOverTime => as_number(arith, r.value, acc.last_v),
        _ => NOT_A_NUMBER,
    }
}

/// The parameter of a quantile, not a number where there is none.
pub open spec fn parameter(param: Option<u64>) -> u64 {
    match param {
        Some(q) => q,
        None => NOT_A_NUMBER,
    }
}

/// The numbers of samples.
pub open spec fn numbers<A: Fn(Arith, u64, u64) -> u64>(
    arith: A,
    kind: ClientValue,
    values: Seq<u64>,
) -> Seq<u64> {
    values.map_values(|v: u64| number_of(arith, kind, v))
}

/// The points of samples, with their numbers.
pub open spec fn numbered<A: Fn(Arith, u64, u64) -> u64>(
    arith: A,
    kind: ClientValue,
    points: Seq<(i64, u64)>,
) -> Seq<(i64, u64)> {
    points.map_values(|p: (i64, u64)| (p.0, number_of(arith, kind, p.1)))
}

/// The numbers of samples.
fn as_numbers<A: Fn(Arith, u64, u64) -> u64>(arith: &A, kind: ClientValue, values: Vec<u64>) -> (out:
    Vec<u64>)
    requires
        number::computes(*arith),
    ensures
        out@ == numbers(*arith, kind, values@),
{
    let mut out: Vec<u64> = Vec::with_capacity(values.len());
    let mut i: usize = 0;
    while i < values.len()
        invariant
            i <= values@.len(),
            number::computes(*arith),
            out@ == numbers(*arith, kind, values@.take(i as int)),
        decreases values@.len() - i,
    {
        out.push(as_number(arith, kind, values[i]));
        i = i + 1;
        proof {
            assert(out@ =~= numbers(*arith, kind, values@.take(i as int)));
        }
    }
    proof {
        assert(values@.take(values@.len() as int) =~= values@);
    }
    out
}

/// The points of samples, with their numbers.
fn as_numbered<A: Fn(Arith, u64, u64) -> u64>(
    arith: &A,
    kind: ClientValue,
    points: Vec<(i64, u64)>,
) -> (out: Vec<(i64, u64)>)
    requires
        number::computes(*arith),
    ensures
        out@ == numbered(*arith, kind, points@),
{
    let mut out: Vec<(i64, u64)> = Vec::with_capacity(points.len());
    let mut i: usize = 0;
    while i < points.len()
        invariant
            i <= points@.len(),
            number::computes(*arith),
            out@ == numbered(*arith, kind, points@.take(i as int)),
        decreases points@.len() - i,
    {
        let (t, v) = points[i];
        out.push((t, as_number(arith, kind, v)));
        i = i + 1;
        proof {
            assert(out@ =~= numbered(*arith, kind, points@.take(i as int)));
        }
    }
    proof {
        assert(points@.take(points@.len() as int) =~= points@);
    }
    out
}

/// The value a reducer makes of a group.
pub open spec fn group_value<A: Fn(Arith, u64, u64) -> u64>(
    arith: A,
    r: Reducer,
    acc: BucketAcc,
) -> u64 {
    match acc {
        BucketAcc::Values(v) => quantile(arith, numbers(arith, r.value, v@), parameter(r.param)),
        BucketAcc::Counter(p) => counter_rate(
            arith,
            order::stable_sort(
                numbered(arith, r.value, p@),
                <(i64, u64) as Ranked>::rank_le(),
            ),
            r.rate_window_ns,
        ),
        BucketAcc::Simple(s) => simple_value(arith, r, s),
    }
}

/// The value a reducer makes of a group.
pub fn finish_group<A: Fn(Arith, u64, u64) -> u64>(arith: &A, r: &Reducer, acc: BucketAcc) -> (v: u64)
    requires
        number::computes(*arith),
        acc is Simple ==> is_simple_op(r.op),
    ensures
        v == group_value(*arith, *r, acc),
{
    match acc {
        BucketAcc::Values(v) => {
            let q: u64 = match r.param {
                Some(q) => q,
                None => NOT_A_NUMBER,
            };
            quantile_of(arith, as_numbers(arith, r.value, v), q)
        },
        BucketAcc::Counter(p) => rate_counter_extrapolated(
            arith,
            as_numbered(arith, r.value, p),
            r.rate_window_ns,
        ),
        BucketAcc::Simple(s) => simple_finish(arith, r, s),
    }
}

/// The moments of samples, in order.
pub open spec fn window_moments<A: Fn(Arith, u64, u64) -> u64>(
    arith: A,
    r: Reducer,
    w: Seq<WinSample>,
) -> Moments
    decreases w.len(),
{
    let x = number_of(arith, r.value, w.last().value);
    if w.len() <= 1 {
        moments_after(arith, None, 1, x)
    } else {
        moments_after(
            arith,
            Some(window_moments(arith, r, w.drop_last())),
            w.len() as u64,
            x,
        )
    }
}

/// The sum of samples, in order, from zero on.
pub open spec fn window_sum<A: Fn(Arith, u64, u64) -> u64>(
    arith: A,
    r: Reducer,
    w: Seq<WinSample>,
) -> u64
    decreases w.len(),
{
    if w.len() == 0 {
        ZERO
    } else {
        number::calc(
            arith,
            Arith::Add,
            window_sum(arith, r, w.drop_last()),
            number_of(arith, r.value, w.last().value),
        )
    }
}

/// The numbers of samples.
pub open spec fn window_numbers<A: Fn(Arith, u64, u64) -> u64>(
    arith: A,
    r: Reducer,
    w: Seq<WinSample>,
) -> Seq<u64> {
    w.map_values(|s: WinSample| number_of(arith, r.value, s.value))
}

/// The points of samples.
pub open spec fn window_points<A: Fn(Arith, u64, u64) -> u64>(
    arith: A,
    r: Reducer,
    w: Seq<WinSample>,
) -> Seq<(i64, u64)> {
    w.map_values(|s: WinSample| (s.ts, number_of(arith, r.value, s.value)))
}

/// The value a reducer makes of a window's samples, in order, with its running
/// integer. An empty window has none.
pub open spec fn window_value<A: Fn(Arith, u64, u64) -> u64>(
    arith: A,
    r: Reducer,
    run_int: u64,
    w: Seq<WinSample>,
) -> Option<u64> {
    if w.len() == 0 {
        None
    } else {
        Some(
            match r.op {
                RangeAggOp::CountOverTime | RangeAggOp::BytesOverTime | RangeAggOp::BytesRate =>
                integer_value(arith, r.op, r.rate_window_ns, run_int),
                RangeAggOp::Rate => if r.class is InvertInteger {
                    integer_value(arith, r.op, r.rate_window_ns, run_int)
                } else {
                    rated(arith, window_sum(arith, r, w), r.rate_window_ns)
                },
                RangeAggOp::FirstOverTime => number_of(arith, r.value, w[0].value),
                RangeAggOp::LastOverTime => number_of(arith, r.value, w.last().value),
                RangeAggOp::QuantileOverTime => quantile(
                    arith,
                    window_numbers(arith, r, w),
                    parameter(r.param),
                ),
                RangeAggOp::RateCounter => counter_rate(
                    arith,
                    window_points(arith, r, w),
                    r.rate_window_ns,
                ),
                RangeAggOp::SumOverTime => window_moments(arith, r, w).sum,
                RangeAggOp::AvgOverTime => window_moments(arith, r, w).mean,
                RangeAggOp::MinOverTime => window_moments(arith, r, w).min,
                RangeAggOp::MaxOverTime => window_moments(arith, r, w).max,
                RangeAggOp::StddevOverTime => number::calc(
                    arith,
                    Arith::Sqrt,
                    variance(arith, window_moments(arith, r, w).m2, w.len() as u64),
                    0,
                ),
                RangeAggOp::StdvarOverTime => variance(
                    arith,
                    window_moments(arith, r, w).m2,
                    w.len() as u64,
                ),
                RangeAggOp::AbsentOverTime => NOT_A_NUMBER,
            },
        )
    }
}

/// The moments of samples, in order.
fn fold_moments<A: Fn(Arith, u64, u64) -> u64>(arith: &A, r: &Reducer, w: &[WinSample]) -> (m:
    Moments)
    requires
        number::computes(*arith),
        w@.len() > 0,
    ensures
        m == window_moments(*arith, *r, w@),
{
    let mut m = step_moments(arith, r, None, 1, w[0].value);
    let mut i: usize = 1;
    proof {
        assert(w@.take(1).last() == w@[0]);
    }
    while i < w.len()
        invariant
            1 <= i <= w@.len(),
            number::computes(*arith),
            m == window_moments(*arith, *r, w@.take(i as int)),
        decreases w@.len() - i,
    {
        proof {
            assert(w@.take(i + 1).drop_last() =~= w@.take(i as int));
            assert(w@.take(i + 1).last() == w@[i as int]);
        }
        m = step_moments(arith, r, Some(m), (i + 1) as u64, w[i].value);
        i = i + 1;
    }
    proof {
        assert(w@.take(w@.len() as int) =~= w@);
    }
    m
}

/// The sum of samples, in order, from zero on.
fn fold_sum<A: Fn(Arith, u64, u64) -> u64>(arith: &A, r: &Reducer, w: &[WinSample]) -> (sum: u64)
    requires
        number::computes(*arith),
    ensures
        sum == window_sum(*arith, *r, w@),
{
    let mut sum: u64 = ZERO;
    let mut i: usize = 0;
    proof {
        assert(w@.take(0) =~= Seq::<WinSample>::empty());
    }
    while i < w.len()
        invariant
            i <= w@.len(),
            number::computes(*arith),
            sum == window_sum(*arith, *r, w@.take(i as int)),
        decreases w@.len() - i,
    {
        proof {
            assert(w@.take(i + 1).drop_last() =~= w@.take(i as int));
            assert(w@.take(i + 1).last() == w@[i as int]);
        }
        let x: u64 = as_number(arith, r.value, w[i].value);
        sum = compute(arith, Arith::Add, sum, x);
        i = i + 1;
    }
    proof {
        assert(w@.take(w@.len() as int) =~= w@);
    }
    sum
}

/// The points of samples.
fn points_of<A: Fn(Arith, u64, u64) -> u64>(arith: &A, r: &Reducer, w: &[WinSample]) -> (p: Vec<
    (i64, u64),
>)
    requires
        number::computes(*arith),
    ensures
        p@ == window_points(*arith, *r, w@),
{
    let mut p: Vec<(i64, u64)> = Vec::with_capacity(w.len());
    let mut i: usize = 0;
    while i < w.len()
        invariant
            i <= w@.len(),
            number::computes(*arith),
            p@.len() == i,
            forall|j: int|
                0 <= j < i ==> #[trigger] p@[j] == (w@[j].ts, number_of(*arith, r.value, w@[j].value)),
        decreases w@.len() - i,
    {
        let x: u64 = as_number(arith, r.value, w[i].value);
        p.push((w[i].ts, x));
        i = i + 1;
    }
    proof {
        assert(p@ =~= window_points(*arith, *r, w@));
    }
    p
}

/// The numbers of samples.
fn numbers_of<A: Fn(Arith, u64, u64) -> u64>(arith: &A, r: &Reducer, w: &[WinSample]) -> (v: Vec<
    u64,
>)
    requires
        number::computes(*arith),
    ensures
        v@ == window_numbers(*arith, *r, w@),
{
    let mut v: Vec<u64> = Vec::with_capacity(w.len());
    let mut i: usize = 0;
    while i < w.len()
        invariant
            i <= w@.len(),
            number::computes(*arith),
            v@.len() == i,
            forall|j: int|
                0 <= j < i ==> #[trigger] v@[j] == number_of(*arith, r.value, w@[j].value),
        decreases w@.len() - i,
    {
        v.push(as_number(arith, r.value, w[i].value));
        i = i + 1;
    }
    proof {
        assert(v@ =~= window_numbers(*arith, *r, w@));
    }
    v
}

/// The value a reducer makes of a window.
pub fn reduce_window<A: Fn(Arith, u64, u64) -> u64>(
    arith: &A,
    r: &Reducer,
    run_int: u64,
    ordered: &[WinSample],
) -> (v: Option<u64>)
    requires
        number::computes(*arith),
        !(r.op is AbsentOverTime),
        slide::ascending(ordered@),
    ensures
        v == window_value(*arith, *r, run_int, ordered@),
{
    if ordered.len() == 0 {
        return None;
    }
    let value: u64 = match r.op {
        RangeAggOp::CountOverTime | RangeAggOp::BytesOverTime | RangeAggOp::BytesRate => {
            reduce_int_cell(arith, r.op, r.rate_window_ns, run_int)
        },
        RangeAggOp::Rate => {
            if matches!(r.class, ReducerClass::InvertInteger) {
                reduce_int_cell(arith, r.op, r.rate_window_ns, run_int)
            } else {
                let sum: u64 = fold_sum(arith, r, ordered);
                apply_rate(arith, sum, r.rate_window_ns)
            }
        },
        RangeAggOp::FirstOverTime => as_number(arith, r.value, ordered[0].value),
        RangeAggOp::LastOverTime => as_number(arith, r.value, ordered[ordered.len() - 1].value),
        RangeAggOp::QuantileOverTime => {
            let q: u64 = match r.param {
                Some(q) => q,
                None => NOT_A_NUMBER,
            };
            quantile_of(arith, numbers_of(arith, r, ordered), q)
        },
        RangeAggOp::RateCounter => {
            let points = points_of(arith, r, ordered);
            rate_counter_over_sorted(arith, points.as_slice(), r.rate_window_ns)
        },
        RangeAggOp::SumOverTime => fold_moments(arith, r, ordered).sum,
        RangeAggOp::AvgOverTime => fold_moments(arith, r, ordered).mean,
        RangeAggOp::MinOverTime => fold_moments(arith, r, ordered).min,
        RangeAggOp::MaxOverTime => fold_moments(arith, r, ordered).max,
        RangeAggOp::StddevOverTime => {
            let m2: u64 = fold_moments(arith, r, ordered).m2;
            let v: u64 = variance_of(arith, m2, ordered.len() as u64);
            compute(arith, Arith::Sqrt, v, 0)
        },
        RangeAggOp::StdvarOverTime => {
            let m2: u64 = fold_moments(arith, r, ordered).m2;
            variance_of(arith, m2, ordered.len() as u64)
        },
        RangeAggOp::AbsentOverTime => NOT_A_NUMBER,
    };
    Some(value)
}

} // verus!
