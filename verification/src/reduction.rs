//! The reductions of the evaluators, all over one arithmetic, and what the
//! evaluators' answers come to with them.
use vstd::prelude::*;
use crate::accum::{self, finish_group, reduce_int_cell, reduce_window, step_moments};
use crate::instant::{self, Arrival, BucketAcc, Moments, SimpleAcc};
use crate::model::RangeAggOp;
use crate::number::{self, Arith, NOT_A_NUMBER};
use crate::order::{self, Ranked};
use crate::slide::{self, Reducer, ReducerClass, WinSample};
use crate::window::Grid;

verus! {

// ---------------------------------------------------------------------
// Windows.
// ---------------------------------------------------------------------

/// What a reducer makes of a running integer and of samples: of the one or of the
/// others, by its class.
pub open spec fn reduced<A: Fn(Arith, u64, u64) -> u64>(
    arith: A,
    r: Reducer,
    n: u64,
    w: Seq<WinSample>,
) -> u64 {
    if r.class is InvertInteger {
        accum::integer_value(arith, r.op, r.rate_window_ns, n)
    } else {
        accum::window_value(arith, r, n, w)->0
    }
}

/// Whether a function reduces windows over an arithmetic.
pub open spec fn reduces_windows<
    A: Fn(Arith, u64, u64) -> u64,
    F: Fn(&Reducer, u64, &[WinSample]) -> u64,
>(arith: A, reduce: F) -> bool {
    forall|r: &Reducer, n: u64, s: &[WinSample], v: u64| #[trigger]
        call_ensures(reduce, (r, n, s), v) ==> v == reduced(arith, *r, n, s@)
}

/// The reduction of windows over an arithmetic.
pub fn window_reducer<'a, A: Fn(Arith, u64, u64) -> u64>(arith: &'a A) -> (reduce: impl Fn(
    &Reducer,
    u64,
    &[WinSample],
) -> u64 + 'a)
    requires
        number::computes(*arith),
    ensures
        slide::takes_windows(reduce),
        reduces_windows(*arith, reduce),
{
    move |r: &Reducer, n: u64, s: &[WinSample]| -> (v: u64)
        requires
            number::computes(*arith),
            slide::reducible(*r, s@),
        ensures
            v == reduced(*arith, *r, n, s@),
        {
            if matches!(r.class, ReducerClass::InvertInteger) {
                reduce_int_cell(arith, r.op, r.rate_window_ns, n)
            } else {
                match reduce_window(arith, r, n, s) {
                    Some(v) => v,
                    None => NOT_A_NUMBER,
                }
            }
        }
}

/// What a reducer makes of a window.
pub open spec fn cell_value<A: Fn(Arith, u64, u64) -> u64>(
    arith: A,
    r: Reducer,
    w: Seq<WinSample>,
) -> u64 {
    reduced(
        arith,
        r,
        if r.class is InvertInteger {
            slide::weight_sum(w) as u64
        } else {
            0
        },
        w,
    )
}

/// The points of a history on the first `k` points of a grid: the value of each
/// window that holds a sample, at the grid point it ends on, in time order.
pub open spec fn grid_values<A: Fn(Arith, u64, u64) -> u64>(
    arith: A,
    r: Reducer,
    grid: Grid,
    hist: Seq<WinSample>,
    k: int,
) -> Seq<(i64, u64)>
    decreases k,
{
    if k <= 0 {
        Seq::empty()
    } else {
        let rest = grid_values(arith, r, grid, hist, k - 1);
        let w = slide::window_of(hist, grid.at(k - 1), grid.range as int);
        if w.len() == 0 {
            rest
        } else {
            rest.push((grid.at(k - 1) as i64, cell_value(arith, r, w)))
        }
    }
}

/// With the reduction over an arithmetic, the points of a history are the values of
/// its windows.
pub proof fn law_points_are_window_values<
    A: Fn(Arith, u64, u64) -> u64,
    F: Fn(&Reducer, u64, &[WinSample]) -> u64,
>(
    arith: A,
    reduce: F,
    r: Reducer,
    grid: Grid,
    hist: Seq<WinSample>,
    k: int,
    points: Seq<(i64, u64)>,
)
    requires
        reduces_windows(arith, reduce),
        slide::series_points(reduce, r, grid, hist, k, points),
    ensures
        points == grid_values(arith, r, grid, hist, k),
    decreases k,
{
    if k > 0 {
        let w = slide::window_of(hist, grid.at(k - 1), grid.range as int);
        if w.len() == 0 {
            law_points_are_window_values(arith, reduce, r, grid, hist, k - 1, points);
        } else {
            law_points_are_window_values(arith, reduce, r, grid, hist, k - 1, points.drop_last());
            assert(slide::cell_ok(reduce, r, w, points.last().1));
            assert(points =~= points.drop_last().push(points.last()));
        }
    } else {
        assert(points =~= Seq::empty());
    }
}

// ---------------------------------------------------------------------
// Groups.
// ---------------------------------------------------------------------

/// Whether a function takes samples into moments over an arithmetic.
pub open spec fn steps_moments<
    A: Fn(Arith, u64, u64) -> u64,
    S: Fn(&Reducer, Option<Moments>, u64, u64) -> Moments,
>(arith: A, step: S) -> bool {
    forall|r: &Reducer, m: Option<Moments>, n: u64, v: u64, next: Moments| #[trigger]
        call_ensures(step, (r, m, n, v), next) ==> next == accum::moments_after(
            arith,
            m,
            n,
            accum::number_of(arith, r.value, v),
        )
}

/// Whether a function makes values of groups over an arithmetic.
pub open spec fn finishes_groups<
    A: Fn(Arith, u64, u64) -> u64,
    B: Fn(&Reducer, BucketAcc) -> u64,
>(arith: A, done: B) -> bool {
    forall|r: &Reducer, acc: BucketAcc, v: u64| #[trigger]
        call_ensures(done, (r, acc), v) ==> v == accum::group_value(arith, *r, acc)
}

/// How samples are taken into moments over an arithmetic.
pub fn moment_stepper<'a, A: Fn(Arith, u64, u64) -> u64>(arith: &'a A) -> (step: impl Fn(
    &Reducer,
    Option<Moments>,
    u64,
    u64,
) -> Moments + 'a)
    requires
        number::computes(*arith),
    ensures
        forall|r: &Reducer, m: Option<Moments>, n: u64, v: u64| call_requires(step, (r, m, n, v)),
        steps_moments(*arith, step),
{
    move |r: &Reducer, m: Option<Moments>, n: u64, v: u64| -> (next: Moments)
        requires
            number::computes(*arith),
        ensures
            next == accum::moments_after(*arith, m, n, accum::number_of(*arith, r.value, v)),
        { step_moments(arith, r, m, n, v) }
}

/// How values are made of groups over an arithmetic.
pub fn group_finisher<'a, A: Fn(Arith, u64, u64) -> u64>(arith: &'a A) -> (done: impl Fn(
    &Reducer,
    BucketAcc,
) -> u64 + 'a)
    requires
        number::computes(*arith),
    ensures
        instant::takes_groups(done),
        finishes_groups(*arith, done),
{
    move |r: &Reducer, acc: BucketAcc| -> (v: u64)
        requires
            number::computes(*arith),
            acc is Simple ==> accum::is_simple_op(r.op),
        ensures
            v == accum::group_value(*arith, *r, acc),
        { finish_group(arith, r, acc) }
}

/// The moments of samples, in the order they came.
pub open spec fn arrival_moments<A: Fn(Arith, u64, u64) -> u64>(
    arith: A,
    r: Reducer,
    hist: Seq<Arrival>,
) -> Moments
    decreases hist.len(),
{
    let x = accum::number_of(arith, r.value, hist.last().value);
    if hist.len() <= 1 {
        accum::moments_after(arith, None, 1, x)
    } else {
        accum::moments_after(
            arith,
            Some(arrival_moments(arith, r, hist.drop_last())),
            hist.len() as u64,
            x,
        )
    }
}

/// What a reducer makes of a group's samples, in the order they came.
pub open spec fn history_value<A: Fn(Arith, u64, u64) -> u64>(
    arith: A,
    r: Reducer,
    hist: Seq<Arrival>,
) -> u64 {
    match r.op {
        RangeAggOp::QuantileOverTime => accum::quantile(
            arith,
            accum::numbers(arith, r.value, hist.map_values(|a: Arrival| a.value)),
            accum::parameter(r.param),
        ),
        RangeAggOp::RateCounter => accum::counter_rate(
            arith,
            order::stable_sort(
                accum::numbered(arith, r.value, hist.map_values(|a: Arrival| (a.ts, a.value))),
                <(i64, u64) as Ranked>::rank_le(),
            ),
            r.rate_window_ns,
        ),
        _ => {
            let (first, last) = (instant::first_delivered(hist), instant::last_delivered(hist));
            accum::simple_value(
                arith,
                r,
                SimpleAcc {
                    count: hist.len() as u64,
                    moments: arrival_moments(arith, r, hist),
                    first_key: (first.ts, first.stream_hash),
                    first_v: first.value,
                    last_key: (last.ts, last.stream_hash),
                    last_v: last.value,
                },
            )
        },
    }
}

proof fn lemma_moments_are_those_of_arrivals<
    A: Fn(Arith, u64, u64) -> u64,
    S: Fn(&Reducer, Option<Moments>, u64, u64) -> Moments,
>(arith: A, step: S, r: Reducer, hist: Seq<Arrival>, m: Moments)
    requires
        steps_moments(arith, step),
        instant::moments_ok(step, r, hist, m),
    ensures
        m == arrival_moments(arith, r, hist),
    decreases hist.len(),
{
    if hist.len() > 1 {
        let prev = choose|prev: Moments|
            instant::moments_ok(step, r, hist.drop_last(), prev) && #[trigger] call_ensures(
                step,
                (&r, Some(prev), hist.len() as u64, hist.last().value),
                m,
            );
        lemma_moments_are_those_of_arrivals(arith, step, r, hist.drop_last(), prev);
    }
}

/// With the reductions over an arithmetic, a group's value is that of its samples.
pub proof fn law_groups_are_their_samples<
    A: Fn(Arith, u64, u64) -> u64,
    S: Fn(&Reducer, Option<Moments>, u64, u64) -> Moments,
    B: Fn(&Reducer, BucketAcc) -> u64,
>(arith: A, step: S, done: B, r: Reducer, hist: Seq<Arrival>, v: u64)
    requires
        steps_moments(arith, step),
        finishes_groups(arith, done),
        instant::group_value(step, done, r, hist, v),
    ensures
        v == history_value(arith, r, hist),
{
    let acc = choose|acc: BucketAcc|
        instant::acc_ok(step, r, hist, acc) && #[trigger] call_ensures(done, (&r, acc), v);
    match acc {
        BucketAcc::Simple(s) => {
            lemma_moments_are_those_of_arrivals(arith, step, r, hist, s.moments);
        },
        _ => {},
    }
}

} // verus!
