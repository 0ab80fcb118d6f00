//! What the values of the reducers and of the vector aggregations satisfy, and how they
//! relate to one another.
use vstd::prelude::*;
use crate::accum::{self, VectorAccum};
use crate::agg;
use crate::instant::{self, Arrival};
use crate::model::{ClientValue, RangeAggOp, VectorAggOp};
use crate::number::{self, Arith, NOT_A_NUMBER, ONE};
use crate::order::{self, Ranked};
use crate::reduction;
use crate::slide::{self, Reducer, WinSample};

verus! {

// ---------------------------------------------------------------------
// Comparison.
// ---------------------------------------------------------------------

/// Comparison of numbers is that of their patterns: among the positive as the patterns
/// themselves, among the negative the other way round, every negative number below every
/// positive one, and the two zeros equal.
pub proof fn law_numbers_compare_as_their_patterns(a: u64, b: u64)
    requires
        a < 0x8000_0000_0000_0000,
        b < 0x8000_0000_0000_0000,
    ensures
        ({
            let (na, nb) = ((a + 0x8000_0000_0000_0000) as u64, (b + 0x8000_0000_0000_0000) as u64);
            let both = a <= 0x7FF0_0000_0000_0000 && b <= 0x7FF0_0000_0000_0000;
            &&& number::number_lt(a, b) <==> both && a < b
            &&& number::number_lt(na, nb) <==> both && b < a
            &&& number::number_lt(na, b) <==> both && (a > 0 || b > 0)
            &&& !number::number_lt(a, nb)
        }),
{
}

/// Comparison is a strict order, and any two numbers that are not of one rank compare.
pub proof fn law_numbers_are_ordered(a: u64, b: u64, c: u64)
    ensures
        !number::number_lt(a, a),
        number::number_lt(a, b) ==> !number::number_lt(b, a),
        number::number_lt(a, b) && number::number_lt(b, c) ==> number::number_lt(a, c),
        number::number_lt(a, b) ==> number::is_number(a) && number::is_number(b),
        number::is_number(a) && number::is_number(b) && number::is_number(c) && !number::number_lt(
            a,
            b,
        ) && !number::number_lt(b, c) ==> !number::number_lt(a, c),
        number::is_number(a) <==> a % 0x8000_0000_0000_0000 <= 0x7FF0_0000_0000_0000,
{
}

/// The total order is that of the numbers, with the zeros told apart and what is not a
/// number at either end.
pub proof fn law_total_order_is_numeric(a: u64, b: u64)
    ensures
        number::number_lt(a, b) ==> agg::total_key(a) < agg::total_key(b),
        agg::total_key(a) == agg::total_key(b) <==> a == b,
        agg::total_key(0x8000_0000_0000_0000) < agg::total_key(0),
        !number::is_number(a) && a < 0x8000_0000_0000_0000 && number::is_number(b)
            ==> agg::total_key(b) < agg::total_key(a),
        !number::is_number(a) && a >= 0x8000_0000_0000_0000 && number::is_number(b)
            ==> agg::total_key(a) < agg::total_key(b),
{
}

// ---------------------------------------------------------------------
// Vector aggregations.
// ---------------------------------------------------------------------

/// An extreme bounds what was kept before and the member that came: nothing kept is ever
/// passed over for something worse.
pub proof fn law_kept_extreme_bounds_both<A: Fn(Arith, u64, u64) -> u64>(
    arith: A,
    a: VectorAccum,
    f: u64,
)
    ensures
        ({
            let max = accum::updated(arith, VectorAggOp::Max, a, f).value;
            let min = accum::updated(arith, VectorAggOp::Min, a, f).value;
            &&& number::is_number(a.value) ==> !number::number_lt(max, a.value)
            &&& number::is_number(a.value) ==> !number::number_lt(a.value, min)
            &&& number::is_number(f) ==> !number::number_lt(max, f) && number::is_number(max)
            &&& number::is_number(f) ==> !number::number_lt(f, min) && number::is_number(min)
            &&& max == a.value || max == f
            &&& min == a.value || min == f
        }),
{
}

proof fn lemma_extreme_of_list<A: Fn(Arith, u64, u64) -> u64>(
    arith: A,
    op: VectorAggOp,
    values: Seq<u64>,
)
    requires
        values.len() > 0,
        op is Max || op is Min,
    ensures
        ({
            let r = accum::accumulated(arith, op, values).value;
            &&& values.contains(r)
            &&& forall|i: int|
                0 <= i < values.len() && number::is_number(#[trigger] values[i]) ==> {
                    &&& number::is_number(r)
                    &&& op is Max ==> !number::number_lt(r, values[i])
                    &&& op is Min ==> !number::number_lt(values[i], r)
                }
        }),
    decreases values.len(),
{
    let r = accum::accumulated(arith, op, values).value;
    if values.len() == 1 {
        assert(values[0] == r);
    } else {
        let front = values.drop_last();
        lemma_extreme_of_list(arith, op, front);
        let p = accum::accumulated(arith, op, front).value;
        let j = choose|j: int| 0 <= j < front.len() && front[j] == p;
        assert(values[j] == p);
        assert(values[values.len() - 1] == values.last());
        assert forall|i: int|
            0 <= i < values.len() && number::is_number(#[trigger] values[i]) implies {
            &&& number::is_number(r)
            &&& op is Max ==> !number::number_lt(r, values[i])
            &&& op is Min ==> !number::number_lt(values[i], r)
        } by {
            if i < front.len() {
                assert(front[i] == values[i]);
                law_numbers_are_ordered(r, p, values[i]);
                law_numbers_are_ordered(values[i], p, r);
            }
        }
    }
}

/// The greatest of some members is one of them, and no member that is a number is
/// greater; the least likewise.
pub proof fn law_extremes_are_members_and_bounds<A: Fn(Arith, u64, u64) -> u64>(
    arith: A,
    values: Seq<u64>,
)
    requires
        values.len() > 0,
    ensures
        values.contains(accum::reduced(arith, VectorAggOp::Max, values)),
        values.contains(accum::reduced(arith, VectorAggOp::Min, values)),
        forall|i: int|
            0 <= i < values.len() && number::is_number(#[trigger] values[i]) ==> {
                let max = accum::reduced(arith, VectorAggOp::Max, values);
                let min = accum::reduced(arith, VectorAggOp::Min, values);
                &&& number::is_number(max) && !number::number_lt(max, values[i])
                &&& number::is_number(min) && !number::number_lt(values[i], min)
            },
{
    lemma_extreme_of_list(arith, VectorAggOp::Max, values);
    lemma_extreme_of_list(arith, VectorAggOp::Min, values);
}

proof fn lemma_counted<A: Fn(Arith, u64, u64) -> u64>(arith: A, op: VectorAggOp, values: Seq<u64>)
    requires
        0 < values.len() <= u64::MAX,
    ensures
        op is Count || op is Avg || op is Stddev || op is Stdvar ==> accum::accumulated(
            arith,
            op,
            values,
        ).count == values.len(),
    decreases values.len(),
{
    if values.len() > 1 {
        lemma_counted(arith, op, values.drop_last());
    }
}

proof fn lemma_summed<A: Fn(Arith, u64, u64) -> u64>(arith: A, values: Seq<u64>)
    requires
        values.len() > 0,
    ensures
        accum::accumulated(arith, VectorAggOp::Sum, values).value == values.skip(1).fold_left(
            values[0],
            |sum: u64, x: u64| number::calc(arith, Arith::Add, sum, x),
        ),
    decreases values.len(),
{
    let f = |sum: u64, x: u64| number::calc(arith, Arith::Add, sum, x);
    if values.len() > 1 {
        lemma_summed(arith, values.drop_last());
        assert(values.skip(1).drop_last() =~= values.drop_last().skip(1));
    }
}

/// A count is how many members there are, a sum adds them one after the other from the
/// first on, and of one member the sum, the average and the extremes are that member.
pub proof fn law_sums_and_counts<A: Fn(Arith, u64, u64) -> u64>(arith: A, values: Seq<u64>)
    requires
        0 < values.len() <= u64::MAX,
    ensures
        accum::reduced(arith, VectorAggOp::Count, values) == number::calc(
            arith,
            Arith::OfInteger,
            values.len() as u64,
            0,
        ),
        accum::reduced(arith, VectorAggOp::Sum, values) == values.skip(1).fold_left(
            values[0],
            |sum: u64, x: u64| number::calc(arith, Arith::Add, sum, x),
        ),
        values.len() == 1 ==> {
            &&& accum::reduced(arith, VectorAggOp::Sum, values) == values[0]
            &&& accum::reduced(arith, VectorAggOp::Avg, values) == values[0]
            &&& accum::reduced(arith, VectorAggOp::Min, values) == values[0]
            &&& accum::reduced(arith, VectorAggOp::Max, values) == values[0]
        },
{
    lemma_counted(arith, VectorAggOp::Count, values);
    lemma_summed(arith, values);
}

proof fn lemma_mean_of<A: Fn(Arith, u64, u64) -> u64>(arith: A, op: VectorAggOp, values: Seq<u64>)
    requires
        0 < values.len() <= u64::MAX,
        op is Stddev || op is Stdvar,
    ensures
        accum::accumulated(arith, op, values).mean == accum::reduced(
            arith,
            VectorAggOp::Avg,
            values,
        ),
    decreases values.len(),
{
    if values.len() > 1 {
        lemma_mean_of(arith, op, values.drop_last());
        lemma_counted(arith, op, values.drop_last());
        lemma_counted(arith, VectorAggOp::Avg, values.drop_last());
    }
}

/// One more member moves the average by its distance from the average before, divided by
/// how many there are now.
pub proof fn law_average_moves_by_its_share<A: Fn(Arith, u64, u64) -> u64>(
    arith: A,
    values: Seq<u64>,
    f: u64,
)
    requires
        0 < values.len() < u64::MAX,
    ensures
        ({
            let before = accum::reduced(arith, VectorAggOp::Avg, values);
            let n = number::calc(arith, Arith::OfInteger, (values.len() + 1) as u64, 0);
            accum::reduced(arith, VectorAggOp::Avg, values.push(f)) == number::calc(
                arith,
                Arith::Add,
                before,
                number::calc(
                    arith,
                    Arith::Div,
                    number::calc(arith, Arith::Sub, f, before),
                    n,
                ),
            )
        }),
{
    assert(values.push(f).drop_last() =~= values);
    lemma_counted(arith, VectorAggOp::Avg, values);
}

/// The sum of squared deviations of members from their averages: nothing for one, and for
/// one more the product of its distances from the averages before and after.
pub open spec fn squares<A: Fn(Arith, u64, u64) -> u64>(arith: A, values: Seq<u64>) -> u64
    decreases values.len(),
{
    if values.len() <= 1 {
        0
    } else {
        let f = values.last();
        let before = accum::reduced(arith, VectorAggOp::Avg, values.drop_last());
        let after = accum::reduced(arith, VectorAggOp::Avg, values);
        number::calc(
            arith,
            Arith::Add,
            squares(arith, values.drop_last()),
            number::calc(
                arith,
                Arith::Mul,
                number::calc(arith, Arith::Sub, f, before),
                number::calc(arith, Arith::Sub, f, after),
            ),
        )
    }
}

proof fn lemma_squares<A: Fn(Arith, u64, u64) -> u64>(arith: A, op: VectorAggOp, values: Seq<u64>)
    requires
        0 < values.len() <= u64::MAX,
        op is Stddev || op is Stdvar,
    ensures
        accum::accumulated(arith, op, values).value == squares(arith, values),
    decreases values.len(),
{
    if values.len() > 1 {
        let front = values.drop_last();
        lemma_squares(arith, op, front);
        lemma_mean_of(arith, op, front);
        lemma_mean_of(arith, op, values);
        lemma_counted(arith, op, front);
    }
}

/// The variance is the sum of squared deviations from the running averages, divided by
/// how many members there are, and the standard deviation is its root.
pub proof fn law_deviation_is_the_root_of_the_variance<A: Fn(Arith, u64, u64) -> u64>(
    arith: A,
    values: Seq<u64>,
)
    requires
        0 < values.len() <= u64::MAX,
    ensures
        accum::reduced(arith, VectorAggOp::Stdvar, values) == number::calc(
            arith,
            Arith::Div,
            squares(arith, values),
            number::calc(arith, Arith::OfInteger, values.len() as u64, 0),
        ),
        accum::reduced(arith, VectorAggOp::Stddev, values) == number::calc(
            arith,
            Arith::Sqrt,
            accum::reduced(arith, VectorAggOp::Stdvar, values),
            0,
        ),
{
    lemma_squares(arith, VectorAggOp::Stdvar, values);
    lemma_squares(arith, VectorAggOp::Stddev, values);
    lemma_counted(arith, VectorAggOp::Stdvar, values);
    lemma_counted(arith, VectorAggOp::Stddev, values);
}

/// A selection keeps as many members as its parameter, rounded down, says, and none where
/// that is missing, below one or not a number.
pub proof fn law_selections_keep_whole_counts<A: Fn(Arith, u64, u64) -> u64>(
    arith: A,
    param: Option<u64>,
)
    ensures
        param is None ==> accum::selected(arith, param) == 0,
        param matches Some(p) ==> number::number_lt(p, ONE) || !number::is_number(p)
            ==> accum::selected(arith, param) == 0,
        param matches Some(p) ==> number::number_lt(ONE, p) || p == ONE ==> accum::selected(
            arith,
            param,
        ) == number::calc(
            arith,
            Arith::ToInteger,
            number::calc(arith, Arith::Floor, p, 0),
            0,
        ),
{
}

// ---------------------------------------------------------------------
// Totals and rates.
// ---------------------------------------------------------------------

/// How many there are of something in a window, each sample counting for its value.
pub open spec fn total(w: Seq<WinSample>) -> int {
    order::sum_of(w, |s: WinSample| s.value as int)
}

proof fn lemma_total(w: Seq<WinSample>)
    ensures
        slide::weight_sum(w) == total(w),
    decreases w.len(),
{
    if w.len() > 0 {
        lemma_total(w.drop_last());
    }
}

/// What a range query counts in a window is the total of its samples, and a rate is that
/// total per second of its width: `bytes_rate` of the bytes as `rate` of the lines.
pub proof fn law_a_rate_is_its_total_per_second<A: Fn(Arith, u64, u64) -> u64>(
    arith: A,
    r: Reducer,
    w: Seq<WinSample>,
)
    requires
        r.class is InvertInteger,
        accum::is_integer_op(r.op),
    ensures
        ({
            let counted = number::calc(arith, Arith::OfInteger, total(w) as u64, 0);
            let per_second = match r.rate_window_ns {
                Some(width) => number::calc(arith, Arith::PerSecond, counted, width),
                None => number::calc(arith, Arith::PerNothing, counted, 0),
            };
            let bytes = Reducer { op: RangeAggOp::BytesOverTime, ..r };
            let lines = Reducer { op: RangeAggOp::CountOverTime, ..r };
            let bytes_rate = Reducer { op: RangeAggOp::BytesRate, ..r };
            let rate = Reducer { op: RangeAggOp::Rate, ..r };
            &&& reduction::cell_value(arith, bytes, w) == counted
            &&& reduction::cell_value(arith, lines, w) == counted
            &&& reduction::cell_value(arith, bytes_rate, w) == per_second
            &&& reduction::cell_value(arith, rate, w) == per_second
            &&& r.rate_window_ns matches Some(width) ==> {
                &&& reduction::cell_value(arith, bytes_rate, w) == number::calc(
                    arith,
                    Arith::PerSecond,
                    reduction::cell_value(arith, bytes, w),
                    width,
                )
                &&& reduction::cell_value(arith, rate, w) == number::calc(
                    arith,
                    Arith::PerSecond,
                    reduction::cell_value(arith, lines, w),
                    width,
                )
            }
        }),
{
    lemma_total(w);
}

/// The same over the samples themselves, however many of them a window is handed: the
/// value of a window never depends on which of the two ways it is come by.
pub proof fn law_windows_and_running_integers_agree<A: Fn(Arith, u64, u64) -> u64>(
    arith: A,
    r: Reducer,
    n: u64,
    w: Seq<WinSample>,
)
    requires
        r.class is InvertInteger,
        accum::is_integer_op(r.op),
        w.len() > 0,
    ensures
        accum::window_value(arith, r, n, w) == Some(
            accum::integer_value(arith, r.op, r.rate_window_ns, n),
        ),
        accum::window_value(arith, r, n, Seq::empty()) is None,
{
}

// ---------------------------------------------------------------------
// Windows of numbers.
// ---------------------------------------------------------------------

/// The numbers of a window: unwrapped ones as they are, counts as the numbers they are.
pub open spec fn window_list<A: Fn(Arith, u64, u64) -> u64>(
    arith: A,
    kind: ClientValue,
    w: Seq<WinSample>,
) -> Seq<u64> {
    w.map_values(
        |s: WinSample|
            if kind is Unwrap {
                s.value
            } else {
                number::calc(arith, Arith::OfInteger, s.value, 0)
            },
    )
}

proof fn lemma_moments_fold<A: Fn(Arith, u64, u64) -> u64>(
    arith: A,
    r: Reducer,
    w: Seq<WinSample>,
)
    requires
        0 < w.len() <= u64::MAX,
    ensures
        ({
            let list = window_list(arith, r.value, w);
            let m = accum::window_moments(arith, r, w);
            &&& m.sum == accum::reduced(arith, VectorAggOp::Sum, list)
            &&& m.mean == accum::reduced(arith, VectorAggOp::Avg, list)
            &&& m.m2 == squares(arith, list)
            &&& m.min == list.skip(1).fold_left(
                list[0],
                |x: u64, y: u64| number::calc(arith, Arith::Min, x, y),
            )
            &&& m.max == list.skip(1).fold_left(
                list[0],
                |x: u64, y: u64| number::calc(arith, Arith::Max, x, y),
            )
        }),
    decreases w.len(),
{
    let list = window_list(arith, r.value, w);
    assert(list.last() == accum::number_of(arith, r.value, w.last().value));
    if w.len() > 1 {
        let front = w.drop_last();
        let less = window_list(arith, r.value, front);
        lemma_moments_fold(arith, r, front);
        assert(list.drop_last() =~= less);
        assert(list =~= less.push(list.last()));
        assert(list.skip(1).drop_last() =~= less.skip(1));
        law_average_moves_by_its_share(arith, less, list.last());
        lemma_counted(arith, VectorAggOp::Avg, less);
    }
}

proof fn lemma_sum_from_zero<A: Fn(Arith, u64, u64) -> u64>(
    arith: A,
    r: Reducer,
    w: Seq<WinSample>,
)
    ensures
        accum::window_sum(arith, r, w) == window_list(arith, r.value, w).fold_left(
            0u64,
            |sum: u64, x: u64| number::calc(arith, Arith::Add, sum, x),
        ),
    decreases w.len(),
{
    let list = window_list(arith, r.value, w);
    if w.len() > 0 {
        lemma_sum_from_zero(arith, r, w.drop_last());
        assert(list.drop_last() =~= window_list(arith, r.value, w.drop_last()));
        assert(list.last() == accum::number_of(arith, r.value, w.last().value));
    }
}

/// The reducers of a window are the vector aggregations of its numbers: the sum, the
/// average, the variance and the standard deviation. The extremes go from number to
/// number, and the first and the last are the numbers at the ends.
pub proof fn law_windows_reduce_their_numbers<A: Fn(Arith, u64, u64) -> u64>(
    arith: A,
    r: Reducer,
    n: u64,
    w: Seq<WinSample>,
)
    requires
        0 < w.len() <= u64::MAX,
    ensures
        ({
            let list = window_list(arith, r.value, w);
            let value = accum::window_value(arith, r, n, w);
            &&& r.op is SumOverTime ==> value == Some(
                accum::reduced(arith, VectorAggOp::Sum, list),
            )
            &&& r.op is AvgOverTime ==> value == Some(
                accum::reduced(arith, VectorAggOp::Avg, list),
            )
            &&& r.op is StdvarOverTime ==> value == Some(
                accum::reduced(arith, VectorAggOp::Stdvar, list),
            )
            &&& r.op is StddevOverTime ==> value == Some(
                accum::reduced(arith, VectorAggOp::Stddev, list),
            )
            &&& r.op is MinOverTime ==> value == Some(
                list.skip(1).fold_left(
                    list[0],
                    |x: u64, y: u64| number::calc(arith, Arith::Min, x, y),
                ),
            )
            &&& r.op is MaxOverTime ==> value == Some(
                list.skip(1).fold_left(
                    list[0],
                    |x: u64, y: u64| number::calc(arith, Arith::Max, x, y),
                ),
            )
            &&& r.op is FirstOverTime ==> value == Some(list[0])
            &&& r.op is LastOverTime ==> value == Some(list.last())
            &&& r.op is Rate && r.class is CanonicalFold ==> value == Some(
                match r.rate_window_ns {
                    Some(width) => number::calc(
                        arith,
                        Arith::PerSecond,
                        list.fold_left(
                            0u64,
                            |sum: u64, x: u64| number::calc(arith, Arith::Add, sum, x),
                        ),
                        width,
                    ),
                    None => number::calc(
                        arith,
                        Arith::PerNothing,
                        list.fold_left(
                            0u64,
                            |sum: u64, x: u64| number::calc(arith, Arith::Add, sum, x),
                        ),
                        0,
                    ),
                },
            )
            &&& r.op is QuantileOverTime ==> value == Some(
                accum::quantile(
                    arith,
                    list,
                    match r.param {
                        Some(q) => q,
                        None => NOT_A_NUMBER,
                    },
                ),
            )
            &&& r.op is RateCounter ==> value == Some(
                accum::counter_rate(
                    arith,
                    Seq::new(w.len(), |i: int| (w[i].ts, list[i])),
                    r.rate_window_ns,
                ),
            )
        }),
{
    let list = window_list(arith, r.value, w);
    lemma_moments_fold(arith, r, w);
    lemma_sum_from_zero(arith, r, w);
    law_deviation_is_the_root_of_the_variance(arith, list);
    assert(accum::window_numbers(arith, r, w) =~= list);
    assert(accum::window_points(arith, r, w) =~= Seq::new(
        w.len(),
        |i: int| (w[i].ts, list[i]),
    ));
}

// ---------------------------------------------------------------------
// Quantiles.
// ---------------------------------------------------------------------

/// The numbers a quantile interpolates between: the values in numeric order.
pub proof fn law_quantiles_stand_on_numeric_order(values: Seq<u64>)
    requires
        values.len() <= usize::MAX,
    ensures
        ({
            let sorted = order::stable_sort(values, u64::rank_le());
            &&& sorted.to_multiset() == values.to_multiset()
            &&& sorted.len() == values.len()
            &&& forall|i: int, j: int|
                0 <= i <= j < sorted.len() ==> !number::number_lt(
                    #[trigger] sorted[j],
                    #[trigger] sorted[i],
                )
        }),
{
    let le = u64::rank_le();
    u64::rank_is_preorder();
    order::lemma_stable_sort_permutes(values, le);
    order::lemma_stable_sort_ascends(values, le);
    let sorted = order::stable_sort(values, le);
    assert forall|i: int, j: int| 0 <= i <= j < sorted.len() implies !number::number_lt(
        #[trigger] sorted[j],
        #[trigger] sorted[i],
    ) by {
        assert(le(sorted[i], sorted[j]));
        law_total_order_is_numeric(sorted[j], sorted[i]);
    }
}

/// A quantile goes by the values, not by their order.
pub proof fn law_quantiles_ignore_order<A: Fn(Arith, u64, u64) -> u64>(
    arith: A,
    a: Seq<u64>,
    b: Seq<u64>,
    q: u64,
)
    requires
        a.len() <= usize::MAX,
        a.to_multiset() == b.to_multiset(),
    ensures
        accum::quantile(arith, a, q) == accum::quantile(arith, b, q),
{
    broadcast use vstd::seq_lib::group_to_multiset_ensures;

    assert(a.to_multiset().len() == a.len() && b.to_multiset().len() == b.len());
    let le = u64::rank_le();
    u64::rank_is_preorder();
    assert forall|x: u64, y: u64| #[trigger] le(x, y) && le(y, x) implies x == y by {}
    order::lemma_stable_sort_unique(a, b, le);
}

/// Where a quantile's rank lies outside the values it is infinite, and of nothing, or for
/// a parameter that is not a number, it is not a number.
pub proof fn law_quantiles_outside_the_values<A: Fn(Arith, u64, u64) -> u64>(
    arith: A,
    values: Seq<u64>,
    q: u64,
)
    ensures
        values.len() == 0 || !number::is_number(q) ==> !number::is_number(
            accum::quantile(arith, values, q),
        ),
        values.len() > 0 && number::number_lt(q, 0) ==> accum::quantile(arith, values, q)
            == 0xFFF0_0000_0000_0000u64,
        values.len() > 0 && number::number_lt(0x3FF0_0000_0000_0000u64, q) ==> accum::quantile(
            arith,
            values,
            q,
        ) == 0x7FF0_0000_0000_0000u64,
{
}

/// How many of the values are less than `x`.
pub open spec fn below(values: Seq<u64>, x: u64) -> int {
    order::sum_of(
        values,
        |v: u64|
            if number::number_lt(v, x) {
                1int
            } else {
                0
            },
    )
}

/// How many of the values are greater than `x`.
pub open spec fn above(values: Seq<u64>, x: u64) -> int {
    order::sum_of(
        values,
        |v: u64|
            if number::number_lt(x, v) {
                1int
            } else {
                0
            },
    )
}

proof fn lemma_only_before(s: Seq<u64>, f: spec_fn(u64) -> int, i: int)
    requires
        0 <= i,
        forall|v: u64| 0 <= #[trigger] f(v) <= 1,
        forall|j: int| i <= j < s.len() ==> f(#[trigger] s[j]) == 0,
    ensures
        order::sum_of(s, f) <= i,
        order::sum_of(s, f) <= s.len(),
    decreases s.len(),
{
    if s.len() > 0 {
        let front = s.drop_last();
        assert forall|j: int| i <= j < front.len() implies f(#[trigger] front[j]) == 0 by {
            assert(front[j] == s[j]);
        }
        lemma_only_before(front, f, i);
        assert(s.last() == s[s.len() - 1]);
    }
}

proof fn lemma_only_after(s: Seq<u64>, f: spec_fn(u64) -> int, i: int)
    requires
        0 <= i <= s.len(),
        forall|v: u64| 0 <= #[trigger] f(v) <= 1,
        forall|j: int| 0 <= j < i ==> f(#[trigger] s[j]) == 0,
    ensures
        order::sum_of(s, f) <= s.len() - i,
    decreases s.len(),
{
    if s.len() > i {
        let front = s.drop_last();
        assert forall|j: int| 0 <= j < i implies f(#[trigger] front[j]) == 0 by {
            assert(front[j] == s[j]);
        }
        lemma_only_after(front, f, i);
        assert(s.last() == s[s.len() - 1]);
    } else {
        lemma_none(s, f);
    }
}

proof fn lemma_none(s: Seq<u64>, f: spec_fn(u64) -> int)
    requires
        forall|j: int| 0 <= j < s.len() ==> f(#[trigger] s[j]) == 0,
    ensures
        order::sum_of(s, f) == 0,
    decreases s.len(),
{
    if s.len() > 0 {
        let front = s.drop_last();
        assert forall|j: int| 0 <= j < front.len() implies f(#[trigger] front[j]) == 0 by {
            assert(front[j] == s[j]);
        }
        lemma_none(front, f);
        assert(s.last() == s[s.len() - 1]);
    }
}

/// Whether the arithmetic is exact where a quantile's rank is the whole number `i`: no
/// part of the next value is mixed in.
pub open spec fn exact_at<A: Fn(Arith, u64, u64) -> u64>(
    arith: A,
    values: Seq<u64>,
    q: u64,
    i: int,
) -> bool {
    let last = number::calc(arith, Arith::OfInteger, (values.len() - 1) as u64, 0);
    let rank = number::calc(arith, Arith::Mul, q, last);
    &&& number::calc(arith, Arith::Floor, rank, 0) == rank
    &&& number::calc(arith, Arith::Ceil, rank, 0) == rank
    &&& number::calc(arith, Arith::ToInteger, rank, 0) == i
    &&& number::calc(arith, Arith::Sub, rank, rank) == 0
    &&& number::calc(arith, Arith::Sub, 0x3FF0_0000_0000_0000u64, 0) == 0x3FF0_0000_0000_0000u64
    &&& forall|k: int|
        0 <= k < values.len() ==> number::calc(
            arith,
            Arith::Add,
            number::calc(arith, Arith::Mul, #[trigger] values[k], 0x3FF0_0000_0000_0000u64),
            number::calc(arith, Arith::Mul, values[k], 0),
        ) == values[k]
}

/// A quantile whose rank is a whole number is the value of that rank: one of the values,
/// with at most that many below it and at most the others above it. So the quantile at
/// zero is no greater than any value, and the quantile at one no less than any.
pub proof fn law_quantile_is_the_value_of_its_rank<A: Fn(Arith, u64, u64) -> u64>(
    arith: A,
    values: Seq<u64>,
    q: u64,
    i: int,
)
    requires
        0 < values.len() <= usize::MAX,
        number::is_number(q),
        !number::number_lt(q, 0),
        !number::number_lt(0x3FF0_0000_0000_0000u64, q),
        exact_at(arith, values, q, i),
        0 <= i < values.len(),
    ensures
        ({
            let r = accum::quantile(arith, values, q);
            &&& values.contains(r)
            &&& below(values, r) <= i
            &&& above(values, r) <= values.len() - 1 - i
        }),
{
    broadcast use vstd::seq_lib::group_to_multiset_ensures;

    let sorted = order::stable_sort(values, u64::rank_le());
    law_quantiles_stand_on_numeric_order(values);
    let x = sorted[i];
    assert(sorted.to_multiset().contains(x));
    assert(values.contains(x));
    let k = choose|k: int| 0 <= k < values.len() && values[k] == x;
    assert(accum::quantile(arith, values, q) == values[k]);
    let less = |v: u64|
        if number::number_lt(v, x) {
            1int
        } else {
            0
        };
    let more = |v: u64|
        if number::number_lt(x, v) {
            1int
        } else {
            0
        };
    order::lemma_sum_permutes(sorted, values, less);
    order::lemma_sum_permutes(sorted, values, more);
    lemma_only_before(sorted, less, i);
    lemma_only_after(sorted, more, i + 1);
}

// ---------------------------------------------------------------------
// Counters.
// ---------------------------------------------------------------------

/// One more point of a counter adds nothing to its increase, unless the counter fell: the
/// value it fell from is added. The first point is held against zero.
pub proof fn law_increase_adds_what_was_lost<A: Fn(Arith, u64, u64) -> u64>(
    arith: A,
    points: Seq<(i64, u64)>,
    p: (i64, u64),
    from: u64,
)
    ensures
        accum::increase(arith, Seq::empty(), from) == from,
        ({
            let before = if points.len() == 0 {
                0u64
            } else {
                points.last().1
            };
            let so_far = accum::increase(arith, points, from);
            accum::increase(arith, points.push(p), from) == (if number::number_lt(p.1, before) {
                number::calc(arith, Arith::Add, so_far, before)
            } else {
                so_far
            })
        }),
{
    assert(points.push(p).drop_last() =~= points);
}

/// A counter that never falls grows by the plain difference of its ends.
pub proof fn law_steady_counter_has_no_resets<A: Fn(Arith, u64, u64) -> u64>(
    arith: A,
    points: Seq<(i64, u64)>,
    from: u64,
)
    requires
        points.len() > 0 ==> !number::number_lt(points[0].1, 0),
        forall|i: int|
            0 < i < points.len() ==> !number::number_lt((#[trigger] points[i]).1, points[i - 1].1),
    ensures
        accum::increase(arith, points, from) == from,
    decreases points.len(),
{
    if points.len() > 0 {
        let front = points.drop_last();
        assert forall|i: int| 0 < i < front.len() implies !number::number_lt(
            (#[trigger] front[i]).1,
            front[i - 1].1,
        ) by {
            assert(front[i] == points[i]);
        }
        law_steady_counter_has_no_resets(arith, front, from);
        assert(points.last() == points[points.len() - 1]);
    }
}

/// A counter's rate is its increase, stretched from the span of its points to the span it
/// is taken to cover, per second of the window: the points' span, before it the way to
/// the window's start or to where the counter was zero, or half a gap where that is far,
/// and after it nothing, or half a gap where the gaps have no width. With fewer than two
/// points, or no window, it is zero.
pub proof fn law_counter_rate_is_its_stretched_increase<A: Fn(Arith, u64, u64) -> u64>(
    arith: A,
    points: Seq<(i64, u64)>,
    window_ns: Option<u64>,
)
    ensures
        points.len() < 2 || window_ns is None || window_ns == Some(0u64) ==> accum::counter_rate(
            arith,
            points,
            window_ns,
        ) == 0,
        points.len() >= 2 ==> (window_ns matches Some(w) ==> w > 0 ==> {
            let difference = number::calc(arith, Arith::Sub, points.last().1, points[0].1);
            let grown = accum::increase(arith, points, difference);
            let thousand = 0x408F_4000_0000_0000u64;
            let spanned = number::calc(
                arith,
                Arith::Div,
                number::calc(
                    arith,
                    Arith::OfInteger,
                    (points.last().0 - points[0].0) as u64,
                    0,
                ),
                thousand,
            );
            let gap = number::calc(
                arith,
                Arith::Div,
                spanned,
                number::calc(arith, Arith::OfInteger, (points.len() - 1) as u64, 0),
            );
            let far = number::calc(arith, Arith::Mul, gap, 0x3FF1_9999_9999_999Au64);
            let half = number::calc(arith, Arith::Div, gap, 0x4000_0000_0000_0000u64);
            let lead = accum::lead_in(arith, spanned, grown, points[0].1, w);
            let head = if number::number_lt(lead, far) {
                lead
            } else {
                half
            };
            let tail = if number::number_lt(0, far) {
                0
            } else {
                half
            };
            let reach = number::calc(
                arith,
                Arith::Add,
                number::calc(arith, Arith::Add, spanned, head),
                tail,
            );
            accum::counter_rate(arith, points, window_ns) == number::calc(
                arith,
                Arith::Div,
                number::calc(
                    arith,
                    Arith::Mul,
                    grown,
                    number::calc(arith, Arith::Div, reach, spanned),
                ),
                number::calc(arith, Arith::Seconds, w, 0),
            )
        }),
{
}

/// What a counter is taken to have run before its first point is the window's width in
/// milliseconds, as seconds, unless the counter, growing at the pace of its points, was
/// zero nearer than that: then it is the time since.
pub proof fn law_lead_in_is_the_nearer_start<A: Fn(Arith, u64, u64) -> u64>(
    arith: A,
    spanned: u64,
    grown: u64,
    first: u64,
    window_ns: u64,
)
    ensures
        ({
            let lead = accum::lead_in(arith, spanned, grown, first, window_ns);
            let to_start = number::calc(
                arith,
                Arith::Div,
                number::calc(arith, Arith::OfInteger, (window_ns / 1_000_000) as u64, 0),
                0x408F_4000_0000_0000u64,
            );
            let to_zero = number::calc(
                arith,
                Arith::Mul,
                spanned,
                number::calc(arith, Arith::Div, first, grown),
            );
            let grows = number::number_lt(0, grown) && number::is_number(first)
                && !number::number_lt(first, 0);
            &&& lead == to_start || lead == to_zero
            &&& !grows ==> lead == to_start
            &&& grows ==> !number::number_lt(to_zero, lead) && !number::number_lt(to_start, lead)
            &&& !number::is_number(to_zero) ==> lead == to_start
        }),
{
    let lead = accum::lead_in(arith, spanned, grown, first, window_ns);
    let to_zero = number::calc(
        arith,
        Arith::Mul,
        spanned,
        number::calc(arith, Arith::Div, first, grown),
    );
    law_numbers_are_ordered(to_zero, lead, lead);
    law_numbers_are_ordered(lead, to_zero, lead);
}

// ---------------------------------------------------------------------
// Instant queries.
// ---------------------------------------------------------------------

/// Whether samples of a group and of a window are the same, one by one.
pub open spec fn same_samples(hist: Seq<Arrival>, w: Seq<WinSample>) -> bool {
    &&& hist.len() == w.len()
    &&& forall|i: int|
        0 <= i < hist.len() ==> {
            &&& (#[trigger] hist[i]).ts == w[i].ts
            &&& hist[i].stream_hash == w[i].stream_hash
            &&& hist[i].value == w[i].value
        }
}

proof fn lemma_arrivals_fold<A: Fn(Arith, u64, u64) -> u64>(
    arith: A,
    r: Reducer,
    hist: Seq<Arrival>,
    w: Seq<WinSample>,
)
    requires
        hist.len() > 0,
        same_samples(hist, w),
    ensures
        reduction::arrival_moments(arith, r, hist) == accum::window_moments(arith, r, w),
    decreases hist.len(),
{
    assert(hist.last() == hist[hist.len() - 1]);
    if hist.len() > 1 {
        let (h, v) = (hist.drop_last(), w.drop_last());
        assert forall|i: int| 0 <= i < h.len() implies {
            &&& (#[trigger] h[i]).ts == v[i].ts
            &&& h[i].stream_hash == v[i].stream_hash
            &&& h[i].value == v[i].value
        } by {
            assert(h[i] == hist[i]);
        }
        lemma_arrivals_fold(arith, r, h, v);
    }
}

/// Whether samples came in delivery order: by time, then by stream.
pub open spec fn came_in_order(hist: Seq<Arrival>) -> bool {
    forall|i: int, j: int|
        0 <= i <= j < hist.len() ==> hist[i].ts < hist[j].ts || (hist[i].ts == hist[j].ts
            && hist[i].stream_hash <= hist[j].stream_hash)
}

proof fn lemma_ends_in_order(hist: Seq<Arrival>)
    requires
        hist.len() > 0,
        came_in_order(hist),
    ensures
        instant::first_delivered(hist) == hist[0],
        instant::last_delivered(hist) == hist.last(),
    decreases hist.len(),
{
    if hist.len() > 1 {
        lemma_ends_in_order(hist.drop_last());
        assert(hist[hist.len() - 1] == hist.last());
        assert(hist[hist.len() - 2] == hist.drop_last().last());
    }
}

/// An instant query over a group's samples, come in order, answers what a range query
/// answers for a window of the same samples.
pub proof fn law_groups_and_windows_agree<A: Fn(Arith, u64, u64) -> u64>(
    arith: A,
    r: Reducer,
    hist: Seq<Arrival>,
    w: Seq<WinSample>,
)
    requires
        0 < hist.len() <= usize::MAX,
        hist.len() <= u64::MAX,
        same_samples(hist, w),
        came_in_order(hist),
        !(accum::is_integer_op(r.op) || r.op is AbsentOverTime),
        !(r.class is InvertInteger),
    ensures
        reduction::history_value(arith, r, hist) == reduction::cell_value(arith, r, w),
{
    lemma_arrivals_fold(arith, r, hist, w);
    lemma_ends_in_order(hist);
    assert(hist.last() == hist[hist.len() - 1]);
    assert(accum::numbers(arith, r.value, hist.map_values(|a: Arrival| a.value))
        =~= accum::window_numbers(arith, r, w));
    let points = accum::numbered(
        arith,
        r.value,
        hist.map_values(|a: Arrival| (a.ts, a.value)),
    );
    assert(points =~= accum::window_points(arith, r, w));
    assert forall|i: int, j: int| 0 <= i <= j < points.len() implies points[i].0
        <= points[j].0 by {
        assert(points[i].0 == hist[i].ts && points[j].0 == hist[j].ts);
    }
    accum::law_points_in_order_need_no_sorting(arith, points, r.rate_window_ns);
}

/// What an instant query counts is how many samples a group has, and its rates are the
/// sum of them per second.
pub proof fn law_group_rates_are_sums_per_second<A: Fn(Arith, u64, u64) -> u64>(
    arith: A,
    r: Reducer,
    hist: Seq<Arrival>,
)
    requires
        0 < hist.len() <= u64::MAX,
    ensures
        ({
            let of = |op: RangeAggOp|
                reduction::history_value(arith, Reducer { op, ..r }, hist);
            let sum = of(RangeAggOp::SumOverTime);
            let rate = match r.rate_window_ns {
                Some(width) => number::calc(arith, Arith::PerSecond, sum, width),
                None => number::calc(arith, Arith::PerNothing, sum, 0),
            };
            &&& of(RangeAggOp::CountOverTime) == number::calc(
                arith,
                Arith::OfInteger,
                hist.len() as u64,
                0,
            )
            &&& of(RangeAggOp::BytesOverTime) == sum
            &&& of(RangeAggOp::BytesRate) == rate
            &&& of(RangeAggOp::Rate) == rate
        }),
{
    let a = Reducer { op: RangeAggOp::SumOverTime, ..r };
    let b = Reducer { op: RangeAggOp::BytesRate, ..r };
    let c = Reducer { op: RangeAggOp::Rate, ..r };
    let d = Reducer { op: RangeAggOp::BytesOverTime, ..r };
    lemma_moments_by_kind(arith, a, b, hist);
    lemma_moments_by_kind(arith, a, c, hist);
    lemma_moments_by_kind(arith, a, d, hist);
}

proof fn lemma_moments_by_kind<A: Fn(Arith, u64, u64) -> u64>(
    arith: A,
    a: Reducer,
    b: Reducer,
    hist: Seq<Arrival>,
)
    requires
        a.value == b.value,
    ensures
        reduction::arrival_moments(arith, a, hist) == reduction::arrival_moments(arith, b, hist),
    decreases hist.len(),
{
    if hist.len() > 1 {
        lemma_moments_by_kind(arith, a, b, hist.drop_last());
    }
}

/// A quantile lies between the two values about its rank: it weighs the value of the rank
/// rounded down by what is left of one, and that of the rank rounded up by how far the rank
/// is past it.
pub proof fn law_quantiles_lie_between_two_ranks<A: Fn(Arith, u64, u64) -> u64>(
    arith: A,
    values: Seq<u64>,
    q: u64,
    i: int,
    j: int,
)
    requires
        0 < values.len() <= usize::MAX,
        number::is_number(q),
        !number::number_lt(q, 0),
        !number::number_lt(0x3FF0_0000_0000_0000u64, q),
        0 <= i < values.len(),
        0 <= j < values.len(),
        ({
            let last = number::calc(arith, Arith::OfInteger, (values.len() - 1) as u64, 0);
            let rank = number::calc(arith, Arith::Mul, q, last);
            &&& number::calc(
                arith,
                Arith::ToInteger,
                number::calc(arith, Arith::Floor, rank, 0),
                0,
            ) == i
            &&& number::calc(
                arith,
                Arith::ToInteger,
                number::calc(arith, Arith::Ceil, rank, 0),
                0,
            ) == j
        }),
    ensures
        ({
            let last = number::calc(arith, Arith::OfInteger, (values.len() - 1) as u64, 0);
            let rank = number::calc(arith, Arith::Mul, q, last);
            let past = number::calc(
                arith,
                Arith::Sub,
                rank,
                number::calc(arith, Arith::Floor, rank, 0),
            );
            let left = number::calc(arith, Arith::Sub, 0x3FF0_0000_0000_0000u64, past);
            exists|low: u64, high: u64|
                {
                    &&& #[trigger] at_rank(values, low, i)
                    &&& #[trigger] at_rank(values, high, j)
                    &&& accum::quantile(arith, values, q) == number::calc(
                        arith,
                        Arith::Add,
                        number::calc(arith, Arith::Mul, low, left),
                        number::calc(arith, Arith::Mul, high, past),
                    )
                }
        }),
{
    let sorted = order::stable_sort(values, u64::rank_le());
    lemma_at_rank(values, i);
    lemma_at_rank(values, j);
    assert(at_rank(values, sorted[i], i) && at_rank(values, sorted[j], j));
}

/// Whether one of the values has at most `i` of them below it and at most the others above
/// it.
pub open spec fn at_rank(values: Seq<u64>, x: u64, i: int) -> bool {
    &&& values.contains(x)
    &&& below(values, x) <= i
    &&& above(values, x) <= values.len() - 1 - i
}

proof fn lemma_at_rank(values: Seq<u64>, i: int)
    requires
        values.len() <= usize::MAX,
        0 <= i < values.len(),
    ensures
        at_rank(values, order::stable_sort(values, u64::rank_le())[i], i),
{
    broadcast use vstd::seq_lib::group_to_multiset_ensures;

    let sorted = order::stable_sort(values, u64::rank_le());
    law_quantiles_stand_on_numeric_order(values);
    let x = sorted[i];
    assert(sorted.to_multiset().contains(x));
    let less = |v: u64|
        if number::number_lt(v, x) {
            1int
        } else {
            0
        };
    let more = |v: u64|
        if number::number_lt(x, v) {
            1int
        } else {
            0
        };
    order::lemma_sum_permutes(sorted, values, less);
    order::lemma_sum_permutes(sorted, values, more);
    lemma_only_before(sorted, less, i);
    lemma_only_after(sorted, more, i + 1);
}

/// An instant counter goes by its points in time order, whatever order they came in.
pub proof fn law_instant_counters_go_by_time<A: Fn(Arith, u64, u64) -> u64>(
    arith: A,
    r: Reducer,
    hist: Seq<Arrival>,
    points: Seq<(i64, u64)>,
)
    requires
        hist.len() <= usize::MAX,
        r.op is RateCounter,
        points.to_multiset() == hist.map_values(
            |a: Arrival|
                (
                    a.ts,
                    if r.value is Unwrap {
                        a.value
                    } else {
                        number::calc(arith, Arith::OfInteger, a.value, 0)
                    },
                ),
        ).to_multiset(),
        forall|i: int, j: int|
            0 <= i < j < points.len() ==> (#[trigger] points[i]).0 < (#[trigger] points[j]).0,
    ensures
        reduction::history_value(arith, r, hist) == accum::counter_rate(
            arith,
            points,
            r.rate_window_ns,
        ),
{
    broadcast use vstd::seq_lib::group_to_multiset_ensures;

    let all = accum::numbered(arith, r.value, hist.map_values(|a: Arrival| (a.ts, a.value)));
    let came = hist.map_values(
        |a: Arrival|
            (
                a.ts,
                if r.value is Unwrap {
                    a.value
                } else {
                    number::calc(arith, Arith::OfInteger, a.value, 0)
                },
            ),
    );
    assert(all =~= came);
    assert(all.to_multiset().len() == all.len() && points.to_multiset().len() == points.len());
    let le = <(i64, u64) as Ranked>::rank_le();
    <(i64, u64) as Ranked>::rank_is_preorder();
    assert forall|x: (i64, u64), y: (i64, u64)|
        points.contains(x) && points.contains(y) && #[trigger] le(x, y) && le(y, x) implies x
        == y by {
        let i = choose|i: int| 0 <= i < points.len() && points[i] == x;
        let j = choose|j: int| 0 <= j < points.len() && points[j] == y;
        if i < j {
            assert(points[i].0 < points[j].0);
        } else if j < i {
            assert(points[j].0 < points[i].0);
        }
    }
    order::lemma_stable_sort_unique_among(points, all, le);
    assert forall|i: int, j: int| 0 <= i <= j < points.len() implies le(
        #[trigger] points[i],
        #[trigger] points[j],
    ) by {
        if i < j {
            assert(points[i].0 < points[j].0);
        }
    }
    order::lemma_stable_sort_of_sorted(points, le);
}

/// No members have no value: what an aggregation makes of none is not a number.
pub proof fn law_nothing_has_no_value<A: Fn(Arith, u64, u64) -> u64>(arith: A, op: VectorAggOp)
    ensures
        !number::is_number(accum::reduced(arith, op, Seq::empty())),
{
}

/// The value of a window of a grid is that of its samples, for every reducer that does not
/// go by a running integer.
pub proof fn law_cells_are_their_windows<A: Fn(Arith, u64, u64) -> u64>(
    arith: A,
    r: Reducer,
    w: Seq<WinSample>,
    n: u64,
)
    requires
        !(r.class is InvertInteger),
        !accum::is_integer_op(r.op) || r.op is Rate,
        w.len() > 0,
    ensures
        accum::window_value(arith, r, n, w) == Some(reduction::cell_value(arith, r, w)),
{
}

} // verus!
