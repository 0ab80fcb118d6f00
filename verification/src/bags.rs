//! Reducers for which the order of samples makes no difference: what they make of a
//! history depends only on which samples it holds.
use vstd::multiset::Multiset;
use vstd::prelude::*;
use crate::accum;
use crate::cells;
use crate::model::RangeAggOp;
use crate::number::{self, Arith};
use crate::order::{self, Ranked};
use crate::range_model;
use crate::reduction;
use crate::slide::{self, Reducer, WinSample};
use crate::window::Grid;

verus! {

/// A sample without its rank.
pub type Unranked = (i64, u64, u64);

/// A sample without its rank.
pub open spec fn unranked(s: WinSample) -> Unranked {
    (s.ts, s.stream_hash, s.value)
}

/// Samples without their ranks, in order.
pub open spec fn unranked_all(hist: Seq<WinSample>) -> Seq<Unranked> {
    hist.map_values(|s: WinSample| unranked(s))
}

/// Which samples a history holds.
pub open spec fn bag(hist: Seq<WinSample>) -> Multiset<Unranked> {
    unranked_all(hist).to_multiset()
}

pub proof fn lemma_bag_push(hist: Seq<WinSample>, s: WinSample)
    ensures
        bag(hist.push(s)) == bag(hist).insert(unranked(s)),
{
    broadcast use vstd::seq_lib::group_to_multiset_ensures;

    assert(unranked_all(hist.push(s)) =~= unranked_all(hist).push(unranked(s)));
}

pub proof fn lemma_bag_join(a: Seq<WinSample>, b: Seq<WinSample>)
    ensures
        bag(a + b) == bag(a).add(bag(b)),
{
    vstd::seq_lib::lemma_multiset_commutative(unranked_all(a), unranked_all(b));
    assert(unranked_all(a + b) =~= unranked_all(a) + unranked_all(b));
}

pub proof fn lemma_bag_len(hist: Seq<WinSample>)
    ensures
        bag(hist).len() == hist.len(),
{
    broadcast use vstd::seq_lib::group_to_multiset_ensures;

    assert(unranked_all(hist).len() == hist.len());
}

/// Which samples a window holds.
proof fn lemma_window_count(hist: Seq<WinSample>, t: int, range: int, x: Unranked)
    ensures
        bag(slide::window_of(hist, t, range)).count(x) == (if t - range < x.0 <= t {
            bag(hist).count(x)
        } else {
            0
        }),
    decreases hist.len(),
{
    broadcast use vstd::multiset::group_multiset_axioms;

    reveal(Seq::filter);
    let w = slide::window_of(hist, t, range);
    if hist.len() == 0 {
        assert(unranked_all(hist) =~= Seq::empty());
        assert(unranked_all(w) =~= Seq::empty());
        vstd::seq_lib::to_multiset_len(unranked_all(hist));
    } else {
        let (rest, s) = (hist.drop_last(), hist.last());
        lemma_window_count(rest, t, range, x);
        assert(hist =~= rest.push(s));
        lemma_bag_push(rest, s);
        if t - range < s.ts <= t {
            lemma_bag_push(slide::window_of(rest, t, range), s);
            assert(w =~= slide::window_of(rest, t, range).push(s));
        } else {
            assert(w =~= slide::window_of(rest, t, range));
        }
    }
}

/// Histories of the same samples have windows of the same samples.
pub proof fn lemma_window_bags(a: Seq<WinSample>, b: Seq<WinSample>, t: int, range: int)
    requires
        bag(a) == bag(b),
    ensures
        bag(slide::window_of(a, t, range)) == bag(slide::window_of(b, t, range)),
        slide::window_of(a, t, range).len() == slide::window_of(b, t, range).len(),
{
    let (x, y) = (slide::window_of(a, t, range), slide::window_of(b, t, range));
    assert forall|u: Unranked| bag(x).count(u) == bag(y).count(u) by {
        lemma_window_count(a, t, range, u);
        lemma_window_count(b, t, range, u);
    }
    assert(bag(x) =~= bag(y));
    lemma_bag_len(x);
    lemma_bag_len(y);
}

/// Histories of the same samples have points at the same places.
pub proof fn lemma_points_by_bag(grid: Grid, a: Seq<WinSample>, b: Seq<WinSample>, k: int)
    requires
        bag(a) == bag(b),
    ensures
        range_model::has_points(grid, a, k) == range_model::has_points(grid, b, k),
    decreases k,
{
    if k > 0 {
        lemma_points_by_bag(grid, a, b, k - 1);
        lemma_window_bags(a, b, grid.at(k - 1), grid.range as int);
    }
}

/// The order in which a group's samples are reduced keeps the samples.
pub proof fn lemma_canonical_bag(class: slide::ReducerClass, hist: Seq<WinSample>)
    requires
        hist.len() <= usize::MAX,
    ensures
        bag(cells::canonical(class, hist)) == bag(hist),
{
    if !(class is InvertInteger) {
        WinSample::rank_is_preorder();
        order::lemma_stable_sort_permutes(hist, cells::win_le());
        order::lemma_mapped_permutes(
            order::stable_sort(hist, cells::win_le()),
            hist,
            |s: WinSample| unranked(s),
        );
    }
}

proof fn lemma_weight_sum(w: Seq<WinSample>)
    ensures
        slide::weight_sum(w) == order::sum_of(unranked_all(w), |u: Unranked| u.2 as int),
    decreases w.len(),
{
    if w.len() > 0 {
        lemma_weight_sum(w.drop_last());
        assert(unranked_all(w).drop_last() =~= unranked_all(w.drop_last()));
    }
}

// ---------------------------------------------------------------------
// The lesser and the greater.
// ---------------------------------------------------------------------

/// Whether an operation gives the same for two numbers either way.
pub open spec fn commutes<A: Fn(Arith, u64, u64) -> u64>(
    arith: A,
    op: Arith,
    a: u64,
    b: u64,
) -> bool {
    number::calc(arith, op, a, b) == number::calc(arith, op, b, a)
}

/// Whether an operation may take the last two of three numbers either way.
pub open spec fn swaps<A: Fn(Arith, u64, u64) -> u64>(
    arith: A,
    op: Arith,
    a: u64,
    b: u64,
    c: u64,
) -> bool {
    number::calc(arith, op, number::calc(arith, op, a, b), c) == number::calc(
        arith,
        op,
        number::calc(arith, op, a, c),
        b,
    )
}

/// Whether an operation on two numbers, done on some of these however often, gives one
/// of them and does not depend on their order.
pub open spec fn order_free<A: Fn(Arith, u64, u64) -> u64>(
    arith: A,
    op: Arith,
    numbers: Set<u64>,
) -> bool {
    &&& forall|a: u64, b: u64|
        numbers.contains(a) && numbers.contains(b) ==> #[trigger] commutes(arith, op, a, b)
            && numbers.contains(number::calc(arith, op, a, b))
    &&& forall|a: u64, b: u64, c: u64|
        numbers.contains(a) && numbers.contains(b) && numbers.contains(c) ==> #[trigger] swaps(
            arith,
            op,
            a,
            b,
            c,
        )
}

/// Whether the numbers of samples are among these.
pub open spec fn among<A: Fn(Arith, u64, u64) -> u64>(
    arith: A,
    r: Reducer,
    w: Seq<WinSample>,
    numbers: Set<u64>,
) -> bool {
    forall|i: int|
        0 <= i < w.len() ==> numbers.contains(
            accum::number_of(arith, r.value, (#[trigger] w[i]).value),
        )
}

/// An operation done on numbers one after the other.
spec fn done_on<A: Fn(Arith, u64, u64) -> u64>(arith: A, op: Arith, values: Seq<u64>) -> u64
    decreases values.len(),
{
    if values.len() <= 1 {
        values.last()
    } else {
        number::calc(arith, op, done_on(arith, op, values.drop_last()), values.last())
    }
}

/// It gives one of the numbers.
proof fn lemma_done_on_stays<A: Fn(Arith, u64, u64) -> u64>(
    arith: A,
    op: Arith,
    numbers: Set<u64>,
    values: Seq<u64>,
)
    requires
        order_free(arith, op, numbers),
        forall|i: int| 0 <= i < values.len() ==> numbers.contains(#[trigger] values[i]),
        values.len() > 0,
    ensures
        numbers.contains(done_on(arith, op, values)),
    decreases values.len(),
{
    let last = values[values.len() - 1];
    if values.len() > 1 {
        let rest = values.drop_last();
        assert forall|i: int| 0 <= i < rest.len() implies numbers.contains(#[trigger] rest[i]) by {
            assert(rest[i] == values[i]);
        }
        lemma_done_on_stays(arith, op, numbers, rest);
        assert(commutes(arith, op, done_on(arith, op, rest), last));
    }
}

proof fn lemma_done_on_removed<A: Fn(Arith, u64, u64) -> u64>(
    arith: A,
    op: Arith,
    numbers: Set<u64>,
    values: Seq<u64>,
    j: int,
)
    requires
        order_free(arith, op, numbers),
        forall|i: int| 0 <= i < values.len() ==> numbers.contains(#[trigger] values[i]),
        values.len() > 1,
        0 <= j < values.len(),
    ensures
        done_on(arith, op, values) == number::calc(
            arith,
            op,
            done_on(arith, op, values.remove(j)),
            values[j],
        ),
    decreases values.len(),
{
    let rest = values.drop_last();
    let last = values.last();
    if j == values.len() - 1 {
        assert(values.remove(j) =~= rest);
    } else {
        let fewer = values.remove(j);
        assert(fewer.last() == last);
        assert(fewer.drop_last() =~= rest.remove(j));
        if values.len() == 2 {
            assert(fewer.len() == 1 && rest.len() == 1);
            assert(done_on(arith, op, fewer) == last);
            assert(done_on(arith, op, rest) == values[j]);
            assert(commutes(arith, op, values[j], last));
        } else {
            assert forall|i: int| 0 <= i < rest.len() implies numbers.contains(
                #[trigger] rest[i],
            ) by {
                assert(rest[i] == values[i]);
            }
            lemma_done_on_removed(arith, op, numbers, rest, j);
            let few = done_on(arith, op, rest.remove(j));
            assert forall|i: int| 0 <= i < rest.remove(j).len() implies numbers.contains(
                #[trigger] rest.remove(j)[i],
            ) by {
                assert(rest.remove(j)[i] == rest[if i < j {
                    i
                } else {
                    i + 1
                }]);
            }
            lemma_done_on_stays(arith, op, numbers, rest.remove(j));
            assert(swaps(arith, op, few, values[j], last));
        }
    }
}

proof fn lemma_done_on_permutes<A: Fn(Arith, u64, u64) -> u64>(
    arith: A,
    op: Arith,
    numbers: Set<u64>,
    s: Seq<u64>,
    t: Seq<u64>,
)
    requires
        order_free(arith, op, numbers),
        forall|i: int| 0 <= i < s.len() ==> numbers.contains(#[trigger] s[i]),
        s.len() > 0,
        s.to_multiset() == t.to_multiset(),
    ensures
        done_on(arith, op, s) == done_on(arith, op, t),
    decreases s.len(),
{
    broadcast use vstd::seq_lib::group_to_multiset_ensures;
    broadcast use vstd::multiset::group_multiset_axioms;

    let x = s.last();
    assert(s.to_multiset().len() == s.len() && t.to_multiset().len() == t.len());
    assert(s.to_multiset().contains(x));
    assert(t.contains(x));
    let j = choose|j: int| 0 <= j < t.len() && t[j] == x;
    if s.len() > 1 {
        let (s1, t1) = (s.drop_last(), t.remove(j));
        assert(s =~= s1.push(x));
        assert(s1.to_multiset() =~= s.to_multiset().remove(x));
        assert(t1.to_multiset() =~= t.to_multiset().remove(x));
        assert forall|i: int| 0 <= i < s1.len() implies numbers.contains(#[trigger] s1[i]) by {
            assert(s1[i] == s[i]);
        }
        assert forall|i: int| 0 <= i < t.len() implies numbers.contains(#[trigger] t[i]) by {
            assert(s.to_multiset().contains(t[i]));
            assert(s.contains(t[i]));
        }
        lemma_done_on_permutes(arith, op, numbers, s1, t1);
        lemma_done_on_removed(arith, op, numbers, t, j);
    } else {
        assert(t.last() == x);
    }
}

proof fn lemma_extremes<A: Fn(Arith, u64, u64) -> u64>(arith: A, r: Reducer, w: Seq<WinSample>)
    requires
        w.len() > 0,
    ensures
        accum::window_moments(arith, r, w).min == done_on(
            arith,
            Arith::Min,
            accum::window_numbers(arith, r, w),
        ),
        accum::window_moments(arith, r, w).max == done_on(
            arith,
            Arith::Max,
            accum::window_numbers(arith, r, w),
        ),
    decreases w.len(),
{
    let numbers = accum::window_numbers(arith, r, w);
    assert(numbers.last() == accum::number_of(arith, r.value, w.last().value));
    if w.len() > 1 {
        lemma_extremes(arith, r, w.drop_last());
        assert(numbers.drop_last() =~= accum::window_numbers(arith, r, w.drop_last()));
    }
}

/// The numbers of windows of the same samples are the same numbers.
proof fn lemma_numbers_by_bag<A: Fn(Arith, u64, u64) -> u64>(
    arith: A,
    r: Reducer,
    a: Seq<WinSample>,
    b: Seq<WinSample>,
)
    requires
        bag(a) == bag(b),
    ensures
        accum::window_numbers(arith, r, a).to_multiset() == accum::window_numbers(
            arith,
            r,
            b,
        ).to_multiset(),
{
    let f = |u: Unranked| accum::number_of(arith, r.value, u.2);
    order::lemma_mapped_permutes(unranked_all(a), unranked_all(b), f);
    assert(unranked_all(a).map_values(f) =~= accum::window_numbers(arith, r, a));
    assert(unranked_all(b).map_values(f) =~= accum::window_numbers(arith, r, b));
}

// ---------------------------------------------------------------------
// Values.
// ---------------------------------------------------------------------

/// Samples in another order have numbers among the same.
pub proof fn lemma_among_by_bag<A: Fn(Arith, u64, u64) -> u64>(
    arith: A,
    r: Reducer,
    a: Seq<WinSample>,
    b: Seq<WinSample>,
    numbers: Set<u64>,
)
    requires
        bag(a) == bag(b),
        among(arith, r, a, numbers),
    ensures
        among(arith, r, b, numbers),
{
    broadcast use vstd::seq_lib::group_to_multiset_ensures;

    let (x, y) = (accum::window_numbers(arith, r, a), accum::window_numbers(arith, r, b));
    lemma_numbers_by_bag(arith, r, a, b);
    assert forall|i: int| 0 <= i < b.len() implies numbers.contains(
        accum::number_of(arith, r.value, (#[trigger] b[i]).value),
    ) by {
        assert(y[i] == accum::number_of(arith, r.value, b[i].value));
        assert(y.to_multiset().contains(y[i]));
        assert(x.contains(y[i]));
        let j = choose|j: int| 0 <= j < x.len() && x[j] == y[i];
        assert(x[j] == accum::number_of(arith, r.value, a[j].value));
    }
}

/// Whether what a reducer makes of samples with such numbers does not depend on their
/// order.
pub open spec fn ignores_order<A: Fn(Arith, u64, u64) -> u64>(
    arith: A,
    r: Reducer,
    numbers: Set<u64>,
) -> bool {
    ||| r.class is InvertInteger
    ||| r.op is QuantileOverTime
    ||| r.op is MinOverTime && order_free(arith, Arith::Min, numbers)
    ||| r.op is MaxOverTime && order_free(arith, Arith::Max, numbers)
}

/// Windows of the same samples come to the same value.
proof fn lemma_cell_by_bag<A: Fn(Arith, u64, u64) -> u64>(
    arith: A,
    r: Reducer,
    a: Seq<WinSample>,
    b: Seq<WinSample>,
    numbers: Set<u64>,
)
    requires
        ignores_order(arith, r, numbers),
        among(arith, r, a, numbers),
        bag(a) == bag(b),
        0 < a.len() <= usize::MAX,
    ensures
        reduction::cell_value(arith, r, a) == reduction::cell_value(arith, r, b),
{
    broadcast use vstd::seq_lib::group_to_multiset_ensures;

    lemma_bag_len(a);
    lemma_bag_len(b);
    if r.class is InvertInteger {
        lemma_weight_sum(a);
        lemma_weight_sum(b);
        order::lemma_sum_permutes(unranked_all(a), unranked_all(b), |u: Unranked| u.2 as int);
    } else {
        let (x, y) = (accum::window_numbers(arith, r, a), accum::window_numbers(arith, r, b));
        lemma_numbers_by_bag(arith, r, a, b);
        assert forall|i: int| 0 <= i < x.len() implies numbers.contains(#[trigger] x[i]) by {
            assert(x[i] == accum::number_of(arith, r.value, a[i].value));
        }
        lemma_extremes(arith, r, a);
        lemma_extremes(arith, r, b);
        if r.op is QuantileOverTime {
            let le = u64::rank_le();
            u64::rank_is_preorder();
            assert forall|p: u64, q: u64| #[trigger] le(p, q) && le(q, p) implies p == q by {}
            order::lemma_stable_sort_unique(x, y, le);
        } else if r.op is MinOverTime {
            lemma_done_on_permutes(arith, Arith::Min, numbers, x, y);
        } else {
            lemma_done_on_permutes(arith, Arith::Max, numbers, x, y);
        }
    }
}

/// Histories of the same samples come to the same points.
pub proof fn lemma_values_by_bag<A: Fn(Arith, u64, u64) -> u64>(
    arith: A,
    r: Reducer,
    grid: Grid,
    a: Seq<WinSample>,
    b: Seq<WinSample>,
    k: int,
    numbers: Set<u64>,
)
    requires
        ignores_order(arith, r, numbers),
        among(arith, r, a, numbers),
        bag(a) == bag(b),
        a.len() <= usize::MAX,
    ensures
        reduction::grid_values(arith, r, grid, a, k) == reduction::grid_values(
            arith,
            r,
            grid,
            b,
            k,
        ),
    decreases k,
{
    if k > 0 {
        lemma_values_by_bag(arith, r, grid, a, b, k - 1, numbers);
        let (x, y) = (
            slide::window_of(a, grid.at(k - 1), grid.range as int),
            slide::window_of(b, grid.at(k - 1), grid.range as int),
        );
        lemma_window_bags(a, b, grid.at(k - 1), grid.range as int);
        let (at, range) = (grid.at(k - 1), grid.range as int);
        a.lemma_filter_len(|s: WinSample| at - range < s.ts <= at);
        if x.len() > 0 {
            let inside = |s: WinSample| at - range < s.ts <= at;
            assert forall|i: int| 0 <= i < x.len() implies numbers.contains(
                accum::number_of(arith, r.value, (#[trigger] x[i]).value),
            ) by {
                a.lemma_filter_contains_rev(inside, x[i]);
                let j = choose|j: int| 0 <= j < a.len() && a[j] == x[i];
                assert(numbers.contains(accum::number_of(arith, r.value, a[j].value)));
            }
            lemma_cell_by_bag(arith, r, x, y, numbers);
        }
    }
}

} // verus!
