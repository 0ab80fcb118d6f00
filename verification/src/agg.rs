//! Vector aggregations: which ones reduce, and the order their members are
//! reduced in.
//!
//! A floating-point reduction depends on the order of its operands, so members
//! are put in one order before they are reduced: by labels, and members of equal
//! labels by their values.
use vstd::prelude::*;
use crate::model::{MatrixSeries, VectorAggOp, VectorSample};
use crate::order::{self, stable_sorted, Ranked};
use crate::text::{self, label_set_le, PairView};

verus! {

/// The rank of a number, given by its bit pattern, in the total order of
/// floating-point numbers: the negative ones by falling magnitude, then the
/// positive ones by rising magnitude.
pub open spec fn total_key(bits: u64) -> int {
    if bits < 0x8000_0000_0000_0000 {
        bits as int
    } else {
        -(bits - 0x8000_0000_0000_0000) - 1
    }
}

/// Whether `a` is no later than `b` in the total order.
pub fn total_le(a: u64, b: u64) -> (r: bool)
    ensures
        r == (total_key(a) <= total_key(b)),
{
    let half: u64 = 0x8000_0000_0000_0000;
    if a < half {
        b < half && a <= b
    } else {
        b < half || b <= a
    }
}

/// The order of points: by time, then by value.
pub open spec fn point_le() -> spec_fn((i64, u64), (i64, u64)) -> bool {
    |a: (i64, u64), b: (i64, u64)| a.0 < b.0 || (a.0 == b.0 && total_key(a.1) <= total_key(b.1))
}

/// The order of point lists.
pub open spec fn points_le(a: Seq<(i64, u64)>, b: Seq<(i64, u64)>) -> bool {
    text::lex_le(a, b, point_le())
}

/// Whether point list `a` may stand before `b`.
pub fn range_payload_le(a: &Vec<(i64, u64)>, b: &Vec<(i64, u64)>) -> (r: bool)
    ensures
        r == points_le(a@, b@),
{
    let mut i: usize = 0;
    proof {
        assert(a@.skip(0) =~= a@);
        assert(b@.skip(0) =~= b@);
    }
    while i < a.len() && i < b.len()
        invariant
            i <= a@.len(),
            i <= b@.len(),
            points_le(a@, b@) == text::lex_le(a@.skip(i as int), b@.skip(i as int), point_le()),
        decreases a@.len() - i,
    {
        proof {
            assert(a@.skip(i as int).drop_first() =~= a@.skip(i + 1));
            assert(b@.skip(i as int).drop_first() =~= b@.skip(i + 1));
        }
        let (at, av) = a[i];
        let (bt, bv) = b[i];
        if at != bt {
            return at < bt;
        }
        let before: bool = total_le(av, bv);
        let after: bool = total_le(bv, av);
        if !before || !after {
            return before;
        }
        i = i + 1;
    }
    i >= a.len()
}

/// What an order by labels, then by payload, comes to.
pub open spec fn member_le(
    labels_a: Seq<PairView>,
    labels_b: Seq<PairView>,
    payload: bool,
) -> bool {
    text::labels_le(labels_a, labels_b) && (text::labels_le(labels_b, labels_a) ==> payload)
}

proof fn lemma_labels_le(a: Seq<PairView>, b: Seq<PairView>, c: Seq<PairView>)
    ensures
        text::labels_le(a, b) || text::labels_le(b, a),
        text::labels_le(a, b) && text::labels_le(b, c) ==> text::labels_le(a, c),
{
    text::lemma_pair_le_preorder();
    text::lemma_lex_total(a, b, text::pair_le());
    if text::labels_le(a, b) && text::labels_le(b, c) {
        text::lemma_lex_chains(a, b, c, text::pair_le());
    }
}

proof fn lemma_points_le(a: Seq<(i64, u64)>, b: Seq<(i64, u64)>, c: Seq<(i64, u64)>)
    ensures
        points_le(a, b) || points_le(b, a),
        points_le(a, b) && points_le(b, c) ==> points_le(a, c),
{
    assert(order::total_preorder(point_le()));
    text::lemma_lex_total(a, b, point_le());
    if points_le(a, b) && points_le(b, c) {
        text::lemma_lex_chains(a, b, c, point_le());
    }
}

impl Ranked for MatrixSeries {
    open spec fn rank_le() -> spec_fn(Self, Self) -> bool {
        |a: MatrixSeries, b: MatrixSeries|
            member_le(
                text::labels_view(a.labels@),
                text::labels_view(b.labels@),
                points_le(a.points@, b.points@),
            )
    }

    proof fn rank_is_preorder() {
        let le = Self::rank_le();
        assert forall|a: Self, b: Self| #[trigger] le(a, b) || le(b, a) by {
            let (x, y) = (text::labels_view(a.labels@), text::labels_view(b.labels@));
            lemma_labels_le(x, y, x);
            lemma_points_le(a.points@, b.points@, a.points@);
        }
        assert forall|a: Self, b: Self, c: Self| #[trigger] le(a, b) && #[trigger] le(
            b,
            c,
        ) implies le(a, c) by {
            let (x, y, z) = (
                text::labels_view(a.labels@),
                text::labels_view(b.labels@),
                text::labels_view(c.labels@),
            );
            lemma_labels_le(x, y, z);
            lemma_labels_le(z, x, y);
            lemma_labels_le(y, z, x);
            lemma_points_le(a.points@, b.points@, c.points@);
        }
    }

    fn ranks_le(&self, other: &Self) -> (r: bool) {
        let before: bool = label_set_le(&self.labels, &other.labels);
        if !before {
            return false;
        }
        let after: bool = label_set_le(&other.labels, &self.labels);
        if !after {
            return true;
        }
        range_payload_le(&self.points, &other.points)
    }
}

impl Ranked for VectorSample {
    open spec fn rank_le() -> spec_fn(Self, Self) -> bool {
        |a: VectorSample, b: VectorSample|
            member_le(
                text::labels_view(a.labels@),
                text::labels_view(b.labels@),
                total_key(a.value) <= total_key(b.value),
            )
    }

    proof fn rank_is_preorder() {
        let le = Self::rank_le();
        assert forall|a: Self, b: Self| #[trigger] le(a, b) || le(b, a) by {
            let (x, y) = (text::labels_view(a.labels@), text::labels_view(b.labels@));
            lemma_labels_le(x, y, x);
        }
        assert forall|a: Self, b: Self, c: Self| #[trigger] le(a, b) && #[trigger] le(
            b,
            c,
        ) implies le(a, c) by {
            let (x, y, z) = (
                text::labels_view(a.labels@),
                text::labels_view(b.labels@),
                text::labels_view(c.labels@),
            );
            lemma_labels_le(x, y, z);
            lemma_labels_le(z, x, y);
            lemma_labels_le(y, z, x);
        }
    }

    fn ranks_le(&self, other: &Self) -> (r: bool) {
        let before: bool = label_set_le(&self.labels, &other.labels);
        if !before {
            return false;
        }
        let after: bool = label_set_le(&other.labels, &self.labels);
        if !after {
            return true;
        }
        total_le(self.value, other.value)
    }
}

/// Puts the members of a reduction in the one order they are reduced in.
pub fn pin_reduction_order<T: Ranked>(series: Vec<T>) -> (out: Vec<T>)
    ensures
        out@ == order::stable_sort(series@, T::rank_le()),
{
    stable_sorted(series)
}

/// An instant member, as values.
pub type SampleView = (Seq<PairView>, u64);

/// A member over time, as values.
pub type SeriesPointsView = (Seq<PairView>, Seq<(i64, u64)>);

/// Instant members as values.
pub open spec fn samples_view(s: Seq<VectorSample>) -> Seq<SampleView> {
    s.map_values(|x: VectorSample| (text::labels_view(x.labels@), x.value))
}

/// Members over time as values.
pub open spec fn series_view(s: Seq<MatrixSeries>) -> Seq<SeriesPointsView> {
    s.map_values(|x: MatrixSeries| (text::labels_view(x.labels@), x.points@))
}

/// The order instant members are reduced in does not depend on the order they came
/// in.
pub proof fn law_pinned_samples_ignore_arrival(a: Seq<VectorSample>, b: Seq<VectorSample>)
    requires
        a.len() <= usize::MAX,
        samples_view(a).to_multiset() == samples_view(b).to_multiset(),
    ensures
        samples_view(order::stable_sort(a, VectorSample::rank_le())) == samples_view(
            order::stable_sort(b, VectorSample::rank_le()),
        ),
{
    broadcast use vstd::seq_lib::group_to_multiset_ensures;

    let f = |x: VectorSample| (text::labels_view(x.labels@), x.value);
    let le = |x: SampleView, y: SampleView|
        member_le(x.0, y.0, total_key(x.1) <= total_key(y.1));
    assert forall|x: SampleView, y: SampleView| #[trigger] le(x, y) || le(y, x) by {
        lemma_labels_le(x.0, y.0, x.0);
    }
    assert forall|x: SampleView, y: SampleView, z: SampleView| #[trigger] le(x, y) && #[trigger] le(
        y,
        z,
    ) implies le(x, z) by {
        lemma_labels_le(x.0, y.0, z.0);
        lemma_labels_le(z.0, x.0, y.0);
        lemma_labels_le(y.0, z.0, x.0);
    }
    assert forall|x: SampleView, y: SampleView| #[trigger] le(x, y) && le(y, x) implies x
        == y by {
        text::lemma_labels_le_antisymmetric(x.0, y.0);
        assert(total_key(x.1) == total_key(y.1));
    }
    assert(samples_view(a).to_multiset().len() == a.len());
    assert(samples_view(b).to_multiset().len() == b.len());
    VectorSample::rank_is_preorder();
    order::lemma_stable_sort_mapped(a, f, VectorSample::rank_le(), le);
    order::lemma_stable_sort_mapped(b, f, VectorSample::rank_le(), le);
    order::lemma_stable_sort_unique(samples_view(a), samples_view(b), le);
}

/// The order members over time are reduced in, by what they show.
pub open spec fn series_le() -> spec_fn(SeriesPointsView, SeriesPointsView) -> bool {
    |x: SeriesPointsView, y: SeriesPointsView| member_le(x.0, y.0, points_le(x.1, y.1))
}

/// Members over time are ordered by what they show.
pub proof fn lemma_pinned_by_what_they_show(a: Seq<MatrixSeries>)
    requires
        a.len() <= usize::MAX,
    ensures
        order::total_preorder(series_le()),
        series_view(order::stable_sort(a, MatrixSeries::rank_le())) == order::stable_sort(
            series_view(a),
            series_le(),
        ),
{
    let f = |x: MatrixSeries| (text::labels_view(x.labels@), x.points@);
    let le = series_le();
    assert forall|x: SeriesPointsView, y: SeriesPointsView| #[trigger] le(x, y) || le(y, x) by {
        lemma_labels_le(x.0, y.0, x.0);
        lemma_points_le(x.1, y.1, x.1);
    }
    assert forall|x: SeriesPointsView, y: SeriesPointsView, z: SeriesPointsView| #[trigger]
        le(x, y) && #[trigger] le(y, z) implies le(x, z) by {
        lemma_labels_le(x.0, y.0, z.0);
        lemma_labels_le(z.0, x.0, y.0);
        lemma_labels_le(y.0, z.0, x.0);
        lemma_points_le(x.1, y.1, z.1);
    }
    MatrixSeries::rank_is_preorder();
    order::lemma_stable_sort_mapped(a, f, MatrixSeries::rank_le(), le);
}

/// The order members over time are reduced in does not depend on the order they
/// came in.
pub proof fn law_pinned_series_ignore_arrival(a: Seq<MatrixSeries>, b: Seq<MatrixSeries>)
    requires
        a.len() <= usize::MAX,
        series_view(a).to_multiset() == series_view(b).to_multiset(),
    ensures
        series_view(order::stable_sort(a, MatrixSeries::rank_le())) == series_view(
            order::stable_sort(b, MatrixSeries::rank_le()),
        ),
{
    broadcast use vstd::seq_lib::group_to_multiset_ensures;

    let le = series_le();
    assert forall|x: SeriesPointsView, y: SeriesPointsView| #[trigger] le(x, y) && le(
        y,
        x,
    ) implies x == y by {
        text::lemma_labels_le_antisymmetric(x.0, y.0);
        text::lemma_lex_antisymmetric(x.1, y.1, point_le());
    }
    assert(series_view(a).to_multiset().len() == a.len());
    assert(series_view(b).to_multiset().len() == b.len());
    lemma_pinned_by_what_they_show(a);
    lemma_pinned_by_what_they_show(b);
    order::lemma_stable_sort_unique(series_view(a), series_view(b), le);
}

/// Whether an aggregation reduces its members to one value.
pub open spec fn reduces(op: VectorAggOp) -> bool {
    op is Sum || op is Avg || op is Min || op is Max || op is Count || op is Stddev || op is Stdvar
}

/// Whether an aggregation reduces its members to one value.
pub fn is_reduction(op: VectorAggOp) -> (r: bool)
    ensures
        r == reduces(op),
{
    match op {
        VectorAggOp::Sum
        | VectorAggOp::Avg
        | VectorAggOp::Min
        | VectorAggOp::Max
        | VectorAggOp::Count
        | VectorAggOp::Stddev
        | VectorAggOp::Stdvar => true,
        VectorAggOp::Topk
        | VectorAggOp::Bottomk
        | VectorAggOp::ApproxTopk
        | VectorAggOp::Sort
        | VectorAggOp::SortDesc => false,
    }
}

/// Whether an aggregation can be applied to series one at a time, as they leave
/// their leaf.
pub open spec fn folds(op: VectorAggOp) -> bool {
    !(op is Sort || op is SortDesc || op is ApproxTopk)
}

/// Whether an aggregation can be applied to series one at a time.
pub fn can_fold(op: VectorAggOp) -> (r: bool)
    ensures
        r == folds(op),
{
    match op {
        VectorAggOp::Sort | VectorAggOp::SortDesc | VectorAggOp::ApproxTopk => false,
        _ => true,
    }
}

} // verus!
