//! Handing the innermost vector aggregation to the leaf comes to the same as applying it
//! afterwards.
use vstd::prelude::*;
use crate::agg::{self, SeriesPointsView};
use crate::client_agg::{self, AnswerView};
use crate::error::{ErrorView, ReadError};
use crate::model::{
    ClientAgg, MatrixSeries, MetricScanRow, QueryResult, StreamMeta, VectorAggSpec, VectorAggView,
};
use crate::number::Arith;
use crate::order;
use crate::range::{self, FoldSteps, LeafFold, LeafFoldView};
use crate::range_model::SlideConfig;
use crate::text::{self, LabelSet};
use crate::window::ClientWindow;

verus! {

/// What a result shows: samples or series, or what no aggregation makes.
pub enum Shown {
    Answer(AnswerView),
    Other(QueryResult),
}

/// What a result shows.
pub open spec fn shown(q: QueryResult) -> Shown {
    match q {
        QueryResult::Vector(out) => Shown::Answer(AnswerView::Vector(agg::samples_view(out@))),
        QueryResult::Matrix(out) => Shown::Answer(AnswerView::Matrix(agg::series_view(out@))),
        _ => Shown::Other(q),
    }
}

/// What a result, or the error in its place, shows.
pub open spec fn outcome_view(res: Result<QueryResult, ReadError>) -> Result<Shown, ErrorView> {
    match res {
        Ok(q) => Ok(shown(q)),
        Err(e) => Err(e@),
    }
}

/// What vector aggregations are.
pub open spec fn aggs_view(aggs: Seq<VectorAggSpec>) -> Seq<VectorAggView> {
    aggs.map_values(|s: VectorAggSpec| s@)
}

/// What a chain of vector aggregations makes of an answer.
pub type ChainModel = spec_fn(Shown, Seq<VectorAggView>) -> Result<Shown, ErrorView>;

/// A vector aggregation handed to the leaf, step by step: the state it starts in, what
/// one more series does to a state, and the series a state comes to.
#[verifier::reject_recursive_types(M)]
pub struct FoldModel<M> {
    pub start: spec_fn(LeafFoldView) -> M,
    pub push: spec_fn(M, SeriesPointsView) -> Result<M, ErrorView>,
    pub done: spec_fn(M) -> Seq<SeriesPointsView>,
}

/// The state after series have been pushed one after the other, or the first refusal.
pub open spec fn pushed_in_turn<M>(
    one: FoldModel<M>,
    f: LeafFoldView,
    sent: Seq<SeriesPointsView>,
) -> Result<M, ErrorView>
    decreases sent.len(),
{
    if sent.len() == 0 {
        Ok((one.start)(f))
    } else {
        match pushed_in_turn(one, f, sent.drop_last()) {
            Err(e) => Err(e),
            Ok(m) => (one.push)(m, sent.last()),
        }
    }
}

/// What a vector aggregation makes of series pushed one after the other.
pub open spec fn made_of<M>(one: FoldModel<M>, f: LeafFoldView, sent: Seq<SeriesPointsView>) -> Result<
    Seq<SeriesPointsView>,
    ErrorView,
> {
    match pushed_in_turn(one, f, sent) {
        Ok(m) => Ok((one.done)(m)),
        Err(e) => Err(e),
    }
}

/// Whether `apply` makes of a result what `chain` makes of what it shows.
pub open spec fn applies_as<H: Fn(QueryResult, &[VectorAggSpec]) -> Result<QueryResult, ReadError>>(
    apply: H,
    chain: ChainModel,
) -> bool {
    forall|q: QueryResult, left: &[VectorAggSpec], r: Result<QueryResult, ReadError>| #[trigger]
        call_ensures(apply, (q, left), r) ==> outcome_view(r) == chain(
            shown(q),
            aggs_view(left@),
        )
}

/// Whether the steps of `fold`, its states taken by what `shows` makes of them, are
/// those of `one`.
pub open spec fn folds_as<
    M,
    T,
    K: Fn(&LeafFold) -> T,
    P: Fn(&T, &LabelSet, &Vec<(i64, u64)>) -> Result<T, ReadError>,
    D: Fn(T) -> Vec<MatrixSeries>,
>(fold: FoldSteps<K, P, D>, shows: spec_fn(T) -> M, one: FoldModel<M>) -> bool {
    &&& forall|f: LeafFold, t: T| #[trigger]
        call_ensures(fold.start, (&f,), t) ==> shows(t) == (one.start)(f@)
    &&& forall|t: T, m: MatrixSeries, r: Result<T, ReadError>| #[trigger]
        range::push_gives(fold.push, t, m, r) ==> (one.push)(
            shows(t),
            (text::labels_view(m.labels@), m.points@),
        ) == (match r {
            Ok(next) => Ok::<M, ErrorView>(shows(next)),
            Err(e) => Err(e@),
        })
    &&& forall|t: T, out: Vec<MatrixSeries>| #[trigger]
        call_ensures(fold.done, (t,), out) ==> (one.done)(shows(t)) == agg::series_view(out@)
}

/// Whether a chain applies its aggregations one after the other, the innermost, which
/// is the last, first.
pub open spec fn applies_in_turn(chain: ChainModel) -> bool {
    &&& forall|a: Shown| #[trigger] chain(a, Seq::empty()) == Ok::<Shown, ErrorView>(a)
    &&& forall|a: Shown, aggs: Seq<VectorAggView>|
        aggs.len() > 0 ==> #[trigger] chain(a, aggs) == (match chain(a, seq![aggs.last()]) {
            Err(e) => Err(e),
            Ok(b) => chain(b, aggs.drop_last()),
        })
}

/// Series in the order they are handed to a vector aggregation.
pub open spec fn pinned_views(cfg: SlideConfig, s: Seq<SeriesPointsView>) -> Seq<
    SeriesPointsView,
> {
    if cfg.fan_out && !cfg.is_absent {
        s
    } else {
        order::stable_sort(s, agg::series_le())
    }
}

/// A result of series with every point moved by an offset.
pub open spec fn moved_matrix(s: Seq<SeriesPointsView>, offset: int) -> Shown {
    Shown::Answer(AnswerView::Matrix(client_agg::moved_views(s, offset)))
}

/// Whether pushing series into one aggregation, and moving what comes out, is what the
/// chain of that aggregation alone makes of the series once they have been moved.
pub open spec fn agrees_on<M>(
    one: FoldModel<M>,
    chain: ChainModel,
    cfg: SlideConfig,
    spec_: VectorAggView,
    s: Seq<SeriesPointsView>,
) -> bool {
    let offset = cfg.offset_ns as int;
    chain(moved_matrix(s, offset), seq![spec_]) == (match made_of(
        one,
        range::handed(cfg, spec_),
        pinned_views(cfg, s),
    ) {
        Ok(t) => Ok::<Shown, ErrorView>(moved_matrix(t, offset)),
        Err(e) => Err(e),
    })
}

/// The states a fold goes through show those of its model.
proof fn lemma_states_show<
    M,
    T,
    K: Fn(&LeafFold) -> T,
    P: Fn(&T, &LabelSet, &Vec<(i64, u64)>) -> Result<T, ReadError>,
    D: Fn(T) -> Vec<MatrixSeries>,
>(
    fold: FoldSteps<K, P, D>,
    shows: spec_fn(T) -> M,
    one: FoldModel<M>,
    f: LeafFold,
    sent: Seq<MatrixSeries>,
    states: Seq<T>,
    n: int,
)
    requires
        folds_as(fold, shows, one),
        0 <= n < states.len(),
        call_ensures(fold.start, (&f,), states[0]),
        range::pushed(fold.push, sent, states),
    ensures
        pushed_in_turn(one, f@, agg::series_view(sent).take(n)) == Ok::<M, ErrorView>(
            shows(states[n]),
        ),
    decreases n,
{
    let views = agg::series_view(sent);
    if n > 0 {
        lemma_states_show(fold, shows, one, f, sent, states, n - 1);
        assert(views.take(n).drop_last() =~= views.take(n - 1));
        assert(range::push_gives(fold.push, states[n - 1], sent[n - 1], Ok(states[n - 1 + 1])));
    }
}

/// A refusal among the first pushes is what all of them come to.
proof fn lemma_refusal_lasts<M>(
    one: FoldModel<M>,
    f: LeafFoldView,
    sent: Seq<SeriesPointsView>,
    n: int,
)
    requires
        0 <= n <= sent.len(),
        pushed_in_turn(one, f, sent.take(n)) is Err,
    ensures
        pushed_in_turn(one, f, sent) == pushed_in_turn(one, f, sent.take(n)),
    decreases sent.len(),
{
    if n == sent.len() {
        assert(sent.take(n) =~= sent);
    } else {
        assert(sent.drop_last().take(n) =~= sent.take(n));
        lemma_refusal_lasts(one, f, sent.drop_last(), n);
    }
}

/// What a fold comes to shows what its model makes of the series.
proof fn lemma_fold_shows<
    M,
    T,
    K: Fn(&LeafFold) -> T,
    P: Fn(&T, &LabelSet, &Vec<(i64, u64)>) -> Result<T, ReadError>,
    D: Fn(T) -> Vec<MatrixSeries>,
>(
    fold: FoldSteps<K, P, D>,
    shows: spec_fn(T) -> M,
    one: FoldModel<M>,
    f: LeafFold,
    sent: Seq<MatrixSeries>,
    states: Seq<T>,
    r: Result<Vec<MatrixSeries>, ReadError>,
)
    requires
        folds_as(fold, shows, one),
        range::fold_comes_to(fold, f, sent, states, r),
    ensures
        made_of(one, f@, agg::series_view(sent)) == (match r {
            Ok(made) => Ok::<Seq<SeriesPointsView>, ErrorView>(agg::series_view(made@)),
            Err(e) => Err(e@),
        }),
{
    let views = agg::series_view(sent);
    let n = states.len() - 1;
    lemma_states_show(fold, shows, one, f, sent, states, n);
    match r {
        Ok(_) => {
            assert(views.take(n) =~= views);
        },
        Err(e) => {
            assert(range::push_gives(fold.push, states[n], sent[n], Err(e)));
            assert(views.take(n + 1).drop_last() =~= views.take(n));
            assert(pushed_in_turn(one, f@, views.take(n + 1)) == Err::<M, ErrorView>(e@));
            lemma_refusal_lasts(one, f@, views, n + 1);
        },
    }
}

/// What a leaf comes to shows what the model of its fold makes of its series.
proof fn lemma_leaf_shows<
    M,
    A: Fn(Arith, u64, u64) -> u64,
    T,
    K: Fn(&LeafFold) -> T,
    P: Fn(&T, &LabelSet, &Vec<(i64, u64)>) -> Result<T, ReadError>,
    D: Fn(T) -> Vec<MatrixSeries>,
>(
    arith: A,
    fold: FoldSteps<K, P, D>,
    shows: spec_fn(T) -> M,
    one: FoldModel<M>,
    rows: Seq<MetricScanRow>,
    streams: Map<u64, StreamMeta>,
    client: ClientAgg,
    window: ClientWindow,
    rate_window_ns: Option<u64>,
    spec_: VectorAggSpec,
    leaf: Result<QueryResult, ReadError>,
)
    requires
        window is Range,
        folds_as(fold, shows, one),
        client_agg::folded_leaf(
            arith,
            fold,
            rows,
            streams,
            client,
            window,
            rate_window_ns,
            Some(spec_),
            leaf,
        ),
    ensures
        ({
            let cfg = client_agg::range_config(client, window, rate_window_ns);
            let absent = text::labels_view(client.absent_labels@);
            outcome_view(leaf) == (match client_agg::range_outcome(arith, cfg, streams, absent, rows) {
                Err(e) => Err(e),
                Ok(s) => match made_of(one, range::handed(cfg, spec_@), pinned_views(cfg, s)) {
                    Ok(t) => Ok::<Shown, ErrorView>(moved_matrix(t, cfg.offset_ns as int)),
                    Err(e) => Err(e),
                },
            })
        }),
{
    let cfg = client_agg::range_config(client, window, rate_window_ns);
    let absent = text::labels_view(client.absent_labels@);
    let offset = cfg.offset_ns as int;
    match client_agg::range_outcome(arith, cfg, streams, absent, rows) {
        Err(_) => {},
        Ok(s) => {
            let (series, f, states, r) = choose|
                series: Seq<MatrixSeries>,
                f: LeafFold,
                states: Seq<T>,
                r: Result<Vec<MatrixSeries>, ReadError>,
            |
                #![trigger range::fold_comes_to(
                    fold,
                    f,
                    range::fold_order(cfg, series),
                    states,
                    r,
                )]
                {
                    &&& series.len() <= usize::MAX
                    &&& f@ == range::handed(cfg, spec_@)
                    &&& range::fold_comes_to(
                        fold,
                        f,
                        range::fold_order(cfg, series),
                        states,
                        r,
                    )
                    &&& match r {
                        Ok(made) => {
                            &&& agg::series_view(series) == s
                            &&& leaf matches Ok(QueryResult::Matrix(out)) && range::moved_series(
                                made@,
                                out@,
                                offset,
                            )
                        },
                        Err(e) => {
                            &&& client_agg::made_first(cfg, s, agg::series_view(series))
                            &&& leaf == Err::<QueryResult, ReadError>(e)
                        },
                    }
                };
            agg::lemma_pinned_by_what_they_show(series);
            let sent = range::fold_order(cfg, series);
            let views = agg::series_view(sent);
            lemma_fold_shows(fold, shows, one, f, sent, states, r);
            match r {
                Ok(made) => {
                    assert(views == pinned_views(cfg, s));
                    client_agg::lemma_moved_views(made@, leaf->Ok_0->Matrix_0@, offset);
                },
                Err(_) => {
                    let all = pinned_views(cfg, s);
                    assert(views =~= all.take(views.len() as int));
                    lemma_refusal_lasts(one, f@, all, views.len() as int);
                },
            }
        },
    }
}

/// The answer with the innermost aggregation handed to the leaf is the answer with all
/// of them applied afterwards, where the aggregation, handed the leaf's series, agrees
/// with its application.
pub proof fn law_folding_is_applying_later<
    M,
    A: Fn(Arith, u64, u64) -> u64,
    T,
    K: Fn(&LeafFold) -> T,
    P: Fn(&T, &LabelSet, &Vec<(i64, u64)>) -> Result<T, ReadError>,
    D: Fn(T) -> Vec<MatrixSeries>,
    H: Fn(QueryResult, &[VectorAggSpec]) -> Result<QueryResult, ReadError>,
>(
    arith: A,
    fold: FoldSteps<K, P, D>,
    apply: H,
    shows: spec_fn(T) -> M,
    one: FoldModel<M>,
    chain: ChainModel,
    rows: Seq<MetricScanRow>,
    streams: Map<u64, StreamMeta>,
    client: ClientAgg,
    window: ClientWindow,
    rate_window_ns: Option<u64>,
    aggs: Seq<VectorAggSpec>,
    folded_leaf: Result<QueryResult, ReadError>,
    folded: Result<QueryResult, ReadError>,
    plain_leaf: Result<QueryResult, ReadError>,
    later: Result<QueryResult, ReadError>,
)
    requires
        folds_as(fold, shows, one),
        applies_as(apply, chain),
        applies_in_turn(chain),
        // The aggregation agrees with its application on the series at hand.
        window is Range && client_agg::leaf_fold(aggs) is Some ==> {
            let cfg = client_agg::range_config(client, window, rate_window_ns);
            client_agg::range_outcome(
                arith,
                cfg,
                streams,
                text::labels_view(client.absent_labels@),
                rows,
            ) matches Ok(s) ==> agrees_on(one, chain, cfg, aggs.last()@, s)
        },
        // What the leaf and the aggregations left to apply come to.
        client_agg::folded_leaf(
            arith,
            fold,
            rows,
            streams,
            client,
            window,
            rate_window_ns,
            client_agg::leaf_fold(aggs),
            folded_leaf,
        ),
        client_agg::applied(
            apply,
            if window is Range {
                client_agg::rest_aggs(aggs)
            } else {
                aggs
            },
            folded_leaf,
            folded,
        ),
        // What the leaf without any aggregation, and all of them, come to.
        client_agg::folded_leaf(
            arith,
            fold,
            rows,
            streams,
            client,
            window,
            rate_window_ns,
            None,
            plain_leaf,
        ),
        client_agg::applied(apply, aggs, plain_leaf, later),
    ensures
        outcome_view(folded) == outcome_view(later),
{
    let views = aggs_view(aggs);
    // What was applied is what the chain makes of the leaf's answer.
    assert(outcome_view(later) == (match outcome_view(plain_leaf) {
        Err(e) => Err(e),
        Ok(a) => chain(a, views),
    }));
    if window is Range && client_agg::leaf_fold(aggs) is Some {
        let spec_ = aggs.last();
        lemma_leaf_shows(
            arith,
            fold,
            shows,
            one,
            rows,
            streams,
            client,
            window,
            rate_window_ns,
            spec_,
            folded_leaf,
        );
        assert(aggs_view(aggs.drop_last()) =~= views.drop_last());
        assert(views.last() == spec_@);
    }
}

/// With no aggregation on top, the folded answer is the plain one, refusals and all.
pub proof fn law_no_aggregation_folds_to_the_plain_answer<
    A: Fn(Arith, u64, u64) -> u64,
    T,
    K: Fn(&LeafFold) -> T,
    P: Fn(&T, &LabelSet, &Vec<(i64, u64)>) -> Result<T, ReadError>,
    D: Fn(T) -> Vec<MatrixSeries>,
    H: Fn(QueryResult, &[VectorAggSpec]) -> Result<QueryResult, ReadError>,
>(
    arith: A,
    fold: FoldSteps<K, P, D>,
    apply: H,
    chain: ChainModel,
    rows: Seq<MetricScanRow>,
    streams: Map<u64, StreamMeta>,
    client: ClientAgg,
    window: ClientWindow,
    rate_window_ns: Option<u64>,
    leaf: Result<QueryResult, ReadError>,
    res: Result<QueryResult, ReadError>,
)
    requires
        applies_as(apply, chain),
        applies_in_turn(chain),
        client_agg::fence_error(window) is None,
        client_agg::folded_leaf(
            arith,
            fold,
            rows,
            streams,
            client,
            window,
            rate_window_ns,
            client_agg::leaf_fold(Seq::empty()),
            leaf,
        ),
        client_agg::applied(apply, Seq::empty(), leaf, res),
    ensures
        outcome_view(res) == (match client_agg::answer_of(
            arith,
            rows,
            streams,
            client,
            window,
            rate_window_ns,
        ) {
            Ok(a) => Ok::<Shown, ErrorView>(Shown::Answer(a)),
            Err(e) => Err(e),
        }),
{
    assert(aggs_view(Seq::empty()) =~= Seq::empty());
}

} // verus!
