//! What the orders and renderings of texts, labels and members satisfy, and in which order
//! an answer's series come.
use vstd::prelude::*;
use vstd::utf8::encode_utf8;
use crate::agg::{self, SeriesPointsView};
use crate::cells;
use crate::charge::AggCaps;
use crate::client_agg::{self, AnswerView};
use crate::error::ErrorView;
use crate::instant::{self, InstantConfig, InstantView};
use crate::model::{
    ClientAgg, MatrixSeries, MetricScanRow, StreamMeta, VectorAggOp, VectorSample,
};
use crate::number::Arith;
use crate::order::{self, Ranked};
use crate::presence;
use crate::range;
use crate::range_model::{self, GroupView, SeriesView, SlideConfig, SlideView};
use crate::reduction;
use crate::text::{self, PairView};
use crate::window::ClientWindow;

verus! {

// ---------------------------------------------------------------------
// Texts.
// ---------------------------------------------------------------------

/// In a lexicographic order the first place where two sequences differ decides, and a
/// beginning comes before the whole.
pub proof fn law_the_first_difference_decides<A>(
    a: Seq<A>,
    b: Seq<A>,
    le: spec_fn(A, A) -> bool,
    k: int,
)
    requires
        0 <= k <= a.len(),
        k <= b.len(),
        forall|i: int| 0 <= i < k ==> #[trigger] a[i] == b[i],
        forall|x: A| #[trigger] le(x, x),
    ensures
        k == a.len() ==> text::lex_le(a, b, le),
        k == b.len() && k < a.len() ==> !text::lex_le(a, b, le),
        k < a.len() && k < b.len() && le(a[k], b[k]) && !le(b[k], a[k]) ==> text::lex_le(a, b, le)
            && !text::lex_le(b, a, le),
    decreases a.len(),
{
    if k > 0 {
        assert(a[0] == b[0]);
        assert(le(a[0], b[0]) && le(b[0], a[0]));
        let (x, y) = (a.drop_first(), b.drop_first());
        assert forall|i: int| 0 <= i < k - 1 implies #[trigger] x[i] == y[i] by {
            assert(x[i] == a[i + 1] && y[i] == b[i + 1]);
        }
        law_the_first_difference_decides(x, y, le, k - 1);
        assert(k < a.len() ==> x[k - 1] == a[k]);
        assert(k < b.len() ==> y[k - 1] == b[k]);
    }
}

/// Texts order by the first byte in which they differ.
pub proof fn law_texts_order_by_bytes(a: Seq<char>, b: Seq<char>, k: int)
    requires
        0 <= k <= encode_utf8(a).len(),
        k <= encode_utf8(b).len(),
        forall|i: int| 0 <= i < k ==> #[trigger] encode_utf8(a)[i] == encode_utf8(b)[i],
    ensures
        k == encode_utf8(a).len() ==> text::text_le(a, b),
        k == encode_utf8(b).len() && k < encode_utf8(a).len() ==> !text::text_le(a, b),
        k < encode_utf8(a).len() && k < encode_utf8(b).len() && encode_utf8(a)[k] < encode_utf8(
            b,
        )[k] ==> text::text_le(a, b) && !text::text_le(b, a),
{
    law_the_first_difference_decides(encode_utf8(a), encode_utf8(b), text::byte_le(), k);
}

/// Label pairs order by their names, and pairs of one name by their values.
pub proof fn law_pairs_order_by_name_then_value(a: PairView, b: PairView)
    ensures
        text::text_le(a.0, b.0) && a.0 != b.0 ==> text::pair_le()(a, b) && !text::pair_le()(b, a),
        a.0 == b.0 ==> (text::pair_le()(a, b) <==> text::text_le(a.1, b.1)),
        text::pair_le()(a, b) && text::pair_le()(b, a) ==> a == b,
{
    text::lemma_text_le_total(a.0, b.0);
    if text::text_le(a.0, b.0) && text::text_le(b.0, a.0) {
        text::lemma_text_le_antisymmetric(a.0, b.0);
    }
    if text::text_le(a.1, b.1) && text::text_le(b.1, a.1) {
        text::lemma_text_le_antisymmetric(a.1, b.1);
    }
}

/// A count is itself where it fits, and else the largest there is.
pub proof fn law_counts_are_held_at_the_largest(n: int)
    requires
        0 <= n,
    ensures
        n <= u64::MAX ==> text::saturate(n) == n,
        n > u64::MAX ==> text::saturate(n) == u64::MAX,
{
}

/// Rendering a text renders its characters, one after the other. All stand for themselves
/// but the quote and the backslash, which stand behind a backslash, and the control
/// characters, which have a letter of their own or their number in hexadecimal.
pub proof fn law_texts_render_character_by_character(s: Seq<char>, c: char)
    ensures
        text::escaped_text(Seq::empty()) == Seq::<char>::empty(),
        text::escaped_text(s.push(c)) == text::escaped_text(s) + text::escaped_char(c),
        c == '"' || c == '\\' ==> text::escaped_char(c) == seq!['\\', c],
        (c as int) >= 0x20 && c != '"' && c != '\\' ==> text::escaped_char(c) == seq![c],
        c == '\n' ==> text::escaped_char(c) == seq!['\\', 'n'],
        c == '\r' ==> text::escaped_char(c) == seq!['\\', 'r'],
        c == '\t' ==> text::escaped_char(c) == seq!['\\', 't'],
        c == '\u{08}' ==> text::escaped_char(c) == seq!['\\', 'b'],
        c == '\u{0C}' ==> text::escaped_char(c) == seq!['\\', 'f'],
        (c as int) < 0x20 && c != '\n' && c != '\r' && c != '\t' && c != '\u{08}' && c
            != '\u{0C}' ==> ({
            let e = text::escaped_char(c);
            &&& e.len() == 6
            &&& e.take(4) == seq!['\\', 'u', '0', '0']
            &&& 16 * digit_value(e[4]) + digit_value(e[5]) == c as int
            &&& is_lower_hex(e[4]) && is_lower_hex(e[5])
        }),
{
    assert(s.push(c).drop_last() =~= s);
    let e = text::escaped_char(c);
    if (c as int) < 0x20 && c != '\n' && c != '\r' && c != '\t' && c != '\u{08}' && c != '\u{0C}' {
        assert(e.take(4) =~= seq!['\\', 'u', '0', '0']);
        assert(0 <= c as int / 16 < 2);
        assert(0 <= c as int % 16 < 16);
    }
}

/// What a hexadecimal digit is worth.
pub open spec fn digit_value(c: char) -> int {
    if '0' <= c <= '9' {
        c as int - '0' as int
    } else {
        c as int - 'a' as int + 10
    }
}

/// Whether a character is a lower-case hexadecimal digit.
pub open spec fn is_lower_hex(c: char) -> bool {
    '0' <= c <= '9' || 'a' <= c <= 'f'
}

/// A label set renders its pairs in order, between braces, each name and value quoted and
/// set off by a colon, and the pairs by commas.
pub proof fn law_labels_render_pair_by_pair(labels: Seq<PairView>, p: PairView)
    ensures
        text::json_object(Seq::empty()) == seq!['{', '}'],
        ({
            let quote = seq!['"'];
            let one = quote + text::escaped_text(p.0) + quote + seq![':'] + quote
                + text::escaped_text(p.1) + quote;
            &&& labels.len() == 0 ==> text::json_object(labels.push(p)) == seq!['{'] + one
                + seq!['}']
            &&& labels.len() > 0 ==> text::json_object(labels.push(p)) == text::json_object(
                labels,
            ).drop_last() + seq![','] + one + seq!['}']
        }),
{
    let all = labels.push(p);
    assert(all.drop_last() =~= labels);
    let quote = seq!['"'];
    let one = quote + text::escaped_text(p.0) + quote + seq![':'] + quote + text::escaped_text(
        p.1,
    ) + quote;
    assert(text::json_object(Seq::empty()) =~= seq!['{', '}']);
    if labels.len() == 0 {
        assert(text::json_members(labels) =~= Seq::empty());
        assert(all.last() == p);
        assert(text::json_members(all) =~= one);
    } else {
        let before = text::json_object(labels);
        assert(before.drop_last() =~= seq!['{'] + text::json_members(labels));
        assert(text::json_object(all) =~= before.drop_last() + seq![','] + one + seq!['}']);
    }
}

// ---------------------------------------------------------------------
// Members.
// ---------------------------------------------------------------------

/// Members are reduced by their labels, and members of the same labels by what they hold:
/// samples by their numbers, series point by point, by time and then by number.
pub proof fn law_members_order_by_labels_then_payload(
    a: VectorSample,
    b: VectorSample,
    x: MatrixSeries,
    y: MatrixSeries,
)
    ensures
        ({
            let (la, lb) = (text::labels_view(a.labels@), text::labels_view(b.labels@));
            let le = VectorSample::rank_le();
            &&& text::labels_le(la, lb) && la != lb ==> le(a, b) && !le(b, a)
            &&& la == lb && agg::total_key(a.value) < agg::total_key(b.value) ==> le(a, b) && !le(
                b,
                a,
            )
        }),
        ({
            let (lx, ly) = (text::labels_view(x.labels@), text::labels_view(y.labels@));
            let le = MatrixSeries::rank_le();
            &&& text::labels_le(lx, ly) && lx != ly ==> le(x, y) && !le(y, x)
            &&& lx == ly && agg::points_le(x.points@, y.points@) && !agg::points_le(
                y.points@,
                x.points@,
            ) ==> le(x, y) && !le(y, x)
        }),
{
    let (la, lb) = (text::labels_view(a.labels@), text::labels_view(b.labels@));
    let (lx, ly) = (text::labels_view(x.labels@), text::labels_view(y.labels@));
    if text::labels_le(la, lb) && text::labels_le(lb, la) {
        text::lemma_labels_le_antisymmetric(la, lb);
    }
    if text::labels_le(lx, ly) && text::labels_le(ly, lx) {
        text::lemma_labels_le_antisymmetric(lx, ly);
    }
    VectorSample::rank_is_preorder();
    MatrixSeries::rank_is_preorder();
    assert(VectorSample::rank_le()(a, a));
    assert(MatrixSeries::rank_le()(x, x));
    assert(la == lb ==> text::labels_le(la, lb));
    assert(lx == ly ==> text::labels_le(lx, ly));
}

/// Points order by time, and points of one time by their numbers.
pub proof fn law_points_order_by_time_then_number(a: (i64, u64), b: (i64, u64))
    ensures
        a.0 < b.0 ==> agg::point_le()(a, b) && !agg::point_le()(b, a),
        a.0 == b.0 && agg::total_key(a.1) < agg::total_key(b.1) ==> agg::point_le()(a, b)
            && !agg::point_le()(b, a),
        agg::point_le()(a, a),
{
}

/// An aggregation that makes one value of its members can be applied to series one at a
/// time, and so can one that selects members; sorting and the approximate selection cannot.
pub proof fn law_what_folds(op: VectorAggOp)
    ensures
        agg::reduces(op) ==> agg::folds(op),
        !agg::folds(op) <==> (op is Sort || op is SortDesc || op is ApproxTopk),
        agg::reduces(op) <==> (op is Sum || op is Avg || op is Min || op is Max || op is Count
            || op is Stddev || op is Stdvar),
{
}

// ---------------------------------------------------------------------
// Answers.
// ---------------------------------------------------------------------

proof fn lemma_filter_map<A, B>(s: Seq<A>, p: spec_fn(A) -> bool, f: spec_fn(A) -> B)
    ensures
        forall|i: int|
            0 <= i < s.len() && p(s[i]) ==> s.filter(p).map_values(f).contains(
                f(#[trigger] s[i]),
            ),
        forall|k: int|
            0 <= k < s.filter(p).len() ==> s.contains(#[trigger] s.filter(p)[k]) && p(
                s.filter(p)[k],
            ),
    decreases s.len(),
{
    reveal(Seq::filter);
    if s.len() > 0 {
        let front = s.drop_last();
        lemma_filter_map(front, p, f);
        let before = front.filter(p);
        let all = s.filter(p);
        assert forall|i: int| 0 <= i < s.len() && p(s[i]) implies all.map_values(f).contains(
            f(#[trigger] s[i]),
        ) by {
            if i < front.len() {
                assert(front[i] == s[i]);
                assert(before.map_values(f).contains(f(front[i])));
                let k = choose|k: int|
                    0 <= k < before.map_values(f).len() && before.map_values(f)[k] == f(s[i]);
                assert(all.map_values(f)[k] == f(s[i]));
            } else {
                assert(all.map_values(f)[all.len() - 1] == f(s[i]));
            }
        }
        assert forall|k: int| 0 <= k < all.len() implies s.contains(#[trigger] all[k]) && p(
            all[k],
        ) by {
            if k < before.len() {
                assert(all[k] == before[k]);
                assert(front.contains(before[k]));
                let i = choose|i: int| 0 <= i < front.len() && front[i] == before[k];
                assert(s[i] == all[k]);
            } else {
                assert(s[s.len() - 1] == all[k]);
            }
        }
    }
}

/// The series of lines grouped by their labels are those of the groups that have a point:
/// each such group is among them, with its labels and all of its samples in order, and they
/// are all of groups.
pub proof fn law_groups_with_points_make_series(
    cfg: SlideConfig,
    groups: Seq<GroupView>,
    i: int,
)
    requires
        groups.len() <= usize::MAX,
        0 <= i < groups.len(),
    ensures
        ({
            let out = range::grouped_series(cfg, groups);
            let own = SeriesView {
                labels: groups[i].labels,
                hist: cells::canonical(cfg.reducer.class, groups[i].hist),
            };
            &&& range_model::has_points(cfg.grid, own.hist, cfg.grid.kmax + 1) ==> out.contains(
                own,
            )
            &&& out.len() <= groups.len()
            &&& forall|k: int|
                0 <= k < out.len() ==> range_model::has_points(
                    cfg.grid,
                    (#[trigger] out[k]).hist,
                    cfg.grid.kmax + 1,
                )
        }),
{
    broadcast use vstd::seq_lib::group_to_multiset_ensures;

    let le = range::group_le();
    range::lemma_group_le_preorder();
    order::lemma_stable_sort_permutes(groups, le);
    let sorted = order::stable_sort(groups, le);
    let f = |g: GroupView|
        SeriesView { labels: g.labels, hist: cells::canonical(cfg.reducer.class, g.hist) };
    let p = range::shows(cfg);
    lemma_filter_map(sorted, p, f);
    sorted.lemma_filter_len(p);
    assert(groups.to_multiset().contains(groups[i]));
    assert(sorted.contains(groups[i]));
    let j = choose|j: int| 0 <= j < sorted.len() && sorted[j] == groups[i];
    if p(sorted[j]) {
        assert(sorted.filter(p).map_values(f).contains(f(sorted[j])));
    }
}

/// A range query answers with the series it holds, in the order it holds them, each under
/// its labels and with the points of its samples on the grid; `absent_over_time` answers
/// with one series under the labels it was given, unless something was always there.
pub proof fn law_range_answers_are_the_series_held<A: Fn(Arith, u64, u64) -> u64>(
    arith: A,
    cfg: SlideConfig,
    absent_labels: Seq<PairView>,
    x: SlideView,
)
    ensures
        ({
            let out = client_agg::leaf_points(arith, cfg, absent_labels, x);
            let held = if cfg.fan_out {
                range::grouped_series(cfg, x.groups)
            } else {
                x.closed
            };
            let gaps = presence::absent_points(cfg.grid, x.covers, cfg.grid.kmax + 1);
            &&& !cfg.is_absent ==> {
                &&& out.len() == held.len()
                &&& forall|i: int|
                    0 <= i < held.len() ==> {
                        &&& (#[trigger] out[i]).0 == held[i].labels
                        &&& out[i].1 == reduction::grid_values(
                            arith,
                            cfg.reducer,
                            cfg.grid,
                            held[i].hist,
                            cfg.grid.kmax + 1,
                        )
                    }
            }
            &&& cfg.is_absent && gaps.len() == 0 ==> out.len() == 0
            &&& cfg.is_absent && gaps.len() > 0 ==> out.len() == 1 && out[0].0 == absent_labels
                && out[0].1 == gaps
        }),
{
}

/// An instant query answers with one sample for each group, under its labels, in the order
/// the groups were opened; `absent_over_time` answers with one of value one, under the
/// labels it was given, where nothing was there.
pub proof fn law_instant_answers_are_the_groups_held<A: Fn(Arith, u64, u64) -> u64>(
    arith: A,
    cfg: InstantConfig,
    absent_labels: Seq<PairView>,
    v: InstantView,
)
    ensures
        ({
            let out = client_agg::instant_samples(arith, cfg, absent_labels, v);
            let absent = cfg.reducer.op is AbsentOverTime;
            &&& absent && v.present ==> out.len() == 0
            &&& absent && !v.present ==> out == seq![
                (absent_labels, 0x3FF0_0000_0000_0000u64),
            ]
            &&& !absent ==> {
                &&& out.len() == v.groups.len()
                &&& forall|i: int|
                    0 <= i < v.groups.len() ==> {
                        &&& (#[trigger] out[i]).0 == v.groups[i].labels
                        &&& out[i].1 == reduction::history_value(
                            arith,
                            cfg.reducer,
                            v.groups[i].hist,
                        )
                    }
            }
        }),
{
}

/// Moving an answer's series moves their points and keeps their labels and their order.
pub proof fn law_moved_series_keep_their_labels(series: Seq<SeriesPointsView>, offset: int, i: int)
    requires
        0 <= i < series.len(),
    ensures
        client_agg::moved_views(series, offset).len() == series.len(),
        client_agg::moved_views(series, offset)[i].0 == series[i].0,
        client_agg::moved_views(series, offset)[i].1.len() == series[i].1.len(),
        forall|k: int|
            0 <= k < series[i].1.len() && i64::MIN <= series[i].1[k].0 + offset <= i64::MAX
                ==> #[trigger] client_agg::moved_views(series, offset)[i].1[k] == (
                (series[i].1[k].0 + offset) as i64,
                series[i].1[k].1,
            ),
{
}

/// A range query answers with the series that its rows, scanned in order, end up as, moved
/// by its offset, unless its grid is too fine; it fails where its rows fail it.
pub proof fn law_range_queries_answer_from_their_rows<A: Fn(Arith, u64, u64) -> u64>(
    arith: A,
    rows: Seq<MetricScanRow>,
    streams: Map<u64, StreamMeta>,
    client: ClientAgg,
    window: ClientWindow,
    rate_window: Option<u64>,
    v: SlideView,
    x: SlideView,
)
    requires
        window is Range,
        client_agg::fence_error(window) is None,
        ({
            let cfg = client_agg::range_config(client, window, rate_window);
            let scanned = order::stable_sort(rows, client_agg::scan_rank());
            &&& range_model::take_rows(
                cfg,
                streams,
                range::start_view(),
                scanned,
                scanned.len() as int,
            ) == Ok::<SlideView, ErrorView>(v)
            &&& range::end_state(cfg, streams, v) == Ok::<SlideView, ErrorView>(x)
        }),
    ensures
        ({
            let cfg = client_agg::range_config(client, window, rate_window);
            let held = client_agg::leaf_points(
                arith,
                cfg,
                text::labels_view(client.absent_labels@),
                x,
            );
            client_agg::answer_of(arith, rows, streams, client, window, rate_window) == Ok::<
                AnswerView,
                ErrorView,
            >(
                AnswerView::Matrix(
                    client_agg::moved_views(held, window->offset_ns as int),
                ),
            )
        }),
{
}

/// A query whose grid is too fine, or whose rows fail it, answers with that failure.
pub proof fn law_queries_fail_where_their_rows_fail<A: Fn(Arith, u64, u64) -> u64>(
    arith: A,
    rows: Seq<MetricScanRow>,
    streams: Map<u64, StreamMeta>,
    client: ClientAgg,
    window: ClientWindow,
    rate_window: Option<u64>,
    e: ErrorView,
)
    ensures
        client_agg::fence_error(window) == Some(e) ==> client_agg::answer_of(
            arith,
            rows,
            streams,
            client,
            window,
            rate_window,
        ) == Err::<AnswerView, ErrorView>(e),
        ({
            let cfg = client_agg::range_config(client, window, rate_window);
            let scanned = order::stable_sort(rows, client_agg::scan_rank());
            window is Range && client_agg::fence_error(window) is None && range_model::take_rows(
                cfg,
                streams,
                range::start_view(),
                scanned,
                scanned.len() as int,
            ) == Err::<SlideView, ErrorView>(e) ==> client_agg::answer_of(
                arith,
                rows,
                streams,
                client,
                window,
                rate_window,
            ) == Err::<AnswerView, ErrorView>(e)
        }),
{
}

/// An instant query answers with the groups that its rows, as they came, end up as.
pub proof fn law_instant_queries_answer_from_their_rows<A: Fn(Arith, u64, u64) -> u64>(
    arith: A,
    rows: Seq<MetricScanRow>,
    streams: Map<u64, StreamMeta>,
    client: ClientAgg,
    rate_window: Option<u64>,
)
    ensures
        ({
            let cfg = client_agg::instant_config(
                client,
                rate_window,
                AggCaps::default_caps(),
            );
            let r = client_agg::answer_of(
                arith,
                rows,
                streams,
                client,
                ClientWindow::Instant,
                rate_window,
            );
            match instant::take_instant_rows(
                cfg,
                streams,
                client_agg::instant_start(),
                rows,
                rows.len() as int,
            ) {
                Err(e) => r == Err::<AnswerView, ErrorView>(e),
                Ok(v) => r == Ok::<AnswerView, ErrorView>(
                    AnswerView::Vector(
                        client_agg::instant_samples(
                            arith,
                            cfg,
                            text::labels_view(client.absent_labels@),
                            v,
                        ),
                    ),
                ),
            }
        }),
{
}

proof fn lemma_filter_ascends(s: Seq<GroupView>, p: spec_fn(GroupView) -> bool)
    requires
        forall|i: int, j: int|
            0 <= i <= j < s.len() ==> text::labels_le(
                (#[trigger] s[i]).labels,
                (#[trigger] s[j]).labels,
            ),
    ensures
        forall|i: int, j: int|
            0 <= i <= j < s.filter(p).len() ==> text::labels_le(
                (#[trigger] s.filter(p)[i]).labels,
                (#[trigger] s.filter(p)[j]).labels,
            ),
    decreases s.len(),
{
    reveal(Seq::filter);
    if s.len() > 0 {
        let front = s.drop_last();
        assert forall|i: int, j: int| 0 <= i <= j < front.len() implies text::labels_le(
            (#[trigger] front[i]).labels,
            (#[trigger] front[j]).labels,
        ) by {
            assert(front[i] == s[i] && front[j] == s[j]);
        }
        lemma_filter_ascends(front, p);
        let before = front.filter(p);
        let all = s.filter(p);
        lemma_filter_map(front, p, |g: GroupView| g);
        assert forall|i: int, j: int| 0 <= i <= j < all.len() implies text::labels_le(
            (#[trigger] all[i]).labels,
            (#[trigger] all[j]).labels,
        ) by {
            let last = s[s.len() - 1];
            if j < before.len() {
                assert(all[i] == before[i] && all[j] == before[j]);
            } else if i < before.len() {
                assert(all[i] == before[i]);
                assert(front.contains(before[i]));
                let k = choose|k: int| 0 <= k < front.len() && front[k] == before[i];
                assert(s[k] == all[i] && last == all[j]);
            } else {
                assert(last == all[i] && last == all[j]);
            }
        }
    }
}

/// The series of lines grouped by their labels come by their labels.
pub proof fn law_grouped_series_come_by_labels(cfg: SlideConfig, groups: Seq<GroupView>)
    requires
        groups.len() <= usize::MAX,
    ensures
        forall|i: int, j: int|
            0 <= i <= j < range::grouped_series(cfg, groups).len() ==> text::labels_le(
                (#[trigger] range::grouped_series(cfg, groups)[i]).labels,
                (#[trigger] range::grouped_series(cfg, groups)[j]).labels,
            ),
{
    let le = range::group_le();
    range::lemma_group_le_preorder();
    order::lemma_stable_sort_permutes(groups, le);
    order::lemma_stable_sort_ascends(groups, le);
    let sorted = order::stable_sort(groups, le);
    assert forall|i: int, j: int| 0 <= i <= j < sorted.len() implies text::labels_le(
        (#[trigger] sorted[i]).labels,
        (#[trigger] sorted[j]).labels,
    ) by {
        assert(le(sorted[i], sorted[j]));
    }
    lemma_filter_ascends(sorted, range::shows(cfg));
}

/// Sorting puts every value in its place, and values that compare both ways stay in the
/// order they came in.
pub proof fn law_sorting_keeps_ties_as_they_came<A>(
    s: Seq<A>,
    le: spec_fn(A, A) -> bool,
    a: int,
    b: int,
)
    requires
        s.len() <= usize::MAX,
        order::total_preorder(le),
        0 <= a < b < s.len(),
    ensures
        ({
            let p = order::stable_order(s, le);
            let out = order::stable_sort(s, le);
            &&& out.len() == s.len()
            &&& out.to_multiset() == s.to_multiset()
            &&& 0 <= p[a] < s.len() && 0 <= p[b] < s.len()
            &&& out[a] == s[p[a] as int] && out[b] == s[p[b] as int]
            &&& le(out[a], out[b])
            &&& le(out[b], out[a]) ==> p[a] < p[b]
        }),
{
    order::lemma_stable_order(s, le);
    order::lemma_stable_sort_permutes(s, le);
    let p = order::stable_order(s, le);
    let at = order::position_le(s, le);
    assert(at(p[a], p[b]));
    assert(p[a] != p[b]);
}

/// Moving the series of a result by an offset keeps their number, their labels and the
/// values of their points.
pub proof fn law_shifted_series_keep_all_but_time(
    a: Seq<MatrixSeries>,
    b: Seq<MatrixSeries>,
    offset: int,
    i: int,
    k: int,
)
    requires
        range::moved_series(a, b, offset),
        0 <= i < a.len(),
        0 <= k < a[i].points@.len(),
    ensures
        b.len() == a.len(),
        b[i].labels@ == a[i].labels@,
        b[i].points@.len() == a[i].points@.len(),
        b[i].points@[k].1 == a[i].points@[k].1,
        i64::MIN <= a[i].points@[k].0 + offset <= i64::MAX ==> b[i].points@[k].0
            == a[i].points@[k].0 + offset,
{
}

} // verus!
