//! The answer of a range query does not depend on the order its rows came in.
//!
//! Rows are sorted by stream and time before they are evaluated, so that two orders of
//! the same rows differ within the runs of one stream and one nanosecond alone. A run is
//! staged whole before anything is made of it.
use vstd::multiset::Multiset;
use vstd::prelude::*;
use crate::agg::SeriesPointsView;
use crate::bags::{self, Unranked};
use crate::cells;
use crate::client_agg;
use crate::error::ErrorView;
use crate::model::{ClientAgg, MetricRun, MetricScanRow, StreamMeta};
use crate::number::Arith;
use crate::order::{self, Ranked};
use crate::origin;
use crate::range;
use crate::range_model::{self, CurView, GroupView, MemberView, SeriesView, SlideConfig, SlideView};
use crate::reduction;
use crate::slide::{self, WinSample};
use crate::text::{self, PairView};
use crate::window::ClientWindow;

verus! {

/// The line a row stages, if it stages one.
pub open spec fn staged_line(
    cfg: SlideConfig,
    streams: Map<u64, StreamMeta>,
    row: MetricScanRow,
) -> Option<MemberView> {
    if !streams.contains_key(row.fingerprint) {
        None
    } else {
        match row.run {
            Ok(MetricRun::Kept { line_len, value, labels }) => {
                match range_model::line_value(cfg.reducer.value, line_len, value) {
                    None => None,
                    Some(x) => {
                        let sorted = order::stable_sort(
                            text::labels_view(labels@),
                            text::pair_le(),
                        );
                        Some(
                            MemberView {
                                body: if cfg.needs_body_order {
                                    row.body@
                                } else {
                                    Seq::empty()
                                },
                                value: x,
                                out: if cfg.stages_out() {
                                    Some((text::json_object(sorted), sorted))
                                } else {
                                    None
                                },
                            },
                        )
                    },
                }
            },
            _ => None,
        }
    }
}

/// The lines that rows stage.
spec fn staged_lines(
    cfg: SlideConfig,
    streams: Map<u64, StreamMeta>,
    rows: Seq<MetricScanRow>,
) -> Seq<MemberView>
    decreases rows.len(),
{
    if rows.len() == 0 {
        Seq::empty()
    } else {
        let head = staged_lines(cfg, streams, rows.drop_last());
        match staged_line(cfg, streams, rows.last()) {
            None => head,
            Some(m) => head.push(m),
        }
    }
}

proof fn lemma_staged_count(
    cfg: SlideConfig,
    streams: Map<u64, StreamMeta>,
    rows: Seq<MetricScanRow>,
    m: MemberView,
)
    ensures
        staged_lines(cfg, streams, rows).to_multiset().count(m) == order::sum_of(
            rows,
            |row: MetricScanRow|
                if staged_line(cfg, streams, row) == Some(m) {
                    1int
                } else {
                    0
                },
        ),
    decreases rows.len(),
{
    broadcast use vstd::seq_lib::group_to_multiset_ensures;
    broadcast use vstd::multiset::group_multiset_axioms;

    if rows.len() > 0 {
        lemma_staged_count(cfg, streams, rows.drop_last(), m);
    }
}

/// The same rows stage the same lines.
proof fn lemma_staged_permute(
    cfg: SlideConfig,
    streams: Map<u64, StreamMeta>,
    a: Seq<MetricScanRow>,
    b: Seq<MetricScanRow>,
)
    requires
        a.to_multiset() == b.to_multiset(),
    ensures
        staged_lines(cfg, streams, a).to_multiset() == staged_lines(cfg, streams, b).to_multiset(),
{
    broadcast use vstd::multiset::group_multiset_axioms;

    let (x, y) = (staged_lines(cfg, streams, a), staged_lines(cfg, streams, b));
    assert forall|m: MemberView| x.to_multiset().count(m) == y.to_multiset().count(m) by {
        lemma_staged_count(cfg, streams, a, m);
        lemma_staged_count(cfg, streams, b, m);
        order::lemma_sum_permutes(
            a,
            b,
            |row: MetricScanRow|
                if staged_line(cfg, streams, row) == Some(m) {
                    1int
                } else {
                    0
                },
        );
    }
    assert(x.to_multiset() =~= y.to_multiset());
}

/// A line that is staged was staged by a row.
proof fn lemma_staged_from(
    cfg: SlideConfig,
    streams: Map<u64, StreamMeta>,
    rows: Seq<MetricScanRow>,
    m: MemberView,
) -> (i: int)
    requires
        staged_lines(cfg, streams, rows).contains(m),
    ensures
        0 <= i < rows.len(),
        staged_line(cfg, streams, rows[i]) == Some(m),
    decreases rows.len(),
{
    if staged_line(cfg, streams, rows.last()) == Some(m) {
        rows.len() - 1
    } else {
        let s = staged_lines(cfg, streams, rows);
        let head = staged_lines(cfg, streams, rows.drop_last());
        let j = choose|j: int| 0 <= j < s.len() && s[j] == m;
        assert(head[j] == m);
        lemma_staged_from(cfg, streams, rows.drop_last(), m)
    }
}

// ---------------------------------------------------------------------
// Runs.
// ---------------------------------------------------------------------

/// Whether rows are in scan order.
spec fn scanned(rows: Seq<MetricScanRow>) -> bool {
    forall|i: int, j: int|
        0 <= i <= j < rows.len() ==> range_model::scan_le(
            range_model::row_key(#[trigger] rows[i]),
            range_model::row_key(#[trigger] rows[j]),
        )
}

/// Where the run of the `n`-th row starts.
spec fn run_start(rows: Seq<MetricScanRow>, n: int) -> int
    decreases n,
{
    if n <= 1 {
        0
    } else if range_model::row_key(rows[n - 2]) == range_model::row_key(rows[n - 1]) {
        run_start(rows, n - 1)
    } else {
        n - 1
    }
}

/// Whether a run ends after `n` rows.
spec fn run_ends(rows: Seq<MetricScanRow>, n: int) -> bool {
    n == 0 || n == rows.len() || (0 < n < rows.len() && range_model::row_key(rows[n - 1])
        != range_model::row_key(rows[n]))
}

proof fn lemma_run(rows: Seq<MetricScanRow>, n: int)
    requires
        0 < n <= rows.len(),
    ensures
        0 <= run_start(rows, n) < n,
        run_ends(rows, run_start(rows, n)),
        forall|i: int|
            run_start(rows, n) <= i < n ==> range_model::row_key(#[trigger] rows[i])
                == range_model::row_key(rows[n - 1]),
    decreases n,
{
    if n > 1 && range_model::row_key(rows[n - 2]) == range_model::row_key(rows[n - 1]) {
        lemma_run(rows, n - 1);
    }
}

/// The rows of a run are the rows of its key.
proof fn lemma_run_counts(rows: Seq<MetricScanRow>, n: int, x: MetricScanRow)
    requires
        scanned(rows),
        0 < n <= rows.len(),
        run_ends(rows, n),
    ensures
        rows.subrange(run_start(rows, n), n).to_multiset().count(x) == (if range_model::row_key(x)
            == range_model::row_key(rows[n - 1]) {
            rows.to_multiset().count(x)
        } else {
            0
        }),
{
    broadcast use vstd::seq_lib::group_to_multiset_ensures;
    broadcast use vstd::multiset::group_multiset_axioms;

    lemma_run(rows, n);
    let b = run_start(rows, n);
    let k = range_model::row_key(rows[n - 1]);
    let (head, mid, tail) = (rows.subrange(0, b), rows.subrange(b, n), rows.subrange(
        n,
        rows.len() as int,
    ));
    assert(rows =~= head + mid + tail);
    vstd::seq_lib::lemma_multiset_commutative(head, mid);
    vstd::seq_lib::lemma_multiset_commutative(head + mid, tail);
    if range_model::row_key(x) == k {
        if head.contains(x) {
            let i = choose|i: int| 0 <= i < head.len() && head[i] == x;
            assert(head[i] == rows[i]);
            assert(range_model::scan_le(
                range_model::row_key(rows[i]),
                range_model::row_key(rows[b - 1]),
            ));
            assert(range_model::scan_le(
                range_model::row_key(rows[b - 1]),
                range_model::row_key(rows[b]),
            ));
            assert(range_model::row_key(rows[b]) == k);
        }
        if tail.contains(x) {
            let i = choose|i: int| 0 <= i < tail.len() && tail[i] == x;
            assert(tail[i] == rows[n + i]);
            assert(range_model::scan_le(
                range_model::row_key(rows[n - 1]),
                range_model::row_key(rows[n]),
            ));
            assert(range_model::scan_le(
                range_model::row_key(rows[n]),
                range_model::row_key(rows[n + i]),
            ));
        }
        assert(!head.contains(x) && !tail.contains(x));
    } else {
        if mid.contains(x) {
            let i = choose|i: int| 0 <= i < mid.len() && mid[i] == x;
            assert(mid[i] == rows[b + i]);
        }
        assert(!mid.contains(x));
    }
}

/// Two orders of the same rows have the same keys in the same places.
proof fn lemma_keys_line_up(a: Seq<MetricScanRow>, b: Seq<MetricScanRow>)
    requires
        a.len() <= usize::MAX,
        a.to_multiset() == b.to_multiset(),
        scanned(a),
        scanned(b),
    ensures
        a.len() == b.len(),
        forall|i: int|
            0 <= i < a.len() ==> range_model::row_key(#[trigger] a[i]) == range_model::row_key(b[i]),
{
    broadcast use vstd::seq_lib::group_to_multiset_ensures;
    broadcast use vstd::multiset::group_multiset_axioms;

    let key = |r: MetricScanRow| range_model::row_key(r);
    let le = |x: (u64, i64), y: (u64, i64)| range_model::scan_le(x, y);
    let (x, y) = (a.map_values(key), b.map_values(key));
    assert(a.to_multiset().len() == a.len() && b.to_multiset().len() == b.len());
    order::lemma_mapped_permutes(a, b, key);
    assert forall|i: int, j: int| 0 <= i <= j < x.len() implies le(
        #[trigger] x[i],
        #[trigger] x[j],
    ) by {
        assert(range_model::scan_le(range_model::row_key(a[i]), range_model::row_key(a[j])));
    }
    assert forall|i: int, j: int| 0 <= i <= j < y.len() implies le(
        #[trigger] y[i],
        #[trigger] y[j],
    ) by {
        assert(range_model::scan_le(range_model::row_key(b[i]), range_model::row_key(b[j])));
    }
    order::lemma_stable_sort_of_sorted(x, le);
    order::lemma_stable_sort_of_sorted(y, le);
    order::lemma_stable_sort_unique(x, y, le);
    assert forall|i: int| 0 <= i < a.len() implies range_model::row_key(#[trigger] a[i])
        == range_model::row_key(b[i]) by {
        assert(x[i] == y[i]);
    }
}

/// The runs of two orders of the same rows hold the same rows.
proof fn lemma_runs_line_up(a: Seq<MetricScanRow>, b: Seq<MetricScanRow>, n: int)
    requires
        a.len() <= usize::MAX,
        a.to_multiset() == b.to_multiset(),
        scanned(a),
        scanned(b),
        0 < n <= a.len(),
        run_ends(a, n),
    ensures
        a.len() == b.len(),
        range_model::row_key(a[n - 1]) == range_model::row_key(b[n - 1]),
        run_start(a, n) == run_start(b, n),
        a.subrange(run_start(a, n), n).to_multiset() == b.subrange(
            run_start(b, n),
            n,
        ).to_multiset(),
{
    broadcast use vstd::multiset::group_multiset_axioms;

    lemma_keys_line_up(a, b);
    lemma_same_run_start(a, b, n);
    assert(range_model::row_key(a[n - 1]) == range_model::row_key(b[n - 1]));
    assert(run_ends(b, n)) by {
        if n < a.len() {
            assert(range_model::row_key(a[n]) == range_model::row_key(b[n]));
        }
    }
    let (x, y) = (a.subrange(run_start(a, n), n), b.subrange(run_start(b, n), n));
    assert forall|r: MetricScanRow| x.to_multiset().count(r) == y.to_multiset().count(r) by {
        lemma_run_counts(a, n, r);
        lemma_run_counts(b, n, r);
    }
    assert(x.to_multiset() =~= y.to_multiset());
}

proof fn lemma_same_run_start(a: Seq<MetricScanRow>, b: Seq<MetricScanRow>, n: int)
    requires
        0 < n <= a.len(),
        a.len() == b.len(),
        forall|i: int|
            0 <= i < a.len() ==> range_model::row_key(#[trigger] a[i]) == range_model::row_key(b[i]),
    ensures
        run_start(a, n) == run_start(b, n),
    decreases n,
{
    if n > 1 {
        assert(range_model::row_key(a[n - 1]) == range_model::row_key(b[n - 1]));
        assert(range_model::row_key(a[n - 2]) == range_model::row_key(b[n - 2]));
        lemma_same_run_start(a, b, n - 1);
    }
}

// ---------------------------------------------------------------------
// What a run makes of a state.
// ---------------------------------------------------------------------

/// What a state holds, without what it has charged and what is staged.
pub struct Holdings {
    pub cur: Option<CurView>,
    pub closed: Seq<SeriesView>,
    pub groups: Seq<GroupView>,
    pub covers: Seq<i64>,
}

/// What a state holds.
pub open spec fn holdings(v: SlideView) -> Holdings {
    Holdings { cur: v.cur, closed: v.closed, groups: v.groups, covers: v.covers }
}

/// Whether what is staged is what rows of one run stage.
#[verifier::opaque]
spec fn stages_run(
    cfg: SlideConfig,
    streams: Map<u64, StreamMeta>,
    v: SlideView,
    rows: Seq<MetricScanRow>,
    key: (u64, i64),
) -> bool {
    &&& v.members == staged_lines(cfg, streams, rows)
    &&& v.pending == (if v.members.len() == 0 {
        None
    } else {
        Some(key)
    })
}

/// The state that a row is staged in: the run before it is closed.
spec fn turned(
    cfg: SlideConfig,
    streams: Map<u64, StreamMeta>,
    v: SlideView,
    row: MetricScanRow,
) -> range_model::Step {
    if v.pending is Some && v.pending->0 != range_model::row_key(row) {
        range_model::flush(cfg, streams, v)
    } else {
        Ok(v)
    }
}

/// A row that is taken is staged.
proof fn lemma_row_is_staged(
    cfg: SlideConfig,
    streams: Map<u64, StreamMeta>,
    v: SlideView,
    row: MetricScanRow,
)
    requires
        range_model::take_row(cfg, streams, v, row) is Ok,
    ensures
        turned(cfg, streams, v, row) is Ok,
        ({
            let w = turned(cfg, streams, v, row)->Ok_0;
            let x = range_model::take_row(cfg, streams, v, row)->Ok_0;
            &&& holdings(x) == holdings(w)
            &&& match staged_line(cfg, streams, row) {
                None => x == w,
                Some(m) => x.members == w.members.push(m) && x.pending == Some(
                    range_model::row_key(row),
                ),
            }
        }),
{
}

/// After the rows of a run, a state is what closing the run before it left, with the
/// lines of the rows staged.
#[verifier::rlimit(60)]
proof fn lemma_run_is_staged(
    cfg: SlideConfig,
    streams: Map<u64, StreamMeta>,
    rows: Seq<MetricScanRow>,
    n: int,
)
    requires
        0 < n <= rows.len(),
        range_model::take_rows(cfg, streams, range::start_view(), rows, n) is Ok,
    ensures
        ({
            let b = run_start(rows, n);
            let v = range_model::take_rows(cfg, streams, range::start_view(), rows, n)->Ok_0;
            let before = range_model::take_rows(cfg, streams, range::start_view(), rows, b);
            &&& before is Ok
            &&& range_model::flush(cfg, streams, before->Ok_0) is Ok
            &&& holdings(v) == holdings(range_model::flush(cfg, streams, before->Ok_0)->Ok_0)
            &&& stages_run(
                cfg,
                streams,
                v,
                rows.subrange(b, n),
                range_model::row_key(rows[n - 1]),
            )
        }),
    decreases n,
{
    let b = run_start(rows, n);
    let row = rows[n - 1];
    let key = range_model::row_key(row);
    lemma_run(rows, n);
    assert(range_model::take_rows(cfg, streams, range::start_view(), rows, n - 1) is Ok);
    let u = range_model::take_rows(cfg, streams, range::start_view(), rows, n - 1)->Ok_0;
    if n > 1 {
        lemma_run_is_staged(cfg, streams, rows, n - 1);
    } else {
        assert(u == range::start_view());
    }
    let same = n > 1 && range_model::row_key(rows[n - 2]) == key;
    assert(range_model::take_row(cfg, streams, u, row) is Ok);
    lemma_row_is_staged(cfg, streams, u, row);
    let w = turned(cfg, streams, u, row)->Ok_0;
    let v = range_model::take_row(cfg, streams, u, row)->Ok_0;
    assert(range_model::take_rows(cfg, streams, range::start_view(), rows, n) == Ok::<
        SlideView,
        ErrorView,
    >(v));
    let part = rows.subrange(b, n);
    if same {
        assert(b == run_start(rows, n - 1));
        assert(w == u) by {
            reveal(stages_run);
        }
        lemma_one_more_staged(cfg, streams, w, v, rows.subrange(b, n - 1), row);
        assert(part =~= rows.subrange(b, n - 1).push(row));
    } else {
        assert(b == n - 1);
        assert(u.pending is None ==> u.members.len() == 0) by {
            reveal(stages_run);
        }
        assert(u.pending is Some ==> u.pending->0 != key) by {
            reveal(stages_run);
        }
        lemma_flush_of_nothing(cfg, streams, u);
        lemma_flush_empties(cfg, streams, u);
        assert(range_model::flush(cfg, streams, u) == Ok::<
            SlideView,
            ErrorView,
        >(w));
        lemma_one_more_staged(cfg, streams, w, v, Seq::empty(), row);
        assert(part =~= Seq::empty().push(row));
    }
}

/// Staging one more row of a run.
proof fn lemma_one_more_staged(
    cfg: SlideConfig,
    streams: Map<u64, StreamMeta>,
    w: SlideView,
    v: SlideView,
    rows: Seq<MetricScanRow>,
    row: MetricScanRow,
)
    requires
        stages_run(cfg, streams, w, rows, range_model::row_key(row)),
        match staged_line(cfg, streams, row) {
            None => v == w,
            Some(m) => v.members == w.members.push(m) && v.pending == Some(
                range_model::row_key(row),
            ),
        },
    ensures
        stages_run(cfg, streams, v, rows.push(row), range_model::row_key(row)),
{
    reveal(stages_run);
    assert(rows.push(row).drop_last() =~= rows);
}

/// Where nothing is staged, there is nothing to close.
proof fn lemma_flush_of_nothing(cfg: SlideConfig, streams: Map<u64, StreamMeta>, v: SlideView)
    ensures
        v.pending is None ==> range_model::flush(cfg, streams, v) == Ok::<
            SlideView,
            ErrorView,
        >(v),
{
}

/// Closing a run leaves nothing staged.
proof fn lemma_flush_empties(cfg: SlideConfig, streams: Map<u64, StreamMeta>, v: SlideView)
    requires
        v.pending is None ==> v.members.len() == 0,
        range_model::flush(cfg, streams, v) is Ok,
    ensures
        forall|key: (u64, i64)|
            stages_run(
                cfg,
                streams,
                range_model::flush(cfg, streams, v)->Ok_0,
                Seq::empty(),
                key,
            ),
        range_model::flush(cfg, streams, v)->Ok_0.pending is None,
        range_model::flush(cfg, streams, v)->Ok_0.members == Seq::<MemberView>::empty(),
{
    reveal(stages_run);
    match v.pending {
        None => {
            assert(v.members =~= Seq::empty());
        },
        Some((fp, ts)) => {
            if !cfg.is_absent && cfg.fan_out {
                let w = SlideView { pending: None, members: Seq::empty(), coll_bytes: 0, ..v };
                let members = range_model::ranked_members(cfg, v.members);
                lemma_fan_keeps_staged(
                    cfg,
                    w,
                    ts,
                    streams[fp].stream_hash,
                    members,
                    members.len() as int,
                );
            }
        },
    }
}

proof fn lemma_fan_keeps_staged(
    cfg: SlideConfig,
    v: SlideView,
    ts: i64,
    hash: u64,
    members: Seq<MemberView>,
    n: int,
)
    requires
        range_model::fan_all(cfg, v, ts, hash, members, n) is Ok,
    ensures
        range_model::fan_all(cfg, v, ts, hash, members, n)->Ok_0.pending == v.pending,
        range_model::fan_all(cfg, v, ts, hash, members, n)->Ok_0.members == v.members,
    decreases n,
{
    if n > 0 {
        lemma_fan_keeps_staged(cfg, v, ts, hash, members, n - 1);
    }
}

// ---------------------------------------------------------------------
// Where lines are ranked by their texts.
// ---------------------------------------------------------------------

/// Whether lines of one stream, nanosecond and text are one and the same line.
pub open spec fn texts_tell_lines(
    cfg: SlideConfig,
    streams: Map<u64, StreamMeta>,
    rows: Seq<MetricScanRow>,
) -> bool {
    forall|i: int, j: int|
        #![trigger rows[i], rows[j]]
        0 <= i < rows.len() && 0 <= j < rows.len() && range_model::row_key(rows[i])
            == range_model::row_key(rows[j]) && rows[i].body@ == rows[j].body@ && staged_line(
            cfg,
            streams,
            rows[i],
        ) is Some && staged_line(cfg, streams, rows[j]) is Some ==> staged_line(
            cfg,
            streams,
            rows[i],
        ) == staged_line(cfg, streams, rows[j])
}

proof fn lemma_staged_len(
    cfg: SlideConfig,
    streams: Map<u64, StreamMeta>,
    rows: Seq<MetricScanRow>,
)
    ensures
        staged_lines(cfg, streams, rows).len() <= rows.len(),
    decreases rows.len(),
{
    if rows.len() > 0 {
        lemma_staged_len(cfg, streams, rows.drop_last());
    }
}

/// What is fed to the groups does not depend on what has been charged.
proof fn lemma_fan_holds(
    cfg: SlideConfig,
    a: SlideView,
    b: SlideView,
    ts: i64,
    hash: u64,
    members: Seq<MemberView>,
    n: int,
)
    requires
        holdings(a) == holdings(b),
        range_model::fan_all(cfg, a, ts, hash, members, n) is Ok,
        range_model::fan_all(cfg, b, ts, hash, members, n) is Ok,
    ensures
        holdings(range_model::fan_all(cfg, a, ts, hash, members, n)->Ok_0) == holdings(
            range_model::fan_all(cfg, b, ts, hash, members, n)->Ok_0,
        ),
    decreases n,
{
    if n > 0 {
        lemma_fan_holds(cfg, a, b, ts, hash, members, n - 1);
    }
}

/// Closing a run of lines that are ranked by their texts, or that only mark their
/// time, does not depend on the order they came in.
proof fn lemma_flush_by_text(
    cfg: SlideConfig,
    streams: Map<u64, StreamMeta>,
    a: SlideView,
    b: SlideView,
)
    requires
        cfg.needs_body_order || cfg.is_absent,
        holdings(a) == holdings(b),
        a.pending == b.pending,
        a.members.len() <= usize::MAX,
        a.members.to_multiset() == b.members.to_multiset(),
        cfg.needs_body_order ==> forall|x: MemberView, y: MemberView|
            #![trigger a.members.contains(x), a.members.contains(y)]
            a.members.contains(x) && a.members.contains(y) && x.body == y.body ==> x == y,
        range_model::flush(cfg, streams, a) is Ok,
        range_model::flush(cfg, streams, b) is Ok,
    ensures
        holdings(range_model::flush(cfg, streams, a)->Ok_0) == holdings(
            range_model::flush(cfg, streams, b)->Ok_0,
        ),
{
    if a.pending is Some && !cfg.is_absent {
        let (fp, ts) = a.pending->0;
        range_model::law_ties_rank_by_text(cfg, a.members, b.members);
        let members = range_model::ranked_members(cfg, a.members);
        if cfg.fan_out {
            lemma_fan_holds(
                cfg,
                SlideView { pending: None, members: Seq::empty(), coll_bytes: 0, ..a },
                SlideView { pending: None, members: Seq::empty(), coll_bytes: 0, ..b },
                ts,
                streams[fp].stream_hash,
                members,
                members.len() as int,
            );
        }
    }
}

/// Of the lines of one run, those of one text are one line.
proof fn lemma_run_texts(
    cfg: SlideConfig,
    streams: Map<u64, StreamMeta>,
    rows: Seq<MetricScanRow>,
    n: int,
    x: MemberView,
    y: MemberView,
)
    requires
        cfg.needs_body_order,
        texts_tell_lines(cfg, streams, rows),
        0 < n <= rows.len(),
        staged_lines(cfg, streams, rows.subrange(run_start(rows, n), n)).contains(x),
        staged_lines(cfg, streams, rows.subrange(run_start(rows, n), n)).contains(y),
        x.body == y.body,
    ensures
        x == y,
{
    let b = run_start(rows, n);
    let part = rows.subrange(b, n);
    lemma_run(rows, n);
    let i = lemma_staged_from(cfg, streams, part, x);
    let j = lemma_staged_from(cfg, streams, part, y);
    assert(part[i] == rows[b + i] && part[j] == rows[b + j]);
    assert(range_model::row_key(rows[b + i]) == range_model::row_key(rows[b + j]));
}

/// After the same runs, two states hold the same.
proof fn lemma_same_holdings(
    cfg: SlideConfig,
    streams: Map<u64, StreamMeta>,
    a: Seq<MetricScanRow>,
    b: Seq<MetricScanRow>,
    n: int,
)
    requires
        cfg.needs_body_order || cfg.is_absent,
        a.len() <= usize::MAX,
        a.to_multiset() == b.to_multiset(),
        scanned(a),
        scanned(b),
        cfg.needs_body_order ==> texts_tell_lines(cfg, streams, a),
        0 <= n <= a.len(),
        run_ends(a, n),
        range_model::take_rows(cfg, streams, range::start_view(), a, n) is Ok,
        range_model::take_rows(cfg, streams, range::start_view(), b, n) is Ok,
    ensures
        ({
            let v = range_model::take_rows(cfg, streams, range::start_view(), a, n)->Ok_0;
            let w = range_model::take_rows(cfg, streams, range::start_view(), b, n)->Ok_0;
            &&& holdings(v) == holdings(w)
            &&& v.pending == w.pending
            &&& v.members.len() <= usize::MAX
            &&& v.members.to_multiset() == w.members.to_multiset()
            &&& cfg.needs_body_order ==> forall|x: MemberView, y: MemberView|
                #![trigger v.members.contains(x), v.members.contains(y)]
                v.members.contains(x) && v.members.contains(y) && x.body == y.body ==> x == y
        }),
    decreases n,
{
    broadcast use vstd::seq_lib::group_to_multiset_ensures;

    if n > 0 {
        lemma_runs_line_up(a, b, n);
        lemma_run(a, n);
        let s = run_start(a, n);
        lemma_run_is_staged(cfg, streams, a, n);
        lemma_run_is_staged(cfg, streams, b, n);
        lemma_same_holdings(cfg, streams, a, b, s);
        let (v, w) = (
            range_model::take_rows(cfg, streams, range::start_view(), a, s)->Ok_0,
            range_model::take_rows(cfg, streams, range::start_view(), b, s)->Ok_0,
        );
        lemma_flush_by_text(cfg, streams, v, w);
        let (x, y) = (a.subrange(s, n), b.subrange(s, n));
        reveal(stages_run);
        lemma_staged_permute(cfg, streams, x, y);
        lemma_staged_len(cfg, streams, x);
        let (mx, my) = (staged_lines(cfg, streams, x), staged_lines(cfg, streams, y));
        assert(mx.to_multiset().len() == mx.len() && my.to_multiset().len() == my.len());
        if cfg.needs_body_order {
            assert forall|p: MemberView, q: MemberView|
                #![trigger mx.contains(p), mx.contains(q)]
                mx.contains(p) && mx.contains(q) && p.body == q.body implies p == q by {
                lemma_run_texts(cfg, streams, a, n, p, q);
            }
        }
    }
}

/// Sorting rows puts them in scan order and keeps every row.
proof fn lemma_sorted_rows(rows: Seq<MetricScanRow>)
    requires
        rows.len() <= usize::MAX,
    ensures
        scanned(order::stable_sort(rows, client_agg::scan_rank())),
        order::stable_sort(rows, client_agg::scan_rank()).to_multiset() == rows.to_multiset(),
        order::stable_sort(rows, client_agg::scan_rank()).len() == rows.len(),
{
    broadcast use vstd::seq_lib::group_to_multiset_ensures;

    MetricScanRow::rank_is_preorder();
    let sorted = order::stable_sort(rows, client_agg::scan_rank());
    order::lemma_stable_sort_permutes(rows, client_agg::scan_rank());
    order::lemma_stable_sort_ascends(rows, client_agg::scan_rank());
    assert(sorted.to_multiset().len() == sorted.len());
    assert(rows.to_multiset().len() == rows.len());
    assert forall|i: int, j: int| 0 <= i <= j < sorted.len() implies range_model::scan_le(
        range_model::row_key(#[trigger] sorted[i]),
        range_model::row_key(#[trigger] sorted[j]),
    ) by {
        assert(client_agg::scan_rank()(sorted[i], sorted[j]));
    }
}

/// Sorting rows keeps what their texts tell.
proof fn lemma_sorted_texts(
    cfg: SlideConfig,
    streams: Map<u64, StreamMeta>,
    rows: Seq<MetricScanRow>,
    sorted: Seq<MetricScanRow>,
)
    requires
        sorted.to_multiset() == rows.to_multiset(),
        texts_tell_lines(cfg, streams, rows),
    ensures
        texts_tell_lines(cfg, streams, sorted),
{
    broadcast use vstd::seq_lib::group_to_multiset_ensures;

    assert forall|i: int| 0 <= i < sorted.len() implies rows.contains(#[trigger] sorted[i]) by {
        assert(sorted.contains(sorted[i]));
        assert(sorted.to_multiset().contains(sorted[i]));
    }
    assert forall|i: int, j: int|
        #![trigger sorted[i], sorted[j]]
        0 <= i < sorted.len() && 0 <= j < sorted.len() && range_model::row_key(sorted[i])
            == range_model::row_key(sorted[j]) && sorted[i].body@ == sorted[j].body@
            && staged_line(cfg, streams, sorted[i]) is Some && staged_line(
            cfg,
            streams,
            sorted[j],
        ) is Some implies staged_line(cfg, streams, sorted[i]) == staged_line(
        cfg,
        streams,
        sorted[j],
    ) by {
        let p = choose|p: int| 0 <= p < rows.len() && rows[p] == sorted[i];
        let q = choose|q: int| 0 <= q < rows.len() && rows[q] == sorted[j];
        assert(rows[p] == sorted[i] && rows[q] == sorted[j]);
    }
}

// ---------------------------------------------------------------------
// Where the order of lines at one nanosecond makes no difference.
// ---------------------------------------------------------------------

/// Which samples the group of a key holds: none, where there is no such group.
spec fn bag_of(groups: Seq<GroupView>, key: Seq<char>) -> Multiset<Unranked> {
    match range_model::group_index(groups, key) {
        None => Multiset::empty(),
        Some(i) => bags::bag(groups[i].hist),
    }
}

/// Whether every group has samples and a key of its own, which its labels render to.
spec fn tidy(groups: Seq<GroupView>) -> bool {
    &&& forall|i: int, j: int|
        0 <= i < j < groups.len() ==> (#[trigger] groups[i]).key != (#[trigger] groups[j]).key
    &&& forall|i: int|
        0 <= i < groups.len() ==> {
            &&& (#[trigger] groups[i]).key == text::json_object(groups[i].labels)
            &&& groups[i].hist.len() > 0
        }
}

proof fn lemma_index(groups: Seq<GroupView>, key: Seq<char>)
    ensures
        match range_model::group_index(groups, key) {
            Some(i) => 0 <= i < groups.len() && groups[i].key == key,
            None => forall|i: int| 0 <= i < groups.len() ==> (#[trigger] groups[i]).key != key,
        },
    decreases groups.len(),
{
    if groups.len() > 0 {
        lemma_index(groups.drop_last(), key);
        if groups.last().key != key && range_model::group_index(groups.drop_last(), key) is None {
            assert forall|i: int| 0 <= i < groups.len() implies (#[trigger] groups[i]).key
                != key by {
                if i < groups.len() - 1 {
                    assert(groups.drop_last()[i] == groups[i]);
                }
            }
        }
    }
}

/// A group is found by its key.
proof fn lemma_bag_at(groups: Seq<GroupView>, i: int)
    requires
        tidy(groups),
        0 <= i < groups.len(),
    ensures
        range_model::group_index(groups, groups[i].key) == Some(i),
        bag_of(groups, groups[i].key) == bags::bag(groups[i].hist),
{
    lemma_index(groups, groups[i].key);
    let j = range_model::group_index(groups, groups[i].key)->0;
    if j < i {
        assert(groups[j].key != groups[i].key);
    } else if j > i {
        assert(groups[i].key != groups[j].key);
    }
}

/// A group that is there holds a sample.
proof fn lemma_bag_tells(groups: Seq<GroupView>, key: Seq<char>)
    requires
        tidy(groups),
    ensures
        range_model::group_index(groups, key) is Some <==> bag_of(groups, key).len() > 0,
{
    lemma_index(groups, key);
    match range_model::group_index(groups, key) {
        None => {},
        Some(i) => {
            bags::lemma_bag_len(groups[i].hist);
        },
    }
}

/// Whether there are no more than `n` groups, and no history is longer than `n`.
spec fn within(h: Holdings, n: int) -> bool {
    &&& h.groups.len() <= n
    &&& h.cur matches Some(c) ==> c.hist.len() <= n
    &&& forall|i: int| 0 <= i < h.closed.len() ==> (#[trigger] h.closed[i]).hist.len() <= n
    &&& forall|i: int| 0 <= i < h.groups.len() ==> (#[trigger] h.groups[i]).hist.len() <= n
}

/// Whether two states hold the same samples, in whatever order.
spec fn alike(a: Holdings, b: Holdings) -> bool {
    &&& a.covers == b.covers
    &&& match (a.cur, b.cur) {
        (None, None) => true,
        (Some(c), Some(d)) => {
            &&& c.fp == d.fp
            &&& c.hash == d.hash
            &&& c.labels == d.labels
            &&& bags::bag(c.hist) == bags::bag(d.hist)
        },
        _ => false,
    }
    &&& a.closed.len() == b.closed.len()
    &&& forall|i: int|
        0 <= i < a.closed.len() ==> {
            &&& (#[trigger] a.closed[i]).labels == b.closed[i].labels
            &&& bags::bag(a.closed[i].hist) == bags::bag(b.closed[i].hist)
        }
    &&& forall|key: Seq<char>| #[trigger] bag_of(a.groups, key) == bag_of(b.groups, key)
}

/// Which samples the first `n` lines feed to the group of a key.
spec fn fed(members: Seq<MemberView>, n: int, ts: i64, hash: u64, key: Seq<char>) -> Multiset<
    Unranked,
>
    decreases n,
{
    if n <= 0 {
        Multiset::empty()
    } else {
        let rest = fed(members, n - 1, ts, hash, key);
        if (members[n - 1].out->0).0 == key {
            rest.insert((ts, hash, members[n - 1].value))
        } else {
            rest
        }
    }
}

proof fn lemma_fed_count(
    members: Seq<MemberView>,
    n: int,
    ts: i64,
    hash: u64,
    key: Seq<char>,
    x: Unranked,
)
    requires
        0 <= n <= members.len(),
    ensures
        fed(members, n, ts, hash, key).count(x) == order::sum_of(
            members.take(n),
            |m: MemberView|
                if (m.out->0).0 == key && (ts, hash, m.value) == x {
                    1int
                } else {
                    0
                },
        ),
    decreases n,
{
    broadcast use vstd::multiset::group_multiset_axioms;

    if n > 0 {
        lemma_fed_count(members, n - 1, ts, hash, key, x);
        assert(members.take(n).drop_last() =~= members.take(n - 1));
        assert(members.take(n).last() == members[n - 1]);
    }
}

/// The same lines feed the same samples.
proof fn lemma_fed_permutes(
    a: Seq<MemberView>,
    b: Seq<MemberView>,
    ts: i64,
    hash: u64,
    key: Seq<char>,
)
    requires
        a.to_multiset() == b.to_multiset(),
    ensures
        fed(a, a.len() as int, ts, hash, key) == fed(b, b.len() as int, ts, hash, key),
{
    let (p, q) = (
        fed(a, a.len() as int, ts, hash, key),
        fed(b, b.len() as int, ts, hash, key),
    );
    assert(a.take(a.len() as int) =~= a);
    assert(b.take(b.len() as int) =~= b);
    assert forall|x: Unranked| p.count(x) == q.count(x) by {
        lemma_fed_count(a, a.len() as int, ts, hash, key, x);
        lemma_fed_count(b, b.len() as int, ts, hash, key, x);
        order::lemma_sum_permutes(
            a,
            b,
            |m: MemberView|
                if (m.out->0).0 == key && (ts, hash, m.value) == x {
                    1int
                } else {
                    0
                },
        );
    }
    assert(p =~= q);
}

/// A sample that is fed to its group.
proof fn lemma_feed(groups: Seq<GroupView>, i: int, s: WinSample, k: Seq<char>, n: int)
    requires
        tidy(groups),
        0 <= i < groups.len(),
        forall|j: int| 0 <= j < groups.len() ==> (#[trigger] groups[j]).hist.len() <= n,
    ensures
        ({
            let next = groups.update(i, GroupView { hist: groups[i].hist.push(s), ..groups[i] });
            &&& tidy(next)
            &&& bag_of(next, k) == (if k == groups[i].key {
                bag_of(groups, k).insert(bags::unranked(s))
            } else {
                bag_of(groups, k)
            })
            &&& forall|j: int| 0 <= j < next.len() ==> (#[trigger] next[j]).hist.len() <= n + 1
        }),
{
    let next = groups.update(i, GroupView { hist: groups[i].hist.push(s), ..groups[i] });
    assert forall|x: int, y: int| 0 <= x < y < next.len() implies (#[trigger] next[x]).key != (
    #[trigger] next[y]).key by {
        assert(groups[x].key != groups[y].key);
    }
    assert forall|x: int| 0 <= x < next.len() implies (#[trigger] next[x]).key
        == text::json_object(next[x].labels) && next[x].hist.len() > 0 && next[x].hist.len() <= n
        + 1 by {
        assert(groups[x].key == text::json_object(groups[x].labels));
    }
    lemma_index(groups, k);
    lemma_index(next, k);
    lemma_bag_at(groups, i);
    lemma_bag_at(next, i);
    bags::lemma_bag_push(groups[i].hist, s);
    match range_model::group_index(groups, k) {
        Some(j) => {
            lemma_bag_at(groups, j);
            lemma_bag_at(next, j);
            assert(next[j].key == k);
        },
        None => {
            assert forall|x: int| 0 <= x < next.len() implies (#[trigger] next[x]).key != k by {
                assert(groups[x].key != k);
            }
        },
    }
}

/// A group that is opened with its first sample.
proof fn lemma_open(groups: Seq<GroupView>, g: GroupView, s: WinSample, k: Seq<char>, n: int)
    requires
        tidy(groups),
        range_model::group_index(groups, g.key) is None,
        g.key == text::json_object(g.labels),
        g.hist == Seq::<WinSample>::empty(),
        n >= 0,
        forall|j: int| 0 <= j < groups.len() ==> (#[trigger] groups[j]).hist.len() <= n,
    ensures
        ({
            let next = groups.push(GroupView { hist: g.hist.push(s), ..g });
            &&& tidy(next)
            &&& bag_of(next, k) == (if k == g.key {
                bag_of(groups, k).insert(bags::unranked(s))
            } else {
                bag_of(groups, k)
            })
            &&& forall|j: int| 0 <= j < next.len() ==> (#[trigger] next[j]).hist.len() <= n + 1
        }),
{
    broadcast use vstd::seq_lib::group_to_multiset_ensures;
    broadcast use vstd::multiset::group_multiset_axioms;

    let next = groups.push(GroupView { hist: g.hist.push(s), ..g });
    lemma_index(groups, g.key);
    assert forall|x: int, y: int| 0 <= x < y < next.len() implies (#[trigger] next[x]).key != (
    #[trigger] next[y]).key by {
        assert(next[x] == groups[x]);
        if y < groups.len() {
            assert(next[y] == groups[y]);
        }
    }
    assert forall|x: int| 0 <= x < next.len() implies (#[trigger] next[x]).key
        == text::json_object(next[x].labels) && next[x].hist.len() > 0 && next[x].hist.len() <= n
        + 1 by {
        if x < groups.len() {
            assert(next[x] == groups[x]);
        }
    }
    bags::lemma_bag_push(g.hist, s);
    bags::lemma_bag_len(g.hist);
    assert(bags::bag(g.hist) =~= Multiset::empty());
    lemma_index(groups, k);
    if k == g.key {
        lemma_bag_at(next, groups.len() as int);
    } else {
        lemma_index(next, k);
        match range_model::group_index(groups, k) {
            Some(j) => {
                assert(next[j] == groups[j]);
                lemma_bag_at(next, j);
            },
            None => {
                assert forall|x: int| 0 <= x < next.len() implies (#[trigger] next[x]).key
                    != k by {
                    if x < groups.len() {
                        assert(next[x] == groups[x]);
                    }
                }
            },
        }
    }
}

/// What a state holds besides its groups.
spec fn beside_groups(v: SlideView) -> Holdings {
    Holdings { groups: Seq::empty(), ..holdings(v) }
}

/// One sample that is fed to its group.
proof fn lemma_fan_one_bags(
    cfg: SlideConfig,
    v: SlideView,
    key: Seq<char>,
    labels: Seq<PairView>,
    s: WinSample,
    k: Seq<char>,
    n: int,
)
    requires
        tidy(v.groups),
        n >= 0,
        key == text::json_object(labels),
        cfg.grid.first_cover(s.ts as int) <= cfg.grid.last_cover(s.ts as int),
        forall|j: int| 0 <= j < v.groups.len() ==> (#[trigger] v.groups[j]).hist.len() <= n,
        range_model::fan_one(cfg, v, key, labels, s) is Ok,
    ensures
        ({
            let u = range_model::fan_one(cfg, v, key, labels, s)->Ok_0;
            &&& tidy(u.groups)
            &&& beside_groups(u) == beside_groups(v)
            &&& bag_of(u.groups, k) == (if k == key {
                bag_of(v.groups, k).insert(bags::unranked(s))
            } else {
                bag_of(v.groups, k)
            })
            &&& u.groups.len() <= v.groups.len() + 1
            &&& forall|j: int| 0 <= j < u.groups.len() ==> (#[trigger] u.groups[j]).hist.len() <= n
                + 1
        }),
{
    lemma_index(v.groups, key);
    let u = range_model::fan_one(cfg, v, key, labels, s)->Ok_0;
    match range_model::group_index(v.groups, key) {
        Some(i) => {
            lemma_feed(v.groups, i, s, k, n);
        },
        None => {
            let g = GroupView { key, labels, hist: Seq::empty() };
            lemma_open(v.groups, g, s, k, n);
            let at = v.groups.len() as int;
            let fresh = GroupView { hist: g.hist.push(s), ..g };
            assert(v.groups.push(g).update(at, fresh) =~= v.groups.push(fresh));
            assert(u.groups == v.groups.push(fresh));
        },
    }
}

/// Whether lines that carry labels carry what the labels render to.
spec fn rendered(cfg: SlideConfig, members: Seq<MemberView>) -> bool {
    cfg.stages_out() ==> forall|i: int|
        0 <= i < members.len() ==> (#[trigger] members[i]).out is Some && (members[i].out->0).0
            == text::json_object((members[i].out->0).1)
}

proof fn lemma_fan_bags(
    cfg: SlideConfig,
    v: SlideView,
    ts: i64,
    hash: u64,
    members: Seq<MemberView>,
    n: int,
    k: Seq<char>,
    most: int,
)
    requires
        cfg.stages_out(),
        tidy(v.groups),
        rendered(cfg, members),
        0 <= n <= members.len(),
        v.groups.len() <= most,
        forall|j: int| 0 <= j < v.groups.len() ==> (#[trigger] v.groups[j]).hist.len() <= most,
        range_model::fan_all(cfg, v, ts, hash, members, n) is Ok,
    ensures
        ({
            let u = range_model::fan_all(cfg, v, ts, hash, members, n)->Ok_0;
            &&& tidy(u.groups)
            &&& beside_groups(u) == beside_groups(v)
            &&& bag_of(u.groups, k) == (if cfg.grid.first_cover(ts as int)
                <= cfg.grid.last_cover(ts as int) {
                bag_of(v.groups, k).add(fed(members, n, ts, hash, k))
            } else {
                bag_of(v.groups, k)
            })
            &&& u.groups.len() <= most + n
            &&& forall|j: int|
                0 <= j < u.groups.len() ==> (#[trigger] u.groups[j]).hist.len() <= most + n
        }),
    decreases n,
{
    broadcast use vstd::multiset::group_multiset_axioms;

    if n <= 0 {
        assert(bag_of(v.groups, k).add(Multiset::empty()) =~= bag_of(v.groups, k));
    } else {
        lemma_fan_bags(cfg, v, ts, hash, members, n - 1, k, most);
        let w = range_model::fan_all(cfg, v, ts, hash, members, n - 1)->Ok_0;
        let m = members[n - 1];
        let s = WinSample { ts, stream_hash: hash, tie_rank: (n - 1) as u32, value: m.value };
        let (key, labels) = m.out->0;
        if cfg.grid.first_cover(ts as int) <= cfg.grid.last_cover(ts as int) {
            lemma_fan_one_bags(cfg, w, key, labels, s, k, most + n - 1);
            let rest = fed(members, n - 1, ts, hash, k);
            assert(bag_of(v.groups, k).add(rest).insert(bags::unranked(s)) =~= bag_of(
                v.groups,
                k,
            ).add(rest.insert(bags::unranked(s))));
        } else {
            assert(range_model::fan_one(cfg, w, key, labels, s) == Ok::<
                SlideView,
                ErrorView,
            >(w));
        }
    }
}

/// Closing the stream that is slid over.
proof fn lemma_rotate_bags(cfg: SlideConfig, a: SlideView, b: SlideView, n: int)
    requires
        alike(holdings(a), holdings(b)),
        within(holdings(a), n),
        within(holdings(b), n),
    ensures
        alike(holdings(range_model::rotate(cfg, a)), holdings(range_model::rotate(cfg, b))),
        within(holdings(range_model::rotate(cfg, a)), n),
        within(holdings(range_model::rotate(cfg, b)), n),
        range_model::rotate(cfg, a).cur is None,
        range_model::rotate(cfg, b).cur is None,
        range_model::rotate(cfg, a).groups == a.groups,
        range_model::rotate(cfg, b).groups == b.groups,
{
    if a.cur is Some {
        bags::lemma_points_by_bag(
            cfg.grid,
            a.cur->0.hist,
            b.cur->0.hist,
            cfg.grid.slots(),
        );
    }
    let (u, w) = (range_model::rotate(cfg, a), range_model::rotate(cfg, b));
    assert(u.groups == a.groups && w.groups == b.groups);
    assert(u.covers == a.covers && w.covers == b.covers);
    lemma_holdings(a);
    lemma_holdings(b);
    lemma_holdings(u);
    lemma_holdings(w);
    assert(u.closed.len() == w.closed.len());
    assert forall|i: int| 0 <= i < u.closed.len() implies (#[trigger] u.closed[i]).labels
        == w.closed[i].labels && bags::bag(u.closed[i].hist) == bags::bag(w.closed[i].hist)
        && u.closed[i].hist.len() <= n && w.closed[i].hist.len() <= n by {
        if i < a.closed.len() {
            assert(u.closed[i] == a.closed[i]);
            assert(w.closed[i] == b.closed[i]);
            assert(holdings(a).closed[i] == a.closed[i]);
            assert(holdings(b).closed[i] == b.closed[i]);
        }
    }
    assert(alike(holdings(u), holdings(w)));
    assert forall|i: int| 0 <= i < w.closed.len() implies (#[trigger] w.closed[i]).hist.len()
        <= n by {
        assert(u.closed[i].hist.len() <= n);
    }
    assert(within(holdings(u), n));
    assert(within(holdings(w), n));
}

/// What a state holds, field by field.
proof fn lemma_holdings(v: SlideView)
    ensures
        holdings(v).cur == v.cur,
        holdings(v).closed == v.closed,
        holdings(v).groups == v.groups,
        holdings(v).covers == v.covers,
{
}

/// How long the histories of a state's groups are.
proof fn lemma_within_groups(v: SlideView, n: int)
    requires
        within(holdings(v), n),
    ensures
        forall|j: int| 0 <= j < v.groups.len() ==> (#[trigger] v.groups[j]).hist.len() <= n,
{
    assert forall|j: int| 0 <= j < v.groups.len() implies (#[trigger] v.groups[j]).hist.len()
        <= n by {
        assert(holdings(v).groups[j].hist.len() <= n);
    }
}

/// The samples of a run's lines.
proof fn lemma_ranked_bag(a: Seq<MemberView>, b: Seq<MemberView>, ts: i64, hash: u64)
    requires
        a.to_multiset() == b.to_multiset(),
    ensures
        bags::bag(slide::ranked(range_model::values_of(a), ts, hash)) == bags::bag(
            slide::ranked(range_model::values_of(b), ts, hash),
        ),
{
    let f = |m: MemberView| (ts, hash, m.value);
    order::lemma_mapped_permutes(a, b, f);
    assert(bags::unranked_all(slide::ranked(range_model::values_of(a), ts, hash))
        =~= a.map_values(f));
    assert(bags::unranked_all(slide::ranked(range_model::values_of(b), ts, hash))
        =~= b.map_values(f));
}

/// Feeding a run's lines to the window sliding over their stream.
proof fn lemma_load_bags(
    cfg: SlideConfig,
    a: SlideView,
    b: SlideView,
    ts: i64,
    x: Seq<MemberView>,
    y: Seq<MemberView>,
    n: int,
)
    requires
        a.cur is Some,
        alike(holdings(a), holdings(b)),
        within(holdings(a), n),
        within(holdings(b), n),
        x.to_multiset() == y.to_multiset(),
        range_model::load(cfg, a, ts, x) is Ok,
        range_model::load(cfg, b, ts, y) is Ok,
    ensures
        ({
            let (u, w) = (
                range_model::load(cfg, a, ts, x)->Ok_0,
                range_model::load(cfg, b, ts, y)->Ok_0,
            );
            &&& alike(holdings(u), holdings(w))
            &&& within(holdings(u), n + x.len())
            &&& within(holdings(w), n + y.len())
            &&& u.groups == a.groups
            &&& w.groups == b.groups
        }),
{
    let (c, d) = (a.cur->0, b.cur->0);
    lemma_ranked_bag(x, y, ts, c.hash);
    bags::lemma_bag_join(c.hist, slide::ranked(range_model::values_of(x), ts, c.hash));
    bags::lemma_bag_join(d.hist, slide::ranked(range_model::values_of(y), ts, d.hash));
    let (u, w) = (range_model::load(cfg, a, ts, x)->Ok_0, range_model::load(cfg, b, ts, y)->Ok_0);
    assert(alike(holdings(u), holdings(w))) by {
        assert(u.closed == a.closed && w.closed == b.closed);
        assert(u.groups == a.groups && w.groups == b.groups);
        assert(holdings(a).closed == a.closed && holdings(b).closed == b.closed);
        assert(holdings(a).groups == a.groups && holdings(b).groups == b.groups);
    }
    assert(range_model::values_of(x).len() == x.len());
    assert(range_model::values_of(y).len() == y.len());
    assert(u.cur->0.hist.len() == c.hist.len() + x.len());
    assert(w.cur->0.hist.len() == d.hist.len() + y.len());
    assert forall|i: int| 0 <= i < u.closed.len() implies (#[trigger] u.closed[i]).hist.len() <= n
        + x.len() by {
        assert(holdings(a).closed[i].hist.len() <= n);
    }
    assert forall|i: int| 0 <= i < w.closed.len() implies (#[trigger] w.closed[i]).hist.len() <= n
        + y.len() by {
        assert(holdings(b).closed[i].hist.len() <= n);
    }
    assert forall|i: int| 0 <= i < u.groups.len() implies (#[trigger] u.groups[i]).hist.len() <= n
        + x.len() by {
        assert(holdings(a).groups[i].hist.len() <= n);
    }
    assert forall|i: int| 0 <= i < w.groups.len() implies (#[trigger] w.groups[i]).hist.len() <= n
        + y.len() by {
        assert(holdings(b).groups[i].hist.len() <= n);
    }
}

/// Closing a run of lines whose order makes no difference.
#[verifier::rlimit(50)]
proof fn lemma_flush_by_bag(
    cfg: SlideConfig,
    streams: Map<u64, StreamMeta>,
    a: SlideView,
    b: SlideView,
    n: int,
)
    requires
        !cfg.needs_body_order,
        !cfg.is_absent,
        alike(holdings(a), holdings(b)),
        tidy(a.groups),
        tidy(b.groups),
        n >= 0,
        within(holdings(a), n),
        within(holdings(b), n),
        a.pending == b.pending,
        a.members.len() == b.members.len(),
        a.members.to_multiset() == b.members.to_multiset(),
        rendered(cfg, a.members),
        rendered(cfg, b.members),
        range_model::flush(cfg, streams, a) is Ok,
        range_model::flush(cfg, streams, b) is Ok,
    ensures
        ({
            let (u, w) = (
                range_model::flush(cfg, streams, a)->Ok_0,
                range_model::flush(cfg, streams, b)->Ok_0,
            );
            &&& alike(holdings(u), holdings(w))
            &&& tidy(u.groups)
            &&& tidy(w.groups)
            &&& within(holdings(u), n + a.members.len())
            &&& within(holdings(w), n + a.members.len())
        }),
{
    let (u, w) = (
        range_model::flush(cfg, streams, a)->Ok_0,
        range_model::flush(cfg, streams, b)->Ok_0,
    );
    let m = a.members.len() as int;
    match a.pending {
        None => {
            lemma_within_more(holdings(a), n, n + m);
            lemma_within_more(holdings(b), n, n + m);
        },
        Some((fp, ts)) => {
            let p = SlideView { pending: None, members: Seq::empty(), coll_bytes: 0, ..a };
            let q = SlideView { pending: None, members: Seq::empty(), coll_bytes: 0, ..b };
            let hash = streams[fp].stream_hash;
            assert(holdings(p) == holdings(a) && holdings(q) == holdings(b));
            lemma_within_groups(p, n);
            lemma_within_groups(q, n);
            if cfg.fan_out {
                assert forall|k: Seq<char>| #[trigger] bag_of(u.groups, k) == bag_of(
                    w.groups,
                    k,
                ) by {
                    lemma_fan_bags(cfg, p, ts, hash, a.members, m, k, n);
                    lemma_fan_bags(cfg, q, ts, hash, b.members, m, k, n);
                    lemma_fed_permutes(a.members, b.members, ts, hash, k);
                    assert(bag_of(holdings(a).groups, k) == bag_of(holdings(b).groups, k));
                }
                lemma_fan_bags(cfg, p, ts, hash, a.members, m, Seq::empty(), n);
                lemma_fan_bags(cfg, q, ts, hash, b.members, m, Seq::empty(), n);
                assert(holdings(u).closed == beside_groups(u).closed);
                assert(holdings(w).closed == beside_groups(w).closed);
                assert(holdings(u).cur == beside_groups(u).cur);
                assert(holdings(w).cur == beside_groups(w).cur);
                lemma_within_more(holdings(a), n, n + m);
                lemma_within_more(holdings(b), n, n + m);
            } else {
                let labels = text::labels_view(streams[fp].labels@);
                if a.cur is Some && a.cur->0.fp == fp {
                    lemma_load_bags(cfg, p, q, ts, a.members, b.members, n);
                } else {
                    lemma_rotate_bags(cfg, p, q, n);
                    let (x, y) = (range_model::rotate(cfg, p), range_model::rotate(cfg, q));
                    let slot = range_model::series_slot();
                    let cur = Some(CurView { fp, hash, labels, hist: Seq::empty() });
                    let f = SlideView {
                        cur,
                        ..range_model::open_series(cfg, x, Seq::empty(), labels, slot)->Ok_0
                    };
                    let g = SlideView {
                        cur,
                        ..range_model::open_series(cfg, y, Seq::empty(), labels, slot)->Ok_0
                    };
                    assert(holdings(f) == Holdings { cur, ..holdings(x) });
                    assert(holdings(g) == Holdings { cur, ..holdings(y) });
                    assert(alike(holdings(f), holdings(g)));
                    assert(within(holdings(f), n) && within(holdings(g), n));
                    lemma_load_bags(cfg, f, g, ts, a.members, b.members, n);
                }
            }
        },
    }
}

proof fn lemma_within_more(h: Holdings, n: int, more: int)
    requires
        within(h, n),
        n <= more,
    ensures
        within(h, more),
{
}

/// What rows stage carries what its labels render to.
proof fn lemma_staged_rendered(
    cfg: SlideConfig,
    streams: Map<u64, StreamMeta>,
    rows: Seq<MetricScanRow>,
)
    ensures
        rendered(cfg, staged_lines(cfg, streams, rows)),
    decreases rows.len(),
{
    if rows.len() > 0 {
        lemma_staged_rendered(cfg, streams, rows.drop_last());
        let (s, head) = (
            staged_lines(cfg, streams, rows),
            staged_lines(cfg, streams, rows.drop_last()),
        );
        if cfg.stages_out() {
            assert forall|i: int| 0 <= i < s.len() implies (#[trigger] s[i]).out is Some && (
            s[i].out->0).0 == text::json_object((s[i].out->0).1) by {
                if i < head.len() {
                    assert(s[i] == head[i]);
                }
            }
        }
    }
}

/// After the same runs, two states hold the same samples.
proof fn lemma_same_bags(
    cfg: SlideConfig,
    streams: Map<u64, StreamMeta>,
    a: Seq<MetricScanRow>,
    b: Seq<MetricScanRow>,
    n: int,
)
    requires
        !cfg.needs_body_order,
        !cfg.is_absent,
        a.len() <= usize::MAX,
        a.to_multiset() == b.to_multiset(),
        scanned(a),
        scanned(b),
        0 <= n <= a.len(),
        run_ends(a, n),
        range_model::take_rows(cfg, streams, range::start_view(), a, n) is Ok,
        range_model::take_rows(cfg, streams, range::start_view(), b, n) is Ok,
    ensures
        ({
            let v = range_model::take_rows(cfg, streams, range::start_view(), a, n)->Ok_0;
            let w = range_model::take_rows(cfg, streams, range::start_view(), b, n)->Ok_0;
            &&& alike(holdings(v), holdings(w))
            &&& tidy(v.groups)
            &&& tidy(w.groups)
            &&& v.members.len() <= n
            &&& within(holdings(v), n - v.members.len())
            &&& within(holdings(w), n - v.members.len())
            &&& v.pending == w.pending
            &&& v.members.len() == w.members.len()
            &&& v.members.to_multiset() == w.members.to_multiset()
            &&& rendered(cfg, v.members)
            &&& rendered(cfg, w.members)
        }),
    decreases n,
{
    broadcast use vstd::seq_lib::group_to_multiset_ensures;

    if n > 0 {
        lemma_runs_line_up(a, b, n);
        lemma_run(a, n);
        let s = run_start(a, n);
        lemma_run_is_staged(cfg, streams, a, n);
        lemma_run_is_staged(cfg, streams, b, n);
        lemma_same_bags(cfg, streams, a, b, s);
        let (v, w) = (
            range_model::take_rows(cfg, streams, range::start_view(), a, s)->Ok_0,
            range_model::take_rows(cfg, streams, range::start_view(), b, s)->Ok_0,
        );
        lemma_flush_by_bag(cfg, streams, v, w, s - v.members.len());
        let (x, y) = (a.subrange(s, n), b.subrange(s, n));
        reveal(stages_run);
        lemma_staged_permute(cfg, streams, x, y);
        lemma_staged_len(cfg, streams, x);
        lemma_staged_rendered(cfg, streams, x);
        lemma_staged_rendered(cfg, streams, y);
        let (mx, my) = (staged_lines(cfg, streams, x), staged_lines(cfg, streams, y));
        assert(mx.to_multiset().len() == mx.len() && my.to_multiset().len() == my.len());
        lemma_within_more(
            holdings(range_model::flush(cfg, streams, v)->Ok_0),
            s as int,
            n - mx.len(),
        );
        lemma_within_more(
            holdings(range_model::flush(cfg, streams, w)->Ok_0),
            s as int,
            n - mx.len(),
        );
    }
}

// ---------------------------------------------------------------------
// The answer.
// ---------------------------------------------------------------------

/// A group as its labels and the samples it holds.
spec fn told(g: GroupView) -> (Seq<PairView>, Multiset<Unranked>) {
    (g.labels, bags::bag(g.hist))
}

/// Groups as their labels and the samples they hold.
spec fn told_all(groups: Seq<GroupView>) -> Seq<(Seq<PairView>, Multiset<Unranked>)> {
    groups.map_values(|g: GroupView| told(g))
}

/// The order of groups: by their labels.
spec fn told_le() -> spec_fn(
    (Seq<PairView>, Multiset<Unranked>),
    (Seq<PairView>, Multiset<Unranked>),
) -> bool {
    |x: (Seq<PairView>, Multiset<Unranked>), y: (Seq<PairView>, Multiset<Unranked>)|
        text::labels_le(x.0, y.0)
}

proof fn lemma_told_le_preorder()
    ensures
        order::total_preorder(told_le()),
        order::total_preorder(range::group_le()),
{
    text::lemma_pair_le_preorder();
    let le = told_le();
    assert forall|
        x: (Seq<PairView>, Multiset<Unranked>),
        y: (Seq<PairView>, Multiset<Unranked>),
    | #[trigger] le(x, y) || le(y, x) by {
        text::lemma_lex_total(x.0, y.0, text::pair_le());
    }
    assert forall|
        x: (Seq<PairView>, Multiset<Unranked>),
        y: (Seq<PairView>, Multiset<Unranked>),
        z: (Seq<PairView>, Multiset<Unranked>),
    | #[trigger] le(x, y) && #[trigger] le(y, z) implies le(x, z) by {
        text::lemma_lex_chains(x.0, y.0, z.0, text::pair_le());
    }
    let group_le = range::group_le();
    assert forall|x: GroupView, y: GroupView| #[trigger] group_le(x, y) || group_le(y, x) by {
        text::lemma_lex_total(x.labels, y.labels, text::pair_le());
    }
    assert forall|x: GroupView, y: GroupView, z: GroupView|
        #[trigger] group_le(x, y) && #[trigger] group_le(y, z) implies group_le(x, z) by {
        text::lemma_lex_chains(x.labels, y.labels, z.labels, text::pair_le());
    }
}

/// A group among groups is told by its labels.
proof fn lemma_told_once(groups: Seq<GroupView>)
    requires
        tidy(groups),
    ensures
        told_all(groups).no_duplicates(),
        forall|i: int, j: int|
            0 <= i < groups.len() && 0 <= j < groups.len() && (#[trigger] groups[i]).labels == (
            #[trigger] groups[j]).labels ==> i == j,
{
    assert forall|i: int, j: int|
        0 <= i < groups.len() && 0 <= j < groups.len() && (#[trigger] groups[i]).labels == (
        #[trigger] groups[j]).labels implies i == j by {
        assert(groups[i].key == text::json_object(groups[i].labels));
        assert(groups[j].key == text::json_object(groups[j].labels));
        if i < j {
            assert(groups[i].key != groups[j].key);
        } else if j < i {
            assert(groups[j].key != groups[i].key);
        }
    }
    let s = told_all(groups);
    assert forall|i: int, j: int| 0 <= i < s.len() && 0 <= j < s.len() && i != j implies s[i]
        != s[j] by {
        assert(s[i].0 == groups[i].labels && s[j].0 == groups[j].labels);
    }
}

/// Where every key's group holds the same samples, every group is among both.
proof fn lemma_told_among(
    a: Seq<GroupView>,
    b: Seq<GroupView>,
    x: (Seq<PairView>, Multiset<Unranked>),
)
    requires
        tidy(a),
        tidy(b),
        forall|key: Seq<char>| #[trigger] bag_of(a, key) == bag_of(b, key),
        told_all(a).contains(x),
    ensures
        told_all(b).contains(x),
{
    let i = choose|i: int| 0 <= i < told_all(a).len() && told_all(a)[i] == x;
    assert(told(a[i]) == x);
    lemma_bag_at(a, i);
    let key = a[i].key;
    assert(bag_of(a, key) == bag_of(b, key));
    lemma_bag_tells(a, key);
    lemma_bag_tells(b, key);
    lemma_index(b, key);
    let j = range_model::group_index(b, key)->0;
    assert(b[j].key == text::json_object(b[j].labels));
    text::law_rendered_labels_tell_the_labels(a[i].labels, b[j].labels);
    assert(told_all(b)[j] == x);
}

/// Groups of the same samples sort the same.
proof fn lemma_told_sorted(a: Seq<GroupView>, b: Seq<GroupView>)
    requires
        tidy(a),
        tidy(b),
        a.len() <= usize::MAX,
        b.len() <= usize::MAX,
        forall|key: Seq<char>| #[trigger] bag_of(a, key) == bag_of(b, key),
    ensures
        told_all(order::stable_sort(a, range::group_le())) == told_all(
            order::stable_sort(b, range::group_le()),
        ),
{
    broadcast use vstd::seq_lib::group_to_multiset_ensures;

    lemma_told_le_preorder();
    lemma_told_once(a);
    lemma_told_once(b);
    let (x, y) = (told_all(a), told_all(b));
    x.lemma_multiset_has_no_duplicates();
    y.lemma_multiset_has_no_duplicates();
    assert forall|p: (Seq<PairView>, Multiset<Unranked>)|
        x.to_multiset().count(p) == y.to_multiset().count(p) by {
        if x.contains(p) {
            lemma_told_among(a, b, p);
            assert(x.to_multiset().contains(p) && y.to_multiset().contains(p));
        } else if y.contains(p) {
            lemma_told_among(b, a, p);
        } else {
            assert(!x.to_multiset().contains(p) && !y.to_multiset().contains(p));
        }
    }
    assert(x.to_multiset() =~= y.to_multiset());
    let f = |g: GroupView| told(g);
    order::lemma_stable_sort_mapped(a, f, range::group_le(), told_le());
    order::lemma_stable_sort_mapped(b, f, range::group_le(), told_le());
    assert forall|p: (Seq<PairView>, Multiset<Unranked>), q: (Seq<PairView>, Multiset<Unranked>)|
        x.contains(p) && x.contains(q) && #[trigger] told_le()(p, q) && told_le()(q, p) implies p
        == q by {
        text::lemma_labels_le_antisymmetric(p.0, q.0);
        let i = choose|i: int| 0 <= i < x.len() && x[i] == p;
        let j = choose|j: int| 0 <= j < x.len() && x[j] == q;
        assert(a[i].labels == a[j].labels);
    }
    order::lemma_stable_sort_unique_among(x, y, told_le());
}

/// The series of groups with points.
spec fn shown_points<A: Fn(Arith, u64, u64) -> u64>(
    arith: A,
    cfg: SlideConfig,
    groups: Seq<GroupView>,
) -> Seq<SeriesPointsView> {
    groups.filter(range::shows(cfg)).map_values(
        |g: GroupView|
            (
                g.labels,
                reduction::grid_values(
                    arith,
                    cfg.reducer,
                    cfg.grid,
                    cells::canonical(cfg.reducer.class, g.hist),
                    cfg.grid.slots(),
                ),
            ),
    )
}

/// Groups that hold the same samples have the same series.
proof fn lemma_shown_by_bag<A: Fn(Arith, u64, u64) -> u64>(
    arith: A,
    cfg: SlideConfig,
    a: Seq<GroupView>,
    b: Seq<GroupView>,
    numbers: Set<u64>,
)
    requires
        bags::ignores_order(arith, cfg.reducer, numbers),
        told_all(a) == told_all(b),
        forall|i: int|
            0 <= i < a.len() ==> bags::among(
                arith,
                cfg.reducer,
                (#[trigger] a[i]).hist,
                numbers,
            ),
        forall|i: int| 0 <= i < a.len() ==> (#[trigger] a[i]).hist.len() <= usize::MAX,
        forall|i: int| 0 <= i < b.len() ==> (#[trigger] b[i]).hist.len() <= usize::MAX,
    ensures
        shown_points(arith, cfg, a) == shown_points(arith, cfg, b),
    decreases a.len(),
{
    reveal(Seq::filter);
    assert(told_all(a).len() == a.len() && told_all(b).len() == b.len());
    if a.len() == 0 {
        assert(shown_points(arith, cfg, a) =~= shown_points(arith, cfg, b));
    } else {
        let (p, q) = (a.drop_last(), b.drop_last());
        assert(told_all(p) =~= told_all(a).drop_last());
        assert(told_all(q) =~= told_all(b).drop_last());
        assert forall|i: int| 0 <= i < p.len() implies (#[trigger] p[i]).hist.len()
            <= usize::MAX by {
            assert(p[i] == a[i]);
        }
        assert forall|i: int| 0 <= i < q.len() implies (#[trigger] q[i]).hist.len()
            <= usize::MAX by {
            assert(q[i] == b[i]);
        }
        assert forall|i: int| 0 <= i < p.len() implies bags::among(
            arith,
            cfg.reducer,
            (#[trigger] p[i]).hist,
            numbers,
        ) by {
            assert(p[i] == a[i]);
        }
        lemma_shown_by_bag(arith, cfg, p, q, numbers);
        let (g, h) = (a.last(), b.last());
        assert(told_all(a).last() == told(g) && told_all(b).last() == told(h));
        assert(a[a.len() - 1] == g && b[b.len() - 1] == h);
        bags::lemma_canonical_bag(cfg.reducer.class, g.hist);
        bags::lemma_canonical_bag(cfg.reducer.class, h.hist);
        let (x, y) = (
            cells::canonical(cfg.reducer.class, g.hist),
            cells::canonical(cfg.reducer.class, h.hist),
        );
        bags::lemma_bag_len(g.hist);
        bags::lemma_bag_len(x);
        bags::lemma_points_by_bag(cfg.grid, x, y, cfg.grid.slots());
        bags::lemma_among_by_bag(arith, cfg.reducer, g.hist, x, numbers);
        bags::lemma_values_by_bag(arith, cfg.reducer, cfg.grid, x, y, cfg.grid.slots(), numbers);
        assert(range::shows(cfg)(g) == range::shows(cfg)(h));
        if range::shows(cfg)(g) {
            let points = (
                g.labels,
                reduction::grid_values(arith, cfg.reducer, cfg.grid, x, cfg.grid.slots()),
            );
            assert(shown_points(arith, cfg, a) =~= shown_points(arith, cfg, p).push(points));
            assert(shown_points(arith, cfg, b) =~= shown_points(arith, cfg, q).push(points));
        } else {
            assert(shown_points(arith, cfg, a) =~= shown_points(arith, cfg, p));
            assert(shown_points(arith, cfg, b) =~= shown_points(arith, cfg, q));
        }
    }
}

/// Sorting groups keeps them.
proof fn lemma_sorted_within(groups: Seq<GroupView>, n: int)
    requires
        groups.len() <= usize::MAX,
        forall|i: int| 0 <= i < groups.len() ==> (#[trigger] groups[i]).hist.len() <= n,
    ensures
        forall|i: int|
            0 <= i < order::stable_sort(groups, range::group_le()).len() ==> (
            #[trigger] order::stable_sort(groups, range::group_le())[i]).hist.len() <= n,
{
    lemma_told_le_preorder();
    order::lemma_stable_order(groups, range::group_le());
    let s = order::stable_sort(groups, range::group_le());
    assert forall|i: int| 0 <= i < s.len() implies (#[trigger] s[i]).hist.len() <= n by {
        let j = order::stable_order(groups, range::group_le())[i];
        assert(s[i] == groups[j as int]);
    }
}

/// States that hold the same samples come to the same series.
proof fn lemma_leaf_by_bag<A: Fn(Arith, u64, u64) -> u64>(
    arith: A,
    cfg: SlideConfig,
    absent_labels: Seq<PairView>,
    x: SlideView,
    y: SlideView,
    rows: Seq<MetricScanRow>,
)
    requires
        !cfg.is_absent,
        bags::ignores_order(
            arith,
            cfg.reducer,
            origin::row_numbers(arith, cfg.reducer.value, rows),
        ),
        origin::holds_only(origin::row_values(cfg.reducer.value, rows), x),
        alike(holdings(x), holdings(y)),
        tidy(x.groups),
        tidy(y.groups),
        within(holdings(x), usize::MAX as int),
        within(holdings(y), usize::MAX as int),
    ensures
        client_agg::leaf_points(arith, cfg, absent_labels, x) == client_agg::leaf_points(
            arith,
            cfg,
            absent_labels,
            y,
        ),
{
    let (p, q) = (
        client_agg::leaf_points(arith, cfg, absent_labels, x),
        client_agg::leaf_points(arith, cfg, absent_labels, y),
    );
    let numbers = origin::row_numbers(arith, cfg.reducer.value, rows);
    lemma_holdings(x);
    lemma_holdings(y);
    if cfg.fan_out {
        lemma_within_groups(x, usize::MAX as int);
        lemma_within_groups(y, usize::MAX as int);
        assert forall|key: Seq<char>| #[trigger] bag_of(x.groups, key) == bag_of(
            y.groups,
            key,
        ) by {
            assert(bag_of(holdings(x).groups, key) == bag_of(holdings(y).groups, key));
        }
        lemma_told_sorted(x.groups, y.groups);
        lemma_sorted_within(x.groups, usize::MAX as int);
        lemma_sorted_within(y.groups, usize::MAX as int);
        let (a, b) = (
            order::stable_sort(x.groups, range::group_le()),
            order::stable_sort(y.groups, range::group_le()),
        );
        lemma_told_le_preorder();
        order::lemma_stable_order(x.groups, range::group_le());
        assert forall|i: int| 0 <= i < a.len() implies bags::among(
            arith,
            cfg.reducer,
            (#[trigger] a[i]).hist,
            numbers,
        ) by {
            let j = order::stable_order(x.groups, range::group_le())[i];
            assert(a[i] == x.groups[j as int]);
            origin::lemma_drawn_are_among(arith, cfg.reducer, rows, a[i].hist);
        }
        lemma_shown_by_bag(arith, cfg, a, b, numbers);
        assert(p =~= shown_points(arith, cfg, a));
        assert(q =~= shown_points(arith, cfg, b));
    } else {
        assert forall|i: int| 0 <= i < p.len() implies p[i] == q[i] by {
            assert(holdings(x).closed[i].labels == holdings(y).closed[i].labels);
            assert(holdings(x).closed[i].hist.len() <= usize::MAX);
            origin::lemma_drawn_are_among(arith, cfg.reducer, rows, x.closed[i].hist);
            bags::lemma_values_by_bag(
                arith,
                cfg.reducer,
                cfg.grid,
                x.closed[i].hist,
                y.closed[i].hist,
                cfg.grid.slots(),
                numbers,
            );
        }
        assert(p =~= q);
    }
}

/// The answer of a range query does not depend on the order its rows came in, where it
/// answers both orders: the same series come in the same order with the same points.
///
/// Where the order of lines at one nanosecond makes a difference, lines of one text are
/// taken to be one line. Where it makes none, the lesser or the greater of the numbers in
/// the rows is taken to be one of them, whatever their order.
pub proof fn law_range_answer_ignores_arrival<A: Fn(Arith, u64, u64) -> u64>(
    arith: A,
    rows: Seq<MetricScanRow>,
    other: Seq<MetricScanRow>,
    streams: Map<u64, StreamMeta>,
    client: ClientAgg,
    window: ClientWindow,
    rate_window_ns: Option<u64>,
)
    requires
        window is Range,
        rows.len() <= usize::MAX,
        rows.to_multiset() == other.to_multiset(),
        ({
            let cfg = client_agg::range_config(client, window, rate_window_ns);
            let numbers = origin::row_numbers(arith, client.value, rows);
            &&& cfg.needs_body_order ==> texts_tell_lines(cfg, streams, rows)
            &&& client.range_op is MinOverTime ==> bags::order_free(arith, Arith::Min, numbers)
            &&& client.range_op is MaxOverTime ==> bags::order_free(arith, Arith::Max, numbers)
        }),
        client_agg::answer_of(arith, rows, streams, client, window, rate_window_ns) is Ok,
        client_agg::answer_of(arith, other, streams, client, window, rate_window_ns) is Ok,
    ensures
        client_agg::answer_of(arith, rows, streams, client, window, rate_window_ns)
            == client_agg::answer_of(arith, other, streams, client, window, rate_window_ns),
{
    broadcast use vstd::seq_lib::group_to_multiset_ensures;

    let cfg = client_agg::range_config(client, window, rate_window_ns);
    let absent = text::labels_view(client.absent_labels@);
    assert(rows.to_multiset().len() == rows.len());
    assert(other.to_multiset().len() == other.len());
    lemma_sorted_rows(rows);
    lemma_sorted_rows(other);
    let (a, b) = (
        order::stable_sort(rows, client_agg::scan_rank()),
        order::stable_sort(other, client_agg::scan_rank()),
    );
    let n = a.len() as int;
    assert(client_agg::range_outcome(arith, cfg, streams, absent, rows) is Ok);
    assert(client_agg::range_outcome(arith, cfg, streams, absent, other) is Ok);
    let (v, w) = (
        range_model::take_rows(cfg, streams, range::start_view(), a, n)->Ok_0,
        range_model::take_rows(cfg, streams, range::start_view(), b, n)->Ok_0,
    );
    let (p, q) = (
        range_model::flush(cfg, streams, v)->Ok_0,
        range_model::flush(cfg, streams, w)->Ok_0,
    );
    let (x, y) = (range_model::rotate(cfg, p), range_model::rotate(cfg, q));
    assert(range::end_state(cfg, streams, v) == Ok::<SlideView, ErrorView>(x));
    assert(range::end_state(cfg, streams, w) == Ok::<SlideView, ErrorView>(y));
    if cfg.needs_body_order || cfg.is_absent {
        if cfg.needs_body_order {
            lemma_sorted_texts(cfg, streams, rows, a);
        }
        lemma_same_holdings(cfg, streams, a, b, n);
        lemma_flush_by_text(cfg, streams, v, w);
        assert(holdings(x) == holdings(y));
        assert(client_agg::leaf_points(arith, cfg, absent, x) == client_agg::leaf_points(
            arith,
            cfg,
            absent,
            y,
        ));
    } else {
        lemma_same_bags(cfg, streams, a, b, n);
        lemma_flush_by_bag(cfg, streams, v, w, n - v.members.len());
        lemma_rotate_bags(cfg, p, q, n);
        lemma_within_more(holdings(x), n, usize::MAX as int);
        lemma_within_more(holdings(y), n, usize::MAX as int);
        let values = origin::row_values(cfg.reducer.value, rows);
        assert forall|i: int, k: u64|
            0 <= i < a.len() && #[trigger] origin::row_counts(
                cfg.reducer.value,
                a[i],
                k,
            ) implies values.contains(k) by {
            assert(a.to_multiset().contains(a[i]));
            assert(rows.contains(a[i]));
            let j = choose|j: int| 0 <= j < rows.len() && rows[j] == a[i];
            assert(origin::row_counts(cfg.reducer.value, rows[j], k));
        }
        origin::lemma_rows_draw(cfg, streams, range::start_view(), a, values, n);
        origin::lemma_flush_draws(values, cfg, streams, v);
        origin::lemma_rotate_draws(values, cfg, p);
        lemma_leaf_by_bag(arith, cfg, absent, x, y, rows);
    }
}

} // verus!
