//! What becomes of the lines of an instant query: every line that counts joins the group of
//! its stream or of its labels, in the order the lines came.
use vstd::prelude::*;
use crate::client_agg;
use crate::error::{ErrorView, RowBudgetExceeded};
use crate::instant::{self, Arrival, GroupTally, InstantConfig, InstantView};
use crate::ledger;
use crate::model::{MetricRun, MetricScanRow, StreamMeta};
use crate::order;
use crate::range_model;
use crate::text;

verus! {

/// What names a line's group: its labels where lines are grouped by them, else its stream.
pub open spec fn group_of(cfg: InstantConfig, row: MetricScanRow) -> (u64, Seq<char>) {
    match row.run {
        Ok(MetricRun::Kept { line_len, value, labels }) if cfg.fan_out => (
            0,
            text::json_object(order::stable_sort(text::labels_view(labels@), text::pair_le())),
        ),
        _ => (row.fingerprint, Seq::empty()),
    }
}

/// Whether a row is of a known stream and counts something.
pub open spec fn counts(
    cfg: InstantConfig,
    streams: Map<u64, StreamMeta>,
    row: MetricScanRow,
) -> bool {
    streams.contains_key(row.fingerprint) && ledger::row_count(cfg.reducer.value, row) is Some
}

/// The lines of a group among the first `n` rows, in the order they came.
pub open spec fn lines_of(
    cfg: InstantConfig,
    streams: Map<u64, StreamMeta>,
    rows: Seq<MetricScanRow>,
    n: int,
    group: (u64, Seq<char>),
) -> Seq<Arrival>
    decreases n,
{
    if n <= 0 {
        Seq::empty()
    } else {
        let row = rows[n - 1];
        let before = lines_of(cfg, streams, rows, n - 1, group);
        if counts(cfg, streams, row) && group_of(cfg, row) == group {
            before.push(
                Arrival {
                    ts: row.timestamp_ns,
                    stream_hash: streams[row.fingerprint].stream_hash,
                    value: ledger::row_count(cfg.reducer.value, row)->0,
                },
            )
        } else {
            before
        }
    }
}

/// Whether a group stands for what names it.
pub open spec fn stands_for(g: GroupTally, group: (u64, Seq<char>)) -> bool {
    g.fp == group.0 && g.key == group.1
}

/// Whether some group stands for what names it.
pub open spec fn has_tally(groups: Seq<GroupTally>, group: (u64, Seq<char>)) -> bool {
    exists|i: int| 0 <= i < groups.len() && stands_for(#[trigger] groups[i], group)
}

/// Whether groups hold the lines of the first `n` rows.
pub open spec fn tallied(
    cfg: InstantConfig,
    streams: Map<u64, StreamMeta>,
    rows: Seq<MetricScanRow>,
    n: int,
    groups: Seq<GroupTally>,
) -> bool {
    &&& forall|i: int|
        0 <= i < groups.len() ==> {
            let g = #[trigger] groups[i];
            &&& g.hist == lines_of(cfg, streams, rows, n, (g.fp, g.key))
            &&& g.hist.len() > 0
            &&& cfg.fan_out ==> g.fp == 0 && g.key == text::json_object(g.labels)
            &&& !cfg.fan_out ==> g.key.len() == 0 && streams.contains_key(g.fp) && g.labels
                == text::labels_view(streams[g.fp].labels@)
        }
    &&& forall|i: int, j: int|
        0 <= i < j < groups.len() ==> !stands_for(
            #[trigger] groups[j],
            ((#[trigger] groups[i]).fp, groups[i].key),
        )
    &&& forall|k: int|
        0 <= k < n && counts(cfg, streams, #[trigger] rows[k]) ==> has_tally(
            groups,
            group_of(cfg, rows[k]),
        )
}

pub proof fn lemma_tally_index(
    fan_out: bool,
    groups: Seq<GroupTally>,
    fp: u64,
    key: Seq<char>,
)
    ensures
        instant::tally_index(fan_out, groups, fp, key) matches Some(i) ==> 0 <= i < groups.len()
            && (if fan_out {
            groups[i].key == key
        } else {
            groups[i].fp == fp
        }),
        instant::tally_index(fan_out, groups, fp, key) is None ==> forall|i: int|
            0 <= i < groups.len() ==> if fan_out {
                (#[trigger] groups[i]).key != key
            } else {
                groups[i].fp != fp
            },
    decreases groups.len(),
{
    if groups.len() > 0 {
        lemma_tally_index(fan_out, groups.drop_last(), fp, key);
        if instant::tally_index(fan_out, groups, fp, key) is None {
            assert forall|i: int| 0 <= i < groups.len() implies if fan_out {
                (#[trigger] groups[i]).key != key
            } else {
                groups[i].fp != fp
            } by {
                if i < groups.len() - 1 {
                    assert(groups.drop_last()[i] == groups[i]);
                }
            }
        }
    }
}

proof fn lemma_lines_none(
    cfg: InstantConfig,
    streams: Map<u64, StreamMeta>,
    rows: Seq<MetricScanRow>,
    n: int,
    groups: Seq<GroupTally>,
    group: (u64, Seq<char>),
)
    requires
        !has_tally(groups, group),
        forall|k: int|
            0 <= k < n && counts(cfg, streams, #[trigger] rows[k]) ==> has_tally(
                groups,
                group_of(cfg, rows[k]),
            ),
    ensures
        lines_of(cfg, streams, rows, n, group) == Seq::<Arrival>::empty(),
    decreases n,
{
    if n > 0 {
        lemma_lines_none(cfg, streams, rows, n - 1, groups, group);
    }
}

proof fn lemma_row_tallies(
    cfg: InstantConfig,
    streams: Map<u64, StreamMeta>,
    rows: Seq<MetricScanRow>,
    n: int,
    v: InstantView,
    w: InstantView,
)
    requires
        !cfg.is_absent(),
        n >= 0,
        tallied(cfg, streams, rows, n, v.groups),
        instant::take_instant_row(cfg, streams, v, rows[n]) == Ok::<InstantView, ErrorView>(w),
    ensures
        tallied(cfg, streams, rows, n + 1, w.groups),
{
    let row = rows[n];
    let group = group_of(cfg, row);
    if counts(cfg, streams, row) {
        let a = Arrival {
            ts: row.timestamp_ns,
            stream_hash: streams[row.fingerprint].stream_hash,
            value: ledger::row_count(cfg.reducer.value, row)->0,
        };
        lemma_tally_index(cfg.fan_out, v.groups, group.0, group.1);
        let at = match instant::tally_index(cfg.fan_out, v.groups, group.0, group.1) {
            Some(i) => i,
            None => v.groups.len() as int,
        };
        if instant::tally_index(cfg.fan_out, v.groups, group.0, group.1) is None {
            if has_tally(v.groups, group) {
                let i = choose|i: int|
                    0 <= i < v.groups.len() && stands_for(#[trigger] v.groups[i], group);
                assert(v.groups[i].key == group.1 && v.groups[i].fp == group.0);
            }
            lemma_lines_none(cfg, streams, rows, n, v.groups, group);
            assert(w.groups[at].hist =~= seq![a]);
            assert(Seq::<Arrival>::empty().push(a) =~= seq![a]);
        }
        assert(stands_for(w.groups[at], group)) by {
            if at < v.groups.len() {
                assert(v.groups[at].key =~= group.1);
            }
        }
        assert forall|i: int| 0 <= i < w.groups.len() && i != at implies !stands_for(
            #[trigger] w.groups[i],
            group,
        ) by {
            assert(w.groups[i] == v.groups[i]);
            if at < v.groups.len() {
                if i < at {
                    assert(!stands_for(v.groups[at], (v.groups[i].fp, v.groups[i].key)));
                } else {
                    assert(!stands_for(v.groups[i], (v.groups[at].fp, v.groups[at].key)));
                }
            } else {
                assert(!has_tally(v.groups, group));
            }
        }
        assert forall|i: int| 0 <= i < w.groups.len() implies {
            let g = #[trigger] w.groups[i];
            &&& g.hist == lines_of(cfg, streams, rows, n + 1, (g.fp, g.key))
            &&& g.hist.len() > 0
            &&& cfg.fan_out ==> g.fp == 0 && g.key == text::json_object(g.labels)
            &&& !cfg.fan_out ==> g.key.len() == 0 && streams.contains_key(g.fp) && g.labels
                == text::labels_view(streams[g.fp].labels@)
        } by {
            if i != at {
                assert(w.groups[i] == v.groups[i]);
                assert(!stands_for(w.groups[i], group));
            } else if at < v.groups.len() {
                assert(v.groups[at].hist == lines_of(
                    cfg,
                    streams,
                    rows,
                    n,
                    (v.groups[at].fp, v.groups[at].key),
                ));
            }
        }
        assert forall|i: int, j: int| 0 <= i < j < w.groups.len() implies !stands_for(
            #[trigger] w.groups[j],
            ((#[trigger] w.groups[i]).fp, w.groups[i].key),
        ) by {
            if j == at {
                assert(!stands_for(w.groups[i], group));
            } else if i == at {
                assert(!stands_for(w.groups[j], group));
            } else {
                assert(w.groups[i] == v.groups[i] && w.groups[j] == v.groups[j]);
            }
        }
        assert forall|k: int|
            0 <= k < n + 1 && counts(cfg, streams, #[trigger] rows[k]) implies has_tally(
            w.groups,
            group_of(cfg, rows[k]),
        ) by {
            if k == n {
                assert(stands_for(w.groups[at], group));
            } else {
                let h = group_of(cfg, rows[k]);
                assert(has_tally(v.groups, h));
                let i = choose|i: int|
                    0 <= i < v.groups.len() && stands_for(#[trigger] v.groups[i], h);
                assert(stands_for(w.groups[i], h));
            }
        }
    } else {
        assert(w.groups == v.groups);
        assert forall|i: int| 0 <= i < w.groups.len() implies lines_of(
            cfg,
            streams,
            rows,
            n + 1,
            ((#[trigger] w.groups[i]).fp, w.groups[i].key),
        ) == w.groups[i].hist by {}
    }
}

/// An instant query's groups hold the lines that count, each under its own stream or
/// labels, with its own time and value, in the order they came: no line is lost or moved,
/// no two groups are named alike, and none is empty. And a query that ends without an error
/// has met no row of a known stream that fails.
pub proof fn law_groups_hold_their_lines(
    cfg: InstantConfig,
    streams: Map<u64, StreamMeta>,
    rows: Seq<MetricScanRow>,
    n: int,
    v: InstantView,
)
    requires
        0 <= n <= rows.len(),
        instant::take_instant_rows(cfg, streams, client_agg::instant_start(), rows, n) == Ok::<
            InstantView,
            ErrorView,
        >(v),
    ensures
        !cfg.is_absent() ==> tallied(cfg, streams, rows, n, v.groups),
        forall|i: int| 0 <= i < n ==> !ledger::row_fails(streams, #[trigger] rows[i]),
    decreases n,
{
    if n > 0 {
        let u = instant::take_instant_rows(
            cfg,
            streams,
            client_agg::instant_start(),
            rows,
            n - 1,
        )->Ok_0;
        law_groups_hold_their_lines(cfg, streams, rows, n - 1, u);
        if !cfg.is_absent() {
            lemma_row_tallies(cfg, streams, rows, n - 1, u, v);
        }
        let row = rows[n - 1];
        if ledger::row_fails(streams, row) {
            if let Ok(MetricRun::Kept { line_len, value, labels }) = row.run {
                let lv = text::labels_view(labels@);
                ledger::lemma_surviving(lv);
                let i = choose|i: int|
                    0 <= i < labels@.len() && (#[trigger] labels@[i]).0@ == "__error__"@
                        && labels@[i].1@.len() > 0;
                assert(lv[i].0 == "__error__"@ && lv[i].1.len() > 0);
            }
        }
    }
}

/// Whether one of the first `n` rows is of a known stream and was kept.
pub open spec fn something_kept(
    streams: Map<u64, StreamMeta>,
    rows: Seq<MetricScanRow>,
    n: int,
) -> bool {
    exists|i: int|
        0 <= i < n && streams.contains_key((#[trigger] rows[i]).fingerprint) && rows[i].run
            matches Ok(MetricRun::Kept { .. })
}

/// `absent_over_time` at an instant takes a series for present where a line of a known
/// stream was kept, and opens no group.
pub proof fn law_presence_is_that_of_a_kept_line(
    cfg: InstantConfig,
    streams: Map<u64, StreamMeta>,
    rows: Seq<MetricScanRow>,
    n: int,
    v: InstantView,
)
    requires
        0 <= n <= rows.len(),
        cfg.is_absent(),
        instant::take_instant_rows(cfg, streams, client_agg::instant_start(), rows, n) == Ok::<
            InstantView,
            ErrorView,
        >(v),
    ensures
        v.present <==> something_kept(streams, rows, n),
        v.groups.len() == 0,
    decreases n,
{
    if n > 0 {
        let u = instant::take_instant_rows(
            cfg,
            streams,
            client_agg::instant_start(),
            rows,
            n - 1,
        )->Ok_0;
        law_presence_is_that_of_a_kept_line(cfg, streams, rows, n - 1, u);
        let row = rows[n - 1];
        if something_kept(streams, rows, n - 1) {
            let i = choose|i: int|
                0 <= i < n - 1 && streams.contains_key((#[trigger] rows[i]).fingerprint)
                    && rows[i].run matches Ok(MetricRun::Kept { .. });
            assert(0 <= i < n && streams.contains_key(rows[i].fingerprint));
        }
        if streams.contains_key(row.fingerprint) && row.run matches Ok(MetricRun::Kept { .. }) {
            assert(streams.contains_key(rows[n - 1].fingerprint));
        }
    }
}

/// How many of the first rows count something.
pub open spec fn counted(
    cfg: InstantConfig,
    streams: Map<u64, StreamMeta>,
    rows: Seq<MetricScanRow>,
    n: int,
) -> int {
    order::sum_of(
        rows.take(n),
        |row: MetricScanRow|
            if counts(cfg, streams, row) {
                1int
            } else {
                0
            },
    )
}

/// The values kept for quantiles, and the points kept for counters, are as many as the
/// lines that count, and never more than their cap; other reducers keep none.
pub proof fn law_kept_values_are_counted(
    cfg: InstantConfig,
    streams: Map<u64, StreamMeta>,
    rows: Seq<MetricScanRow>,
    n: int,
    v: InstantView,
)
    requires
        0 <= n <= rows.len(),
        instant::take_instant_rows(cfg, streams, client_agg::instant_start(), rows, n) == Ok::<
            InstantView,
            ErrorView,
        >(v),
    ensures
        cfg.reducer.op is QuantileOverTime ==> v.quantile_values == counted(cfg, streams, rows, n)
            <= cfg.caps.quantile_values,
        cfg.reducer.op is RateCounter ==> v.counter_values == counted(cfg, streams, rows, n)
            <= cfg.caps.counter_values,
        !(cfg.reducer.op is QuantileOverTime) ==> v.quantile_values == 0,
        !(cfg.reducer.op is RateCounter) ==> v.counter_values == 0,
        v.group_bytes <= cfg.caps.group_bytes,
    decreases n,
{
    if n > 0 {
        let u = instant::take_instant_rows(
            cfg,
            streams,
            client_agg::instant_start(),
            rows,
            n - 1,
        )->Ok_0;
        law_kept_values_are_counted(cfg, streams, rows, n - 1, u);
        assert(rows.take(n).drop_last() =~= rows.take(n - 1));
        assert(rows.take(n).last() == rows[n - 1]);
    }
}

/// A row of a known stream whose budget was breached ends a query with that budget and its
/// ceiling, and one that reports an error ends it with the first error it reports and all of
/// its labels, by name and value, whatever came before.
pub proof fn law_failing_rows_say_why(
    cfg: InstantConfig,
    streams: Map<u64, StreamMeta>,
    v: InstantView,
    row: MetricScanRow,
)
    requires
        ledger::row_fails(streams, row),
    ensures
        row.run matches Err(b) ==> instant::take_instant_row(cfg, streams, v, row) == Err::<
            InstantView,
            ErrorView,
        >(range_model::budget_error(b)),
        row.run matches Ok(MetricRun::Kept { line_len, value, labels })
            ==> instant::take_instant_row(cfg, streams, v, row) == Err::<InstantView, ErrorView>(
            range_model::pipeline_error(text::labels_view(labels@)),
        ),
{
    if let Ok(MetricRun::Kept { line_len, value, labels }) = row.run {
        let lv = text::labels_view(labels@);
        ledger::lemma_surviving(lv);
        let i = choose|i: int|
            0 <= i < labels@.len() && (#[trigger] labels@[i]).0@ == "__error__"@
                && labels@[i].1@.len() > 0;
        assert(lv[i].0 == "__error__"@ && lv[i].1.len() > 0);
    }
}

/// A row is refused only for a reason: a row of an unknown stream, a dropped line and a
/// line that counts nothing are passed over, and a line that counts is taken in where the
/// caps of what it is kept for and of its group's labels leave room.
pub proof fn law_rows_are_refused_only_for_a_reason(
    cfg: InstantConfig,
    streams: Map<u64, StreamMeta>,
    v: InstantView,
    row: MetricScanRow,
)
    ensures
        ({
            let r = instant::take_instant_row(cfg, streams, v, row);
            let kept = row.run matches Ok(MetricRun::Kept { .. });
            let known = streams.contains_key(row.fingerprint);
            &&& !known ==> r == Ok::<InstantView, ErrorView>(v)
            &&& known && row.run == Ok::<MetricRun, RowBudgetExceeded>(MetricRun::Dropped) ==> r
                == Ok::<InstantView, ErrorView>(v)
            &&& known && kept && !ledger::row_fails(streams, row) && cfg.is_absent() ==> r == Ok::<
                InstantView,
                ErrorView,
            >(InstantView { present: true, ..v })
            &&& known && kept && !ledger::row_fails(streams, row) && !cfg.is_absent()
                && ledger::row_count(cfg.reducer.value, row) is None ==> r == Ok::<
                InstantView,
                ErrorView,
            >(v)
            &&& counts(cfg, streams, row) && !ledger::row_fails(streams, row) && !cfg.is_absent()
                && (cfg.reducer.op is QuantileOverTime ==> v.quantile_values
                < cfg.caps.quantile_values) && (cfg.reducer.op is RateCounter
                ==> v.counter_values < cfg.caps.counter_values) && cfg.caps.group_bytes
                == u64::MAX ==> r is Ok
        }),
{
    if let Ok(MetricRun::Kept { line_len, value, labels }) = row.run {
        let lv = text::labels_view(labels@);
        ledger::lemma_surviving(lv);
        if range_model::surviving_error(lv) is Some && streams.contains_key(row.fingerprint) {
            let i = choose|i: int|
                0 <= i < lv.len() && (#[trigger] lv[i]).0 == "__error__"@ && lv[i].1.len() > 0;
            assert(labels@[i].0@ == "__error__"@ && labels@[i].1@.len() > 0);
            assert(ledger::row_fails(streams, row));
        }
    }
}

} // verus!
