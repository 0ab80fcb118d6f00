//! Where the samples of a range query's state come from: every one is a value of a row.
use vstd::prelude::*;
use crate::accum;
use crate::bags;
use crate::model::{ClientValue, MetricRun, MetricScanRow, StreamMeta};
use crate::number::Arith;
use crate::range_model::{self, GroupView, MemberView, SlideConfig, SlideView};
use crate::slide::{self, Reducer, WinSample};
use crate::text;

verus! {

/// Whether a row counts a value.
pub open spec fn row_counts(kind: ClientValue, row: MetricScanRow, x: u64) -> bool {
    row.run matches Ok(MetricRun::Kept { line_len, value, labels })
        && range_model::line_value(kind, line_len, value) == Some(x)
}

/// The values that rows count.
pub open spec fn row_values(kind: ClientValue, rows: Seq<MetricScanRow>) -> Set<u64> {
    Set::new(
        |x: u64| exists|i: int| 0 <= i < rows.len() && row_counts(kind, #[trigger] rows[i], x),
    )
}

/// The numbers that rows count.
pub open spec fn row_numbers<A: Fn(Arith, u64, u64) -> u64>(
    arith: A,
    kind: ClientValue,
    rows: Seq<MetricScanRow>,
) -> Set<u64> {
    row_values(kind, rows).map(|x: u64| accum::number_of(arith, kind, x))
}

/// Whether the values of samples are among these.
pub open spec fn drawn(values: Set<u64>, hist: Seq<WinSample>) -> bool {
    forall|i: int| 0 <= i < hist.len() ==> values.contains((#[trigger] hist[i]).value)
}

/// Whether the values that are staged are among these.
pub open spec fn staged_from(values: Set<u64>, members: Seq<MemberView>) -> bool {
    forall|i: int| 0 <= i < members.len() ==> values.contains((#[trigger] members[i]).value)
}

/// Whether every value that a state holds is among these.
pub open spec fn holds_only(values: Set<u64>, v: SlideView) -> bool {
    &&& staged_from(values, v.members)
    &&& v.cur matches Some(c) ==> drawn(values, c.hist)
    &&& forall|i: int| 0 <= i < v.closed.len() ==> drawn(values, (#[trigger] v.closed[i]).hist)
    &&& forall|i: int| 0 <= i < v.groups.len() ==> drawn(values, (#[trigger] v.groups[i]).hist)
}

/// Closing the current stream draws nothing.
pub proof fn lemma_rotate_draws(values: Set<u64>, cfg: SlideConfig, v: SlideView)
    requires
        holds_only(values, v),
    ensures
        holds_only(values, range_model::rotate(cfg, v)),
{
    let w = range_model::rotate(cfg, v);
    assert forall|i: int| 0 <= i < w.closed.len() implies drawn(
        values,
        (#[trigger] w.closed[i]).hist,
    ) by {
        if i < v.closed.len() {
            assert(w.closed[i] == v.closed[i]);
        }
    }
}

proof fn lemma_load_draws(
    values: Set<u64>,
    cfg: SlideConfig,
    v: SlideView,
    ts: i64,
    members: Seq<MemberView>,
)
    requires
        holds_only(values, v),
        v.cur is Some,
        staged_from(values, members),
        range_model::load(cfg, v, ts, members) is Ok,
    ensures
        holds_only(values, range_model::load(cfg, v, ts, members)->Ok_0),
{
    let c = v.cur->0;
    let more = slide::ranked(range_model::values_of(members), ts, c.hash);
    let hist = c.hist + more;
    assert forall|i: int| 0 <= i < hist.len() implies values.contains((#[trigger] hist[i]).value) by {
        if i < c.hist.len() {
            assert(hist[i] == c.hist[i]);
        } else {
            assert(hist[i].value == members[i - c.hist.len()].value);
        }
    }
}

proof fn lemma_add_draws(
    values: Set<u64>,
    cfg: SlideConfig,
    v: SlideView,
    i: int,
    s: WinSample,
)
    requires
        holds_only(values, v),
        0 <= i < v.groups.len(),
        values.contains(s.value),
        range_model::add_to_group(cfg, v, i, s) is Ok,
    ensures
        holds_only(values, range_model::add_to_group(cfg, v, i, s)->Ok_0),
{
    let w = range_model::add_to_group(cfg, v, i, s)->Ok_0;
    assert forall|j: int| 0 <= j < w.groups.len() implies drawn(
        values,
        (#[trigger] w.groups[j]).hist,
    ) by {
        assert(drawn(values, v.groups[j].hist));
    }
}

proof fn lemma_fan_one_draws(
    values: Set<u64>,
    cfg: SlideConfig,
    v: SlideView,
    key: Seq<char>,
    labels: Seq<text::PairView>,
    s: WinSample,
)
    requires
        holds_only(values, v),
        values.contains(s.value),
        range_model::fan_one(cfg, v, key, labels, s) is Ok,
    ensures
        holds_only(values, range_model::fan_one(cfg, v, key, labels, s)->Ok_0),
{
    if cfg.grid.first_cover(s.ts as int) <= cfg.grid.last_cover(s.ts as int) {
        range_model::lemma_group_index_in_range(v.groups, key);
        match range_model::group_index(v.groups, key) {
            Some(i) => {
                lemma_add_draws(values, cfg, v, i, s);
            },
            None => {
                let w = range_model::open_series(
                    cfg,
                    v,
                    key,
                    labels,
                    range_model::group_slot(),
                )->Ok_0;
                let grown = SlideView {
                    groups: w.groups.push(GroupView { key, labels, hist: Seq::empty() }),
                    ..w
                };
                assert forall|j: int| 0 <= j < grown.groups.len() implies drawn(
                    values,
                    (#[trigger] grown.groups[j]).hist,
                ) by {
                    if j < v.groups.len() {
                        assert(grown.groups[j] == v.groups[j]);
                    }
                }
                lemma_add_draws(values, cfg, grown, w.groups.len() as int, s);
            },
        }
    }
}

proof fn lemma_fan_all_draws(
    values: Set<u64>,
    cfg: SlideConfig,
    v: SlideView,
    ts: i64,
    hash: u64,
    members: Seq<MemberView>,
    n: int,
)
    requires
        holds_only(values, v),
        staged_from(values, members),
        n <= members.len(),
        range_model::fan_all(cfg, v, ts, hash, members, n) is Ok,
    ensures
        holds_only(values, range_model::fan_all(cfg, v, ts, hash, members, n)->Ok_0),
    decreases n,
{
    if n > 0 {
        lemma_fan_all_draws(values, cfg, v, ts, hash, members, n - 1);
        let w = range_model::fan_all(cfg, v, ts, hash, members, n - 1)->Ok_0;
        let m = members[n - 1];
        let s = WinSample { ts, stream_hash: hash, tie_rank: (n - 1) as u32, value: m.value };
        lemma_fan_one_draws(values, cfg, w, (m.out->0).0, (m.out->0).1, s);
    }
}

/// Feeding staged lines on draws nothing new.
pub proof fn lemma_flush_draws(
    values: Set<u64>,
    cfg: SlideConfig,
    streams: Map<u64, StreamMeta>,
    v: SlideView,
)
    requires
        !cfg.needs_body_order,
        holds_only(values, v),
        range_model::flush(cfg, streams, v) is Ok,
    ensures
        holds_only(values, range_model::flush(cfg, streams, v)->Ok_0),
{
    if let Some((fp, ts)) = v.pending {
        let w = SlideView { pending: None, members: Seq::empty(), coll_bytes: 0, ..v };
        let meta = streams[fp];
        let labels = text::labels_view(meta.labels@);
        assert(holds_only(values, w));
        if cfg.is_absent {
        } else if cfg.fan_out {
            lemma_fan_all_draws(
                values,
                cfg,
                w,
                ts,
                meta.stream_hash,
                v.members,
                v.members.len() as int,
            );
        } else if w.cur is Some && w.cur->0.fp == fp {
            lemma_load_draws(values, cfg, w, ts, v.members);
        } else {
            let turned = range_model::rotate(cfg, w);
            lemma_rotate_draws(values, cfg, w);
            let opened = range_model::open_series(
                cfg,
                turned,
                Seq::empty(),
                labels,
                range_model::series_slot(),
            )->Ok_0;
            let fresh = SlideView {
                cur: Some(
                    range_model::CurView {
                        fp,
                        hash: meta.stream_hash,
                        labels,
                        hist: Seq::empty(),
                    },
                ),
                ..opened
            };
            assert(holds_only(values, fresh));
            lemma_load_draws(values, cfg, fresh, ts, v.members);
        }
    }
}

/// Every value held after the rows is one that a row counts.
pub proof fn lemma_rows_draw(
    cfg: SlideConfig,
    streams: Map<u64, StreamMeta>,
    v: SlideView,
    rows: Seq<MetricScanRow>,
    values: Set<u64>,
    n: int,
)
    requires
        !cfg.needs_body_order,
        holds_only(values, v),
        0 <= n <= rows.len(),
        forall|i: int, x: u64|
            0 <= i < rows.len() && #[trigger] row_counts(cfg.reducer.value, rows[i], x)
                ==> values.contains(x),
        range_model::take_rows(cfg, streams, v, rows, n) is Ok,
    ensures
        holds_only(values, range_model::take_rows(cfg, streams, v, rows, n)->Ok_0),
    decreases n,
{
    if n > 0 {
        lemma_rows_draw(cfg, streams, v, rows, values, n - 1);
        let w = range_model::take_rows(cfg, streams, v, rows, n - 1)->Ok_0;
        let row = rows[n - 1];
        let at = (row.fingerprint, row.timestamp_ns);
        let turned = if w.pending is Some && w.pending->0 != at {
            lemma_flush_draws(values, cfg, streams, w);
            range_model::flush(cfg, streams, w)->Ok_0
        } else {
            w
        };
        assert(holds_only(values, turned));
        let after = range_model::take_rows(cfg, streams, v, rows, n)->Ok_0;
        if streams.contains_key(row.fingerprint) {
            if let Ok(MetricRun::Kept { line_len, value, labels }) = row.run {
                if let Some(x) = range_model::line_value(cfg.reducer.value, line_len, value) {
                    assert(row_counts(cfg.reducer.value, rows[n - 1], x));
                    assert forall|i: int| 0 <= i < after.members.len() implies values.contains(
                        (#[trigger] after.members[i]).value,
                    ) by {
                        if i < turned.members.len() {
                            assert(after.members[i] == turned.members[i]);
                        }
                    }
                }
            }
        }
    }
}

/// Samples of such values have such numbers.
pub proof fn lemma_drawn_are_among<A: Fn(Arith, u64, u64) -> u64>(
    arith: A,
    r: Reducer,
    rows: Seq<MetricScanRow>,
    hist: Seq<WinSample>,
)
    requires
        drawn(row_values(r.value, rows), hist),
    ensures
        bags::among(arith, r, hist, row_numbers(arith, r.value, rows)),
{
    let f = |x: u64| accum::number_of(arith, r.value, x);
    assert forall|i: int| 0 <= i < hist.len() implies row_numbers(arith, r.value, rows).contains(
        accum::number_of(arith, r.value, (#[trigger] hist[i]).value),
    ) by {
        let x = hist[i].value;
        assert(row_values(r.value, rows).contains(x));
        assert(f(x) == accum::number_of(arith, r.value, x));
    }
}

} // verus!
