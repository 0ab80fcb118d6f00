//! What the range evaluator does, over plain mathematical values.
//!
//! [`SlideView`] is the evaluator's state and the functions here are its steps:
//! taking a row, closing a run of lines at one nanosecond, feeding a sliding
//! window or a group. A step that goes past a cap ends in the error it is
//! refused with.
use vstd::prelude::*;
use crate::cells::{self, MutGroup};
use crate::charge::{self, AggCaps};
use crate::error::{ErrorView, RowBudgetExceeded, TooBroadReason};
use crate::model::{ClientValue, MatrixSeries, MetricRun, MetricScanRow, RangeAggOp, StreamMeta};
use crate::order;
use crate::slide::{self, CollMember, Reducer, ReducerClass, WinSample};
use crate::text::{self, PairView};
use crate::window::Grid;

verus! {

/// The label under which a pipeline reports a failed stage.
pub const ERROR_LABEL: &'static str = "__error__";

/// What does not change while a range query is evaluated.
#[derive(Debug, Clone, Copy)]
pub struct SlideConfig {
    pub reducer: Reducer,
    pub grid: Grid,
    /// How far the grid was moved back before evaluation.
    pub offset_ns: i64,
    /// Whether lines are grouped by their labels rather than by stream.
    pub fan_out: bool,
    pub is_absent: bool,
    /// Whether the order of lines at one nanosecond matters.
    pub needs_body_order: bool,
    /// The points one retained sample costs.
    pub per_sample: u64,
    pub caps: AggCaps,
}

/// Whether a reducer depends on the order of lines at one nanosecond.
pub open spec fn wants_body_order(op: RangeAggOp, class: ReducerClass) -> bool {
    class is CanonicalFold || op is FirstOverTime || op is LastOverTime
}

impl SlideConfig {
    pub open spec fn wf(self) -> bool {
        &&& self.grid.wf()
        &&& self.reducer.class == slide::class_of(self.reducer.op, self.reducer.value)
        &&& self.reducer.class is InvertInteger ==> !(self.reducer.value is Unwrap)
        &&& self.is_absent == (self.reducer.op is AbsentOverTime)
        &&& self.needs_body_order == wants_body_order(self.reducer.op, self.reducer.class)
        &&& self.per_sample == charge::points_per_sample(self.reducer.op)
    }

    /// Whether staged lines carry their labels.
    pub open spec fn stages_out(self) -> bool {
        self.fan_out && !self.is_absent
    }

    pub open spec fn form(self) -> crate::cells::CellForm {
        cells::form_of(self.reducer.class, self.grid)
    }
}

/// A staged line.
pub struct MemberView {
    pub body: Seq<char>,
    pub value: u64,
    pub out: Option<(Seq<char>, Seq<PairView>)>,
}

/// A staged line's view.
pub open spec fn member_view(m: CollMember) -> MemberView {
    MemberView {
        body: m.body@,
        value: m.value,
        out: match m.out {
            Some(o) => Some((o.0@, text::labels_view(o.1@))),
            None => None,
        },
    }
}

/// The order of lines at one nanosecond: by their text.
pub open spec fn body_le() -> spec_fn(MemberView, MemberView) -> bool {
    |a: MemberView, b: MemberView| text::text_le(a.body, b.body)
}

pub proof fn lemma_body_le_preorder()
    ensures
        order::total_preorder(body_le()),
{
    let le = body_le();
    assert forall|x: MemberView, y: MemberView| #[trigger] le(x, y) || le(y, x) by {
        text::lemma_text_le_total(x.body, y.body);
    }
    assert forall|x: MemberView, y: MemberView, z: MemberView|
        #[trigger] le(x, y) && #[trigger] le(y, z) implies le(x, z) by {
        text::lemma_text_le_chains(x.body, y.body, z.body);
    }
}

/// The stream being slid over.
pub struct CurView {
    pub fp: u64,
    pub hash: u64,
    pub labels: Seq<PairView>,
    pub hist: Seq<WinSample>,
}

/// A stream that has been slid over and has points.
pub struct SeriesView {
    pub labels: Seq<PairView>,
    pub hist: Seq<WinSample>,
}

/// A group of lines with the same labels.
pub struct GroupView {
    pub key: Seq<char>,
    pub labels: Seq<PairView>,
    pub hist: Seq<WinSample>,
}

/// The evaluator's state.
#[verifier::ext_equal]
pub struct SlideView {
    /// Points charged for retained samples.
    pub retained: int,
    /// Bytes charged for group labels.
    pub group_bytes: int,
    /// Result points reserved.
    pub result_points: int,
    pub cur: Option<CurView>,
    pub closed: Seq<SeriesView>,
    pub groups: Seq<GroupView>,
    /// When a line survived, for `absent_over_time`.
    pub covers: Seq<i64>,
    /// The stream and time of the staged lines, if there are any.
    pub pending: Option<(u64, i64)>,
    pub members: Seq<MemberView>,
    pub coll_bytes: u64,
}

/// A state, or the error a step was refused with.
pub type Step = Result<SlideView, ErrorView>;

/// The slot of a series in a result.
pub open spec fn series_slot() -> int {
    vstd::layout::size_of::<MatrixSeries>() as int
}

/// The slot of a group.
pub open spec fn group_slot() -> int {
    vstd::layout::size_of::<MutGroup>() as int
}

/// Whether any window of the first `k` grid points holds a sample.
pub open spec fn has_points(grid: Grid, hist: Seq<WinSample>, k: int) -> bool
    decreases k,
{
    k > 0 && (slide::window_of(hist, grid.at(k - 1), grid.range as int).len() > 0 || has_points(
        grid,
        hist,
        k - 1,
    ))
}

/// What the sliding window of a stream costs.
pub open spec fn cur_cost(cfg: SlideConfig, hist: Seq<WinSample>) -> int {
    slide::live(cfg.grid, hist, slide::frontier(cfg.grid, hist)).len() * cfg.per_sample
}

/// Charges a new output series: its labels, then its points.
pub open spec fn open_series(
    cfg: SlideConfig,
    v: SlideView,
    key: Seq<char>,
    labels: Seq<PairView>,
    slot: int,
) -> Step {
    let bytes = text::saturate(v.group_bytes + charge::entry_bytes(key, labels, slot));
    let points = text::saturate(v.result_points + cfg.grid.slots());
    if bytes > cfg.caps.group_bytes {
        Err(
            ErrorView::QueryTooBroad(
                TooBroadReason::MetricGroupLabelBytes {
                    bytes,
                    cap: cfg.caps.group_bytes,
                },
            ),
        )
    } else if points > cfg.caps.result_points {
        Err(
            ErrorView::QueryTooBroad(
                TooBroadReason::MetricResultPoints {
                    count: points,
                    cap: cfg.caps.result_points,
                },
            ),
        )
    } else {
        Ok(SlideView { group_bytes: bytes as int, result_points: points as int, ..v })
    }
}

/// Closes the stream being slid over: its series is kept if it has points.
pub open spec fn rotate(cfg: SlideConfig, v: SlideView) -> SlideView {
    match v.cur {
        None => v,
        Some(c) => {
            let done = SlideView { cur: None, retained: v.retained - cur_cost(cfg, c.hist), ..v };
            if has_points(cfg.grid, c.hist, cfg.grid.slots()) {
                SlideView {
                    closed: v.closed.push(SeriesView { labels: c.labels, hist: c.hist }),
                    ..done
                }
            } else {
                SlideView {
                    group_bytes: charge::released(
                        v.group_bytes,
                        charge::entry_bytes(Seq::empty(), c.labels, series_slot()) as int,
                    ),
                    ..done
                }
            }
        },
    }
}

/// The refusal of a retention charge.
pub open spec fn retention_error(cfg: SlideConfig, count: int) -> ErrorView {
    ErrorView::QueryTooBroad(
        TooBroadReason::MetricRetention { count: text::saturate(count), cap: cfg.caps.retention_points },
    )
}

/// The values of staged lines.
pub open spec fn values_of(members: Seq<MemberView>) -> Seq<u64> {
    members.map_values(|m: MemberView| m.value)
}

/// Feeds a stream's lines at one nanosecond to the window sliding over it.
pub open spec fn load(cfg: SlideConfig, v: SlideView, ts: i64, members: Seq<MemberView>) -> Step {
    let c = v.cur->0;
    let base = v.retained - cur_cost(cfg, c.hist) + slide::live(
        cfg.grid,
        c.hist,
        cfg.grid.first_cover(ts as int),
    ).len() * cfg.per_sample;
    let over = slide::first_over(
        base,
        cfg.per_sample as int,
        members.len() as int,
        cfg.caps.retention_points as int,
    );
    match over {
        Some(count) => Err(retention_error(cfg, count)),
        None => Ok(
            SlideView {
                retained: base + members.len() * cfg.per_sample,
                cur: Some(
                    CurView { hist: c.hist + slide::ranked(values_of(members), ts, c.hash), ..c },
                ),
                ..v
            },
        ),
    }
}

/// Feeds a stream's lines at one nanosecond, turning to that stream first.
pub open spec fn slide_in(
    cfg: SlideConfig,
    v: SlideView,
    fp: u64,
    ts: i64,
    labels: Seq<PairView>,
    hash: u64,
    members: Seq<MemberView>,
) -> Step {
    if v.cur is Some && v.cur->0.fp == fp {
        load(cfg, v, ts, members)
    } else {
        match open_series(cfg, rotate(cfg, v), Seq::empty(), labels, series_slot()) {
            Err(e) => Err(e),
            Ok(w) => load(
                cfg,
                SlideView { cur: Some(CurView { fp, hash, labels, hist: Seq::empty() }), ..w },
                ts,
                members,
            ),
        }
    }
}

/// Where a group stands.
pub open spec fn group_index(groups: Seq<GroupView>, key: Seq<char>) -> Option<int>
    decreases groups.len(),
{
    if groups.len() == 0 {
        None
    } else if groups.last().key == key {
        Some(groups.len() - 1)
    } else {
        group_index(groups.drop_last(), key)
    }
}

/// Adds a sample to group `i`.
pub open spec fn add_to_group(cfg: SlideConfig, v: SlideView, i: int, s: WinSample) -> Step {
    let g = v.groups[i];
    let over = cells::add_over(
        cfg.form(),
        cfg.grid,
        g.hist,
        s,
        cfg.per_sample,
        v.retained,
        cfg.caps.retention_points as int,
    );
    let (a, b) = cells::new_units(cfg.form(), cfg.grid, g.hist, s);
    match over {
        Some(count) => Err(retention_error(cfg, count)),
        None => Ok(
            SlideView {
                retained: v.retained + (a + b) * cells::unit_cost(cfg.form(), cfg.per_sample),
                groups: v.groups.update(i, GroupView { hist: g.hist.push(s), ..g }),
                ..v
            },
        ),
    }
}

/// Feeds one sample to its group, which it opens if it is the first.
pub open spec fn fan_one(
    cfg: SlideConfig,
    v: SlideView,
    key: Seq<char>,
    labels: Seq<PairView>,
    s: WinSample,
) -> Step {
    if cfg.grid.first_cover(s.ts as int) > cfg.grid.last_cover(s.ts as int) {
        Ok(v)
    } else {
        match group_index(v.groups, key) {
            Some(i) => add_to_group(cfg, v, i, s),
            None => match open_series(cfg, v, key, labels, group_slot()) {
                Err(e) => Err(e),
                Ok(w) => add_to_group(
                    cfg,
                    SlideView {
                        groups: w.groups.push(GroupView { key, labels, hist: Seq::empty() }),
                        ..w
                    },
                    w.groups.len() as int,
                    s,
                ),
            },
        }
    }
}

/// Feeds the first `n` of a stream's lines at one nanosecond to their groups.
pub open spec fn fan_all(
    cfg: SlideConfig,
    v: SlideView,
    ts: i64,
    hash: u64,
    members: Seq<MemberView>,
    n: int,
) -> Step
    decreases n,
{
    if n <= 0 {
        Ok(v)
    } else {
        match fan_all(cfg, v, ts, hash, members, n - 1) {
            Err(e) => Err(e),
            Ok(w) => {
                let m = members[n - 1];
                fan_one(
                    cfg,
                    w,
                    (m.out->0).0,
                    (m.out->0).1,
                    WinSample {
                        ts,
                        stream_hash: hash,
                        tie_rank: (n - 1) as u32,
                        value: m.value,
                    },
                )
            },
        }
    }
}

/// The staged lines in the order they are ranked in.
pub open spec fn ranked_members(cfg: SlideConfig, members: Seq<MemberView>) -> Seq<MemberView> {
    if cfg.needs_body_order {
        order::stable_sort(members, body_le())
    } else {
        members
    }
}

/// Where the order of lines at one nanosecond matters, it is that of their texts, not
/// that of their arrival: lines of the same text that are the same line have no order
/// to lose.
pub proof fn law_ties_rank_by_text(
    cfg: SlideConfig,
    a: Seq<MemberView>,
    b: Seq<MemberView>,
)
    requires
        cfg.needs_body_order,
        a.len() <= usize::MAX,
        a.to_multiset() == b.to_multiset(),
        forall|x: MemberView, y: MemberView|
            #![trigger a.contains(x), a.contains(y)]
            a.contains(x) && a.contains(y) && x.body == y.body ==> x == y,
    ensures
        ranked_members(cfg, a) == ranked_members(cfg, b),
{
    lemma_body_le_preorder();
    assert forall|x: MemberView, y: MemberView|
        a.contains(x) && a.contains(y) && #[trigger] body_le()(x, y) && body_le()(
            y,
            x,
        ) implies x == y by {
        text::lemma_text_le_antisymmetric(x.body, y.body);
    }
    order::lemma_stable_sort_unique_among(a, b, body_le());
}

/// Closes the run of staged lines.
pub open spec fn flush(cfg: SlideConfig, streams: Map<u64, StreamMeta>, v: SlideView) -> Step {
    match v.pending {
        None => Ok(v),
        Some((fp, ts)) => {
            let w = SlideView { pending: None, members: Seq::empty(), coll_bytes: 0, ..v };
            let members = ranked_members(cfg, v.members);
            let meta = streams[fp];
            if cfg.is_absent {
                Ok(SlideView { covers: v.covers.push(ts), ..w })
            } else if cfg.fan_out {
                fan_all(cfg, w, ts, meta.stream_hash, members, members.len() as int)
            } else {
                slide_in(
                    cfg,
                    w,
                    fp,
                    ts,
                    text::labels_view(meta.labels@),
                    meta.stream_hash,
                    members,
                )
            }
        },
    }
}

/// What staging a line may cost.
pub open spec fn stage_bytes(cfg: SlideConfig, body: Seq<char>, sorted: Seq<PairView>) -> u64 {
    text::saturate(
        text::saturate((vstd::layout::size_of::<CollMember>() * 8) as int) + (if cfg.needs_body_order {
            charge::block_bytes(text::byte_count(body)) as int
        } else {
            0
        }) + (if cfg.stages_out() {
            charge::grown_bytes(
                text::saturate(text::byte_count(text::json_object(sorted))) as int,
            ) + charge::pair_bytes(sorted) + charge::block_bytes(
                text::saturate(
                    (sorted.len() * vstd::layout::size_of::<(String, String)>()) as int,
                ) as int,
            )
        } else {
            0
        }),
    )
}

/// Stages a line.
pub open spec fn stage(
    cfg: SlideConfig,
    v: SlideView,
    at: (u64, i64),
    body: Seq<char>,
    labels: Seq<PairView>,
    value: u64,
) -> Step {
    let sorted = order::stable_sort(labels, text::pair_le());
    let count = v.members.len() + 1;
    let bytes = text::saturate(v.coll_bytes + stage_bytes(cfg, body, sorted));
    if count > cfg.caps.collision_members || bytes > cfg.caps.collision_bytes {
        Err(
            ErrorView::QueryTooBroad(
                TooBroadReason::TsCollisionGroup {
                    count: count as u64,
                    cap: cfg.caps.collision_members,
                    bytes,
                    bytes_cap: cfg.caps.collision_bytes,
                },
            ),
        )
    } else {
        Ok(
            SlideView {
                pending: Some(at),
                members: v.members.push(
                    MemberView {
                        body: if cfg.needs_body_order {
                            body
                        } else {
                            Seq::empty()
                        },
                        value,
                        out: if cfg.stages_out() {
                            Some((text::json_object(sorted), sorted))
                        } else {
                            None
                        },
                    },
                ),
                coll_bytes: bytes,
                ..v
            },
        )
    }
}

/// The error a line's labels report, if any.
pub open spec fn surviving_error(labels: Seq<PairView>) -> Option<Seq<char>>
    decreases labels.len(),
{
    if labels.len() == 0 {
        None
    } else if labels[0].0 == ERROR_LABEL@ && labels[0].1.len() > 0 {
        Some(labels[0].1)
    } else {
        surviving_error(labels.drop_first())
    }
}

/// The failure of a query on a line that reports an error.
pub open spec fn pipeline_error(labels: Seq<PairView>) -> ErrorView {
    ErrorView::MetricPipelineError {
        error_type: surviving_error(labels)->0,
        series: order::stable_sort(labels, text::pair_le()),
    }
}

/// The failure of a query on a row that went past a budget.
pub open spec fn budget_error(b: RowBudgetExceeded) -> ErrorView {
    ErrorView::QueryTooBroad(
        TooBroadReason::RowBudget { budget: b.budget, cap: charge::budget_ceiling(b.budget) },
    )
}

/// What a kept line contributes.
pub open spec fn line_value(kind: ClientValue, line_len: u64, value: Option<u64>) -> Option<u64> {
    match kind {
        ClientValue::Count => Some(1),
        ClientValue::Bytes => Some(line_len),
        ClientValue::Unwrap => value,
    }
}

/// Takes one row.
pub open spec fn take_row(
    cfg: SlideConfig,
    streams: Map<u64, StreamMeta>,
    v: SlideView,
    row: MetricScanRow,
) -> Step {
    let at = (row.fingerprint, row.timestamp_ns);
    let turned = if v.pending is Some && v.pending->0 != at {
        flush(cfg, streams, v)
    } else {
        Ok(v)
    };
    match turned {
        Err(e) => Err(e),
        Ok(w) => if !streams.contains_key(row.fingerprint) {
            Ok(w)
        } else {
            match row.run {
                Err(b) => Err(budget_error(b)),
                Ok(MetricRun::Dropped) => Ok(w),
                Ok(MetricRun::Kept { line_len, value, labels }) => {
                    let lv = text::labels_view(labels@);
                    if surviving_error(lv) is Some {
                        Err(pipeline_error(lv))
                    } else {
                        match line_value(cfg.reducer.value, line_len, value) {
                            None => Ok(w),
                            Some(x) => stage(cfg, w, at, row.body@, lv, x),
                        }
                    }
                },
            }
        },
    }
}

/// Takes the first `n` rows.
pub open spec fn take_rows(
    cfg: SlideConfig,
    streams: Map<u64, StreamMeta>,
    v: SlideView,
    rows: Seq<MetricScanRow>,
    n: int,
) -> Step
    decreases n,
{
    if n <= 0 {
        Ok(v)
    } else {
        match take_rows(cfg, streams, v, rows, n - 1) {
            Err(e) => Err(e),
            Ok(w) => take_row(cfg, streams, w, rows[n - 1]),
        }
    }
}

// ---------------------------------------------------------------------
// What a refusal leaves.
// ---------------------------------------------------------------------

/// What a state holds and has charged.
pub struct Books {
    pub groups: Seq<GroupView>,
    pub retained: int,
    pub group_bytes: int,
    pub result_points: int,
}

/// What a state holds and has charged.
pub open spec fn books(v: SlideView) -> Books {
    Books {
        groups: v.groups,
        retained: v.retained,
        group_bytes: v.group_bytes,
        result_points: v.result_points,
    }
}

/// What is left where a series is refused: nothing is held for it, and of the two
/// charges only one that passed stands.
pub open spec fn left_by_open(
    cfg: SlideConfig,
    v: SlideView,
    key: Seq<char>,
    labels: Seq<PairView>,
    slot: int,
) -> Books {
    let bytes = text::saturate(v.group_bytes + charge::entry_bytes(key, labels, slot));
    if bytes > cfg.caps.group_bytes {
        books(v)
    } else {
        Books { group_bytes: bytes as int, ..books(v) }
    }
}

/// What is left where a line is refused by the window sliding over its stream: what
/// was retained up to that line.
pub open spec fn left_by_load(
    cfg: SlideConfig,
    v: SlideView,
    ts: i64,
    members: Seq<MemberView>,
) -> Books {
    let hist = (v.cur->0).hist;
    let base = v.retained - cur_cost(cfg, hist) + slide::live(
        cfg.grid,
        hist,
        cfg.grid.first_cover(ts as int),
    ).len() * cfg.per_sample;
    let over = slide::first_over(
        base,
        cfg.per_sample as int,
        members.len() as int,
        cfg.caps.retention_points as int,
    );
    Books { retained: over->0 - cfg.per_sample, ..books(v) }
}

/// What is left where a stream's lines at one nanosecond are refused.
pub open spec fn left_by_slide_in(
    cfg: SlideConfig,
    v: SlideView,
    fp: u64,
    ts: i64,
    labels: Seq<PairView>,
    hash: u64,
    members: Seq<MemberView>,
) -> Books {
    if v.cur is Some && v.cur->0.fp == fp {
        left_by_load(cfg, v, ts, members)
    } else {
        match open_series(cfg, rotate(cfg, v), Seq::empty(), labels, series_slot()) {
            Err(_) => left_by_open(cfg, rotate(cfg, v), Seq::empty(), labels, series_slot()),
            Ok(w) => left_by_load(
                cfg,
                SlideView { cur: Some(CurView { fp, hash, labels, hist: Seq::empty() }), ..w },
                ts,
                members,
            ),
        }
    }
}

/// What is left where a sample is refused by group `i`: the group as it was, and what
/// was retained up to the refused entry.
pub open spec fn left_by_add(cfg: SlideConfig, v: SlideView, i: int, s: WinSample) -> Books {
    let over = cells::add_over(
        cfg.form(),
        cfg.grid,
        v.groups[i].hist,
        s,
        cfg.per_sample,
        v.retained,
        cfg.caps.retention_points as int,
    );
    Books { retained: over->0 - cells::unit_cost(cfg.form(), cfg.per_sample), ..books(v) }
}

/// What is left where a sample is refused: no group that could not be opened.
pub open spec fn left_by_fan_one(
    cfg: SlideConfig,
    v: SlideView,
    key: Seq<char>,
    labels: Seq<PairView>,
    s: WinSample,
) -> Books {
    match group_index(v.groups, key) {
        Some(i) => left_by_add(cfg, v, i, s),
        None => match open_series(cfg, v, key, labels, group_slot()) {
            Err(_) => left_by_open(cfg, v, key, labels, group_slot()),
            Ok(w) => left_by_add(
                cfg,
                SlideView {
                    groups: w.groups.push(GroupView { key, labels, hist: Seq::empty() }),
                    ..w
                },
                w.groups.len() as int,
                s,
            ),
        },
    }
}

/// What is left where one of the first `n` of a stream's lines at one nanosecond is
/// refused: what the lines before it left, and what its own refusal did.
pub open spec fn left_by_fan_all(
    cfg: SlideConfig,
    v: SlideView,
    ts: i64,
    hash: u64,
    members: Seq<MemberView>,
    n: int,
) -> Books
    decreases n,
{
    if n <= 0 {
        books(v)
    } else {
        match fan_all(cfg, v, ts, hash, members, n - 1) {
            Err(_) => left_by_fan_all(cfg, v, ts, hash, members, n - 1),
            Ok(w) => {
                let m = members[n - 1];
                left_by_fan_one(
                    cfg,
                    w,
                    (m.out->0).0,
                    (m.out->0).1,
                    WinSample {
                        ts,
                        stream_hash: hash,
                        tie_rank: (n - 1) as u32,
                        value: m.value,
                    },
                )
            },
        }
    }
}

/// What is left where closing the run of staged lines is refused.
pub open spec fn left_by_flush(
    cfg: SlideConfig,
    streams: Map<u64, StreamMeta>,
    v: SlideView,
) -> Books {
    let (fp, ts) = v.pending->0;
    let w = SlideView { pending: None, members: Seq::empty(), coll_bytes: 0, ..v };
    let members = ranked_members(cfg, v.members);
    let meta = streams[fp];
    if cfg.fan_out {
        left_by_fan_all(cfg, w, ts, meta.stream_hash, members, members.len() as int)
    } else {
        left_by_slide_in(
            cfg,
            w,
            fp,
            ts,
            text::labels_view(meta.labels@),
            meta.stream_hash,
            members,
        )
    }
}

/// What is left where a row is refused: what closing the run before it left. A row
/// refused after that has charged nothing.
pub open spec fn left_by_take_row(
    cfg: SlideConfig,
    streams: Map<u64, StreamMeta>,
    v: SlideView,
    row: MetricScanRow,
) -> Books {
    if v.pending is Some && v.pending->0 != (row.fingerprint, row.timestamp_ns) {
        match flush(cfg, streams, v) {
            Err(_) => left_by_flush(cfg, streams, v),
            Ok(w) => books(w),
        }
    } else {
        books(v)
    }
}

/// What is left where one of the first `n` rows is refused: what the rows before it
/// left, and what its own refusal did.
pub open spec fn left_by_take_rows(
    cfg: SlideConfig,
    streams: Map<u64, StreamMeta>,
    v: SlideView,
    rows: Seq<MetricScanRow>,
    n: int,
) -> Books
    decreases n,
{
    if n <= 0 {
        books(v)
    } else {
        match take_rows(cfg, streams, v, rows, n - 1) {
            Err(_) => left_by_take_rows(cfg, streams, v, rows, n - 1),
            Ok(w) => left_by_take_row(cfg, streams, w, rows[n - 1]),
        }
    }
}

/// A group that could not be opened is not held: the groups are those before the
/// sample, and so is the reservation of result points.
pub proof fn law_a_refused_group_is_not_held(
    cfg: SlideConfig,
    v: SlideView,
    key: Seq<char>,
    labels: Seq<PairView>,
    s: WinSample,
)
    requires
        group_index(v.groups, key) is None,
        open_series(cfg, v, key, labels, group_slot()) is Err,
    ensures
        left_by_fan_one(cfg, v, key, labels, s).groups == v.groups,
        left_by_fan_one(cfg, v, key, labels, s).retained == v.retained,
        left_by_fan_one(cfg, v, key, labels, s).result_points == v.result_points,
        text::saturate(v.group_bytes + charge::entry_bytes(key, labels, group_slot()))
            > cfg.caps.group_bytes ==> left_by_fan_one(cfg, v, key, labels, s) == books(v),
{
}

/// Whether a grid's width of result points is reserved for each group.
pub open spec fn reserves_widths(cfg: SlideConfig, v: SlideView) -> bool {
    v.result_points == text::saturate((v.groups.len() * cfg.grid.slots()) as int)
}

pub proof fn lemma_group_index_in_range(groups: Seq<GroupView>, key: Seq<char>)
    ensures
        group_index(groups, key) matches Some(i) ==> 0 <= i < groups.len(),
    decreases groups.len(),
{
    if groups.len() > 0 {
        lemma_group_index_in_range(groups.drop_last(), key);
    }
}

proof fn lemma_fan_one_reserves(
    cfg: SlideConfig,
    v: SlideView,
    key: Seq<char>,
    labels: Seq<PairView>,
    s: WinSample,
)
    requires
        cfg.grid.wf(),
        reserves_widths(cfg, v),
    ensures
        fan_one(cfg, v, key, labels, s) matches Ok(w) ==> reserves_widths(cfg, w),
{
    let (n, width) = (v.groups.len() as int, cfg.grid.slots());
    lemma_group_index_in_range(v.groups, key);
    assert((n + 1) * width == n * width + width) by (nonlinear_arith);
    assert(n * width >= 0) by (nonlinear_arith)
        requires
            n >= 0,
            width >= 0,
    ;
}

proof fn lemma_fan_all_reserves(
    cfg: SlideConfig,
    v: SlideView,
    ts: i64,
    hash: u64,
    members: Seq<MemberView>,
    n: int,
)
    requires
        cfg.grid.wf(),
        reserves_widths(cfg, v),
    ensures
        fan_all(cfg, v, ts, hash, members, n) matches Ok(w) ==> reserves_widths(cfg, w),
    decreases n,
{
    if n > 0 {
        lemma_fan_all_reserves(cfg, v, ts, hash, members, n - 1);
        if fan_all(cfg, v, ts, hash, members, n - 1) is Ok {
            let m = members[n - 1];
            lemma_fan_one_reserves(
                cfg,
                fan_all(cfg, v, ts, hash, members, n - 1)->Ok_0,
                (m.out->0).0,
                (m.out->0).1,
                WinSample { ts, stream_hash: hash, tie_rank: (n - 1) as u32, value: m.value },
            );
        }
    }
}

/// What is reserved for the result is one grid's width for each group of lines,
/// however many lines it has.
pub proof fn law_a_group_reserves_one_width(
    cfg: SlideConfig,
    streams: Map<u64, StreamMeta>,
    v: SlideView,
    rows: Seq<MetricScanRow>,
    n: int,
)
    requires
        cfg.stages_out(),
        cfg.grid.wf(),
        reserves_widths(cfg, v),
    ensures
        take_rows(cfg, streams, v, rows, n) matches Ok(w) ==> reserves_widths(cfg, w),
    decreases n,
{
    if n > 0 {
        law_a_group_reserves_one_width(cfg, streams, v, rows, n - 1);
        if take_rows(cfg, streams, v, rows, n - 1) is Ok {
            let w = take_rows(cfg, streams, v, rows, n - 1)->Ok_0;
            if w.pending is Some {
                let (fp, ts) = w.pending->0;
                let members = ranked_members(cfg, w.members);
                lemma_fan_all_reserves(
                    cfg,
                    SlideView { pending: None, members: Seq::empty(), coll_bytes: 0, ..w },
                    ts,
                    streams[fp].stream_hash,
                    members,
                    members.len() as int,
                );
            }
        }
    }
}

/// How a scan is cut into batches does not matter: the second batch goes on where the
/// first ended, with the lines it left staged, and an error ends the scan.
pub proof fn law_batches_join(
    cfg: SlideConfig,
    streams: Map<u64, StreamMeta>,
    v: SlideView,
    a: Seq<MetricScanRow>,
    b: Seq<MetricScanRow>,
    n: int,
)
    requires
        0 <= n <= b.len(),
    ensures
        take_rows(cfg, streams, v, a + b, a.len() + n) == match take_rows(
            cfg,
            streams,
            v,
            a,
            a.len() as int,
        ) {
            Err(e) => Err(e),
            Ok(w) => take_rows(cfg, streams, w, b, n),
        },
    decreases n,
{
    if n == 0 {
        lemma_take_rows_of_beginning(cfg, streams, v, a, b, a.len() as int);
    } else {
        law_batches_join(cfg, streams, v, a, b, n - 1);
        assert((a + b)[a.len() + n - 1] == b[n - 1]);
    }
}

proof fn lemma_take_rows_of_beginning(
    cfg: SlideConfig,
    streams: Map<u64, StreamMeta>,
    v: SlideView,
    a: Seq<MetricScanRow>,
    b: Seq<MetricScanRow>,
    n: int,
)
    requires
        0 <= n <= a.len(),
    ensures
        take_rows(cfg, streams, v, a + b, n) == take_rows(cfg, streams, v, a, n),
    decreases n,
{
    if n > 0 {
        lemma_take_rows_of_beginning(cfg, streams, v, a, b, n - 1);
        assert((a + b)[n - 1] == a[n - 1]);
    }
}

/// An error stays, and so does what it left.
pub proof fn lemma_take_rows_error(
    cfg: SlideConfig,
    streams: Map<u64, StreamMeta>,
    v: SlideView,
    rows: Seq<MetricScanRow>,
    m: int,
    n: int,
)
    requires
        m <= n,
        take_rows(cfg, streams, v, rows, m) is Err,
    ensures
        take_rows(cfg, streams, v, rows, n) == take_rows(cfg, streams, v, rows, m),
        left_by_take_rows(cfg, streams, v, rows, n) == left_by_take_rows(cfg, streams, v, rows, m),
    decreases n - m,
{
    if m < n {
        lemma_take_rows_error(cfg, streams, v, rows, m, n - 1);
    }
}

/// An error stays, and so does what it left.
pub proof fn lemma_fan_all_error(
    cfg: SlideConfig,
    v: SlideView,
    ts: i64,
    hash: u64,
    members: Seq<MemberView>,
    m: int,
    n: int,
)
    requires
        m <= n,
        fan_all(cfg, v, ts, hash, members, m) is Err,
    ensures
        fan_all(cfg, v, ts, hash, members, n) == fan_all(cfg, v, ts, hash, members, m),
        left_by_fan_all(cfg, v, ts, hash, members, n) == left_by_fan_all(cfg, v, ts, hash, members, m),
    decreases n - m,
{
    if m < n {
        lemma_fan_all_error(cfg, v, ts, hash, members, m, n - 1);
    }
}

// ---------------------------------------------------------------------
// Rows in scan order, and how much of the scan they are.
// ---------------------------------------------------------------------

/// Scan order: by stream, then by time.
pub open spec fn scan_le(a: (u64, i64), b: (u64, i64)) -> bool {
    a.0 < b.0 || (a.0 == b.0 && a.1 <= b.1)
}

pub open spec fn row_key(row: MetricScanRow) -> (u64, i64) {
    (row.fingerprint, row.timestamp_ns)
}

/// Whether rows continue a scan that has come to `last`.
pub open spec fn in_scan_order(last: Option<(u64, i64)>, rows: Seq<MetricScanRow>) -> bool {
    &&& forall|i: int, j: int|
        0 <= i <= j < rows.len() ==> scan_le(row_key(#[trigger] rows[i]), row_key(#[trigger] rows[j]))
    &&& last is Some && rows.len() > 0 ==> scan_le(last->0, row_key(rows[0]))
}

/// How much of the scan a row is: the row itself, and the line it kept with its
/// bytes.
pub open spec fn row_cost(row: MetricScanRow) -> int {
    match row.run {
        Ok(MetricRun::Kept { line_len, .. }) => 2 + line_len,
        _ => 1,
    }
}

/// How much of the scan the rows are.
pub open spec fn rows_cost(rows: Seq<MetricScanRow>) -> int
    decreases rows.len(),
{
    if rows.len() == 0 {
        0
    } else {
        rows_cost(rows.drop_last()) + row_cost(rows.last())
    }
}

pub proof fn lemma_rows_cost_part(rows: Seq<MetricScanRow>, n: int)
    requires
        0 <= n <= rows.len(),
    ensures
        0 <= rows_cost(rows.take(n)) <= rows_cost(rows),
        rows_cost(rows.take(n)) >= n,
    decreases rows.len(),
{
    if n == rows.len() {
        assert(rows.take(n) =~= rows);
        if n > 0 {
            lemma_rows_cost_part(rows.drop_last(), n - 1);
            assert(rows.drop_last().take(n - 1) =~= rows.drop_last());
        }
    } else {
        lemma_rows_cost_part(rows.drop_last(), n);
        assert(rows.drop_last().take(n) =~= rows.take(n));
    }
}

} // verus!
