//! The sliding-window evaluator of range queries.
//!
//! Rows arrive in scan order, stream by stream. Lines of one stream at one
//! nanosecond are staged, ranked and then fed either to the window sliding over
//! the stream or, where lines are grouped by their labels, to their groups.
use std::collections::HashMap;
use vstd::hash_map::StringHashMap;
use vstd::prelude::*;
use crate::agg::{self, can_fold, pin_reduction_order};
use crate::cells::{self, mut_cells_for, MutGroup};
use crate::charge::{
    self, alloc_block_bytes, charge_group_bytes, charge_result_points, discharge_group_bytes,
    discharge_retention, group_entry_bytes, grown_alloc_bytes, retention_points_per_sample,
    row_budget_ceiling, AggCaps,
};
use crate::error::{ErrorView, ReadError, TooBroadReason};
use crate::model::{
    ClientAgg, ClientValue, MatrixSeries, MetricRun, MetricScanRow, QueryResult, RangeAggOp,
    StreamMeta, VectorAggSpec, VectorAggView,
};
use crate::order::{self, stable_sorted, Ranked};
use crate::presence::{self, Presence};
use crate::range_model::{
    self, CurView, GroupView, MemberView, SeriesView, SlideConfig, SlideView, ERROR_LABEL,
};
use crate::slide::{self, reducer_class, CollMember, FpSlide, Reducer, ReducerClass, WinSample};
use crate::text::{
    self, byte_len, copy_labels, label_set_le, render_labels_json, rendered_labels_json_len,
    saturating_product, sorted_labels, str_eq, str_le, LabelSet, PairView,
};
use crate::window::{self, clamp_bucket, ensure_grid_resolution, ClientWindow, DurationNs, Grid};

verus! {

impl Ranked for CollMember {
    open spec fn rank_le() -> spec_fn(Self, Self) -> bool {
        |a: CollMember, b: CollMember|
            range_model::body_le()(range_model::member_view(a), range_model::member_view(b))
    }

    proof fn rank_is_preorder() {
        range_model::lemma_body_le_preorder();
        let le = Self::rank_le();
        assert forall|a: Self, b: Self| #[trigger] le(a, b) || le(b, a) by {
            let (x, y) = (range_model::member_view(a), range_model::member_view(b));
            assert(range_model::body_le()(x, y) || range_model::body_le()(y, x));
        }
        assert forall|a: Self, b: Self, c: Self| #[trigger] le(a, b) && #[trigger] le(
            b,
            c,
        ) implies le(a, c) by {
            let (x, y, z) = (
                range_model::member_view(a),
                range_model::member_view(b),
                range_model::member_view(c),
            );
            let body_le = range_model::body_le();
            assert(body_le(x, y) && body_le(y, z) ==> body_le(x, z));
        }
    }

    fn ranks_le(&self, other: &Self) -> (r: bool) {
        str_le(self.body.as_str(), other.body.as_str())
    }
}

/// What a group says.
pub open spec fn group_view(g: MutGroup) -> GroupView {
    GroupView { key: g.key@, labels: text::labels_view(g.labels@), hist: g.hist@ }
}

/// What the staged lines say.
pub open spec fn members_view(coll: Seq<CollMember>) -> Seq<MemberView> {
    coll.map_values(|m: CollMember| range_model::member_view(m))
}

/// How much of the scan the samples are.
pub open spec fn hist_load(cfg: SlideConfig, hist: Seq<WinSample>) -> int {
    hist.len() + (if cfg.reducer.class is InvertInteger {
        slide::weight_sum(hist)
    } else {
        0
    })
}

/// The sum of values.
pub open spec fn value_sum(values: Seq<u64>) -> int
    decreases values.len(),
{
    if values.len() == 0 {
        0
    } else {
        value_sum(values.drop_last()) + values.last()
    }
}

/// How much of the scan the staged lines are.
pub open spec fn staged_load(cfg: SlideConfig, members: Seq<MemberView>) -> int {
    members.len() + (if cfg.reducer.class is InvertInteger {
        value_sum(range_model::values_of(members))
    } else {
        0
    })
}

/// What the groups' entries cost.
pub open spec fn groups_cost(cfg: SlideConfig, groups: Seq<GroupView>) -> int
    decreases groups.len(),
{
    if groups.len() == 0 {
        0
    } else {
        groups_cost(cfg, groups.drop_last()) + cells::units_of(cfg.form(), cfg.grid, groups.last().hist)
            * cells::unit_cost(cfg.form(), cfg.per_sample)
    }
}

/// What the groups' labels cost.
pub open spec fn groups_bytes(groups: Seq<GroupView>) -> int
    decreases groups.len(),
{
    if groups.len() == 0 {
        0
    } else {
        groups_bytes(groups.drop_last()) + charge::entry_bytes(
            groups.last().key,
            groups.last().labels,
            range_model::group_slot(),
        )
    }
}

/// What the closed series' labels cost.
pub open spec fn closed_bytes(closed: Seq<SeriesView>) -> int
    decreases closed.len(),
{
    if closed.len() == 0 {
        0
    } else {
        closed_bytes(closed.drop_last()) + charge::entry_bytes(
            Seq::empty(),
            closed.last().labels,
            range_model::series_slot(),
        )
    }
}

/// How many samples groups have been fed.
pub open spec fn samples_of(groups: Seq<GroupView>) -> int
    decreases groups.len(),
{
    if groups.len() == 0 {
        0
    } else {
        samples_of(groups.drop_last()) + groups.last().hist.len()
    }
}

/// The points a state is charged for: exactly what it retains.
pub open spec fn retained_of(cfg: SlideConfig, v: SlideView) -> int {
    groups_cost(cfg, v.groups) + (match v.cur {
        Some(c) => range_model::cur_cost(cfg, c.hist),
        None => 0,
    })
}

/// The bytes a state is charged for: exactly those of the labels it keeps.
pub open spec fn bytes_of(v: SlideView) -> int {
    closed_bytes(v.closed) + groups_bytes(v.groups) + (match v.cur {
        Some(c) => charge::entry_bytes(Seq::empty(), c.labels, range_model::series_slot()) as int,
        None => 0,
    })
}

/// A vector aggregation handed to the leaf: the grid it works on, and the caps it holds
/// its own results and groups to.
#[derive(Debug)]
pub struct LeafFold {
    pub spec: VectorAggSpec,
    pub grid: Grid,
    pub result_points: u64,
    pub group_bytes: u64,
}

/// What a vector aggregation handed to the leaf is.
pub struct LeafFoldView {
    pub spec: VectorAggView,
    pub grid: Grid,
    pub result_points: u64,
    pub group_bytes: u64,
}

impl LeafFold {
    pub open spec fn view(&self) -> LeafFoldView {
        LeafFoldView {
            spec: self.spec@,
            grid: self.grid,
            result_points: self.result_points,
            group_bytes: self.group_bytes,
        }
    }
}

/// A vector aggregation as a leaf is handed it: on the leaf's grid, under the caps of
/// the leaf.
pub open spec fn handed(cfg: SlideConfig, spec_: VectorAggView) -> LeafFoldView {
    LeafFoldView {
        spec: spec_,
        grid: cfg.grid,
        result_points: cfg.caps.result_points,
        group_bytes: cfg.caps.group_bytes,
    }
}

/// What the vector aggregation attached to a leaf is, if there is one.
pub open spec fn fold_view(fold: Option<LeafFold>) -> Option<LeafFoldView> {
    match fold {
        None => None,
        Some(f) => Some(f@),
    }
}

/// The evaluator.
pub struct RangeSlideState {
    pub cfg: SlideConfig,
    pub absent_labels: LabelSet,
    pub streams: HashMap<u64, StreamMeta>,
    pub retained: u64,
    pub cur: Option<FpSlide>,
    pub cur_fp: u64,
    pub series_out: Vec<MatrixSeries>,
    /// The samples behind each series of `series_out`.
    pub closed: Ghost<Seq<Seq<WinSample>>>,
    pub groups: Vec<MutGroup>,
    /// Where each group stands, by its rendered labels.
    pub index: StringHashMap<usize>,
    pub present: Presence,
    pub coll_fp: u64,
    pub coll_ts: i64,
    pub coll: Vec<CollMember>,
    pub coll_bytes: u64,
    pub group_bytes: u64,
    pub result_points: u64,
    /// The vector aggregation that the series are handed to at the end.
    pub fold: Option<LeafFold>,
    /// How much has been scanned.
    pub scanned: Ghost<int>,
    /// The key of the last row.
    pub last: Ghost<Option<(u64, i64)>>,
}

impl RangeSlideState {
    pub open spec fn view(&self) -> SlideView {
        SlideView {
            retained: self.retained as int,
            group_bytes: self.group_bytes as int,
            result_points: self.result_points as int,
            cur: match self.cur {
                Some(s) => Some(
                    CurView {
                        fp: self.cur_fp,
                        hash: s.stream_hash,
                        labels: text::labels_view(s.labels@),
                        hist: s.hist@,
                    },
                ),
                None => None,
            },
            closed: Seq::new(
                self.series_out@.len(),
                |i: int|
                    SeriesView {
                        labels: text::labels_view(self.series_out@[i].labels@),
                        hist: self.closed@[i],
                    },
            ),
            groups: self.groups@.map_values(|g: MutGroup| group_view(g)),
            covers: self.present.marks@,
            pending: if self.coll@.len() > 0 {
                Some((self.coll_fp, self.coll_ts))
            } else {
                None
            },
            members: members_view(self.coll@),
            coll_bytes: self.coll_bytes,
        }
    }

    /// The parts that no row changes.
    pub open spec fn same_query(&self, old: RangeSlideState) -> bool {
        &&& self.cfg == old.cfg
        &&& self.absent_labels == old.absent_labels
        &&& self.streams == old.streams
        &&& self.fold == old.fold
    }

    /// The window sliding over the current stream is that of its samples.
    pub open spec fn wf_cur<F: Fn(&Reducer, u64, &[WinSample]) -> u64>(&self, reduce: F) -> bool {
        match self.cur {
            None => true,
            Some(s) => {
                &&& !self.cfg.fan_out
                &&& !self.cfg.is_absent
                &&& s.wf(reduce)
                &&& s.grid == self.cfg.grid
                &&& s.reducer == self.cfg.reducer
                &&& s.per_sample == self.cfg.per_sample
                &&& s.next_k == slide::frontier(self.cfg.grid, s.hist@)
                &&& s.hist@.len() > 0
            },
        }
    }

    /// Every closed series has the points of its samples.
    pub open spec fn wf_closed<F: Fn(&Reducer, u64, &[WinSample]) -> u64>(
        &self,
        reduce: F,
    ) -> bool {
        &&& self.closed@.len() == self.series_out@.len()
        &&& forall|i: int|
            0 <= i < self.closed@.len() ==> {
                &&& (#[trigger] self.series_out@[i]).points@.len() > 0
                &&& slide::series_points(
                    reduce,
                    self.cfg.reducer,
                    self.cfg.grid,
                    self.closed@[i],
                    self.cfg.grid.slots(),
                    self.series_out@[i].points@,
                )
            }
    }

    /// Every group is what its samples come to, and is found by its key.
    pub open spec fn wf_groups(&self) -> bool {
        &&& forall|i: int|
            0 <= i < self.groups@.len() ==> (#[trigger] self.groups@[i]).wf(
                self.cfg.reducer.class,
                self.cfg.grid,
            )
        &&& forall|i: int|
            0 <= i < self.groups@.len() ==> self.index@.contains_key(
                (#[trigger] self.groups@[i]).key@,
            ) && self.index@[self.groups@[i].key@] == i
        &&& forall|key: Seq<char>|
            #[trigger] self.index@.contains_key(key) ==> self.index@[key] < self.groups@.len()
                && self.groups@[self.index@[key] as int].key@ == key
    }

    /// Staged lines are complete.
    pub open spec fn wf_staged(&self) -> bool {
        &&& forall|i: int|
            0 <= i < self.coll@.len() ==> ((#[trigger] self.coll@[i]).out is Some
                <==> self.cfg.stages_out())
        &&& self.coll@.len() > 0 ==> self.streams@.contains_key(self.coll_fp)
    }

    /// No counter can go past the width of its type: each is within what has been
    /// scanned.
    pub open spec fn wf_load(&self) -> bool {
        let staged = staged_load(self.cfg, self.view().members);
        &&& staged <= self.scanned@ <= i64::MAX
        &&& self.present.marks@.len() + self.coll@.len() <= self.scanned@
        &&& self.cur matches Some(s) ==> hist_load(self.cfg, s.hist@) + staged <= self.scanned@
        &&& samples_of(self.view().groups) + staged <= self.scanned@
        &&& forall|i: int|
            0 <= i < self.groups@.len() ==> hist_load(
                self.cfg,
                (#[trigger] self.groups@[i]).hist@,
            ) + staged <= self.scanned@
    }

    /// The scan has come in order.
    pub open spec fn wf_order(&self) -> bool {
        &&& self.coll@.len() > 0 ==> {
            &&& self.last@ is Some
            &&& range_model::scan_le((self.coll_fp, self.coll_ts), self.last@->0)
        }
        &&& self.cur matches Some(s) ==> {
            &&& self.last@ is Some
            &&& range_model::scan_le((self.cur_fp, s.hist@.last().ts), self.last@->0)
            &&& self.coll@.len() > 0 ==> range_model::scan_le(
                (self.cur_fp, s.hist@.last().ts),
                (self.coll_fp, self.coll_ts),
            )
        }
    }

    /// What holds between calls.
    pub open spec fn wf<F: Fn(&Reducer, u64, &[WinSample]) -> u64>(&self, reduce: F) -> bool {
        &&& self.cfg.wf()
        &&& self.wf_cur(reduce)
        &&& self.wf_closed(reduce)
        &&& self.wf_groups()
        &&& self.wf_staged()
        &&& self.wf_load()
        &&& self.wf_order()
        &&& self.cfg.is_absent ==> self.present.wf(self.cfg.grid)
        &&& !self.cfg.stages_out() ==> self.groups@.len() == 0
        &&& self.cfg.fan_out || self.cfg.is_absent ==> self.series_out@.len() == 0
        &&& self.retained == retained_of(self.cfg, self.view())
        &&& self.group_bytes <= bytes_of(self.view())
        &&& self.cfg.caps.group_bytes < u64::MAX ==> self.group_bytes == bytes_of(self.view())
        &&& self.retained <= self.cfg.caps.retention_points
        &&& self.group_bytes <= self.cfg.caps.group_bytes
        &&& self.result_points <= self.cfg.caps.result_points
    }
}

// ---------------------------------------------------------------------
// Facts about the sums.
// ---------------------------------------------------------------------

pub proof fn lemma_group_index_found(groups: Seq<GroupView>, i: int)
    requires
        0 <= i < groups.len(),
        forall|j: int| 0 <= j < groups.len() && j != i ==> (#[trigger] groups[j]).key
            != groups[i].key,
    ensures
        range_model::group_index(groups, groups[i].key) == Some(i),
    decreases groups.len(),
{
    if i < groups.len() - 1 {
        assert(groups[groups.len() - 1].key != groups[i].key);
        let rest = groups.drop_last();
        assert forall|j: int| 0 <= j < rest.len() && j != i implies (#[trigger] rest[j]).key
            != rest[i].key by {
            assert(groups[j].key != groups[i].key);
        }
        lemma_group_index_found(rest, i);
    }
}

pub proof fn lemma_group_index_none(groups: Seq<GroupView>, key: Seq<char>)
    requires
        forall|j: int| 0 <= j < groups.len() ==> (#[trigger] groups[j]).key != key,
    ensures
        range_model::group_index(groups, key) is None,
    decreases groups.len(),
{
    if groups.len() > 0 {
        assert(groups[groups.len() - 1].key != key);
        let rest = groups.drop_last();
        assert forall|j: int| 0 <= j < rest.len() implies (#[trigger] rest[j]).key != key by {
            assert(groups[j].key != key);
        }
        lemma_group_index_none(rest, key);
    }
}

proof fn lemma_groups_update(cfg: SlideConfig, groups: Seq<GroupView>, i: int, g: GroupView)
    requires
        0 <= i < groups.len(),
        g.key == groups[i].key,
        g.labels == groups[i].labels,
    ensures
        groups_cost(cfg, groups.update(i, g)) == groups_cost(cfg, groups) + (cells::units_of(
            cfg.form(),
            cfg.grid,
            g.hist,
        ) - cells::units_of(cfg.form(), cfg.grid, groups[i].hist)) * cells::unit_cost(cfg.form(), cfg.per_sample),
        groups_bytes(groups.update(i, g)) == groups_bytes(groups),
        samples_of(groups.update(i, g)) == samples_of(groups) - groups[i].hist.len() + g.hist.len(),
    decreases groups.len(),
{
    let next = groups.update(i, g);
    let each = cells::unit_cost(cfg.form(), cfg.per_sample);
    let (a, b) = (
        cells::units_of(cfg.form(), cfg.grid, g.hist),
        cells::units_of(cfg.form(), cfg.grid, groups[i].hist),
    );
    assert((a - b) * each == a * each - b * each) by (nonlinear_arith);
    if i == groups.len() - 1 {
        assert(next.drop_last() =~= groups.drop_last());
    } else {
        lemma_groups_update(cfg, groups.drop_last(), i, g);
        assert(next.drop_last() =~= groups.drop_last().update(i, g));
        assert(next.last() == groups.last());
    }
}

proof fn lemma_ranked_sum(values: Seq<u64>, ts: i64, hash: u64)
    ensures
        slide::weight_sum(slide::ranked(values, ts, hash)) == value_sum(values),
    decreases values.len(),
{
    if values.len() > 0 {
        let r = slide::ranked(values, ts, hash);
        lemma_ranked_sum(values.drop_last(), ts, hash);
        assert(r.drop_last() =~= slide::ranked(values.drop_last(), ts, hash));
    }
}

proof fn lemma_value_sum_part(values: Seq<u64>, n: int)
    requires
        0 <= n <= values.len(),
    ensures
        0 <= value_sum(values.take(n)) <= value_sum(values),
    decreases values.len(),
{
    if n == values.len() {
        assert(values.take(n) =~= values);
        if n > 0 {
            lemma_value_sum_part(values.drop_last(), n - 1);
            assert(values.drop_last().take(n - 1) =~= values.drop_last());
        }
    } else {
        lemma_value_sum_part(values.drop_last(), n);
        assert(values.drop_last().take(n) =~= values.take(n));
    }
}

/// A stream has recorded points exactly when one of its windows held a sample.
pub proof fn lemma_has_points<F: Fn(&Reducer, u64, &[WinSample]) -> u64>(
    reduce: F,
    r: Reducer,
    grid: Grid,
    hist: Seq<WinSample>,
    k: int,
    points: Seq<(i64, u64)>,
)
    requires
        slide::series_points(reduce, r, grid, hist, k, points),
    ensures
        points.len() > 0 <==> range_model::has_points(grid, hist, k),
    decreases k,
{
    if k > 0 && slide::window_of(hist, grid.at(k - 1), grid.range as int).len() == 0 {
        lemma_has_points(reduce, r, grid, hist, k - 1, points);
    }
}

/// The cost of a window is that of its live samples.
proof fn lemma_cur_cost<F: Fn(&Reducer, u64, &[WinSample]) -> u64>(reduce: F, s: FpSlide)
    requires
        s.wf(reduce),
    ensures
        s.cost() == slide::live(s.grid, s.hist@, s.next_k as int).len() * s.per_sample,
{
    slide::lemma_live_from(s.grid, s.hist@, s.next_k as int, s.gone@);
}

// ---------------------------------------------------------------------
// Taking rows.
// ---------------------------------------------------------------------

/// Fails on a line whose labels report an error.
pub fn check_surviving_error(labels: &LabelSet) -> (r: Result<(), ReadError>)
    ensures
        r is Ok <==> range_model::surviving_error(text::labels_view(labels@)) is None,
        r matches Err(e) ==> e@ == range_model::pipeline_error(text::labels_view(labels@)),
{
    let ghost view = text::labels_view(labels@);
    let mut i: usize = 0;
    proof {
        assert(view.skip(0) =~= view);
    }
    while i < labels.len()
        invariant
            i <= labels@.len(),
            view == text::labels_view(labels@),
            range_model::surviving_error(view) == range_model::surviving_error(view.skip(i as int)),
        decreases labels@.len() - i,
    {
        proof {
            assert(view.skip(i as int)[0] == view[i as int]);
            assert(view[i as int] == (labels@[i as int].0@, labels@[i as int].1@));
            assert(view.skip(i as int).drop_first() =~= view.skip(i + 1));
        }
        let value: &String = &labels[i].1;
        if str_eq(labels[i].0.as_str(), ERROR_LABEL) && !value.as_str().is_empty() {
            return Err(
                ReadError::MetricPipelineError {
                    error_type: value.clone(),
                    series: sorted_labels(labels),
                },
            );
        }
        i = i + 1;
    }
    Ok(())
}

impl RangeSlideState {
    /// What staging a line may cost.
    fn member_stage_bytes(&self, body: &str, sorted: &LabelSet) -> (n: u64)
        ensures
            n == range_model::stage_bytes(self.cfg, body@, text::labels_view(sorted@)),
    {
        let mut bytes: u64 = saturating_product(std::mem::size_of::<CollMember>() as u64, 8);
        if self.cfg.needs_body_order {
            bytes = bytes.saturating_add(alloc_block_bytes(byte_len(body)));
        }
        if self.cfg.fan_out && !self.cfg.is_absent {
            let ghost view = text::labels_view(sorted@);
            let ghost start = stage_bytes_before(self.cfg, body@) + charge::grown_bytes(
                text::saturate(text::byte_count(text::json_object(view))) as int,
            );
            bytes = bytes.saturating_add(grown_alloc_bytes(rendered_labels_json_len(sorted)));
            let mut i: usize = 0;
            proof {
                assert(view.take(0) =~= Seq::<PairView>::empty());
            }
            while i < sorted.len()
                invariant
                    i <= sorted@.len(),
                    view == text::labels_view(sorted@),
                    start >= 0,
                    bytes == text::saturate(start + charge::pair_bytes(view.take(i as int))),
                decreases sorted@.len() - i,
            {
                proof {
                    assert(view.take(i + 1).drop_last() =~= view.take(i as int));
                    assert(view.take(i + 1).last() == view[i as int]);
                    assert(view[i as int] == (sorted@[i as int].0@, sorted@[i as int].1@));
                }
                bytes = bytes.saturating_add(
                    alloc_block_bytes(byte_len(sorted[i].0.as_str())),
                ).saturating_add(alloc_block_bytes(byte_len(sorted[i].1.as_str())));
                i = i + 1;
            }
            proof {
                assert(view.take(view.len() as int) =~= view);
            }
            let elems: u64 = saturating_product(
                sorted.len() as u64,
                std::mem::size_of::<(String, String)>() as u64,
            );
            bytes = bytes.saturating_add(alloc_block_bytes(elems));
        }
        bytes
    }

    /// Stages a line: sizes everything it will hold, checks both caps, and only
    /// then holds it.
    fn stage_member<F: Fn(&Reducer, u64, &[WinSample]) -> u64>(
        &mut self,
        row: &MetricScanRow,
        labels: &LabelSet,
        value: u64,
        Ghost(reduce): Ghost<F>,
    ) -> (res: Result<(), ReadError>)
        requires
            old(self).wf(reduce),
            old(self).coll@.len() > 0 ==> (old(self).coll_fp, old(self).coll_ts)
                == range_model::row_key(*row),
            old(self).streams@.contains_key(row.fingerprint),
            old(self).last@ is Some ==> range_model::scan_le(old(self).last@->0, range_model::row_key(*row)),
            old(self).scanned@ + 1 + (if old(self).cfg.reducer.class is InvertInteger {
                value as int
            } else {
                0
            }) <= i64::MAX,
        ensures
            match res {
                Ok(()) => {
                    &&& final(self).wf(reduce)
                    &&& final(self).same_query(*old(self))
                    &&& range_model::stage(
                        old(self).cfg,
                        old(self)@,
                        range_model::row_key(*row),
                        row.body@,
                        text::labels_view(labels@),
                        value,
                    ) == Ok::<SlideView, ErrorView>(final(self)@)
                    &&& final(self).last@ == Some(range_model::row_key(*row))
                    &&& final(self).scanned@ == old(self).scanned@ + 1 + (if old(
                        self,
                    ).cfg.reducer.class is InvertInteger {
                        value as int
                    } else {
                        0
                    })
                },
                Err(e) => {
                    &&& range_model::stage(
                        old(self).cfg,
                        old(self)@,
                        range_model::row_key(*row),
                        row.body@,
                        text::labels_view(labels@),
                        value,
                    ) == Err::<SlideView, ErrorView>(e@)
                    &&& *final(self) == *old(self)
                },
            },
    {
        let ghost entry = *self;
        let stages_out: bool = self.cfg.fan_out && !self.cfg.is_absent;
        let sorted: LabelSet = if stages_out {
            sorted_labels(labels)
        } else {
            Vec::new()
        };
        let bytes: u64 = self.member_stage_bytes(row.body.as_str(), &sorted);
        proof {
            if !stages_out {
                assert(bytes == range_model::stage_bytes(
                    self.cfg,
                    row.body@,
                    order::stable_sort(text::labels_view(labels@), text::pair_le()),
                ));
            }
        }
        let next_count: u64 = self.coll.len() as u64 + 1;
        let next_bytes: u64 = self.coll_bytes.saturating_add(bytes);
        if next_count > self.cfg.caps.collision_members || next_bytes
            > self.cfg.caps.collision_bytes {
            return Err(
                ReadError::QueryTooBroad(
                    TooBroadReason::TsCollisionGroup {
                        count: next_count,
                        cap: self.cfg.caps.collision_members,
                        bytes: next_bytes,
                        bytes_cap: self.cfg.caps.collision_bytes,
                    },
                ),
            );
        }
        let body: String = if self.cfg.needs_body_order {
            row.body.clone()
        } else {
            String::new()
        };
        let out: Option<(String, LabelSet)> = if stages_out {
            Some((render_labels_json(&sorted), sorted))
        } else {
            None
        };
        let member = CollMember { body, value, out };
        self.coll_fp = row.fingerprint;
        self.coll_ts = row.timestamp_ns;
        self.coll_bytes = next_bytes;
        self.coll.push(member);
        self.last = Ghost(Some(range_model::row_key(*row)));
        self.scanned = Ghost(
            self.scanned@ + 1 + (if self.cfg.reducer.class is InvertInteger {
                value as int
            } else {
                0
            }),
        );
        proof {
            let m = range_model::member_view(member);
            assert(self@.members =~= entry@.members.push(m));
            let values = range_model::values_of(entry@.members);
            assert(range_model::values_of(self@.members) =~= values.push(value));
            assert(values.push(value).drop_last() =~= values);
            assert(self@.closed =~= entry@.closed);
            assert(range_model::stage(
                entry.cfg,
                entry@,
                range_model::row_key(*row),
                row.body@,
                text::labels_view(labels@),
                value,
            )->Ok_0 =~= self@);
        }
        Ok(())
    }
}

/// What staging a line may cost before its labels.
spec fn stage_bytes_before(cfg: SlideConfig, body: Seq<char>) -> int {
    text::saturate((vstd::layout::size_of::<CollMember>() * 8) as int) + (if cfg.needs_body_order {
        charge::block_bytes(text::byte_count(body)) as int
    } else {
        0
    })
}

// ---------------------------------------------------------------------
// Closing a run of staged lines.
// ---------------------------------------------------------------------

impl RangeSlideState {
    /// Closes the stream being slid over.
    fn rotate_slider<F: Fn(&Reducer, u64, &[WinSample]) -> u64>(&mut self, reduce: &F)
        requires
            old(self).wf(*reduce),
            slide::takes_windows(*reduce),
        ensures
            final(self).wf(*reduce),
            final(self).same_query(*old(self)),
            final(self)@ == range_model::rotate(old(self).cfg, old(self)@),
            final(self).cur is None,
            final(self).coll == old(self).coll,
            final(self).coll_fp == old(self).coll_fp,
            final(self).coll_ts == old(self).coll_ts,
            final(self).last == old(self).last,
            final(self).scanned == old(self).scanned,
    {
        let ghost entry = *self;
        let ghost v = self@;
        match self.cur.take() {
            None => {
                proof {
                    assert(self@ =~= v);
                }
            },
            Some(prev) => {
                let bytes: u64 = group_entry_bytes(
                    "",
                    &prev.labels,
                    std::mem::size_of::<MatrixSeries>(),
                );
                proof {
                    reveal_strlit("");
                    assert(""@ =~= Seq::<char>::empty());
                    lemma_cur_cost(*reduce, prev);
                    lemma_groups_cost_nonneg(self.cfg, v.groups);
                    lemma_bytes_nonneg(v);
                }
                let ghost hist = prev.hist@;
                let ghost labels = text::labels_view(prev.labels@);
                let mut retained: u64 = self.retained;
                match prev.finish(reduce, &mut retained) {
                    Some(series) => {
                        proof {
                            lemma_has_points(
                                *reduce,
                                self.cfg.reducer,
                                self.cfg.grid,
                                hist,
                                self.cfg.grid.slots(),
                                series.points@,
                            );
                        }
                        self.series_out.push(series);
                        self.closed = Ghost(self.closed@.push(hist));
                        proof {
                            assert(self@.closed =~= v.closed.push(SeriesView { labels, hist }));
                            assert(v.closed.push(SeriesView { labels, hist }).drop_last()
                                =~= v.closed);
                        }
                    },
                    None => {
                        proof {
                            lemma_has_points(
                                *reduce,
                                self.cfg.reducer,
                                self.cfg.grid,
                                hist,
                                self.cfg.grid.slots(),
                                Seq::empty(),
                            );
                        }
                        discharge_group_bytes(&mut self.group_bytes, bytes);
                        proof {
                            assert(self@.closed =~= v.closed);
                        }
                    },
                }
                self.retained = retained;
                proof {
                    assert(self@ =~= range_model::rotate(entry.cfg, v));
                }
            },
        }
    }

    /// Turns to a stream: closes the one before it, and charges the new series
    /// before anything is held for it.
    fn open_slider<F: Fn(&Reducer, u64, &[WinSample]) -> u64>(
        &mut self,
        fp: u64,
        reduce: &F,
    ) -> (res: Result<FpSlide, ReadError>)
        requires
            old(self).wf(*reduce),
            old(self).streams@.contains_key(fp),
            !old(self).cfg.fan_out,
            !old(self).cfg.is_absent,
            old(self).coll@.len() == 0,
            slide::takes_windows(*reduce),
        ensures
            ({
                let meta = old(self).streams@[fp];
                let labels = text::labels_view(meta.labels@);
                let opened = range_model::open_series(
                    old(self).cfg,
                    range_model::rotate(old(self).cfg, old(self)@),
                    Seq::empty(),
                    labels,
                    range_model::series_slot(),
                );
                match res {
                    Ok(slide) => {
                        &&& opened == Ok::<SlideView, ErrorView>(final(self)@)
                        &&& final(self).same_query(*old(self))
                        &&& final(self).cur is None
                        &&& final(self).coll == old(self).coll
                        &&& final(self).last == old(self).last
                        &&& final(self).scanned == old(self).scanned
                        &&& final(self).retained == retained_of(final(self).cfg, final(self)@)
                        &&& final(self).group_bytes <= bytes_of(final(self)@) + charge::entry_bytes(
                            Seq::empty(),
                            labels,
                            range_model::series_slot(),
                        )
                        &&& final(self).cfg.caps.group_bytes < u64::MAX ==> final(self).group_bytes
                            == bytes_of(final(self)@) + charge::entry_bytes(
                            Seq::empty(),
                            labels,
                            range_model::series_slot(),
                        )
                        &&& final(self).retained <= final(self).cfg.caps.retention_points
                        &&& final(self).group_bytes <= final(self).cfg.caps.group_bytes
                        &&& final(self).result_points <= final(self).cfg.caps.result_points
                        &&& final(self).wf_rest(*reduce)
                        &&& slide.wf(*reduce)
                        &&& slide.hist@ == Seq::<WinSample>::empty()
                        &&& slide.win@.len() == 0
                        &&& slide.grid == final(self).cfg.grid
                        &&& slide.reducer == final(self).cfg.reducer
                        &&& slide.per_sample == final(self).cfg.per_sample
                        &&& slide.next_k == 0
                        &&& slide.stream_hash == meta.stream_hash
                        &&& text::labels_view(slide.labels@) == labels
                    },
                    Err(e) => {
                        &&& opened == Err::<SlideView, ErrorView>(e@)
                        &&& final(self).same_query(*old(self))
                        &&& range_model::books(final(self)@) == range_model::left_by_open(
                            old(self).cfg,
                            range_model::rotate(old(self).cfg, old(self)@),
                            Seq::empty(),
                            labels,
                            range_model::series_slot(),
                        )
                    },
                }
            }),
    {
        broadcast use vstd::std_specs::hash::group_hash_axioms;

        self.rotate_slider(reduce);
        let ghost v = self@;
        proof {
            reveal_strlit("");
            assert(""@ =~= Seq::<char>::empty());
            lemma_bytes_nonneg(v);
        }
        let (bytes, stream_hash): (u64, u64) = match self.streams.get(&fp) {
            Some(m) => (
                group_entry_bytes("", &m.labels, std::mem::size_of::<MatrixSeries>()),
                m.stream_hash,
            ),
            None => (0, 0),
        };
        match charge_group_bytes(&mut self.group_bytes, bytes, self.cfg.caps.group_bytes) {
            Ok(()) => {},
            Err(e) => {
                return Err(e);
            },
        }
        match charge_result_points(
            &mut self.result_points,
            self.cfg.grid.slot_count(),
            self.cfg.caps.result_points,
        ) {
            Ok(()) => {},
            Err(e) => {
                return Err(e);
            },
        }
        let labels: LabelSet = match self.streams.get(&fp) {
            Some(m) => copy_labels(&m.labels),
            None => Vec::new(),
        };
        proof {
            assert(self@.closed =~= v.closed);
            assert(range_model::open_series(
                self.cfg,
                v,
                Seq::empty(),
                text::labels_view(labels@),
                range_model::series_slot(),
            )->Ok_0 =~= self@);
        }
        let slide = FpSlide::new(
            stream_hash,
            labels,
            self.cfg.reducer,
            self.cfg.grid,
            self.cfg.per_sample,
        );
        proof {
            slide.lemma_fresh_wf(*reduce);
        }
        Ok(slide)
    }

    /// What holds of the parts that turning to a stream does not touch.
    pub open spec fn wf_rest<F: Fn(&Reducer, u64, &[WinSample]) -> u64>(&self, reduce: F) -> bool {
        &&& self.cfg.wf()
        &&& self.wf_closed(reduce)
        &&& self.wf_groups()
        &&& self.wf_staged()
        &&& self.wf_load()
        &&& self.wf_order()
        &&& self.groups@.len() == 0
    }
}

/// What groups are charged for is bounded by their samples.
proof fn lemma_groups_cost_bounded(cfg: SlideConfig, groups: Seq<GroupView>)
    requires
        cfg.per_sample <= 2,
    ensures
        groups_cost(cfg, groups) <= 2 * samples_of(groups),
        0 <= samples_of(groups),
    decreases groups.len(),
{
    if groups.len() > 0 {
        lemma_groups_cost_bounded(cfg, groups.drop_last());
        let hist = groups.last().hist;
        cells::law_retention_ignores_the_width(cfg.form(), cfg.grid, hist);
        let (u, c) = (
            cells::units_of(cfg.form(), cfg.grid, hist),
            cells::unit_cost(cfg.form(), cfg.per_sample),
        );
        assert(u * c <= 2 * hist.len()) by (nonlinear_arith)
            requires
                0 <= u <= 2 * hist.len(),
                c == 1 || (u == hist.len() && c <= 2),
        ;
    }
}

/// What the window sliding over a stream is charged for is bounded by its samples.
proof fn lemma_slide_cost_bounded<F: Fn(&Reducer, u64, &[WinSample]) -> u64>(reduce: F, s: FpSlide)
    requires
        s.wf(reduce),
        s.per_sample <= 2,
    ensures
        0 <= s.cost() <= 2 * s.hist@.len(),
{
    assert(s.win@.len() <= s.hist@.len());
    assert(0 <= s.win@.len() * s.per_sample <= 2 * s.hist@.len()) by (nonlinear_arith)
        requires
            s.win@.len() <= s.hist@.len(),
            s.per_sample <= 2,
    ;
}

proof fn lemma_groups_cost_nonneg(cfg: SlideConfig, groups: Seq<GroupView>)
    ensures
        groups_cost(cfg, groups) >= 0,
    decreases groups.len(),
{
    if groups.len() > 0 {
        lemma_groups_cost_nonneg(cfg, groups.drop_last());
        lemma_units_nonneg(cfg, groups.last().hist);
        let (u, c) = (
            cells::units_of(cfg.form(), cfg.grid, groups.last().hist),
            cells::unit_cost(cfg.form(), cfg.per_sample),
        );
        assert(u * c >= 0) by (nonlinear_arith)
            requires
                u >= 0,
                c >= 0,
        ;
    }
}

proof fn lemma_units_nonneg(cfg: SlideConfig, hist: Seq<WinSample>)
    ensures
        cells::units_of(cfg.form(), cfg.grid, hist) >= 0,
    decreases hist.len(),
{
    if hist.len() > 0 {
        lemma_units_nonneg(cfg, hist.drop_last());
    }
}

proof fn lemma_closed_bytes_nonneg(closed: Seq<SeriesView>)
    ensures
        closed_bytes(closed) >= 0,
    decreases closed.len(),
{
    if closed.len() > 0 {
        lemma_closed_bytes_nonneg(closed.drop_last());
    }
}

proof fn lemma_groups_bytes_nonneg(groups: Seq<GroupView>)
    ensures
        groups_bytes(groups) >= 0,
    decreases groups.len(),
{
    if groups.len() > 0 {
        lemma_groups_bytes_nonneg(groups.drop_last());
    }
}

proof fn lemma_bytes_nonneg(v: SlideView)
    ensures
        closed_bytes(v.closed) >= 0,
        groups_bytes(v.groups) >= 0,
{
    lemma_closed_bytes_nonneg(v.closed);
    lemma_groups_bytes_nonneg(v.groups);
}

proof fn lemma_hist_load_join(cfg: SlideConfig, a: Seq<WinSample>, values: Seq<u64>, ts: i64, hash: u64)
    ensures
        hist_load(cfg, a + slide::ranked(values, ts, hash)) == hist_load(cfg, a) + values.len() + (
        if cfg.reducer.class is InvertInteger {
            value_sum(values)
        } else {
            0
        }),
        slide::weight_sum(a + slide::ranked(values, ts, hash)) == slide::weight_sum(a) + value_sum(values),
{
    slide::lemma_weight_sum_join(a, slide::ranked(values, ts, hash));
    lemma_ranked_sum(values, ts, hash);
}

impl RangeSlideState {
    /// Feeds a stream's lines at one nanosecond to the window sliding over it.
    #[verifier::rlimit(60)]
    fn slide_members<F: Fn(&Reducer, u64, &[WinSample]) -> u64>(
        &mut self,
        fp: u64,
        ts: i64,
        members: &Vec<CollMember>,
        reduce: &F,
    ) -> (res: Result<(), ReadError>)
        requires
            old(self).wf(*reduce),
            old(self).coll@.len() == 0,
            !old(self).cfg.fan_out,
            !old(self).cfg.is_absent,
            old(self).streams@.contains_key(fp),
            members@.len() > 0,
            staged_load(old(self).cfg, members_view(members@)) <= old(self).scanned@,
            old(self).cur matches Some(s) ==> {
                &&& hist_load(old(self).cfg, s.hist@) + staged_load(
                    old(self).cfg,
                    members_view(members@),
                ) <= old(self).scanned@
                &&& range_model::scan_le((old(self).cur_fp, s.hist@.last().ts), (fp, ts))
            },
            old(self).last@ is Some,
            range_model::scan_le((fp, ts), old(self).last@->0),
            slide::takes_windows(*reduce),
        ensures
            ({
                let meta = old(self).streams@[fp];
                let step = range_model::slide_in(
                    old(self).cfg,
                    old(self)@,
                    fp,
                    ts,
                    text::labels_view(meta.labels@),
                    meta.stream_hash,
                    members_view(members@),
                );
                match res {
                    Ok(()) => {
                        &&& step == Ok::<SlideView, ErrorView>(final(self)@)
                        &&& final(self).wf(*reduce)
                        &&& final(self).same_query(*old(self))
                        &&& final(self).coll@.len() == 0
                        &&& final(self).last == old(self).last
                        &&& final(self).scanned == old(self).scanned
                    },
                    Err(e) => {
                        &&& step == Err::<SlideView, ErrorView>(e@)
                        &&& final(self).same_query(*old(self))
                        &&& range_model::books(final(self)@) == range_model::left_by_slide_in(
                            old(self).cfg,
                            old(self)@,
                            fp,
                            ts,
                            text::labels_view(meta.labels@),
                            meta.stream_hash,
                            members_view(members@),
                        )
                    },
                }
            }),
    {
        let ghost entry = *self;
        let ghost views = members_view(members@);
        let ghost values = range_model::values_of(views);
        proof {
            assert(values =~= slide::member_values(members@));
        }
        let fresh: bool = match &self.cur {
            None => true,
            Some(_) => self.cur_fp != fp,
        };
        let mut slide: FpSlide = if fresh {
            match self.open_slider(fp, reduce) {
                Ok(s) => s,
                Err(e) => {
                    return Err(e);
                },
            }
        } else {
            match self.cur.take() {
                Some(s) => s,
                None => {
                    return Ok(());
                },
            }
        };
        let ghost before = slide;
        let ghost mid = *self;
        let ghost labels = text::labels_view(slide.labels@);
        // The state with the stream turned to, before its lines are fed.
        let ghost turned = SlideView {
            cur: Some(CurView { fp, hash: slide.stream_hash, labels, hist: slide.hist@ }),
            ..mid@
        };
        proof {
            if !fresh {
                assert(turned =~= entry@);
            }
            lemma_cur_cost(*reduce, slide);
            lemma_groups_cost_nonneg(mid.cfg, mid@.groups);
            lemma_hist_load_join(mid.cfg, slide.hist@, values, ts, slide.stream_hash);
            mid.cfg.grid.lemma_cover_run(ts as int);
            if fresh {
                assert(slide::weight_sum(Seq::<WinSample>::empty()) == 0);
                assert(slide::live(mid.cfg.grid, slide.hist@, 0).len() == 0);
            }
            assert(0 * (mid.cfg.per_sample as int) == 0);
        }
        proof {
            lemma_slide_cost_bounded(*reduce, slide);
            assert(members@.len() * slide.per_sample <= 2 * members@.len()) by (nonlinear_arith)
                requires
                    slide.per_sample <= 2,
            ;
            assert(values.len() == members@.len());
            lemma_value_sum_part(values, 0);
            slide::lemma_weight_sum_nonneg(slide.hist@);
            assert(mid@.groups =~= Seq::empty());
            assert(groups_cost(mid.cfg, mid@.groups) == 0);
            assert(self.retained == slide.cost());
            assert(slide.hist@.len() + members@.len() <= entry.scanned@ <= i64::MAX);
        }
        let mut retained: u64 = self.retained;
        match slide.load_group(
            ts,
            members,
            reduce,
            &mut retained,
            self.cfg.caps.retention_points,
        ) {
            Ok(()) => {},
            Err(e) => {
                self.retained = retained;
                self.cur = Some(slide);
                self.cur_fp = fp;
                return Err(e);
            },
        }
        proof {
            lemma_cur_cost(*reduce, slide);
        }
        self.retained = retained;
        self.cur = Some(slide);
        self.cur_fp = fp;
        proof {
            let step = range_model::load(entry.cfg, turned, ts, views);
            assert(slide.hist@.last() == slide::ranked(values, ts, before.stream_hash).last());
            assert(self@.closed =~= mid@.closed);
            assert(step is Ok);
            assert(step->Ok_0 =~= self@);
            lemma_first_over_bound(
                retained - members@.len() * mid.cfg.per_sample,
                mid.cfg.per_sample as int,
                members@.len() as int,
                mid.cfg.caps.retention_points as int,
            );
        }
        Ok(())
    }
}

/// Charges that all pass leave the counter within the cap.
proof fn lemma_first_over_bound(base: int, each: int, n: int, cap: int)
    requires
        n > 0,
        slide::first_over(base, each, n, cap) is None,
    ensures
        base + n * each <= cap,
{
}

impl RangeSlideState {
    /// What holds of a state that groups lines by their labels while the lines of
    /// one nanosecond are being fed, `staged` of the scan still to come.
    pub open spec fn wf_fanning<F: Fn(&Reducer, u64, &[WinSample]) -> u64>(
        &self,
        reduce: F,
        staged: int,
    ) -> bool {
        &&& self.wf(reduce)
        &&& self.coll@.len() == 0
        &&& self.cfg.fan_out
        &&& !self.cfg.is_absent
        &&& 0 <= staged <= self.scanned@
        &&& samples_of(self.view().groups) + staged <= self.scanned@
        &&& forall|i: int|
            0 <= i < self.groups@.len() ==> hist_load(
                self.cfg,
                (#[trigger] self.groups@[i]).hist@,
            ) + staged <= self.scanned@
    }

    /// Opens a group, charged before anything is held for it.
    fn open_group<F: Fn(&Reducer, u64, &[WinSample]) -> u64>(
        &mut self,
        key: String,
        labels: LabelSet,
        Ghost(reduce): Ghost<F>,
        Ghost(staged): Ghost<int>,
    ) -> (res: Result<(), ReadError>)
        requires
            old(self).wf_fanning(reduce, staged),
            !old(self).index@.contains_key(key@),
        ensures
            ({
                let opened = range_model::open_series(
                    old(self).cfg,
                    old(self)@,
                    key@,
                    text::labels_view(labels@),
                    range_model::group_slot(),
                );
                match res {
                    Ok(()) => {
                        &&& opened is Ok
                        &&& final(self)@ == SlideView {
                            groups: old(self)@.groups.push(
                                GroupView {
                                    key: key@,
                                    labels: text::labels_view(labels@),
                                    hist: Seq::empty(),
                                },
                            ),
                            ..opened->Ok_0
                        }
                        &&& final(self).wf_fanning(reduce, staged)
                        &&& final(self).same_query(*old(self))
                        &&& final(self).last == old(self).last
                        &&& final(self).scanned == old(self).scanned
                    },
                    Err(e) => {
                        &&& opened == Err::<SlideView, ErrorView>(e@)
                        &&& final(self).same_query(*old(self))
                        &&& range_model::books(final(self)@) == range_model::left_by_open(
                            old(self).cfg,
                            old(self)@,
                            key@,
                            text::labels_view(labels@),
                            range_model::group_slot(),
                        )
                    },
                }
            }),
    {
        let ghost entry = *self;
        let ghost v = self@;
        proof {
            lemma_bytes_nonneg(v);
        }
        let bytes: u64 = group_entry_bytes(key.as_str(), &labels, std::mem::size_of::<MutGroup>());
        match charge_group_bytes(&mut self.group_bytes, bytes, self.cfg.caps.group_bytes) {
            Ok(()) => {},
            Err(e) => {
                return Err(e);
            },
        }
        match charge_result_points(
            &mut self.result_points,
            self.cfg.grid.slot_count(),
            self.cfg.caps.result_points,
        ) {
            Ok(()) => {},
            Err(e) => {
                return Err(e);
            },
        }
        let at: usize = self.groups.len();
        let cells = mut_cells_for(self.cfg.reducer.class, &self.cfg.grid);
        self.index.insert(key.clone(), at);
        let group = MutGroup { key, labels, cells, hist: Ghost(Seq::empty()) };
        self.groups.push(group);
        proof {
            let g = group_view(group);
            assert(self@.groups =~= v.groups.push(g));
            assert(v.groups.push(g).drop_last() =~= v.groups);
            assert(self@.closed =~= v.closed);
            assert(0 * cells::unit_cost(self.cfg.form(), self.cfg.per_sample) == 0);
            assert(cells::units_of(self.cfg.form(), self.cfg.grid, g.hist) == 0);
            assert(slide::weight_sum(Seq::<WinSample>::empty()) == 0);
            assert(staged_load(self.cfg, self@.members) == 0) by {
                assert(self@.members =~= Seq::empty());
                assert(range_model::values_of(self@.members) =~= Seq::empty());
            }
            assert forall|i: int| 0 <= i < self.groups@.len() implies hist_load(
                self.cfg,
                (#[trigger] self.groups@[i]).hist@,
            ) + staged <= self.scanned@ by {
                if i < entry.groups@.len() {
                    assert(self.groups@[i] == entry.groups@[i]);
                }
            }
            assert forall|i: int| 0 <= i < self.groups@.len() implies (
            #[trigger] self.groups@[i]).wf(self.cfg.reducer.class, self.cfg.grid) by {
                if i < entry.groups@.len() {
                    assert(self.groups@[i] == entry.groups@[i]);
                }
            }
            assert forall|i: int| 0 <= i < self.groups@.len() implies self.index@.contains_key(
                (#[trigger] self.groups@[i]).key@,
            ) && self.index@[self.groups@[i].key@] == i by {
                if i < entry.groups@.len() {
                    assert(self.groups@[i] == entry.groups@[i]);
                }
            }
            assert forall|k: Seq<char>| #[trigger] self.index@.contains_key(k) implies self.index@[k]
                < self.groups@.len() && self.groups@[self.index@[k] as int].key@ == k by {
                if k != g.key {
                    assert(entry.index@.contains_key(k));
                }
            }
        }
        Ok(())
    }

    /// Adds a sample to a group.
    fn feed_group<F: Fn(&Reducer, u64, &[WinSample]) -> u64>(
        &mut self,
        at: usize,
        sample: WinSample,
        Ghost(reduce): Ghost<F>,
        Ghost(rest): Ghost<int>,
    ) -> (res: Result<(), ReadError>)
        requires
            rest >= 0,
            old(self).wf_fanning(
                reduce,
                rest + 1 + (if old(self).cfg.reducer.class is InvertInteger {
                    sample.value as int
                } else {
                    0
                }),
            ),
            at < old(self).groups@.len(),
            old(self).cfg.grid.first_cover(sample.ts as int) <= old(self).cfg.grid.last_cover(
                sample.ts as int,
            ),
        ensures
            ({
                let step = range_model::add_to_group(old(self).cfg, old(self)@, at as int, sample);
                match res {
                    Ok(()) => {
                        &&& step == Ok::<SlideView, ErrorView>(final(self)@)
                        &&& final(self).wf_fanning(reduce, rest)
                        &&& final(self).same_query(*old(self))
                        &&& final(self).last == old(self).last
                        &&& final(self).scanned == old(self).scanned
                    },
                    Err(e) => {
                        &&& step == Err::<SlideView, ErrorView>(e@)
                        &&& final(self).same_query(*old(self))
                        &&& range_model::books(final(self)@) == range_model::left_by_add(
                            old(self).cfg,
                            old(self)@,
                            at as int,
                            sample,
                        )
                    },
                }
            }),
    {
        let ghost weight = if self.cfg.reducer.class is InvertInteger {
            sample.value as int
        } else {
            0
        };
        let ghost mid = *self;
        let ghost v = self@;
        let ghost g = v.groups[at as int];
        proof {
            assert(g == group_view(self.groups@[at as int]));
            assert(hist_load(self.cfg, self.groups@[at as int].hist@) + rest + 1 + weight
                <= self.scanned@);
            slide::lemma_weight_sum_nonneg(self.groups@[at as int].hist@);
            // What is charged stays within twice what has been scanned.
            let fed = GroupView { hist: g.hist.push(sample), ..g };
            lemma_groups_update(self.cfg, v.groups, at as int, fed);
            lemma_groups_cost_bounded(self.cfg, v.groups.update(at as int, fed));
            assert(g.hist.push(sample).drop_last() =~= g.hist);
        }
        let class: ReducerClass = self.cfg.reducer.class;
        let grid: Grid = self.cfg.grid;
        let mut retained: u64 = self.retained;
        match self.groups[at].add_sample(
            class,
            &grid,
            sample,
            self.cfg.per_sample,
            &mut retained,
            self.cfg.caps.retention_points,
        ) {
            Ok(()) => {},
            Err(e) => {
                self.retained = retained;
                proof {
                    assert(self@.groups =~= v.groups);
                }
                return Err(e);
            },
        }
        self.retained = retained;
        proof {
            let next = GroupView { hist: g.hist.push(sample), ..g };
            let step = range_model::add_to_group(self.cfg, v, at as int, sample);
            assert(self@.groups =~= v.groups.update(at as int, next));
            assert(self@.closed =~= v.closed);
            assert(step->Ok_0 =~= self@);
            lemma_groups_update(self.cfg, v.groups, at as int, next);
            assert(g.hist.push(sample).drop_last() =~= g.hist);
            let form = self.cfg.form();
            let (a, b) = cells::new_units(form, grid, g.hist, sample);
            assert(cells::units_of(form, grid, next.hist) - cells::units_of(form, grid, g.hist) == a + b);
            assert(staged_load(self.cfg, self@.members) == 0) by {
                assert(self@.members =~= Seq::empty());
                assert(range_model::values_of(self@.members) =~= Seq::empty());
            }
            assert forall|i: int| 0 <= i < self.groups@.len() implies hist_load(
                self.cfg,
                (#[trigger] self.groups@[i]).hist@,
            ) + rest <= self.scanned@ by {
                if i != at {
                    assert(self.groups@[i] == mid.groups@[i]);
                } else {
                    assert(slide::weight_sum(g.hist.push(sample)) == slide::weight_sum(g.hist)
                        + sample.value);
                }
            }
            assert forall|i: int| 0 <= i < self.groups@.len() implies (
            #[trigger] self.groups@[i]).wf(class, grid) by {
                if i != at {
                    assert(self.groups@[i] == mid.groups@[i]);
                }
            }
            assert forall|i: int| 0 <= i < self.groups@.len() implies self.index@.contains_key(
                (#[trigger] self.groups@[i]).key@,
            ) && self.index@[self.groups@[i].key@] == i by {
                if i != at {
                    assert(self.groups@[i] == mid.groups@[i]);
                } else {
                    assert(self.groups@[i].key == mid.groups@[i].key);
                }
            }
            assert forall|k: Seq<char>| #[trigger] self.index@.contains_key(k) implies self.index@[k]
                < self.groups@.len() && self.groups@[self.index@[k] as int].key@ == k by {
                assert(mid.groups@[mid.index@[k] as int].key@ == k);
            }
            assert(retained <= self.cfg.caps.retention_points) by {
                let each = cells::unit_cost(form, self.cfg.per_sample);
                assert(a + b == 0 || a + b == 1 || a + b == 2);
                assert(0 * each == 0 && 1 * each == each) by (nonlinear_arith);
            }
        }
        Ok(())
    }

    /// Feeds one sample to its group. The charge for what a new group or a new
    /// entry holds is refused before it is held.
    fn fan_out_sample<F: Fn(&Reducer, u64, &[WinSample]) -> u64>(
        &mut self,
        key: String,
        labels: LabelSet,
        sample: WinSample,
        Ghost(reduce): Ghost<F>,
        Ghost(rest): Ghost<int>,
    ) -> (res: Result<(), ReadError>)
        requires
            rest >= 0,
            old(self).wf_fanning(
                reduce,
                rest + 1 + (if old(self).cfg.reducer.class is InvertInteger {
                    sample.value as int
                } else {
                    0
                }),
            ),
        ensures
            ({
                let step = range_model::fan_one(
                    old(self).cfg,
                    old(self)@,
                    key@,
                    text::labels_view(labels@),
                    sample,
                );
                match res {
                    Ok(()) => {
                        &&& step == Ok::<SlideView, ErrorView>(final(self)@)
                        &&& final(self).wf_fanning(reduce, rest)
                        &&& final(self).same_query(*old(self))
                        &&& final(self).last == old(self).last
                        &&& final(self).scanned == old(self).scanned
                    },
                    Err(e) => {
                        &&& step == Err::<SlideView, ErrorView>(e@)
                        &&& final(self).same_query(*old(self))
                        &&& range_model::books(final(self)@) == range_model::left_by_fan_one(
                            old(self).cfg,
                            old(self)@,
                            key@,
                            text::labels_view(labels@),
                            sample,
                        )
                    },
                }
            }),
    {
        let ghost weight = if self.cfg.reducer.class is InvertInteger {
            sample.value as int
        } else {
            0
        };
        let ghost entry = *self;
        let (k_lo, k_hi) = self.cfg.grid.covering_k(sample.ts);
        if k_lo > k_hi {
            return Ok(());
        }
        let found: Option<usize> = match self.index.get(key.as_str()) {
            Some(i) => Some(*i),
            None => None,
        };
        let ghost gkey = key@;
        let at: usize = match found {
            Some(i) => {
                proof {
                    assert(self@.groups[i as int].key == gkey);
                    assert forall|j: int| 0 <= j < self@.groups.len() && j != i implies (
                    #[trigger] self@.groups[j]).key != self@.groups[i as int].key by {
                        assert(self@.groups[j] == group_view(self.groups@[j]));
                    }
                    lemma_group_index_found(self@.groups, i as int);
                }
                i
            },
            None => {
                proof {
                    assert forall|j: int| 0 <= j < self@.groups.len() implies (
                    #[trigger] self@.groups[j]).key != gkey by {
                        assert(self@.groups[j] == group_view(self.groups@[j]));
                    }
                    lemma_group_index_none(self@.groups, gkey);
                }
                let n: usize = self.groups.len();
                match self.open_group::<F>(key, labels, Ghost(reduce), Ghost(rest + 1 + weight)) {
                    Ok(()) => {},
                    Err(e) => {
                        return Err(e);
                    },
                }
                n
            },
        };
        self.feed_group::<F>(at, sample, Ghost(reduce), Ghost(rest))
    }
}

proof fn lemma_values_join(members: Seq<MemberView>, n: int)
    requires
        0 <= n < members.len(),
    ensures
        value_sum(range_model::values_of(members.skip(n))) == members[n].value + value_sum(
            range_model::values_of(members.skip(n + 1)),
        ),
{
    let (a, b) = (members.skip(n), members.skip(n + 1));
    assert(range_model::values_of(a) =~= seq![members[n].value] + range_model::values_of(b));
    lemma_value_sum_cons(members[n].value, range_model::values_of(b));
}

proof fn lemma_value_sum_cons(x: u64, rest: Seq<u64>)
    ensures
        value_sum(seq![x] + rest) == x + value_sum(rest),
    decreases rest.len(),
{
    let s = seq![x] + rest;
    if rest.len() == 0 {
        assert(s.drop_last() =~= Seq::empty());
        assert(s.last() == x);
        assert(rest =~= Seq::empty());
    } else {
        assert(s.drop_last() =~= seq![x] + rest.drop_last());
        lemma_value_sum_cons(x, rest.drop_last());
    }
}

proof fn lemma_staged_nonneg(cfg: SlideConfig, members: Seq<MemberView>)
    ensures
        staged_load(cfg, members) >= 0,
{
    lemma_value_sum_part(range_model::values_of(members), 0);
}

impl RangeSlideState {
    /// Feeds a stream's lines at one nanosecond to their groups.
    fn fan_out_members<F: Fn(&Reducer, u64, &[WinSample]) -> u64>(
        &mut self,
        ts: i64,
        stream_hash: u64,
        members: Vec<CollMember>,
        Ghost(reduce): Ghost<F>,
    ) -> (res: Result<(), ReadError>)
        requires
            old(self).wf_fanning(reduce, staged_load(old(self).cfg, members_view(members@))),
            forall|i: int| 0 <= i < members@.len() ==> (#[trigger] members@[i]).out is Some,
        ensures
            ({
                let step = range_model::fan_all(
                    old(self).cfg,
                    old(self)@,
                    ts,
                    stream_hash,
                    members_view(members@),
                    members@.len() as int,
                );
                match res {
                    Ok(()) => {
                        &&& step == Ok::<SlideView, ErrorView>(final(self)@)
                        &&& final(self).wf(reduce)
                        &&& final(self).coll@.len() == 0
                        &&& final(self).same_query(*old(self))
                        &&& final(self).last == old(self).last
                        &&& final(self).scanned == old(self).scanned
                    },
                    Err(e) => {
                        &&& step == Err::<SlideView, ErrorView>(e@)
                        &&& final(self).same_query(*old(self))
                        &&& range_model::books(final(self)@) == range_model::left_by_fan_all(
                            old(self).cfg,
                            old(self)@,
                            ts,
                            stream_hash,
                            members_view(members@),
                            members@.len() as int,
                        )
                    },
                }
            }),
    {
        let ghost entry = *self;
        let ghost views = members_view(members@);
        let ghost all = members@;
        let mut rank: usize = 0;
        proof {
            assert(views.skip(0) =~= views);
            assert(members@.len() == members.len());
        }
        for m in it: members
            invariant
                it.seq() == all,
                views == members_view(all),
                all.len() <= usize::MAX,
                rank == it.index(),
                self.same_query(entry),
                self.last == entry.last,
                self.scanned == entry.scanned,
                self.wf_fanning(reduce, staged_load(self.cfg, views.skip(rank as int))),
                forall|i: int| 0 <= i < all.len() ==> (#[trigger] all[i]).out is Some,
                range_model::fan_all(entry.cfg, entry@, ts, stream_hash, views, rank as int)
                    == Ok::<SlideView, ErrorView>(self@),
                entry == *old(self),
        {
            let ghost n = rank as int;
            proof {
                assert(m == all[n]);
                assert(views[n] == range_model::member_view(m));
                lemma_values_join(views, n);
                lemma_staged_nonneg(self.cfg, views.skip(n + 1));
            }
            let CollMember { value, out, .. } = m;
            let sample = WinSample { ts, stream_hash, tie_rank: rank as u32, value };
            match out {
                Some((key, labels)) => {
                    match self.fan_out_sample::<F>(
                        key,
                        labels,
                        sample,
                        Ghost(reduce),
                        Ghost(staged_load(self.cfg, views.skip(n + 1))),
                    ) {
                        Ok(()) => {},
                        Err(e) => {
                            proof {
                                range_model::lemma_fan_all_error(
                                    entry.cfg,
                                    entry@,
                                    ts,
                                    stream_hash,
                                    views,
                                    n + 1,
                                    all.len() as int,
                                );
                            }
                            return Err(e);
                        },
                    }
                },
                None => {
                    assert(false);
                },
            }
            rank = rank + 1;
        }
        Ok(())
    }

    /// Closes the run of staged lines: ranks them and feeds them on.
    pub fn flush_collision<F: Fn(&Reducer, u64, &[WinSample]) -> u64>(
        &mut self,
        reduce: &F,
    ) -> (res: Result<(), ReadError>)
        requires
            old(self).wf(*reduce),
            slide::takes_windows(*reduce),
        ensures
            ({
                let step = range_model::flush(old(self).cfg, old(self).streams@, old(self)@);
                match res {
                    Ok(()) => {
                        &&& step == Ok::<SlideView, ErrorView>(final(self)@)
                        &&& final(self).wf(*reduce)
                        &&& final(self).same_query(*old(self))
                        &&& final(self).coll@.len() == 0
                        &&& final(self).last == old(self).last
                        &&& final(self).scanned == old(self).scanned
                    },
                    Err(e) => {
                        &&& step == Err::<SlideView, ErrorView>(e@)
                        &&& final(self).same_query(*old(self))
                        &&& range_model::books(final(self)@) == range_model::left_by_flush(
                            old(self).cfg,
                            old(self).streams@,
                            old(self)@,
                        )
                    },
                }
            }),
    {
        broadcast use vstd::std_specs::hash::group_hash_axioms;

        if self.coll.len() == 0 {
            return Ok(());
        }
        let ghost entry = *self;
        let fp: u64 = self.coll_fp;
        let ts: i64 = self.coll_ts;
        self.coll_bytes = 0;
        let mut coll: Vec<CollMember> = Vec::new();
        std::mem::swap(&mut coll, &mut self.coll);
        let ghost staged = coll@;
        proof {
            assert(self.coll@ =~= Seq::<CollMember>::empty());
            assert(members_view(self.coll@) =~= Seq::empty());
            assert(range_model::values_of(members_view(self.coll@)) =~= Seq::empty());
            assert(self@.closed =~= entry@.closed);
            assert(self@ =~= SlideView {
                pending: None,
                members: Seq::empty(),
                coll_bytes: 0,
                ..entry@
            });
            lemma_staged_nonneg(self.cfg, entry@.members);
            assert(self.wf(*reduce));
        }
        if self.cfg.needs_body_order {
            proof {
                CollMember::rank_is_preorder();
                range_model::lemma_body_le_preorder();
                assert(coll@.len() == coll.len());
                order::lemma_stable_sort_mapped(
                    staged,
                    |m: CollMember| range_model::member_view(m),
                    CollMember::rank_le(),
                    range_model::body_le(),
                );
                order::lemma_stable_sort_permutes(staged, CollMember::rank_le());
                order::lemma_stable_order(staged, CollMember::rank_le());
            }
            coll = stable_sorted(coll);
            proof {
                assert forall|i: int| 0 <= i < coll@.len() implies ((#[trigger] coll@[i]).out is Some
                    <==> self.cfg.stages_out()) by {
                    let j = order::stable_order(staged, CollMember::rank_le())[i];
                    assert(coll@[i] == staged[j as int]);
                }
            }
        }
        let ghost views = members_view(coll@);
        proof {
            assert(views == range_model::ranked_members(self.cfg, entry@.members));
            assert(views.len() == staged.len());
        }
        if self.cfg.is_absent {
            let grid: Grid = self.cfg.grid;
            self.present.mark(&grid, ts);
            proof {
                assert(self@.closed =~= entry@.closed);
                assert(range_model::flush(entry.cfg, entry.streams@, entry@)->Ok_0 =~= self@);
            }
            return Ok(());
        }
        if self.cfg.fan_out {
            let stream_hash: u64 = match self.streams.get(&fp) {
                Some(m) => m.stream_hash,
                None => 0,
            };
            self.fan_out_members::<F>(ts, stream_hash, coll, Ghost(*reduce))
        } else {
            self.slide_members(fp, ts, &coll, reduce)
        }
    }

    /// Takes one batch of rows, in scan order.
    pub fn push_rows<F: Fn(&Reducer, u64, &[WinSample]) -> u64>(
        &mut self,
        rows: &Vec<MetricScanRow>,
        reduce: &F,
    ) -> (res: Result<(), ReadError>)
        requires
            old(self).wf(*reduce),
            range_model::in_scan_order(old(self).last@, rows@),
            old(self).scanned@ + range_model::rows_cost(rows@) <= i64::MAX,
            slide::takes_windows(*reduce),
        ensures
            ({
                let step = range_model::take_rows(
                    old(self).cfg,
                    old(self).streams@,
                    old(self)@,
                    rows@,
                    rows@.len() as int,
                );
                match res {
                    Ok(()) => {
                        &&& step == Ok::<SlideView, ErrorView>(final(self)@)
                        &&& final(self).wf(*reduce)
                        &&& final(self).same_query(*old(self))
                        &&& final(self).scanned@ <= old(self).scanned@ + range_model::rows_cost(rows@)
                        &&& rows@.len() > 0 && final(self).last@ is Some ==> range_model::scan_le(
                            final(self).last@->0,
                            range_model::row_key(rows@.last()),
                        )
                        &&& rows@.len() == 0 ==> final(self).last == old(self).last
                    },
                    Err(e) => {
                        &&& step == Err::<SlideView, ErrorView>(e@)
                        &&& final(self).same_query(*old(self))
                        &&& range_model::books(final(self)@) == range_model::left_by_take_rows(
                            old(self).cfg,
                            old(self).streams@,
                            old(self)@,
                            rows@,
                            rows@.len() as int,
                        )
                    },
                }
            }),
    {
        let ghost entry = *self;
        let mut i: usize = 0;
        proof {
            assert(rows@.take(0) =~= Seq::<MetricScanRow>::empty());
        }
        while i < rows.len()
            invariant
                i <= rows@.len(),
                self.wf(*reduce),
                self.same_query(entry),
                entry == *old(self),
                range_model::in_scan_order(entry.last@, rows@),
                entry.scanned@ + range_model::rows_cost(rows@) <= i64::MAX,
                self.scanned@ <= entry.scanned@ + range_model::rows_cost(rows@.take(i as int)),
                i == 0 ==> self.last == entry.last,
                i > 0 && self.last@ is Some ==> range_model::scan_le(
                    self.last@->0,
                    range_model::row_key(rows@[i - 1]),
                ),
                range_model::take_rows(entry.cfg, entry.streams@, entry@, rows@, i as int)
                    == Ok::<SlideView, ErrorView>(self@),
                slide::takes_windows(*reduce),
            decreases rows@.len() - i,
        {
            proof {
                assert(rows@.take(i + 1).drop_last() =~= rows@.take(i as int));
                assert(rows@.take(i + 1).last() == rows@[i as int]);
                range_model::lemma_rows_cost_part(rows@, i + 1);
                if i > 0 {
                    assert(range_model::scan_le(
                        range_model::row_key(rows@[i - 1]),
                        range_model::row_key(rows@[i as int]),
                    ));
                }
            }
            match self.push_row(&rows[i], reduce) {
                Ok(()) => {},
                Err(e) => {
                    proof {
                        range_model::lemma_take_rows_error(
                            entry.cfg,
                            entry.streams@,
                            entry@,
                            rows@,
                            i + 1,
                            rows@.len() as int,
                        );
                    }
                    return Err(e);
                },
            }
            i = i + 1;
        }
        proof {
            assert(rows@.take(rows@.len() as int) =~= rows@);
        }
        Ok(())
    }

    /// Takes one row.
    fn push_row<F: Fn(&Reducer, u64, &[WinSample]) -> u64>(
        &mut self,
        row: &MetricScanRow,
        reduce: &F,
    ) -> (res: Result<(), ReadError>)
        requires
            old(self).wf(*reduce),
            old(self).last@ is Some ==> range_model::scan_le(old(self).last@->0, range_model::row_key(*row)),
            old(self).scanned@ + range_model::row_cost(*row) <= i64::MAX,
            slide::takes_windows(*reduce),
        ensures
            ({
                let step = range_model::take_row(old(self).cfg, old(self).streams@, old(self)@, *row);
                match res {
                    Ok(()) => {
                        &&& step == Ok::<SlideView, ErrorView>(final(self)@)
                        &&& final(self).wf(*reduce)
                        &&& final(self).same_query(*old(self))
                        &&& final(self).scanned@ <= old(self).scanned@ + range_model::row_cost(*row)
                        &&& final(self).last@ is Some ==> range_model::scan_le(
                            final(self).last@->0,
                            range_model::row_key(*row),
                        )
                    },
                    Err(e) => {
                        &&& step == Err::<SlideView, ErrorView>(e@)
                        &&& final(self).same_query(*old(self))
                        &&& range_model::books(final(self)@) == range_model::left_by_take_row(
                            old(self).cfg,
                            old(self).streams@,
                            old(self)@,
                            *row,
                        )
                    },
                }
            }),
    {
        broadcast use vstd::std_specs::hash::group_hash_axioms;

        if self.coll.len() > 0 && (self.coll_fp != row.fingerprint || self.coll_ts
            != row.timestamp_ns) {
            match self.flush_collision(reduce) {
                Ok(()) => {},
                Err(e) => {
                    return Err(e);
                },
            }
        }
        if !self.streams.contains_key(&row.fingerprint) {
            return Ok(());
        }
        match &row.run {
            Err(b) => Err(
                ReadError::QueryTooBroad(
                    TooBroadReason::RowBudget {
                        budget: b.budget,
                        cap: row_budget_ceiling(b.budget),
                    },
                ),
            ),
            Ok(MetricRun::Dropped) => Ok(()),
            Ok(MetricRun::Kept { line_len, value, labels }) => {
                match check_surviving_error(labels) {
                    Ok(()) => {},
                    Err(e) => {
                        return Err(e);
                    },
                }
                let v: u64 = match self.cfg.reducer.value {
                    ClientValue::Count => 1,
                    ClientValue::Bytes => *line_len,
                    ClientValue::Unwrap => match value {
                        Some(x) => *x,
                        None => {
                            return Ok(());
                        },
                    },
                };
                self.stage_member::<F>(row, labels, v, Ghost(*reduce))
            },
        }
    }
}

// ---------------------------------------------------------------------
// Starting and finishing.
// ---------------------------------------------------------------------

/// What an aggregation has to be to be evaluated: lines and bytes are counted, not
/// unwrapped numbers.
pub open spec fn client_wf(client: ClientAgg) -> bool {
    slide::class_of(client.range_op, client.value) is InvertInteger ==> !(client.value is Unwrap)
}

/// The configuration of a range query.
pub open spec fn config_of(
    client: ClientAgg,
    grid: Grid,
    offset_ns: i64,
    rate_window_ns: Option<u64>,
    caps: AggCaps,
) -> SlideConfig {
    let class = slide::class_of(client.range_op, client.value);
    SlideConfig {
        reducer: Reducer {
            op: client.range_op,
            class,
            value: client.value,
            param: client.param,
            rate_window_ns,
        },
        grid,
        offset_ns,
        fan_out: client.mutates_labels || client.grouped,
        is_absent: client.range_op is AbsentOverTime,
        needs_body_order: range_model::wants_body_order(client.range_op, class),
        per_sample: charge::points_per_sample(client.range_op),
        caps,
    }
}

/// The grid of a range window.
pub open spec fn grid_of(
    grid_start_ns: i64,
    end_ns: i64,
    step_ns: DurationNs,
    range_ns: DurationNs,
) -> Grid {
    Grid {
        start: grid_start_ns,
        step: step_ns.value() as u64,
        range: range_ns.value() as i64,
        kmax: (window::grid_points(grid_start_ns, end_ns, step_ns.value() as u64) - 1) as i64,
    }
}

/// A state before any row.
pub open spec fn start_view() -> SlideView {
    SlideView {
        retained: 0,
        group_bytes: 0,
        result_points: 0,
        cur: None,
        closed: Seq::empty(),
        groups: Seq::empty(),
        covers: Seq::empty(),
        pending: None,
        members: Seq::empty(),
        coll_bytes: 0,
    }
}

impl RangeSlideState {
    /// No row has been taken.
    pub open spec fn fresh(&self) -> bool {
        &&& self.cfg.wf()
        &&& self@ == start_view()
        &&& self.series_out@.len() == 0
        &&& self.closed@.len() == 0
        &&& self.groups@.len() == 0
        &&& self.index@ == Map::<Seq<char>, usize>::empty()
        &&& self.coll@.len() == 0
        &&& self.cur is None
        &&& self.scanned@ == 0
        &&& self.last@ is None
        &&& self.cfg.is_absent ==> self.present.wf(self.cfg.grid)
        &&& self.fold is None
    }

    /// A fresh state is in order, whatever arithmetic it will be used with.
    pub proof fn lemma_fresh_wf<F: Fn(&Reducer, u64, &[WinSample]) -> u64>(&self, reduce: F)
        requires
            self.fresh(),
        ensures
            self.wf(reduce),
    {
        assert(range_model::values_of(self@.members) =~= Seq::empty());
    }

    /// Starts a range query. A grid of too many intervals is refused.
    pub fn new(
        streams: HashMap<u64, StreamMeta>,
        client: &ClientAgg,
        window: ClientWindow,
        rate_window_ns: Option<u64>,
        caps: AggCaps,
    ) -> (res: Result<RangeSlideState, ReadError>)
        requires
            window is Range,
            client_wf(*client),
        ensures
            window matches ClientWindow::Range {
                grid_start_ns,
                end_ns,
                step_ns,
                range_ns,
                offset_ns,
            } ==> {
                let step = step_ns.value() as u64;
                let intervals = window::fence_intervals(grid_start_ns, end_ns, step);
                match res {
                    Ok(s) => {
                        &&& intervals <= window::MAX_CLIENT_AGG_BUCKETS
                        &&& s.fresh()
                        &&& s.streams == streams
                        &&& s.cfg == config_of(
                            *client,
                            grid_of(grid_start_ns, end_ns, step_ns, range_ns),
                            offset_ns,
                            rate_window_ns,
                            caps,
                        )
                        &&& text::labels_view(s.absent_labels@) == text::labels_view(client.absent_labels@)
                    },
                    Err(e) => {
                        &&& intervals > window::MAX_CLIENT_AGG_BUCKETS
                        &&& e@ == ErrorView::QueryTooBroad(
                            TooBroadReason::MetricBuckets {
                                buckets: intervals as u64,
                                cap: window::MAX_CLIENT_AGG_BUCKETS,
                            },
                        )
                    },
                }
            },
    {
        let (grid_start, end_ns, step_ns, range_ns, offset_ns): (
            i64,
            i64,
            DurationNs,
            DurationNs,
            i64,
        ) = match window {
            ClientWindow::Range { grid_start_ns, end_ns, step_ns, range_ns, offset_ns } => (
                grid_start_ns,
                end_ns,
                step_ns,
                range_ns,
                offset_ns,
            ),
            ClientWindow::Instant => {
                assert(false);
                return Err(ReadError::PipelineInvalid { reason: String::new() });
            },
        };
        let step: u64 = step_ns.get() as u64;
        let range: i64 = range_ns.get();
        let count: u64 = match ensure_grid_resolution(grid_start, end_ns, step) {
            Ok(n) => n,
            Err(e) => {
                return Err(e);
            },
        };
        let kmax: i64 = count as i64 - 1;
        let grid = Grid { start: grid_start, step, range, kmax };
        proof {
            if kmax >= 0 {
                assert(grid.at(kmax as int) <= end_ns);
            } else {
                assert((-1) * (step as int) == -(step as int)) by (nonlinear_arith);
            }
        }
        let op = client.range_op;
        let class = reducer_class(op, client.value);
        let needs_body_order: bool = matches!(class, ReducerClass::CanonicalFold) || matches!(
            op,
            RangeAggOp::FirstOverTime | RangeAggOp::LastOverTime
        );
        let is_absent: bool = matches!(op, RangeAggOp::AbsentOverTime);
        let cfg = SlideConfig {
            reducer: Reducer {
                op,
                class,
                value: client.value,
                param: client.param,
                rate_window_ns,
            },
            grid,
            offset_ns,
            fan_out: client.mutates_labels || client.grouped,
            is_absent,
            needs_body_order,
            per_sample: retention_points_per_sample(op),
            caps,
        };
        let state = RangeSlideState {
            cfg,
            absent_labels: copy_labels(&client.absent_labels),
            streams,
            retained: 0,
            cur: None,
            cur_fp: 0,
            series_out: Vec::new(),
            closed: Ghost(Seq::empty()),
            groups: Vec::new(),
            index: StringHashMap::new(),
            present: Presence::new(&grid, is_absent),
            coll_fp: 0,
            coll_ts: 0,
            coll: Vec::new(),
            coll_bytes: 0,
            group_bytes: 0,
            result_points: 0,
            fold: None,
            scanned: Ghost(0),
            last: Ghost(None),
        };
        proof {
            assert(state@ =~= start_view());
        }
        Ok(state)
    }

    /// Hands the innermost vector aggregation to the leaf, if the leaf can apply it, with
    /// the leaf's grid and the caps that hold now.
    pub fn attach_fold(&mut self, spec: &VectorAggSpec)
        ensures
            fold_view(final(self).fold) == (if agg::folds(spec.op) {
                Some(handed(old(self).cfg, spec@))
            } else {
                None
            }),
            final(self)@ == old(self)@,
            *final(self) == (RangeSlideState { fold: final(self).fold, ..*old(self) }),
    {
        self.fold = if can_fold(spec.op) {
            Some(
                LeafFold {
                    spec: spec.copy(),
                    grid: self.cfg.grid,
                    result_points: self.cfg.caps.result_points,
                    group_bytes: self.cfg.caps.group_bytes,
                },
            )
        } else {
            None
        };
    }

    /// How many vector aggregations the leaf applies itself.
    pub fn folded_aggs(&self) -> (n: usize)
        ensures
            n == (if self.fold is Some {
                1int
            } else {
                0
            }),
    {
        if self.fold.is_some() {
            1
        } else {
            0
        }
    }
}

/// The order of groups: by their labels.
pub open spec fn group_le() -> spec_fn(GroupView, GroupView) -> bool {
    |a: GroupView, b: GroupView| text::labels_le(a.labels, b.labels)
}

pub proof fn lemma_group_le_preorder()
    ensures
        order::total_preorder(group_le()),
{
    text::lemma_pair_le_preorder();
    let le = group_le();
    assert forall|x: GroupView, y: GroupView| #[trigger] le(x, y) || le(y, x) by {
        text::lemma_lex_total(x.labels, y.labels, text::pair_le());
    }
    assert forall|x: GroupView, y: GroupView, z: GroupView|
        #[trigger] le(x, y) && #[trigger] le(y, z) implies le(x, z) by {
        text::lemma_lex_chains(x.labels, y.labels, z.labels, text::pair_le());
    }
}

impl Ranked for MutGroup {
    open spec fn rank_le() -> spec_fn(Self, Self) -> bool {
        |a: MutGroup, b: MutGroup| group_le()(group_view(a), group_view(b))
    }

    proof fn rank_is_preorder() {
        lemma_group_le_preorder();
        let le = Self::rank_le();
        assert forall|a: Self, b: Self| #[trigger] le(a, b) || le(b, a) by {
            assert(group_le()(group_view(a), group_view(b)) || group_le()(
                group_view(b),
                group_view(a),
            ));
        }
        assert forall|a: Self, b: Self, c: Self| #[trigger] le(a, b) && #[trigger] le(
            b,
            c,
        ) implies le(a, c) by {
            let (x, y, z) = (group_view(a), group_view(b), group_view(c));
            assert(group_le()(x, y) && group_le()(y, z) ==> group_le()(x, z));
        }
    }

    fn ranks_le(&self, other: &Self) -> (r: bool) {
        label_set_le(&self.labels, &other.labels)
    }
}

/// Whether a group has points.
pub open spec fn shows(cfg: SlideConfig) -> spec_fn(GroupView) -> bool {
    |g: GroupView|
        range_model::has_points(cfg.grid, cells::canonical(cfg.reducer.class, g.hist), cfg.grid.slots())
}

/// Whether `out` are the series of the given samples, in order.
pub open spec fn series_of<F: Fn(&Reducer, u64, &[WinSample]) -> u64>(
    reduce: F,
    cfg: SlideConfig,
    series: Seq<SeriesView>,
    out: Seq<MatrixSeries>,
) -> bool {
    &&& out.len() == series.len()
    &&& forall|i: int|
        0 <= i < out.len() ==> {
            &&& text::labels_view((#[trigger] out[i]).labels@) == series[i].labels
            &&& slide::series_points(
                reduce,
                cfg.reducer,
                cfg.grid,
                series[i].hist,
                cfg.grid.slots(),
                out[i].points@,
            )
        }
}

/// The series of a state whose lines are grouped by labels: those of the groups
/// with points, by labels, each over the group's samples in order.
pub open spec fn grouped_series(cfg: SlideConfig, groups: Seq<GroupView>) -> Seq<SeriesView> {
    order::stable_sort(groups, group_le()).filter(shows(cfg)).map_values(
        |g: GroupView|
            SeriesView { labels: g.labels, hist: cells::canonical(cfg.reducer.class, g.hist) },
    )
}

/// Whether `out` are the series a state ends in.
pub open spec fn leaf_series<F: Fn(&Reducer, u64, &[WinSample]) -> u64>(
    reduce: F,
    cfg: SlideConfig,
    absent_labels: Seq<PairView>,
    v: SlideView,
    out: Seq<MatrixSeries>,
) -> bool {
    if cfg.is_absent {
        let points = presence::absent_points(cfg.grid, v.covers, cfg.grid.slots());
        if points.len() == 0 {
            out.len() == 0
        } else {
            out.len() == 1 && text::labels_view(out[0].labels@) == absent_labels && out[0].points@
                == points
        }
    } else if cfg.fan_out {
        series_of(reduce, cfg, grouped_series(cfg, v.groups), out)
    } else {
        series_of(reduce, cfg, v.closed, out)
    }
}

proof fn lemma_groups_cost_sum(cfg: SlideConfig, groups: Seq<GroupView>)
    ensures
        groups_cost(cfg, groups) == order::sum_of(
            groups,
            |g: GroupView|
                cells::units_of(cfg.form(), cfg.grid, g.hist) * cells::unit_cost(cfg.form(), cfg.per_sample),
        ),
        groups_bytes(groups) == order::sum_of(
            groups,
            |g: GroupView| charge::entry_bytes(g.key, g.labels, range_model::group_slot()) as int,
        ),
    decreases groups.len(),
{
    if groups.len() > 0 {
        lemma_groups_cost_sum(cfg, groups.drop_last());
    }
}

/// Sorted groups cost what they cost before.
proof fn lemma_sorted_groups_cost(cfg: SlideConfig, groups: Seq<GroupView>)
    requires
        groups.len() <= usize::MAX,
    ensures
        groups_cost(cfg, order::stable_sort(groups, group_le())) == groups_cost(cfg, groups),
        groups_bytes(order::stable_sort(groups, group_le())) == groups_bytes(groups),
{
    let sorted = order::stable_sort(groups, group_le());
    lemma_group_le_preorder();
    order::lemma_stable_sort_permutes(groups, group_le());
    lemma_groups_cost_sum(cfg, groups);
    lemma_groups_cost_sum(cfg, sorted);
    order::lemma_sum_permutes(
        sorted,
        groups,
        |g: GroupView|
            cells::units_of(cfg.form(), cfg.grid, g.hist) * cells::unit_cost(cfg.form(), cfg.per_sample),
    );
    order::lemma_sum_permutes(
        sorted,
        groups,
        |g: GroupView| charge::entry_bytes(g.key, g.labels, range_model::group_slot()) as int,
    );
}

/// The first group's share of what the groups cost.
proof fn lemma_groups_first(cfg: SlideConfig, groups: Seq<GroupView>)
    requires
        groups.len() > 0,
    ensures
        groups_cost(cfg, groups) == cells::units_of(cfg.form(), cfg.grid, groups[0].hist) * cells::unit_cost(
            cfg.form(),
            cfg.per_sample,
        ) + groups_cost(cfg, groups.skip(1)),
        groups_bytes(groups) == charge::entry_bytes(groups[0].key, groups[0].labels, range_model::group_slot())
            + groups_bytes(groups.skip(1)),
    decreases groups.len(),
{
    if groups.len() == 1 {
        assert(groups.drop_last() =~= Seq::empty());
        assert(groups.skip(1) =~= Seq::empty());
    } else {
        lemma_groups_first(cfg, groups.drop_last());
        assert(groups.drop_last().skip(1) =~= groups.skip(1).drop_last());
        assert(groups.skip(1).last() == groups.last());
    }
}

proof fn lemma_closed_first(closed: Seq<SeriesView>)
    requires
        closed.len() > 0,
    ensures
        closed_bytes(closed) == charge::entry_bytes(Seq::empty(), closed[0].labels, range_model::series_slot())
            + closed_bytes(closed.skip(1)),
    decreases closed.len(),
{
    if closed.len() == 1 {
        assert(closed.drop_last() =~= Seq::empty());
        assert(closed.skip(1) =~= Seq::empty());
    } else {
        lemma_closed_first(closed.drop_last());
        assert(closed.drop_last().skip(1) =~= closed.skip(1).drop_last());
        assert(closed.skip(1).last() == closed.last());
    }
}

/// One more group extends the filtered list by itself, if it shows.
proof fn lemma_filter_push<A>(s: Seq<A>, n: int, p: spec_fn(A) -> bool)
    requires
        0 <= n < s.len(),
    ensures
        s.take(n + 1).filter(p) == (if p(s[n]) {
            s.take(n).filter(p).push(s[n])
        } else {
            s.take(n).filter(p)
        }),
{
    reveal(Seq::filter);
    assert(s.take(n + 1).drop_last() =~= s.take(n));
}

/// The steps by which series go into a vector aggregation: the state it starts in, the
/// state after one more series, and the series it comes to in the end.
pub struct FoldSteps<B, P, D> {
    pub start: B,
    pub push: P,
    pub done: D,
}

/// Whether a fold can be started, handed any series and ended.
pub open spec fn takes_series<
    S,
    B: Fn(&LeafFold) -> S,
    P: Fn(&S, &LabelSet, &Vec<(i64, u64)>) -> Result<S, ReadError>,
    D: Fn(S) -> Vec<MatrixSeries>,
>(fold: FoldSteps<B, P, D>) -> bool {
    &&& forall|f: &LeafFold| call_requires(fold.start, (f,))
    &&& takes_pushes(fold.push)
    &&& forall|s: S| call_requires(fold.done, (s,))
}

/// Whether any series can be pushed in any state.
pub open spec fn takes_pushes<S, P: Fn(&S, &LabelSet, &Vec<(i64, u64)>) -> Result<S, ReadError>>(
    push: P,
) -> bool {
    forall|s: &S, labels: &LabelSet, points: &Vec<(i64, u64)>|
        call_requires(push, (s, labels, points))
}

/// Whether a push of one series comes to `r`.
pub open spec fn push_gives<S, P: Fn(&S, &LabelSet, &Vec<(i64, u64)>) -> Result<S, ReadError>>(
    push: P,
    state: S,
    series: MatrixSeries,
    r: Result<S, ReadError>,
) -> bool {
    call_ensures(push, (&state, &series.labels, &series.points), r)
}

/// Whether the first series, pushed one after the other, take a fold through `states`.
pub open spec fn pushed<S, P: Fn(&S, &LabelSet, &Vec<(i64, u64)>) -> Result<S, ReadError>>(
    push: P,
    sent: Seq<MatrixSeries>,
    states: Seq<S>,
) -> bool {
    &&& 1 <= states.len() <= sent.len() + 1
    &&& forall|i: int|
        0 <= i < sent.len() && i < states.len() - 1 ==> push_gives(
            push,
            states[i],
            #[trigger] sent[i],
            Ok(states[i + 1]),
        )
}

/// Whether the pushes go through `states` and the one after them is refused.
pub open spec fn push_refused<S, P: Fn(&S, &LabelSet, &Vec<(i64, u64)>) -> Result<S, ReadError>>(
    push: P,
    sent: Seq<MatrixSeries>,
    states: Seq<S>,
    e: ReadError,
) -> bool {
    &&& pushed(push, sent, states)
    &&& states.len() <= sent.len()
    &&& push_gives(push, states.last(), sent[states.len() - 1], Err(e))
}

/// Whether folding the series goes through `states` and comes to `r`: every push
/// passes and the last state is ended, or the first push that is refused ends it.
pub open spec fn fold_comes_to<
    S,
    B: Fn(&LeafFold) -> S,
    P: Fn(&S, &LabelSet, &Vec<(i64, u64)>) -> Result<S, ReadError>,
    D: Fn(S) -> Vec<MatrixSeries>,
>(
    fold: FoldSteps<B, P, D>,
    f: LeafFold,
    sent: Seq<MatrixSeries>,
    states: Seq<S>,
    r: Result<Vec<MatrixSeries>, ReadError>,
) -> bool {
    &&& states.len() >= 1
    &&& call_ensures(fold.start, (&f,), states[0])
    &&& match r {
        Ok(out) => {
            &&& pushed(fold.push, sent, states)
            &&& states.len() == sent.len() + 1
            &&& call_ensures(fold.done, (states.last(),), out)
        },
        Err(e) => push_refused(fold.push, sent, states, e),
    }
}

/// Whether folding the series, with every push passing, makes `out`.
pub open spec fn fold_makes<
    S,
    B: Fn(&LeafFold) -> S,
    P: Fn(&S, &LabelSet, &Vec<(i64, u64)>) -> Result<S, ReadError>,
    D: Fn(S) -> Vec<MatrixSeries>,
>(
    fold: FoldSteps<B, P, D>,
    f: LeafFold,
    sent: Seq<MatrixSeries>,
    out: Vec<MatrixSeries>,
) -> bool {
    exists|states: Seq<S>| #[trigger] fold_comes_to(fold, f, sent, states, Ok(out))
}

/// Whether folding the series is refused in the given state.
pub open spec fn fold_refuses<
    S,
    B: Fn(&LeafFold) -> S,
    P: Fn(&S, &LabelSet, &Vec<(i64, u64)>) -> Result<S, ReadError>,
    D: Fn(S) -> Vec<MatrixSeries>,
>(
    fold: FoldSteps<B, P, D>,
    f: LeafFold,
    sent: Seq<MatrixSeries>,
    state: S,
    e: ReadError,
) -> bool {
    exists|states: Seq<S>| #[trigger]
        fold_comes_to(fold, f, sent, states, Err(e)) && state == states.last()
}

/// One more push that passes.
proof fn lemma_one_more_push<S, P: Fn(&S, &LabelSet, &Vec<(i64, u64)>) -> Result<S, ReadError>>(
    push: P,
    sent: Seq<MatrixSeries>,
    states: Seq<S>,
    series: MatrixSeries,
    next: S,
)
    requires
        pushed(push, sent, states),
        states.len() == sent.len() + 1,
        push_gives(push, states.last(), series, Ok(next)),
    ensures
        pushed(push, sent.push(series), states.push(next)),
{
    let more = sent.push(series);
    let after = states.push(next);
    assert forall|i: int| 0 <= i < more.len() && i < after.len() - 1 implies push_gives(
        push,
        after[i],
        #[trigger] more[i],
        Ok(after[i + 1]),
    ) by {
        if i < sent.len() {
            assert(push_gives(push, states[i], sent[i], Ok(states[i + 1])));
        }
    }
}

/// One more push that is refused.
proof fn lemma_one_push_refused<S, P: Fn(&S, &LabelSet, &Vec<(i64, u64)>) -> Result<S, ReadError>>(
    push: P,
    sent: Seq<MatrixSeries>,
    states: Seq<S>,
    series: MatrixSeries,
    e: ReadError,
)
    requires
        pushed(push, sent, states),
        states.len() == sent.len() + 1,
        push_gives(push, states.last(), series, Err(e)),
    ensures
        push_refused(push, sent.push(series), states, e),
{
    let more = sent.push(series);
    assert forall|i: int| 0 <= i < more.len() && i < states.len() - 1 implies push_gives(
        push,
        states[i],
        #[trigger] more[i],
        Ok(states[i + 1]),
    ) by {
        assert(push_gives(push, states[i], sent[i], Ok(states[i + 1])));
    }
}

/// Pushes series into a fold, one after the other, until one of them is refused.
fn push_all<S, P: Fn(&S, &LabelSet, &Vec<(i64, u64)>) -> Result<S, ReadError>>(
    series: &Vec<MatrixSeries>,
    start: S,
    push: &P,
) -> (res: Result<S, (S, ReadError)>)
    requires
        takes_pushes(*push),
    ensures
        match res {
            Ok(end) => exists|states: Seq<S>| #[trigger]
                pushed(*push, series@, states) && states.len() == series@.len() + 1 && states[0]
                    == start && states.last() == end,
            Err((state, e)) => exists|states: Seq<S>| #[trigger]
                push_refused(*push, series@, states, e) && states[0] == start && states.last()
                    == state,
        },
{
    let mut state: S = start;
    let ghost mut states: Seq<S> = seq![start];
    let mut i: usize = 0;
    while i < series.len()
        invariant
            i <= series@.len(),
            takes_pushes(*push),
            states.len() == i + 1,
            states[0] == start,
            states.last() == state,
            pushed(*push, series@, states),
        decreases series@.len() - i,
    {
        match push(&state, &series[i].labels, &series[i].points) {
            Ok(next) => {
                proof {
                    let after = states.push(next);
                    assert forall|j: int|
                        0 <= j < series@.len() && j < after.len() - 1 implies push_gives(
                        *push,
                        after[j],
                        #[trigger] series@[j],
                        Ok(after[j + 1]),
                    ) by {
                        if j < i {
                            assert(push_gives(*push, states[j], series@[j], Ok(states[j + 1])));
                        }
                    }
                    states = after;
                }
                state = next;
            },
            Err(e) => {
                proof {
                    assert(push_refused(*push, series@, states, e));
                }
                return Err((state, e));
            },
        }
        i = i + 1;
    }
    Ok(state)
}

/// The label bytes still charged once the entries of the first `n` groups have been
/// released.
pub open spec fn bytes_left(charged: int, groups: Seq<GroupView>, n: int) -> int
    decreases n,
{
    if n <= 0 {
        charged
    } else {
        charge::released(
            bytes_left(charged, groups, n - 1),
            charge::entry_bytes(
                groups[n - 1].key,
                groups[n - 1].labels,
                range_model::group_slot(),
            ) as int,
        )
    }
}

/// The series of the groups among the first `n` that show.
pub open spec fn first_series(cfg: SlideConfig, sorted: Seq<GroupView>, n: int) -> Seq<SeriesView> {
    sorted.take(n).filter(shows(cfg)).map_values(
        |g: GroupView|
            SeriesView { labels: g.labels, hist: cells::canonical(cfg.reducer.class, g.hist) },
    )
}

/// What a refused push leaves, when it is that of group `k`: its points have been let
/// go, and so has everything of the groups before it, but its label bytes and those
/// of the groups after it are still charged.
pub open spec fn left_by_refusal(
    cfg: SlideConfig,
    groups: Seq<GroupView>,
    charged: int,
    k: int,
    left: RangeSlideState,
) -> bool {
    let sorted = order::stable_sort(groups, group_le());
    &&& 0 <= k < sorted.len()
    &&& shows(cfg)(sorted[k])
    &&& left.retained == groups_cost(cfg, sorted.skip(k + 1))
    &&& left.group_bytes == bytes_left(charged, sorted, k)
    &&& cfg.caps.group_bytes < u64::MAX ==> left.group_bytes == groups_bytes(sorted.skip(k))
    &&& left.groups@.len() == 0
}

/// A charge outlives the memory it paid for: once the first `n` groups have been let go,
/// the label bytes of all the others are still charged, the next one's among them.
pub proof fn law_charge_outlives_its_group(groups: Seq<GroupView>, n: int)
    requires
        0 <= n <= groups.len(),
    ensures
        bytes_left(groups_bytes(groups), groups, n) == groups_bytes(groups.skip(n)),
        n < groups.len() ==> bytes_left(groups_bytes(groups), groups, n) >= charge::entry_bytes(
            groups[n].key,
            groups[n].labels,
            range_model::group_slot(),
        ),
    decreases n,
{
    if n == 0 {
        assert(groups.skip(0) =~= groups);
    } else {
        law_charge_outlives_its_group(groups, n - 1);
        lemma_groups_first(arbitrary(), groups.skip(n - 1));
        assert(groups.skip(n - 1).skip(1) =~= groups.skip(n));
    }
    lemma_groups_bytes_nonneg(groups.skip(n));
    if n < groups.len() {
        lemma_groups_first(arbitrary(), groups.skip(n));
        lemma_groups_bytes_nonneg(groups.skip(n).skip(1));
    }
}

/// The groups as they were taken out, in order.
spec fn taken_as(cfg: SlideConfig, all: Seq<MutGroup>, sorted: Seq<GroupView>) -> bool {
    &&& all.len() == sorted.len()
    &&& forall|i: int|
        0 <= i < all.len() ==> {
            &&& (#[trigger] all[i]).wf(cfg.reducer.class, cfg.grid)
            &&& hist_load(cfg, all[i].hist@) <= i64::MAX
            &&& sorted[i] == group_view(all[i])
        }
}

/// One more group adds its series, if it shows.
proof fn lemma_first_series(cfg: SlideConfig, sorted: Seq<GroupView>, n: int)
    requires
        0 <= n < sorted.len(),
    ensures
        first_series(cfg, sorted, n + 1) == (if shows(cfg)(sorted[n]) {
            first_series(cfg, sorted, n).push(
                SeriesView {
                    labels: sorted[n].labels,
                    hist: cells::canonical(cfg.reducer.class, sorted[n].hist),
                },
            )
        } else {
            first_series(cfg, sorted, n)
        }),
{
    let told = |g: GroupView|
        SeriesView { labels: g.labels, hist: cells::canonical(cfg.reducer.class, g.hist) };
    let shown = sorted.take(n).filter(shows(cfg));
    lemma_filter_push(sorted, n, shows(cfg));
    assert(shown.push(sorted[n]).map_values(told) =~= shown.map_values(told).push(
        told(sorted[n]),
    ));
}

/// No group has no series, and all of them have those of the groups.
proof fn lemma_first_series_ends(cfg: SlideConfig, groups: Seq<GroupView>)
    ensures
        ({
            let sorted = order::stable_sort(groups, group_le());
            &&& first_series(cfg, sorted, 0) == Seq::<SeriesView>::empty()
            &&& first_series(cfg, sorted, sorted.len() as int) == grouped_series(cfg, groups)
        }),
{
    let sorted = order::stable_sort(groups, group_le());
    reveal(Seq::filter);
    assert(sorted.take(0) =~= Seq::empty());
    assert(first_series(cfg, sorted, 0) =~= Seq::empty());
    assert(sorted.take(sorted.len() as int) =~= sorted);
}

/// The series of the first groups come first among those of all of them.
proof fn lemma_first_series_come_first(cfg: SlideConfig, sorted: Seq<GroupView>, n: int, m: int)
    requires
        0 <= n <= m <= sorted.len(),
    ensures
        first_series(cfg, sorted, n).len() <= first_series(cfg, sorted, m).len(),
        first_series(cfg, sorted, n) == first_series(cfg, sorted, m).take(
            first_series(cfg, sorted, n).len() as int,
        ),
    decreases m - n,
{
    let first = first_series(cfg, sorted, n);
    if n < m {
        lemma_first_series_come_first(cfg, sorted, n, m - 1);
        lemma_first_series(cfg, sorted, m - 1);
    }
    assert(first =~= first_series(cfg, sorted, m).take(first.len() as int));
}

impl RangeSlideState {
    /// Takes the groups out, by labels.
    fn take_groups<F: Fn(&Reducer, u64, &[WinSample]) -> u64>(
        &mut self,
        Ghost(reduce): Ghost<F>,
    ) -> (groups: Vec<MutGroup>)
        requires
            old(self).wf(reduce),
            old(self).cfg.fan_out,
            !old(self).cfg.is_absent,
            old(self).coll@.len() == 0,
        ensures
            ({
                let sorted = order::stable_sort(old(self)@.groups, group_le());
                &&& taken_as(old(self).cfg, groups@, sorted)
                &&& old(self).retained == groups_cost(old(self).cfg, sorted)
                &&& old(self).group_bytes <= groups_bytes(sorted)
                &&& old(self).cfg.caps.group_bytes < u64::MAX ==> old(self).group_bytes
                    == groups_bytes(sorted)
            }),
            final(self).same_query(*old(self)),
            final(self).retained == old(self).retained,
            final(self).group_bytes == old(self).group_bytes,
            final(self).groups@.len() == 0,
    {
        let ghost entry = *self;
        let ghost cfg = self.cfg;
        let ghost views = self@.groups;
        let ghost sorted = order::stable_sort(views, group_le());
        let mut taken: Vec<MutGroup> = Vec::new();
        std::mem::swap(&mut taken, &mut self.groups);
        let ghost raw = taken@;
        proof {
            assert(taken@.len() == taken.len());
            MutGroup::rank_is_preorder();
            lemma_group_le_preorder();
            order::lemma_stable_sort_mapped(
                raw,
                |g: MutGroup| group_view(g),
                MutGroup::rank_le(),
                group_le(),
            );
            order::lemma_stable_order(raw, MutGroup::rank_le());
            lemma_sorted_groups_cost(cfg, views);
            lemma_bytes_nonneg(entry@);
            assert(entry@.closed =~= Seq::empty());
        }
        let groups: Vec<MutGroup> = stable_sorted(taken);
        proof {
            let all = groups@;
            assert(all.map_values(|g: MutGroup| group_view(g)) =~= sorted);
            assert forall|i: int| 0 <= i < all.len() implies {
                &&& (#[trigger] all[i]).wf(cfg.reducer.class, cfg.grid)
                &&& hist_load(cfg, all[i].hist@) <= i64::MAX
                &&& sorted[i] == group_view(all[i])
            } by {
                let j = order::stable_order(raw, MutGroup::rank_le())[i];
                assert(all[i] == raw[j as int]);
                assert(entry.groups@[j as int].wf(cfg.reducer.class, cfg.grid));
                lemma_staged_nonneg(cfg, entry@.members);
            }
        }
        groups
    }

    /// Turns one group into its labels and points, and lets go of what is held for
    /// its window points.
    fn drain_group<F: Fn(&Reducer, u64, &[WinSample]) -> u64>(
        &mut self,
        group: MutGroup,
        reduce: &F,
        Ghost(rest): Ghost<Seq<GroupView>>,
    ) -> (out: (LabelSet, Vec<(i64, u64)>))
        requires
            old(self).cfg.wf(),
            !old(self).cfg.is_absent,
            group.wf(old(self).cfg.reducer.class, old(self).cfg.grid),
            hist_load(old(self).cfg, group.hist@) <= i64::MAX,
            rest.len() > 0,
            rest[0] == group_view(group),
            old(self).retained == groups_cost(old(self).cfg, rest),
            slide::takes_windows(*reduce),
        ensures
            *final(self) == (RangeSlideState { retained: final(self).retained, ..*old(self) }),
            final(self).retained == groups_cost(old(self).cfg, rest.skip(1)),
            out.0 == group.labels,
            slide::series_points(
                *reduce,
                old(self).cfg.reducer,
                old(self).cfg.grid,
                cells::canonical(old(self).cfg.reducer.class, group.hist@),
                old(self).cfg.grid.slots(),
                out.1@,
            ),
            out.1@.len() > 0 <==> shows(old(self).cfg)(group_view(group)),
    {
        let ghost cfg = self.cfg;
        let ghost hist = group.hist@;
        proof {
            lemma_groups_first(cfg, rest);
            lemma_groups_cost_nonneg(cfg, rest.skip(1));
            slide::lemma_weight_sum_nonneg(hist);
        }
        let grid: Grid = self.cfg.grid;
        let reducer: Reducer = self.cfg.reducer;
        let held: u64 = group.held(self.cfg.per_sample, Ghost(cfg.form()), Ghost(self.retained));
        let out = group.drain(&grid, &reducer, reduce);
        discharge_retention(&mut self.retained, held);
        proof {
            lemma_has_points(
                *reduce,
                cfg.reducer,
                cfg.grid,
                cells::canonical(cfg.reducer.class, hist),
                cfg.grid.slots(),
                out.1@,
            );
        }
        out
    }

    /// Turns the groups into series, by labels, and lets go of everything held for
    /// them.
    fn finish_groups<F: Fn(&Reducer, u64, &[WinSample]) -> u64>(
        &mut self,
        reduce: &F,
    ) -> (out: Vec<MatrixSeries>)
        requires
            old(self).wf(*reduce),
            old(self).cfg.fan_out,
            !old(self).cfg.is_absent,
            old(self).coll@.len() == 0,
            slide::takes_windows(*reduce),
        ensures
            series_of(
                *reduce,
                old(self).cfg,
                grouped_series(old(self).cfg, old(self)@.groups),
                out@,
            ),
            final(self).same_query(*old(self)),
            final(self).retained == 0,
            final(self).group_bytes == 0,
    {
        let ghost entry = *self;
        let ghost cfg = self.cfg;
        let ghost sorted = order::stable_sort(self@.groups, group_le());
        let groups = self.take_groups::<F>(Ghost(*reduce));
        let ghost all = groups@;
        proof {
            assert(sorted.skip(0) =~= sorted);
            lemma_first_series_ends(cfg, entry@.groups);
        }
        let mut out: Vec<MatrixSeries> = Vec::new();
        for group in it: groups
            invariant
                it.seq() == all,
                taken_as(cfg, all, sorted),
                self.same_query(entry),
                self.cfg == cfg,
                cfg.wf(),
                !cfg.is_absent,
                self.retained == groups_cost(cfg, sorted.skip(it.index())),
                self.group_bytes <= groups_bytes(sorted.skip(it.index())),
                series_of(*reduce, cfg, first_series(cfg, sorted, it.index()), out@),
                slide::takes_windows(*reduce),
        {
            let ghost n = it.index();
            proof {
                assert(group == all[n]);
                lemma_groups_first(cfg, sorted.skip(n));
                assert(sorted.skip(n).skip(1) =~= sorted.skip(n + 1));
                lemma_groups_bytes_nonneg(sorted.skip(n + 1));
                lemma_first_series(cfg, sorted, n);
            }
            let bytes: u64 = group_entry_bytes(
                group.key.as_str(),
                &group.labels,
                std::mem::size_of::<MutGroup>(),
            );
            let (labels, points) = self.drain_group(group, reduce, Ghost(sorted.skip(n)));
            if points.len() > 0 {
                out.push(MatrixSeries { labels, points });
            }
            discharge_group_bytes(&mut self.group_bytes, bytes);
        }
        proof {
            assert(sorted.skip(sorted.len() as int) =~= Seq::empty());
        }
        out
    }

    /// Turns the groups into series, by labels, and pushes each one into the fold
    /// before the next group is drained. A group's label bytes are released once its
    /// push has passed: when a push is refused, those of the group that was refused and
    /// of the groups after it are still charged.
    fn fold_groups<
        F: Fn(&Reducer, u64, &[WinSample]) -> u64,
        S,
        P: Fn(&S, &LabelSet, &Vec<(i64, u64)>) -> Result<S, ReadError>,
    >(&mut self, reduce: &F, start: S, push: &P) -> (res: Result<S, (S, ReadError)>)
        requires
            old(self).wf(*reduce),
            old(self).cfg.fan_out,
            !old(self).cfg.is_absent,
            old(self).coll@.len() == 0,
            slide::takes_windows(*reduce),
            takes_pushes(*push),
        ensures
            final(self).same_query(*old(self)),
            match res {
                Ok(end) => {
                    &&& final(self).retained == 0
                    &&& final(self).group_bytes == 0
                    &&& exists|sent: Seq<MatrixSeries>, states: Seq<S>| #[trigger]
                        pushed(*push, sent, states) && {
                            &&& series_of(
                                *reduce,
                                old(self).cfg,
                                grouped_series(old(self).cfg, old(self)@.groups),
                                sent,
                            )
                            &&& sent.len() <= usize::MAX
                            &&& states.len() == sent.len() + 1
                            &&& states[0] == start
                            &&& states.last() == end
                        }
                },
                Err((end, e)) => exists|sent: Seq<MatrixSeries>, states: Seq<S>, k: int|
                    #![trigger push_refused(*push, sent, states, e), left_by_refusal(
                        old(self).cfg,
                        old(self)@.groups,
                        old(self).group_bytes as int,
                        k,
                        *final(self),
                    )]
                    {
                        &&& left_by_refusal(
                            old(self).cfg,
                            old(self)@.groups,
                            old(self).group_bytes as int,
                            k,
                            *final(self),
                        )
                        &&& series_of(
                            *reduce,
                            old(self).cfg,
                            first_series(
                                old(self).cfg,
                                order::stable_sort(old(self)@.groups, group_le()),
                                k + 1,
                            ),
                            sent,
                        )
                        &&& push_refused(*push, sent, states, e)
                        &&& sent.len() <= usize::MAX
                        &&& states.len() == sent.len()
                        &&& states[0] == start
                        &&& states.last() == end
                    },
            },
    {
        let ghost entry = *self;
        let ghost cfg = self.cfg;
        let ghost sorted = order::stable_sort(self@.groups, group_le());
        let groups = self.take_groups::<F>(Ghost(*reduce));
        let ghost all = groups@;
        proof {
            assert(all.len() == groups.len());
        }
        let mut state: S = start;
        let ghost mut sent: Seq<MatrixSeries> = Seq::empty();
        let ghost mut states: Seq<S> = seq![start];
        proof {
            assert(sorted.skip(0) =~= sorted);
            lemma_first_series_ends(cfg, entry@.groups);
        }
        for group in it: groups
            invariant
                it.seq() == all,
                taken_as(cfg, all, sorted),
                sorted == order::stable_sort(entry@.groups, group_le()),
                entry == *old(self),
                self.same_query(entry),
                self.groups@.len() == 0,
                self.cfg == cfg,
                cfg.wf(),
                !cfg.is_absent,
                self.retained == groups_cost(cfg, sorted.skip(it.index())),
                self.group_bytes <= groups_bytes(sorted.skip(it.index())),
                cfg.caps.group_bytes < u64::MAX ==> self.group_bytes == groups_bytes(
                    sorted.skip(it.index()),
                ),
                self.group_bytes == bytes_left(entry.group_bytes as int, sorted, it.index()),
                series_of(*reduce, cfg, first_series(cfg, sorted, it.index()), sent),
                pushed(*push, sent, states),
                sent.len() <= it.index(),
                all.len() <= usize::MAX,
                states.len() == sent.len() + 1,
                states[0] == start,
                states.last() == state,
                slide::takes_windows(*reduce),
                takes_pushes(*push),
        {
            let ghost n = it.index();
            proof {
                assert(group == all[n]);
                lemma_groups_first(cfg, sorted.skip(n));
                assert(sorted.skip(n).skip(1) =~= sorted.skip(n + 1));
                lemma_groups_bytes_nonneg(sorted.skip(n + 1));
                lemma_first_series(cfg, sorted, n);
            }
            let bytes: u64 = group_entry_bytes(
                group.key.as_str(),
                &group.labels,
                std::mem::size_of::<MutGroup>(),
            );
            let (labels, points) = self.drain_group(group, reduce, Ghost(sorted.skip(n)));
            if points.len() > 0 {
                let ghost series = MatrixSeries { labels, points };
                match push(&state, &labels, &points) {
                    Ok(next) => {
                        proof {
                            assert(push_gives(*push, state, series, Ok(next)));
                            lemma_one_more_push(*push, sent, states, series, next);
                            sent = sent.push(series);
                            states = states.push(next);
                        }
                        state = next;
                    },
                    Err(e) => {
                        proof {
                            assert(push_gives(*push, state, series, Err(e)));
                            lemma_one_push_refused(*push, sent, states, series, e);
                            sent = sent.push(series);
                            assert(left_by_refusal(
                                cfg,
                                entry@.groups,
                                entry.group_bytes as int,
                                n,
                                *self,
                            ));
                        }
                        return Err((state, e));
                    },
                }
            }
            discharge_group_bytes(&mut self.group_bytes, bytes);
        }
        proof {
            assert(sorted.skip(sorted.len() as int) =~= Seq::empty());
        }
        Ok(state)
    }

    /// Lets go of what is held for the closed series and hands them out.
    fn finish_closed<F: Fn(&Reducer, u64, &[WinSample]) -> u64>(
        &mut self,
        Ghost(reduce): Ghost<F>,
    ) -> (out: Vec<MatrixSeries>)
        requires
            old(self).wf(reduce),
            !old(self).cfg.fan_out,
            !old(self).cfg.is_absent,
            old(self).cur is None,
        ensures
            series_of(reduce, old(self).cfg, old(self)@.closed, out@),
            final(self).same_query(*old(self)),
            final(self).retained == 0,
            final(self).group_bytes == 0,
    {
        let ghost entry = *self;
        let ghost closed = self@.closed;
        let mut out: Vec<MatrixSeries> = Vec::new();
        std::mem::swap(&mut out, &mut self.series_out);
        proof {
            reveal_strlit("");
            assert(""@ =~= Seq::<char>::empty());
            assert(entry@.groups =~= Seq::empty());
            assert(closed.skip(0) =~= closed);
        }
        let mut i: usize = 0;
        while i < out.len()
            invariant
                i <= out@.len(),
                out@ == entry.series_out@,
                closed == entry@.closed,
                ""@ == Seq::<char>::empty(),
                self.same_query(entry),
                self.retained == entry.retained,
                self.group_bytes <= closed_bytes(closed.skip(i as int)),
            decreases out@.len() - i,
        {
            proof {
                lemma_closed_first(closed.skip(i as int));
                assert(closed.skip(i as int)[0] == closed[i as int]);
                assert(closed.skip(i as int).skip(1) =~= closed.skip(i + 1));
                lemma_closed_bytes_nonneg(closed.skip(i + 1));
            }
            let bytes: u64 = group_entry_bytes(
                "",
                &out[i].labels,
                std::mem::size_of::<MatrixSeries>(),
            );
            discharge_group_bytes(&mut self.group_bytes, bytes);
            i = i + 1;
        }
        proof {
            assert(closed.skip(closed.len() as int) =~= Seq::empty());
        }
        out
    }
}

// ---------------------------------------------------------------------
// The result.
// ---------------------------------------------------------------------

/// Points moved by an offset.
pub open spec fn moved(points: Seq<(i64, u64)>, offset: int) -> Seq<(i64, u64)> {
    points.map_values(|p: (i64, u64)| (window::clamped(p.0 + offset), p.1))
}

/// Whether `b` is `a` with every point moved by an offset.
pub open spec fn moved_series(a: Seq<MatrixSeries>, b: Seq<MatrixSeries>, offset: int) -> bool {
    &&& a.len() == b.len()
    &&& forall|i: int|
        0 <= i < a.len() ==> (#[trigger] b[i]).labels@ == a[i].labels@ && b[i].points@ == moved(
            a[i].points@,
            offset,
        )
}

/// Puts points back on the grid that was asked for, after the evaluation ran an
/// offset earlier. A result without points of its own passes through.
pub fn shift_emitted_points(result: QueryResult, offset_ns: i64) -> (out: QueryResult)
    ensures
        match result {
            QueryResult::Matrix(a) => out matches QueryResult::Matrix(b) && moved_series(
                a@,
                b@,
                offset_ns as int,
            ),
            _ => out == result,
        },
{
    match result {
        QueryResult::Matrix(series) => {
            let ghost before = series@;
            let mut out: Vec<MatrixSeries> = Vec::new();
            for s in it: series
                invariant
                    it.seq() == before,
                    out@.len() == it.index(),
                    forall|i: int|
                        0 <= i < out@.len() ==> (#[trigger] out@[i]).labels@ == before[i].labels@
                            && out@[i].points@ == moved(before[i].points@, offset_ns as int),
            {
                let MatrixSeries { labels, points } = s;
                let mut shifted: Vec<(i64, u64)> = Vec::new();
                let mut i: usize = 0;
                while i < points.len()
                    invariant
                        i <= points@.len(),
                        shifted@ == moved(points@, offset_ns as int).take(i as int),
                    decreases points@.len() - i,
                {
                    let (ts, v) = points[i];
                    let t: i64 = clamp_bucket(ts as i128 + offset_ns as i128);
                    shifted.push((t, v));
                    proof {
                        assert(moved(points@, offset_ns as int)[i as int] == (t, v));
                        assert(shifted@ =~= moved(points@, offset_ns as int).take(i + 1));
                    }
                    i = i + 1;
                }
                proof {
                    assert(shifted@ =~= moved(points@, offset_ns as int));
                }
                out.push(MatrixSeries { labels, points: shifted });
            }
            QueryResult::Matrix(out)
        },
        other => other,
    }
}

/// A point that was evaluated `offset` earlier comes back exactly, wherever the
/// moved grid could be represented: nothing is lost to clamping.
pub proof fn law_offset_round_trip_is_exact(start: i64, end: i64, offset: i64, point: i64)
    requires
        i64::MIN <= start - offset <= i64::MAX,
        i64::MIN <= end - offset <= i64::MAX,
        start - offset <= point <= end - offset,
    ensures
        window::clamped(point + offset) == point + offset,
        start <= window::clamped(point + offset) <= end,
{
}

/// The state a range query ends in, or the error it ends with.
pub open spec fn end_state(
    cfg: SlideConfig,
    streams: Map<u64, StreamMeta>,
    v: SlideView,
) -> Result<SlideView, ErrorView> {
    match range_model::flush(cfg, streams, v) {
        Err(e) => Err(e),
        Ok(w) => {
            let x = range_model::rotate(cfg, w);
            let points = text::saturate(x.result_points + cfg.grid.slots());
            if cfg.is_absent && points > cfg.caps.result_points {
                Err(
                    ErrorView::QueryTooBroad(
                        TooBroadReason::MetricResultPoints {
                            count: points,
                            cap: cfg.caps.result_points,
                        },
                    ),
                )
            } else {
                Ok(x)
            }
        },
    }
}

/// The order in which series are handed to a vector aggregation.
pub open spec fn fold_order(cfg: SlideConfig, leaf: Seq<MatrixSeries>) -> Seq<MatrixSeries> {
    if cfg.fan_out && !cfg.is_absent {
        leaf
    } else {
        order::stable_sort(leaf, MatrixSeries::rank_le())
    }
}

/// Whether `leaf` are the series a state ends in, or, where they are made one group
/// after the other, the first of them.
pub open spec fn leaf_begins<F: Fn(&Reducer, u64, &[WinSample]) -> u64>(
    reduce: F,
    cfg: SlideConfig,
    absent_labels: Seq<PairView>,
    x: SlideView,
    leaf: Seq<MatrixSeries>,
) -> bool {
    if cfg.fan_out && !cfg.is_absent {
        let all = grouped_series(cfg, x.groups);
        &&& leaf.len() <= all.len()
        &&& series_of(reduce, cfg, all.take(leaf.len() as int), leaf)
    } else {
        leaf_series(reduce, cfg, absent_labels, x, leaf)
    }
}

/// Whether the vector aggregation handed to a range query that ends in state `x` comes
/// to `r`, its series having been pushed one after the other: all of them, or those up
/// to the one that was refused.
pub open spec fn folded<
    F: Fn(&Reducer, u64, &[WinSample]) -> u64,
    S,
    B: Fn(&LeafFold) -> S,
    P: Fn(&S, &LabelSet, &Vec<(i64, u64)>) -> Result<S, ReadError>,
    D: Fn(S) -> Vec<MatrixSeries>,
>(
    reduce: F,
    fold: FoldSteps<B, P, D>,
    cfg: SlideConfig,
    absent_labels: Seq<PairView>,
    x: SlideView,
    f: LeafFold,
    leaf: Seq<MatrixSeries>,
    states: Seq<S>,
    r: Result<Vec<MatrixSeries>, ReadError>,
) -> bool {
    &&& leaf.len() <= usize::MAX
    &&& fold_comes_to(fold, f, fold_order(cfg, leaf), states, r)
    &&& match r {
        Ok(_) => leaf_series(reduce, cfg, absent_labels, x, leaf),
        Err(_) => leaf_begins(reduce, cfg, absent_labels, x, leaf),
    }
}

/// What a fold that was refused leaves, once `sent` series had been pushed, the refused
/// one among them. Where the series are made one group after the other, the books are
/// those of the groups not yet let go; elsewhere all was released before.
pub open spec fn refusal_leaves(
    cfg: SlideConfig,
    x: SlideView,
    sent: nat,
    left: RangeSlideState,
) -> bool {
    if cfg.fan_out && !cfg.is_absent {
        exists|k: int| #[trigger]
            left_by_refusal(cfg, x.groups, x.group_bytes, k, left) && sent == first_series(
                cfg,
                order::stable_sort(x.groups, group_le()),
                k + 1,
            ).len()
    } else {
        left.retained == 0 && left.group_bytes == 0
    }
}

/// Whether `out` is what a range query that ends in state `x` hands out: its series, or
/// what the vector aggregation handed to it makes of them.
pub open spec fn hands_out<
    F: Fn(&Reducer, u64, &[WinSample]) -> u64,
    S,
    B: Fn(&LeafFold) -> S,
    P: Fn(&S, &LabelSet, &Vec<(i64, u64)>) -> Result<S, ReadError>,
    D: Fn(S) -> Vec<MatrixSeries>,
>(
    reduce: F,
    fold: FoldSteps<B, P, D>,
    cfg: SlideConfig,
    absent_labels: Seq<PairView>,
    x: SlideView,
    attached: Option<LeafFold>,
    out: Vec<MatrixSeries>,
) -> bool {
    match attached {
        None => leaf_series(reduce, cfg, absent_labels, x, out@),
        Some(f) => exists|leaf: Seq<MatrixSeries>, states: Seq<S>| #[trigger]
            folded(reduce, fold, cfg, absent_labels, x, f, leaf, states, Ok(out)),
    }
}

/// Whether the vector aggregation handed to a range query that ends in state `x` refuses
/// one of its series in the given state, and what is left then.
pub open spec fn refuses<
    F: Fn(&Reducer, u64, &[WinSample]) -> u64,
    S,
    B: Fn(&LeafFold) -> S,
    P: Fn(&S, &LabelSet, &Vec<(i64, u64)>) -> Result<S, ReadError>,
    D: Fn(S) -> Vec<MatrixSeries>,
>(
    reduce: F,
    fold: FoldSteps<B, P, D>,
    cfg: SlideConfig,
    absent_labels: Seq<PairView>,
    x: SlideView,
    attached: Option<LeafFold>,
    state: S,
    e: ReadError,
    left: RangeSlideState,
) -> bool {
    match attached {
        None => false,
        Some(f) => exists|leaf: Seq<MatrixSeries>, states: Seq<S>| #[trigger]
            folded(reduce, fold, cfg, absent_labels, x, f, leaf, states, Err(e)) && state
                == states.last() && refusal_leaves(cfg, x, states.len(), left),
    }
}

/// Whether `res` is what a range query that ends in state `x` answers: its series,
/// or what the vector aggregation handed to it makes of them, on the grid that was
/// asked for.
pub open spec fn answers<
    F: Fn(&Reducer, u64, &[WinSample]) -> u64,
    S,
    B: Fn(&LeafFold) -> S,
    P: Fn(&S, &LabelSet, &Vec<(i64, u64)>) -> Result<S, ReadError>,
    D: Fn(S) -> Vec<MatrixSeries>,
>(
    reduce: F,
    fold: FoldSteps<B, P, D>,
    cfg: SlideConfig,
    absent_labels: Seq<PairView>,
    attached: Option<LeafFoldView>,
    x: SlideView,
    res: Result<QueryResult, ReadError>,
) -> bool {
    match attached {
        None => exists|leaf: Seq<MatrixSeries>|
            #![trigger leaf_series(reduce, cfg, absent_labels, x, leaf)]
            {
                &&& leaf_series(reduce, cfg, absent_labels, x, leaf)
                &&& res matches Ok(QueryResult::Matrix(out)) && moved_series(
                    leaf,
                    out@,
                    cfg.offset_ns as int,
                )
            },
        Some(fv) => exists|
            leaf: Seq<MatrixSeries>,
            f: LeafFold,
            states: Seq<S>,
            r: Result<Vec<MatrixSeries>, ReadError>,
        |
            #![trigger folded(reduce, fold, cfg, absent_labels, x, f, leaf, states, r)]
            {
                &&& f@ == fv
                &&& folded(reduce, fold, cfg, absent_labels, x, f, leaf, states, r)
                &&& match r {
                    Ok(made) => res matches Ok(QueryResult::Matrix(out)) && moved_series(
                        made@,
                        out@,
                        cfg.offset_ns as int,
                    ),
                    Err(e) => res == Err::<QueryResult, ReadError>(e),
                }
            },
    }
}

impl RangeSlideState {
    /// Closes what is open and hands out the series the query ends in, or what the
    /// vector aggregation attached to the leaf makes of them. With the series,
    /// everything that was charged has been released. When the aggregation refuses a
    /// series, its state before that push comes back beside the error.
    pub fn finish_in_place<
        F: Fn(&Reducer, u64, &[WinSample]) -> u64,
        S,
        B: Fn(&LeafFold) -> S,
        P: Fn(&S, &LabelSet, &Vec<(i64, u64)>) -> Result<S, ReadError>,
        D: Fn(S) -> Vec<MatrixSeries>,
    >(&mut self, reduce: &F, fold: &FoldSteps<B, P, D>) -> (res: Result<
        Vec<MatrixSeries>,
        (Option<S>, ReadError),
    >)
        requires
            old(self).wf(*reduce),
            slide::takes_windows(*reduce),
            takes_series(*fold),
        ensures
            final(self).cfg == old(self).cfg,
            final(self).streams == old(self).streams,
            final(self).fold == old(self).fold,
            !old(self).cfg.is_absent ==> final(self).same_query(*old(self)),
            ({
                let cfg = old(self).cfg;
                let absent = text::labels_view(old(self).absent_labels@);
                let ended = end_state(cfg, old(self).streams@, old(self)@);
                match res {
                    Ok(out) => {
                        &&& ended is Ok
                        &&& hands_out(
                            *reduce,
                            *fold,
                            cfg,
                            absent,
                            ended->Ok_0,
                            old(self).fold,
                            out,
                        )
                        &&& final(self).retained == 0
                        &&& final(self).group_bytes == 0
                    },
                    Err((None, e)) => {
                        &&& ended == Err::<SlideView, ErrorView>(e@)
                        &&& final(self).same_query(*old(self))
                        &&& range_model::flush(cfg, old(self).streams@, old(self)@) is Err
                            ==> range_model::books(final(self)@) == range_model::left_by_flush(
                            cfg,
                            old(self).streams@,
                            old(self)@,
                        )
                    },
                    Err((Some(state), e)) => {
                        &&& ended is Ok
                        &&& refuses(
                            *reduce,
                            *fold,
                            cfg,
                            absent,
                            ended->Ok_0,
                            old(self).fold,
                            state,
                            e,
                            *final(self),
                        )
                    },
                }
            }),
    {
        match self.flush_collision(reduce) {
            Ok(()) => {},
            Err(e) => {
                return Err((None, e));
            },
        }
        self.rotate_slider(reduce);
        let ghost x = self@;
        let ghost cfg = self.cfg;
        let ghost absent = text::labels_view(self.absent_labels@);
        if self.cfg.is_absent || !self.cfg.fan_out {
            let series = if self.cfg.is_absent {
                match self.finish_absent::<F>(Ghost(*reduce)) {
                    Ok(s) => s,
                    Err(e) => {
                        return Err((None, e));
                    },
                }
            } else {
                self.finish_closed::<F>(Ghost(*reduce))
            };
            let ghost leaf = series@;
            let res = self.emit(series, fold);
            proof {
                if self.fold is Some {
                    let f = self.fold->0;
                    let sent = fold_order(cfg, leaf);
                    if res is Ok {
                        let r = Ok::<Vec<MatrixSeries>, ReadError>(res->Ok_0);
                        let states = choose|states: Seq<S>| #[trigger]
                            fold_comes_to(*fold, f, sent, states, r);
                        assert(folded(*reduce, *fold, cfg, absent, x, f, leaf, states, r));
                    } else {
                        let r = Err::<Vec<MatrixSeries>, ReadError>(res->Err_0.1);
                        let states = choose|states: Seq<S>| #[trigger]
                            fold_comes_to(*fold, f, sent, states, r) && res->Err_0.0->0
                                == states.last();
                        assert(folded(*reduce, *fold, cfg, absent, x, f, leaf, states, r));
                        assert(refusal_leaves(cfg, x, states.len(), *self));
                    }
                }
            }
            return res;
        }
        self.emit_groups(reduce, fold)
    }

    /// Hands out the series of the groups, or what the vector aggregation attached to
    /// the leaf makes of them.
    fn emit_groups<
        F: Fn(&Reducer, u64, &[WinSample]) -> u64,
        S,
        B: Fn(&LeafFold) -> S,
        P: Fn(&S, &LabelSet, &Vec<(i64, u64)>) -> Result<S, ReadError>,
        D: Fn(S) -> Vec<MatrixSeries>,
    >(&mut self, reduce: &F, fold: &FoldSteps<B, P, D>) -> (res: Result<
        Vec<MatrixSeries>,
        (Option<S>, ReadError),
    >)
        requires
            old(self).wf(*reduce),
            old(self).cfg.fan_out,
            !old(self).cfg.is_absent,
            old(self).coll@.len() == 0,
            slide::takes_windows(*reduce),
            takes_series(*fold),
        ensures
            final(self).same_query(*old(self)),
            ({
                let cfg = old(self).cfg;
                let absent = text::labels_view(old(self).absent_labels@);
                let x = old(self)@;
                match res {
                    Ok(out) => {
                        &&& hands_out(*reduce, *fold, cfg, absent, x, old(self).fold, out)
                        &&& final(self).retained == 0
                        &&& final(self).group_bytes == 0
                    },
                    Err((state, e)) => state is Some && refuses(
                        *reduce,
                        *fold,
                        cfg,
                        absent,
                        x,
                        old(self).fold,
                        state->0,
                        e,
                        *final(self),
                    ),
                }
            }),
    {
        let ghost x = self@;
        let ghost cfg = self.cfg;
        let ghost absent = text::labels_view(self.absent_labels@);
        let started: Option<S> = match &self.fold {
            None => None,
            Some(f) => {
                let begin = &fold.start;
                Some(begin(f))
            },
        };
        match started {
            None => Ok(self.finish_groups(reduce)),
            Some(start) => {
                let ghost f = self.fold->0;
                match self.fold_groups(reduce, start, &fold.push) {
                    Ok(end) => {
                        let finish = &fold.done;
                        let out = finish(end);
                        proof {
                            let (sent, states) = choose|sent: Seq<MatrixSeries>, states: Seq<S>|
                                #[trigger] pushed(fold.push, sent, states) && {
                                    &&& series_of(*reduce, cfg, grouped_series(cfg, x.groups), sent)
                                    &&& sent.len() <= usize::MAX
                                    &&& states.len() == sent.len() + 1
                                    &&& states[0] == start
                                    &&& states.last() == end
                                };
                            assert(folded(
                                *reduce,
                                *fold,
                                cfg,
                                absent,
                                x,
                                f,
                                sent,
                                states,
                                Ok(out),
                            ));
                        }
                        Ok(out)
                    },
                    Err((state, e)) => {
                        proof {
                            let sorted = order::stable_sort(x.groups, group_le());
                            let (sent, states, k) = choose|
                                sent: Seq<MatrixSeries>,
                                states: Seq<S>,
                                k: int,
                            |
                                #![trigger push_refused(fold.push, sent, states, e),
                                    left_by_refusal(cfg, x.groups, x.group_bytes, k, *self)]
                                {
                                    &&& left_by_refusal(cfg, x.groups, x.group_bytes, k, *self)
                                    &&& series_of(
                                        *reduce,
                                        cfg,
                                        first_series(cfg, sorted, k + 1),
                                        sent,
                                    )
                                    &&& push_refused(fold.push, sent, states, e)
                                    &&& sent.len() <= usize::MAX
                                    &&& states.len() == sent.len()
                                    &&& states[0] == start
                                    &&& states.last() == state
                                };
                            lemma_first_series_ends(cfg, x.groups);
                            lemma_first_series_come_first(
                                cfg,
                                sorted,
                                k + 1,
                                sorted.len() as int,
                            );
                            assert(folded(
                                *reduce,
                                *fold,
                                cfg,
                                absent,
                                x,
                                f,
                                sent,
                                states,
                                Err(e),
                            ));
                            assert(refusal_leaves(cfg, x, states.len(), *self));
                        }
                        Err((Some(state), e))
                    },
                }
            },
        }
    }

    /// The series of `absent_over_time`: one, with the value one at every grid
    /// point whose window is empty, unless there is none.
    fn finish_absent<F: Fn(&Reducer, u64, &[WinSample]) -> u64>(
        &mut self,
        Ghost(reduce): Ghost<F>,
    ) -> (res: Result<Vec<MatrixSeries>, ReadError>)
        requires
            old(self).wf(reduce),
            old(self).cfg.is_absent,
            old(self).cur is None,
        ensures
            final(self).cfg == old(self).cfg,
            final(self).streams == old(self).streams,
            final(self).fold == old(self).fold,
            res is Err ==> final(self).same_query(*old(self)),
            ({
                let cfg = old(self).cfg;
                let points = text::saturate(old(self)@.result_points + cfg.grid.slots());
                match res {
                    Ok(out) => {
                        &&& points <= cfg.caps.result_points
                        &&& leaf_series(
                            reduce,
                            cfg,
                            text::labels_view(old(self).absent_labels@),
                            old(self)@,
                            out@,
                        )
                        &&& final(self).retained == 0
                        &&& final(self).group_bytes == 0
                    },
                    Err(e) => points > cfg.caps.result_points && e@ == ErrorView::QueryTooBroad(
                        TooBroadReason::MetricResultPoints {
                            count: points,
                            cap: cfg.caps.result_points,
                        },
                    ),
                }
            }),
    {
        proof {
            assert(self@.groups =~= Seq::empty());
            assert(self@.closed =~= Seq::empty());
        }
        match charge_result_points(
            &mut self.result_points,
            self.cfg.grid.slot_count(),
            self.cfg.caps.result_points,
        ) {
            Ok(()) => {},
            Err(e) => {
                return Err(e);
            },
        }
        let points = self.present.absent(&self.cfg.grid);
        let mut out: Vec<MatrixSeries> = Vec::new();
        if points.len() > 0 {
            let mut labels: LabelSet = Vec::new();
            std::mem::swap(&mut labels, &mut self.absent_labels);
            out.push(MatrixSeries { labels, points });
        }
        Ok(out)
    }

    /// Hands the series on, or, with a vector aggregation attached to the leaf, pushes
    /// them into it one after the other, in one fixed order, and hands on what it
    /// comes to.
    fn emit<
        S,
        B: Fn(&LeafFold) -> S,
        P: Fn(&S, &LabelSet, &Vec<(i64, u64)>) -> Result<S, ReadError>,
        D: Fn(S) -> Vec<MatrixSeries>,
    >(&self, series: Vec<MatrixSeries>, fold: &FoldSteps<B, P, D>) -> (res: Result<
        Vec<MatrixSeries>,
        (Option<S>, ReadError),
    >)
        requires
            takes_series(*fold),
        ensures
            series@.len() <= usize::MAX,
            match (self.fold, res) {
                (None, _) => res == Ok::<Vec<MatrixSeries>, (Option<S>, ReadError)>(series),
                (Some(f), Ok(out)) => fold_makes(
                    *fold,
                    f,
                    order::stable_sort(series@, MatrixSeries::rank_le()),
                    out,
                ),
                (Some(f), Err((state, e))) => state is Some && fold_refuses(
                    *fold,
                    f,
                    order::stable_sort(series@, MatrixSeries::rank_le()),
                    state->0,
                    e,
                ),
            },
    {
        proof {
            assert(series@.len() == series.len());
        }
        match &self.fold {
            None => Ok(series),
            Some(f) => {
                let begin = &fold.start;
                let finish = &fold.done;
                let pinned: Vec<MatrixSeries> = pin_reduction_order(series);
                let start: S = begin(f);
                match push_all(&pinned, start, &fold.push) {
                    Ok(end) => {
                        let out = finish(end);
                        proof {
                            let states = choose|states: Seq<S>| #[trigger]
                                pushed(fold.push, pinned@, states) && states.len() == pinned@.len()
                                    + 1 && states[0] == start && states.last() == end;
                            assert(fold_comes_to(*fold, *f, pinned@, states, Ok(out)));
                        }
                        Ok(out)
                    },
                    Err((state, e)) => {
                        proof {
                            let states = choose|states: Seq<S>| #[trigger]
                                push_refused(fold.push, pinned@, states, e) && states[0] == start
                                    && states.last() == state;
                            assert(fold_comes_to(*fold, *f, pinned@, states, Err(e)));
                        }
                        Err((Some(state), e))
                    },
                }
            },
        }
    }

    /// Ends the query.
    pub fn finish<
        F: Fn(&Reducer, u64, &[WinSample]) -> u64,
        S,
        B: Fn(&LeafFold) -> S,
        P: Fn(&S, &LabelSet, &Vec<(i64, u64)>) -> Result<S, ReadError>,
        D: Fn(S) -> Vec<MatrixSeries>,
    >(self, reduce: &F, fold: &FoldSteps<B, P, D>) -> (res: Result<QueryResult, ReadError>)
        requires
            self.wf(*reduce),
            slide::takes_windows(*reduce),
            takes_series(*fold),
        ensures
            match end_state(self.cfg, self.streams@, self@) {
                Err(e) => res matches Err(got) && got@ == e,
                Ok(x) => answers(
                    *reduce,
                    *fold,
                    self.cfg,
                    text::labels_view(self.absent_labels@),
                    fold_view(self.fold),
                    x,
                    res,
                ),
            },
    {
        let mut state = self;
        match state.finish_in_place(reduce, fold) {
            Ok(out) => Ok(
                shift_emitted_points(QueryResult::Matrix(out), state.cfg.offset_ns),
            ),
            Err((_, e)) => Err(e),
        }
    }
}

} // verus!
