//! The evaluator of instant queries.
//!
//! An instant query has one window, so each group keeps one accumulator: running
//! moments, or the values themselves where the reducer needs them.
use std::collections::HashMap;
use vstd::hash_map::StringHashMap;
use vstd::prelude::*;
use crate::accum;
use crate::charge::{
    self, charge_group_bytes, discharge_group_bytes, group_entry_bytes, row_budget_ceiling,
    AggCaps,
};
use crate::error::{ErrorView, ReadError, TooBroadReason};
use crate::model::{
    ClientAgg, ClientValue, MetricRun, MetricScanRow, QueryResult, RangeAggOp, StreamMeta,
    VectorSample,
};
use crate::number::ONE;
use crate::order;
use crate::range::check_surviving_error;
use crate::range_model;
use crate::slide::{self, reducer_class, Reducer};
use crate::text::{self, copy_labels, render_labels_json, sorted_labels, LabelSet, PairView};

verus! {

/// The bit patterns of the running moments of some values.
#[derive(Debug, Clone, Copy)]
pub struct Moments {
    pub sum: u64,
    pub min: u64,
    pub max: u64,
    pub mean: u64,
    pub m2: u64,
}

/// One sample as it arrived.
#[derive(Debug, Clone, Copy)]
pub struct Arrival {
    pub ts: i64,
    pub stream_hash: u64,
    pub value: u64,
}

/// Streaming statistics of a group.
#[derive(Debug, Clone, Copy)]
pub struct SimpleAcc {
    pub count: u64,
    pub moments: Moments,
    /// The time and stream of the first sample in delivery order.
    pub first_key: (i64, u64),
    pub first_v: u64,
    /// The time and stream of the last sample in delivery order.
    pub last_key: (i64, u64),
    pub last_v: u64,
}

/// What a group accumulates.
#[derive(Debug)]
pub enum BucketAcc {
    Simple(SimpleAcc),
    /// Every value, for quantiles.
    Values(Vec<u64>),
    /// Every point, for counters.
    Counter(Vec<(i64, u64)>),
}

/// Whether `a` comes before `b` in delivery order.
pub open spec fn delivered_before(a: Arrival, b: Arrival) -> bool {
    a.ts < b.ts || (a.ts == b.ts && a.stream_hash < b.stream_hash)
}

/// The first sample in delivery order: of several at one time and stream, the
/// first to arrive.
pub open spec fn first_delivered(hist: Seq<Arrival>) -> Arrival
    decreases hist.len(),
{
    if hist.len() <= 1 {
        hist[0]
    } else {
        let f = first_delivered(hist.drop_last());
        if delivered_before(hist.last(), f) {
            hist.last()
        } else {
            f
        }
    }
}

/// The last sample in delivery order: of several at one time and stream, the last
/// to arrive.
pub open spec fn last_delivered(hist: Seq<Arrival>) -> Arrival
    decreases hist.len(),
{
    if hist.len() <= 1 {
        hist[0]
    } else {
        let l = last_delivered(hist.drop_last());
        if delivered_before(hist.last(), l) {
            l
        } else {
            hist.last()
        }
    }
}

/// The endpoints are the extremes of the delivery order: no sample comes before the
/// first, and the last comes before none.
pub proof fn law_endpoints_are_the_extremes_of_delivery_order(hist: Seq<Arrival>)
    requires
        hist.len() > 0,
    ensures
        forall|i: int|
            0 <= i < hist.len() ==> !delivered_before(#[trigger] hist[i], first_delivered(hist)),
        forall|i: int|
            0 <= i < hist.len() ==> !delivered_before(last_delivered(hist), #[trigger] hist[i]),
        hist.contains(first_delivered(hist)),
        hist.contains(last_delivered(hist)),
    decreases hist.len(),
{
    if hist.len() == 1 {
        assert(hist[0] == first_delivered(hist));
    } else {
        let h = hist.drop_last();
        law_endpoints_are_the_extremes_of_delivery_order(h);
        let i = choose|i: int| 0 <= i < h.len() && h[i] == first_delivered(h);
        assert(hist[i] == first_delivered(h));
        let j = choose|j: int| 0 <= j < h.len() && h[j] == last_delivered(h);
        assert(hist[j] == last_delivered(h));
        assert(hist[hist.len() - 1] == hist.last());
        assert forall|i: int| 0 <= i < hist.len() implies !delivered_before(
            #[trigger] hist[i],
            first_delivered(hist),
        ) && !delivered_before(last_delivered(hist), hist[i]) by {
            if i < h.len() {
                assert(hist[i] == h[i]);
            }
        }
    }
}

/// Whether `m` are the moments that `step` makes of the samples, one after another.
pub open spec fn moments_ok<S: Fn(&Reducer, Option<Moments>, u64, u64) -> Moments>(
    step: S,
    r: Reducer,
    hist: Seq<Arrival>,
    m: Moments,
) -> bool
    decreases hist.len(),
{
    if hist.len() == 0 {
        false
    } else if hist.len() == 1 {
        call_ensures(step, (&r, None, 1u64, hist[0].value), m)
    } else {
        exists|prev: Moments|
            moments_ok(step, r, hist.drop_last(), prev) && #[trigger] call_ensures(
                step,
                (&r, Some(prev), hist.len() as u64, hist.last().value),
                m,
            )
    }
}

/// Whether an accumulator is what a reducer keeps of some samples.
pub open spec fn acc_ok<S: Fn(&Reducer, Option<Moments>, u64, u64) -> Moments>(
    step: S,
    r: Reducer,
    hist: Seq<Arrival>,
    acc: BucketAcc,
) -> bool {
    &&& hist.len() > 0
    &&& match acc {
        BucketAcc::Values(v) => r.op is QuantileOverTime && v@ == hist.map_values(
            |a: Arrival| a.value,
        ),
        BucketAcc::Counter(p) => r.op is RateCounter && p@ == hist.map_values(
            |a: Arrival| (a.ts, a.value),
        ),
        BucketAcc::Simple(s) => {
            let (first, last) = (first_delivered(hist), last_delivered(hist));
            &&& !(r.op is QuantileOverTime) && !(r.op is RateCounter)
            &&& s.count == hist.len()
            &&& moments_ok(step, r, hist, s.moments)
            &&& s.first_key == (first.ts, first.stream_hash)
            &&& s.first_v == first.value
            &&& s.last_key == (last.ts, last.stream_hash)
            &&& s.last_v == last.value
        },
    }
}

/// Whether a key comes before another.
fn key_before(a: (i64, u64), b: (i64, u64)) -> (r: bool)
    ensures
        r == (a.0 < b.0 || (a.0 == b.0 && a.1 < b.1)),
{
    a.0 < b.0 || (a.0 == b.0 && a.1 < b.1)
}

impl BucketAcc {
    /// The accumulator of one sample.
    pub fn new<S: Fn(&Reducer, Option<Moments>, u64, u64) -> Moments>(
        r: &Reducer,
        a: Arrival,
        step: &S,
    ) -> (acc: BucketAcc)
        requires
            forall|r: &Reducer, m: Option<Moments>, n: u64, v: u64|
                call_requires(*step, (r, m, n, v)),
        ensures
            acc_ok(*step, *r, seq![a], acc),
    {
        match r.op {
            RangeAggOp::QuantileOverTime => {
                let mut v: Vec<u64> = Vec::new();
                v.push(a.value);
                proof {
                    assert(v@ =~= seq![a].map_values(|a: Arrival| a.value));
                }
                BucketAcc::Values(v)
            },
            RangeAggOp::RateCounter => {
                let mut p: Vec<(i64, u64)> = Vec::new();
                p.push((a.ts, a.value));
                proof {
                    assert(p@ =~= seq![a].map_values(|a: Arrival| (a.ts, a.value)));
                }
                BucketAcc::Counter(p)
            },
            _ => BucketAcc::Simple(
                SimpleAcc {
                    count: 1,
                    moments: step(r, None, 1, a.value),
                    first_key: (a.ts, a.stream_hash),
                    first_v: a.value,
                    last_key: (a.ts, a.stream_hash),
                    last_v: a.value,
                },
            ),
        }
    }

    /// Adds one sample.
    pub(crate) fn push<S: Fn(&Reducer, Option<Moments>, u64, u64) -> Moments>(
        &mut self,
        r: &Reducer,
        a: Arrival,
        step: &S,
        Ghost(hist): Ghost<Seq<Arrival>>,
    )
        requires
            acc_ok(*step, *r, hist, *old(self)),
            hist.len() < u64::MAX,
            forall|r: &Reducer, m: Option<Moments>, n: u64, v: u64|
                call_requires(*step, (r, m, n, v)),
        ensures
            acc_ok(*step, *r, hist.push(a), *final(self)),
    {
        let ghost next = hist.push(a);
        proof {
            assert(next.drop_last() =~= hist);
        }
        match self {
            BucketAcc::Values(v) => {
                v.push(a.value);
                proof {
                    assert(v@ =~= next.map_values(|a: Arrival| a.value));
                }
            },
            BucketAcc::Counter(p) => {
                p.push((a.ts, a.value));
                proof {
                    assert(p@ =~= next.map_values(|a: Arrival| (a.ts, a.value)));
                }
            },
            BucketAcc::Simple(s) => {
                let ghost prev = s.moments;
                s.count = s.count + 1;
                s.moments = step(r, Some(s.moments), s.count, a.value);
                proof {
                    assert(moments_ok(*step, *r, next.drop_last(), prev));
                    assert(moments_ok(*step, *r, next, s.moments));
                }
                let key: (i64, u64) = (a.ts, a.stream_hash);
                if key_before(key, s.first_key) {
                    s.first_key = key;
                    s.first_v = a.value;
                }
                if !key_before(key, s.last_key) {
                    s.last_key = key;
                    s.last_v = a.value;
                }
            },
        }
    }
}

// ---------------------------------------------------------------------
// What an instant query does.
// ---------------------------------------------------------------------

/// What does not change while an instant query is evaluated.
#[derive(Debug, Clone, Copy)]
pub struct InstantConfig {
    pub reducer: Reducer,
    /// Whether lines are grouped by their labels rather than by stream.
    pub fan_out: bool,
    pub caps: AggCaps,
}

impl InstantConfig {
    pub open spec fn is_absent(self) -> bool {
        self.reducer.op is AbsentOverTime
    }
}

/// One group of an instant query: a stream, or the lines with the same labels.
pub struct GroupTally {
    pub fp: u64,
    pub key: Seq<char>,
    pub labels: Seq<PairView>,
    pub hist: Seq<Arrival>,
}

/// The state of an instant query.
#[verifier::ext_equal]
pub struct InstantView {
    /// Whether any line survived, for `absent_over_time`.
    pub present: bool,
    /// The groups, in the order they were opened.
    pub groups: Seq<GroupTally>,
    pub quantile_values: int,
    pub counter_values: int,
    pub group_bytes: int,
}

/// A state, or the error a row was refused with.
pub type InstantStep = Result<InstantView, ErrorView>;

/// Where a group stands, by stream or by key.
pub open spec fn tally_index(
    fan_out: bool,
    groups: Seq<GroupTally>,
    fp: u64,
    key: Seq<char>,
) -> Option<int>
    decreases groups.len(),
{
    if groups.len() == 0 {
        None
    } else if (if fan_out {
        groups.last().key == key
    } else {
        groups.last().fp == fp
    }) {
        Some(groups.len() - 1)
    } else {
        tally_index(fan_out, groups.drop_last(), fp, key)
    }
}

/// The slot a group is charged: its key, labels and accumulator where lines are grouped
/// by their labels, and where they are grouped by their streams, whose labels are held
/// already, a fingerprint and an accumulator.
pub open spec fn instant_slot(fan_out: bool) -> int {
    if fan_out {
        vstd::layout::size_of::<(String, (LabelSet, BucketAcc))>() as int
    } else {
        vstd::layout::size_of::<(u64, BucketAcc)>() as int
    }
}

/// The slot a group is charged.
fn slot_of(fan_out: bool) -> (slot: usize)
    ensures
        slot == instant_slot(fan_out),
{
    if fan_out {
        std::mem::size_of::<(String, (LabelSet, BucketAcc))>()
    } else {
        std::mem::size_of::<(u64, BucketAcc)>()
    }
}

/// What a group's labels cost.
pub open spec fn tally_bytes(fan_out: bool, g: GroupTally) -> int {
    charge::entry_bytes(g.key, g.labels, instant_slot(fan_out)) as int
}

/// What the groups' labels cost.
pub open spec fn tallies_bytes(fan_out: bool, groups: Seq<GroupTally>) -> int
    decreases groups.len(),
{
    if groups.len() == 0 {
        0
    } else {
        tallies_bytes(fan_out, groups.drop_last()) + tally_bytes(fan_out, groups.last())
    }
}

/// Counts a value against the caps of quantiles and counters.
pub open spec fn count_value(cfg: InstantConfig, v: InstantView) -> InstantStep {
    let op = cfg.reducer.op;
    if op is QuantileOverTime && v.quantile_values + 1 > cfg.caps.quantile_values {
        Err(
            ErrorView::QueryTooBroad(
                TooBroadReason::QuantileValues {
                    count: (v.quantile_values + 1) as u64,
                    cap: cfg.caps.quantile_values,
                },
            ),
        )
    } else if op is RateCounter && v.counter_values + 1 > cfg.caps.counter_values {
        Err(
            ErrorView::QueryTooBroad(
                TooBroadReason::CounterValues {
                    count: (v.counter_values + 1) as u64,
                    cap: cfg.caps.counter_values,
                },
            ),
        )
    } else {
        Ok(
            InstantView {
                quantile_values: v.quantile_values + (if op is QuantileOverTime {
                    1int
                } else {
                    0
                }),
                counter_values: v.counter_values + (if op is RateCounter {
                    1int
                } else {
                    0
                }),
                ..v
            },
        )
    }
}

/// Adds a sample to its group, which it opens if it is the first.
pub open spec fn tally(
    cfg: InstantConfig,
    v: InstantView,
    fp: u64,
    key: Seq<char>,
    labels: Seq<PairView>,
    a: Arrival,
) -> InstantStep {
    match tally_index(cfg.fan_out, v.groups, fp, key) {
        Some(i) => Ok(
            InstantView {
                groups: v.groups.update(
                    i,
                    GroupTally { hist: v.groups[i].hist.push(a), ..v.groups[i] },
                ),
                ..v
            },
        ),
        None => {
            let g = GroupTally { fp, key, labels, hist: seq![a] };
            let bytes = text::saturate(v.group_bytes + tally_bytes(cfg.fan_out, g));
            if bytes > cfg.caps.group_bytes {
                Err(
                    ErrorView::QueryTooBroad(
                        TooBroadReason::MetricGroupLabelBytes {
                            bytes,
                            cap: cfg.caps.group_bytes,
                        },
                    ),
                )
            } else {
                Ok(InstantView { groups: v.groups.push(g), group_bytes: bytes as int, ..v })
            }
        },
    }
}

/// Takes one row.
pub open spec fn take_instant_row(
    cfg: InstantConfig,
    streams: Map<u64, StreamMeta>,
    v: InstantView,
    row: MetricScanRow,
) -> InstantStep {
    if !streams.contains_key(row.fingerprint) {
        Ok(v)
    } else {
        match row.run {
            Err(b) => Err(range_model::budget_error(b)),
            Ok(MetricRun::Dropped) => Ok(v),
            Ok(MetricRun::Kept { line_len, value, labels }) => {
                let lv = text::labels_view(labels@);
                let meta = streams[row.fingerprint];
                if range_model::surviving_error(lv) is Some {
                    Err(range_model::pipeline_error(lv))
                } else if cfg.is_absent() {
                    Ok(InstantView { present: true, ..v })
                } else {
                    match range_model::line_value(cfg.reducer.value, line_len, value) {
                        None => Ok(v),
                        Some(x) => match count_value(cfg, v) {
                            Err(e) => Err(e),
                            Ok(w) => {
                                let sorted = order::stable_sort(lv, text::pair_le());
                                tally(
                                    cfg,
                                    w,
                                    if cfg.fan_out {
                                        0
                                    } else {
                                        row.fingerprint
                                    },
                                    if cfg.fan_out {
                                        text::json_object(sorted)
                                    } else {
                                        Seq::empty()
                                    },
                                    if cfg.fan_out {
                                        sorted
                                    } else {
                                        text::labels_view(meta.labels@)
                                    },
                                    Arrival {
                                        ts: row.timestamp_ns,
                                        stream_hash: meta.stream_hash,
                                        value: x,
                                    },
                                )
                            },
                        },
                    }
                }
            },
        }
    }
}

/// Takes the first `n` rows.
pub open spec fn take_instant_rows(
    cfg: InstantConfig,
    streams: Map<u64, StreamMeta>,
    v: InstantView,
    rows: Seq<MetricScanRow>,
    n: int,
) -> InstantStep
    decreases n,
{
    if n <= 0 {
        Ok(v)
    } else {
        match take_instant_rows(cfg, streams, v, rows, n - 1) {
            Err(e) => Err(e),
            Ok(w) => take_instant_row(cfg, streams, w, rows[n - 1]),
        }
    }
}

proof fn lemma_instant_beginning(
    cfg: InstantConfig,
    streams: Map<u64, StreamMeta>,
    v: InstantView,
    a: Seq<MetricScanRow>,
    b: Seq<MetricScanRow>,
    n: int,
)
    requires
        0 <= n <= a.len(),
    ensures
        take_instant_rows(cfg, streams, v, a + b, n) == take_instant_rows(cfg, streams, v, a, n),
    decreases n,
{
    if n > 0 {
        lemma_instant_beginning(cfg, streams, v, a, b, n - 1);
        assert((a + b)[n - 1] == a[n - 1]);
    }
}

/// How a scan is cut into batches does not matter: the second batch goes on where the
/// first ended, and an error ends the scan.
pub proof fn law_instant_batches_join(
    cfg: InstantConfig,
    streams: Map<u64, StreamMeta>,
    v: InstantView,
    a: Seq<MetricScanRow>,
    b: Seq<MetricScanRow>,
    n: int,
)
    requires
        0 <= n <= b.len(),
    ensures
        take_instant_rows(cfg, streams, v, a + b, a.len() + n) == match take_instant_rows(
            cfg,
            streams,
            v,
            a,
            a.len() as int,
        ) {
            Err(e) => Err(e),
            Ok(w) => take_instant_rows(cfg, streams, w, b, n),
        },
    decreases n,
{
    if n == 0 {
        lemma_instant_beginning(cfg, streams, v, a, b, a.len() as int);
    } else {
        law_instant_batches_join(cfg, streams, v, a, b, n - 1);
        assert((a + b)[a.len() + n - 1] == b[n - 1]);
    }
}

/// The state before the row, one of the first `n`, that is refused.
pub open spec fn before_refusal(
    cfg: InstantConfig,
    streams: Map<u64, StreamMeta>,
    v: InstantView,
    rows: Seq<MetricScanRow>,
    n: int,
) -> InstantView
    decreases n,
{
    if n <= 0 {
        v
    } else {
        match take_instant_rows(cfg, streams, v, rows, n - 1) {
            Err(_) => before_refusal(cfg, streams, v, rows, n - 1),
            Ok(w) => w,
        }
    }
}

proof fn lemma_instant_error(
    cfg: InstantConfig,
    streams: Map<u64, StreamMeta>,
    v: InstantView,
    rows: Seq<MetricScanRow>,
    m: int,
    n: int,
)
    requires
        m <= n,
        take_instant_rows(cfg, streams, v, rows, m) is Err,
    ensures
        take_instant_rows(cfg, streams, v, rows, n) == take_instant_rows(cfg, streams, v, rows, m),
        before_refusal(cfg, streams, v, rows, n) == before_refusal(cfg, streams, v, rows, m),
    decreases n - m,
{
    if m < n {
        lemma_instant_error(cfg, streams, v, rows, m, n - 1);
    }
}

// ---------------------------------------------------------------------
// The evaluator.
// ---------------------------------------------------------------------

/// One group.
pub struct InstantGroup {
    pub fp: u64,
    pub key: String,
    pub labels: LabelSet,
    pub acc: BucketAcc,
    /// The group's samples, in the order they came.
    pub hist: Ghost<Seq<Arrival>>,
}

pub open spec fn tally_view(g: InstantGroup) -> GroupTally {
    GroupTally { fp: g.fp, key: g.key@, labels: text::labels_view(g.labels@), hist: g.hist@ }
}

/// The evaluator.
pub struct ClientAggState {
    pub cfg: InstantConfig,
    pub absent_labels: LabelSet,
    pub streams: HashMap<u64, StreamMeta>,
    pub present: bool,
    pub groups: Vec<InstantGroup>,
    /// Where each stream's group stands.
    pub by_stream: HashMap<u64, usize>,
    /// Where each group stands, by its rendered labels.
    pub by_key: StringHashMap<usize>,
    pub quantile_values: u64,
    pub counter_values: u64,
    pub group_bytes: u64,
    /// How many rows have been taken.
    pub taken: Ghost<int>,
}

impl ClientAggState {
    pub open spec fn view(&self) -> InstantView {
        InstantView {
            present: self.present,
            groups: self.groups@.map_values(|g: InstantGroup| tally_view(g)),
            quantile_values: self.quantile_values as int,
            counter_values: self.counter_values as int,
            group_bytes: self.group_bytes as int,
        }
    }

    /// The parts that no row changes.
    pub open spec fn same_query(&self, old: ClientAggState) -> bool {
        &&& self.cfg == old.cfg
        &&& self.absent_labels == old.absent_labels
        &&& self.streams == old.streams
    }

    /// Every group is found by its stream or by its key.
    pub open spec fn wf_index(&self) -> bool {
        if self.cfg.fan_out {
            &&& forall|i: int|
                0 <= i < self.groups@.len() ==> self.by_key@.contains_key(
                    (#[trigger] self.groups@[i]).key@,
                ) && self.by_key@[self.groups@[i].key@] == i
            &&& forall|key: Seq<char>|
                #[trigger] self.by_key@.contains_key(key) ==> self.by_key@[key]
                    < self.groups@.len() && self.groups@[self.by_key@[key] as int].key@ == key
        } else {
            &&& forall|i: int|
                0 <= i < self.groups@.len() ==> self.by_stream@.contains_key(
                    (#[trigger] self.groups@[i]).fp,
                ) && self.by_stream@[self.groups@[i].fp] == i
            &&& forall|fp: u64|
                #[trigger] self.by_stream@.contains_key(fp) ==> self.by_stream@[fp]
                    < self.groups@.len() && self.groups@[self.by_stream@[fp] as int].fp == fp
        }
    }

    /// What holds between calls: every accumulator is what its group's samples come
    /// to, and the bytes charged are exactly those of the groups.
    pub open spec fn wf<S: Fn(&Reducer, Option<Moments>, u64, u64) -> Moments>(
        &self,
        step: S,
    ) -> bool {
        &&& self.wf_index()
        &&& 0 <= self.taken@ < u64::MAX
        &&& self.quantile_values <= self.taken@
        &&& self.counter_values <= self.taken@
        &&& forall|i: int|
            0 <= i < self.groups@.len() ==> {
                &&& (#[trigger] self.groups@[i]).hist@.len() <= self.taken@
                &&& acc_ok(step, self.cfg.reducer, self.groups@[i].hist@, self.groups@[i].acc)
            }
        &&& self.group_bytes == text::saturate(tallies_bytes(self.cfg.fan_out, self@.groups))
        &&& self.group_bytes <= self.cfg.caps.group_bytes
    }

    /// No row has been taken.
    pub open spec fn fresh(&self) -> bool {
        &&& self.groups@.len() == 0
        &&& self.by_stream@ == Map::<u64, usize>::empty()
        &&& self.by_key@ == Map::<Seq<char>, usize>::empty()
        &&& self.taken@ == 0
        &&& self@ == (InstantView {
            present: false,
            groups: Seq::empty(),
            quantile_values: 0,
            counter_values: 0,
            group_bytes: 0,
        })
    }

    /// A fresh state is in order, whatever arithmetic it will be used with.
    pub proof fn lemma_fresh_wf<S: Fn(&Reducer, Option<Moments>, u64, u64) -> Moments>(
        &self,
        step: S,
    )
        requires
            self.fresh(),
        ensures
            self.wf(step),
    {
    }

    /// Starts an instant query.
    pub fn new(
        streams: HashMap<u64, StreamMeta>,
        client: &ClientAgg,
        rate_window_ns: Option<u64>,
        caps: AggCaps,
    ) -> (s: ClientAggState)
        ensures
            s.fresh(),
            s.streams == streams,
            text::labels_view(s.absent_labels@) == text::labels_view(client.absent_labels@),
            s.cfg == (InstantConfig {
                reducer: Reducer {
                    op: client.range_op,
                    class: slide::class_of(client.range_op, client.value),
                    value: client.value,
                    param: client.param,
                    rate_window_ns,
                },
                fan_out: client.mutates_labels || client.grouped,
                caps,
            }),
    {
        let cfg = InstantConfig {
            reducer: Reducer {
                op: client.range_op,
                class: reducer_class(client.range_op, client.value),
                value: client.value,
                param: client.param,
                rate_window_ns,
            },
            fan_out: client.mutates_labels || client.grouped,
            caps,
        };
        let s = ClientAggState {
            cfg,
            absent_labels: copy_labels(&client.absent_labels),
            streams,
            present: false,
            groups: Vec::new(),
            by_stream: HashMap::new(),
            by_key: StringHashMap::new(),
            quantile_values: 0,
            counter_values: 0,
            group_bytes: 0,
            taken: Ghost(0),
        };
        proof {
            assert(s@.groups =~= Seq::empty());
        }
        s
    }
}

proof fn lemma_tally_found(fan_out: bool, groups: Seq<GroupTally>, i: int)
    requires
        0 <= i < groups.len(),
        forall|j: int|
            0 <= j < groups.len() && j != i ==> (if fan_out {
                (#[trigger] groups[j]).key != groups[i].key
            } else {
                groups[j].fp != groups[i].fp
            }),
    ensures
        tally_index(fan_out, groups, groups[i].fp, groups[i].key) == Some(i),
    decreases groups.len(),
{
    if i < groups.len() - 1 {
        assert(groups[groups.len() - 1] == groups.last());
        let rest = groups.drop_last();
        assert forall|j: int| 0 <= j < rest.len() && j != i implies (if fan_out {
            (#[trigger] rest[j]).key != rest[i].key
        } else {
            rest[j].fp != rest[i].fp
        }) by {
            assert(groups[j] == rest[j]);
        }
        lemma_tally_found(fan_out, rest, i);
    }
}

proof fn lemma_tally_none(fan_out: bool, groups: Seq<GroupTally>, fp: u64, key: Seq<char>)
    requires
        forall|j: int|
            0 <= j < groups.len() ==> (if fan_out {
                (#[trigger] groups[j]).key != key
            } else {
                groups[j].fp != fp
            }),
    ensures
        tally_index(fan_out, groups, fp, key) is None,
    decreases groups.len(),
{
    if groups.len() > 0 {
        assert(groups[groups.len() - 1] == groups.last());
        let rest = groups.drop_last();
        assert forall|j: int| 0 <= j < rest.len() implies (if fan_out {
            (#[trigger] rest[j]).key != key
        } else {
            rest[j].fp != fp
        }) by {
            assert(groups[j] == rest[j]);
        }
        lemma_tally_none(fan_out, rest, fp, key);
    }
}

proof fn lemma_tallies_update(fan_out: bool, groups: Seq<GroupTally>, i: int, g: GroupTally)
    requires
        0 <= i < groups.len(),
        g.key == groups[i].key,
        g.labels == groups[i].labels,
    ensures
        tallies_bytes(fan_out, groups.update(i, g)) == tallies_bytes(fan_out, groups),
    decreases groups.len(),
{
    let next = groups.update(i, g);
    if i == groups.len() - 1 {
        assert(next.drop_last() =~= groups.drop_last());
    } else {
        lemma_tallies_update(fan_out, groups.drop_last(), i, g);
        assert(next.drop_last() =~= groups.drop_last().update(i, g));
        assert(next.last() == groups.last());
    }
}

proof fn lemma_tallies_nonneg(fan_out: bool, groups: Seq<GroupTally>)
    ensures
        tallies_bytes(fan_out, groups) >= 0,
    decreases groups.len(),
{
    if groups.len() > 0 {
        lemma_tallies_nonneg(fan_out, groups.drop_last());
    }
}

impl ClientAggState {
    /// Adds a sample to a group that is open.
    fn add_to<S: Fn(&Reducer, Option<Moments>, u64, u64) -> Moments>(
        &mut self,
        at: usize,
        a: Arrival,
        step: &S,
    )
        requires
            old(self).wf(*step),
            at < old(self).groups@.len(),
            old(self).groups@[at as int].hist@.len() < old(self).taken@,
            forall|r: &Reducer, m: Option<Moments>, n: u64, v: u64|
                call_requires(*step, (r, m, n, v)),
        ensures
            final(self).wf(*step),
            final(self).same_query(*old(self)),
            final(self).taken == old(self).taken,
            final(self)@ == (InstantView {
                groups: old(self)@.groups.update(
                    at as int,
                    GroupTally {
                        hist: old(self)@.groups[at as int].hist.push(a),
                        ..old(self)@.groups[at as int]
                    },
                ),
                ..old(self)@
            }),
    {
        let ghost entry = *self;
        let ghost g = self@.groups[at as int];
        let ghost hist = self.groups@[at as int].hist@;
        let r: Reducer = self.cfg.reducer;
        self.groups[at].acc.push(&r, a, step, Ghost(hist));
        self.groups[at].hist = Ghost(hist.push(a));
        proof {
            let next = GroupTally { hist: hist.push(a), ..g };
            assert(self@.groups =~= entry@.groups.update(at as int, next));
            lemma_tallies_update(self.cfg.fan_out, entry@.groups, at as int, next);
            assert forall|i: int| 0 <= i < self.groups@.len() && i != at implies (
            #[trigger] self.groups@[i]) == entry.groups@[i] by {}
            if self.cfg.fan_out {
                assert forall|i: int| 0 <= i < self.groups@.len() implies self.by_key@.contains_key(
                    (#[trigger] self.groups@[i]).key@,
                ) && self.by_key@[self.groups@[i].key@] == i by {
                    assert(self.groups@[i].key == entry.groups@[i].key);
                }
                assert forall|key: Seq<char>| #[trigger] self.by_key@.contains_key(
                    key,
                ) implies self.by_key@[key] < self.groups@.len()
                    && self.groups@[self.by_key@[key] as int].key@ == key by {
                    assert(entry.groups@[entry.by_key@[key] as int].key@ == key);
                }
            } else {
                assert forall|i: int|
                    0 <= i < self.groups@.len() implies self.by_stream@.contains_key(
                    (#[trigger] self.groups@[i]).fp,
                ) && self.by_stream@[self.groups@[i].fp] == i by {
                    assert(self.groups@[i].fp == entry.groups@[i].fp);
                }
                assert forall|fp: u64| #[trigger] self.by_stream@.contains_key(
                    fp,
                ) implies self.by_stream@[fp] < self.groups@.len()
                    && self.groups@[self.by_stream@[fp] as int].fp == fp by {
                    assert(entry.groups@[entry.by_stream@[fp] as int].fp == fp);
                }
            }
        }
    }

    /// Opens a group with its first sample; its labels have been charged.
    fn open_group<S: Fn(&Reducer, Option<Moments>, u64, u64) -> Moments>(
        &mut self,
        fp: u64,
        key: String,
        labels: LabelSet,
        a: Arrival,
        step: &S,
        Ghost(before): Ghost<ClientAggState>,
    )
        requires
            before.wf(*step),
            *old(self) == (ClientAggState { group_bytes: old(self).group_bytes, ..before }),
            old(self).group_bytes == text::saturate(
                before.group_bytes + charge::entry_bytes(
                    key@,
                    text::labels_view(labels@),
                    instant_slot(before.cfg.fan_out),
                ),
            ),
            old(self).group_bytes <= old(self).cfg.caps.group_bytes,
            old(self).taken@ >= 1,
            if old(self).cfg.fan_out {
                !old(self).by_key@.contains_key(key@)
            } else {
                !old(self).by_stream@.contains_key(fp)
            },
            forall|r: &Reducer, m: Option<Moments>, n: u64, v: u64|
                call_requires(*step, (r, m, n, v)),
        ensures
            final(self).wf(*step),
            final(self).same_query(*old(self)),
            final(self).taken == old(self).taken,
            final(self)@ == (InstantView {
                groups: before@.groups.push(
                    GroupTally { fp, key: key@, labels: text::labels_view(labels@), hist: seq![a] },
                ),
                group_bytes: old(self).group_bytes as int,
                ..before@
            }),
    {
        broadcast use vstd::std_specs::hash::group_hash_axioms;

        let ghost entry = *self;
        let at: usize = self.groups.len();
        let r: Reducer = self.cfg.reducer;
        if self.cfg.fan_out {
            self.by_key.insert(key.clone(), at);
        } else {
            self.by_stream.insert(fp, at);
        }
        let acc = BucketAcc::new(&r, a, step);
        let ghost one = seq![a];
        let group = InstantGroup { fp, key, labels, acc, hist: Ghost(one) };
        self.groups.push(group);
        proof {
            let g = tally_view(group);
            assert(self@.groups =~= before@.groups.push(g));
            assert(before@.groups.push(g).drop_last() =~= before@.groups);
            lemma_tallies_nonneg(self.cfg.fan_out, before@.groups);
            assert forall|i: int| 0 <= i < entry.groups@.len() implies (
            #[trigger] self.groups@[i]) == entry.groups@[i] by {}
            if self.cfg.fan_out {
                assert forall|k: Seq<char>| #[trigger] self.by_key@.contains_key(
                    k,
                ) implies self.by_key@[k] < self.groups@.len()
                    && self.groups@[self.by_key@[k] as int].key@ == k by {
                    if k != g.key {
                        assert(entry.by_key@.contains_key(k));
                    }
                }
            } else {
                assert forall|f: u64| #[trigger] self.by_stream@.contains_key(
                    f,
                ) implies self.by_stream@[f] < self.groups@.len()
                    && self.groups@[self.by_stream@[f] as int].fp == f by {
                    if f != fp {
                        assert(entry.by_stream@.contains_key(f));
                    }
                }
            }
        }
    }
}

impl ClientAggState {
    /// Adds a sample to the group of the lines with the same labels.
    fn tally_labels<S: Fn(&Reducer, Option<Moments>, u64, u64) -> Moments>(
        &mut self,
        labels: &LabelSet,
        a: Arrival,
        step: &S,
    ) -> (res: Result<(), ReadError>)
        requires
            old(self).wf(*step),
            old(self).cfg.fan_out,
            old(self).taken@ >= 1,
            forall|i: int|
                0 <= i < old(self).groups@.len() ==> (#[trigger] old(self).groups@[i]).hist@.len()
                    < old(self).taken@,
            forall|r: &Reducer, m: Option<Moments>, n: u64, v: u64|
                call_requires(*step, (r, m, n, v)),
        ensures
            ({
                let sorted = order::stable_sort(text::labels_view(labels@), text::pair_le());
                let next = tally(old(self).cfg, old(self)@, 0, text::json_object(sorted), sorted, a);
                match res {
                    Ok(()) => {
                        &&& next == Ok::<InstantView, ErrorView>(final(self)@)
                        &&& final(self).wf(*step)
                        &&& final(self).same_query(*old(self))
                        &&& final(self).taken == old(self).taken
                    },
                    Err(e) => {
                        &&& next == Err::<InstantView, ErrorView>(e@)
                        &&& final(self).same_query(*old(self))
                        &&& final(self)@ == old(self)@
                    },
                }
            }),
    {
        let ghost entry = *self;
        let sorted = sorted_labels(labels);
        let key = render_labels_json(&sorted);
        let found: Option<usize> = match self.by_key.get(key.as_str()) {
            Some(i) => Some(*i),
            None => None,
        };
        match found {
            Some(i) => {
                proof {
                    assert(self@.groups[i as int] == tally_view(self.groups@[i as int]));
                    assert forall|j: int| 0 <= j < self@.groups.len() && j != i implies (
                    #[trigger] self@.groups[j]).key != self@.groups[i as int].key by {
                        assert(self@.groups[j] == tally_view(self.groups@[j]));
                    }
                    lemma_tally_found(true, self@.groups, i as int);
                    lemma_tally_fp_free(self@.groups, self@.groups[i as int].fp, 0, key@);
                }
                self.add_to(i, a, step);
                Ok(())
            },
            None => {
                proof {
                    assert forall|j: int| 0 <= j < self@.groups.len() implies (
                    #[trigger] self@.groups[j]).key != key@ by {
                        assert(self@.groups[j] == tally_view(self.groups@[j]));
                    }
                    lemma_tally_none(true, self@.groups, 0, key@);
                    lemma_tallies_nonneg(self.cfg.fan_out, self@.groups);
                }
                let bytes: u64 = group_entry_bytes(
                    key.as_str(),
                    &sorted,
                    slot_of(true),
                );
                match charge_group_bytes(&mut self.group_bytes, bytes, self.cfg.caps.group_bytes) {
                    Ok(()) => {},
                    Err(e) => {
                        return Err(e);
                    },
                }
                self.open_group(0, key, sorted, a, step, Ghost(entry));
                Ok(())
            },
        }
    }

    /// Adds a sample to the group of its stream.
    fn tally_stream<S: Fn(&Reducer, Option<Moments>, u64, u64) -> Moments>(
        &mut self,
        fp: u64,
        a: Arrival,
        step: &S,
    ) -> (res: Result<(), ReadError>)
        requires
            old(self).wf(*step),
            !old(self).cfg.fan_out,
            old(self).taken@ >= 1,
            old(self).streams@.contains_key(fp),
            forall|i: int|
                0 <= i < old(self).groups@.len() ==> (#[trigger] old(self).groups@[i]).hist@.len()
                    < old(self).taken@,
            forall|r: &Reducer, m: Option<Moments>, n: u64, v: u64|
                call_requires(*step, (r, m, n, v)),
        ensures
            ({
                let labels = text::labels_view(old(self).streams@[fp].labels@);
                let next = tally(old(self).cfg, old(self)@, fp, Seq::empty(), labels, a);
                match res {
                    Ok(()) => {
                        &&& next == Ok::<InstantView, ErrorView>(final(self)@)
                        &&& final(self).wf(*step)
                        &&& final(self).same_query(*old(self))
                        &&& final(self).taken == old(self).taken
                    },
                    Err(e) => {
                        &&& next == Err::<InstantView, ErrorView>(e@)
                        &&& final(self).same_query(*old(self))
                        &&& final(self)@ == old(self)@
                    },
                }
            }),
    {
        broadcast use vstd::std_specs::hash::group_hash_axioms;

        let ghost entry = *self;
        let found: Option<usize> = match self.by_stream.get(&fp) {
            Some(i) => Some(*i),
            None => None,
        };
        match found {
            Some(i) => {
                proof {
                    assert(self@.groups[i as int] == tally_view(self.groups@[i as int]));
                    assert forall|j: int| 0 <= j < self@.groups.len() && j != i implies (
                    #[trigger] self@.groups[j]).fp != self@.groups[i as int].fp by {
                        assert(self@.groups[j] == tally_view(self.groups@[j]));
                    }
                    lemma_tally_found(false, self@.groups, i as int);
                    lemma_tally_key_free(
                        self@.groups,
                        fp,
                        self@.groups[i as int].key,
                        Seq::empty(),
                    );
                }
                self.add_to(i, a, step);
                Ok(())
            },
            None => {
                proof {
                    reveal_strlit("");
                    assert(""@ =~= Seq::<char>::empty());
                    assert forall|j: int| 0 <= j < self@.groups.len() implies (
                    #[trigger] self@.groups[j]).fp != fp by {
                        assert(self@.groups[j] == tally_view(self.groups@[j]));
                    }
                    lemma_tally_none(false, self@.groups, fp, Seq::empty());
                    lemma_tallies_nonneg(self.cfg.fan_out, self@.groups);
                }
                let bytes: u64 = match self.streams.get(&fp) {
                    Some(m) => group_entry_bytes("", &m.labels, slot_of(false)),
                    None => 0,
                };
                match charge_group_bytes(&mut self.group_bytes, bytes, self.cfg.caps.group_bytes) {
                    Ok(()) => {},
                    Err(e) => {
                        return Err(e);
                    },
                }
                let labels: LabelSet = match self.streams.get(&fp) {
                    Some(m) => copy_labels(&m.labels),
                    None => Vec::new(),
                };
                self.open_group(fp, String::new(), labels, a, step, Ghost(entry));
                Ok(())
            },
        }
    }

    /// Takes one row.
    fn push_row<S: Fn(&Reducer, Option<Moments>, u64, u64) -> Moments>(
        &mut self,
        row: &MetricScanRow,
        step: &S,
    ) -> (res: Result<(), ReadError>)
        requires
            old(self).wf(*step),
            old(self).taken@ + 1 < u64::MAX,
            forall|r: &Reducer, m: Option<Moments>, n: u64, v: u64|
                call_requires(*step, (r, m, n, v)),
        ensures
            ({
                let next = take_instant_row(
                    old(self).cfg,
                    old(self).streams@,
                    old(self)@,
                    *row,
                );
                match res {
                    Ok(()) => {
                        &&& next == Ok::<InstantView, ErrorView>(final(self)@)
                        &&& final(self).wf(*step)
                        &&& final(self).same_query(*old(self))
                        &&& final(self).taken@ == old(self).taken@ + 1
                    },
                    Err(e) => {
                        &&& next == Err::<InstantView, ErrorView>(e@)
                        &&& final(self).same_query(*old(self))
                        &&& final(self)@.groups == old(self)@.groups
                        &&& final(self)@.group_bytes == old(self)@.group_bytes
                    },
                }
            }),
    {
        broadcast use vstd::std_specs::hash::group_hash_axioms;

        self.taken = Ghost(self.taken@ + 1);
        let stream_hash: u64 = match self.streams.get(&row.fingerprint) {
            Some(m) => m.stream_hash,
            None => {
                return Ok(());
            },
        };
        match &row.run {
            Err(b) => Err(
                ReadError::QueryTooBroad(
                    TooBroadReason::RowBudget {
                        budget: b.budget,
                        cap: row_budget_ceiling(b.budget),
                    },
                ),
            ),
            Ok(MetricRun::Dropped) => Ok(()),
            Ok(MetricRun::Kept { line_len, value, labels }) => {
                match check_surviving_error(labels) {
                    Ok(()) => {},
                    Err(e) => {
                        return Err(e);
                    },
                }
                let op = self.cfg.reducer.op;
                if matches!(op, RangeAggOp::AbsentOverTime) {
                    self.present = true;
                    proof {
                        assert(self@.groups =~= old(self)@.groups);
                    }
                    return Ok(());
                }
                let v: u64 = match self.cfg.reducer.value {
                    ClientValue::Count => 1,
                    ClientValue::Bytes => *line_len,
                    ClientValue::Unwrap => match value {
                        Some(x) => *x,
                        None => {
                            return Ok(());
                        },
                    },
                };
                if matches!(op, RangeAggOp::QuantileOverTime) {
                    self.quantile_values = self.quantile_values + 1;
                    if self.quantile_values > self.cfg.caps.quantile_values {
                        return Err(
                            ReadError::QueryTooBroad(
                                TooBroadReason::QuantileValues {
                                    count: self.quantile_values,
                                    cap: self.cfg.caps.quantile_values,
                                },
                            ),
                        );
                    }
                }
                if matches!(op, RangeAggOp::RateCounter) {
                    self.counter_values = self.counter_values + 1;
                    if self.counter_values > self.cfg.caps.counter_values {
                        return Err(
                            ReadError::QueryTooBroad(
                                TooBroadReason::CounterValues {
                                    count: self.counter_values,
                                    cap: self.cfg.caps.counter_values,
                                },
                            ),
                        );
                    }
                }
                let a = Arrival { ts: row.timestamp_ns, stream_hash, value: v };
                proof {
                    assert(self@.groups =~= old(self)@.groups);
                    assert(self@ =~= count_value(self.cfg, old(self)@)->Ok_0);
                }
                if self.cfg.fan_out {
                    self.tally_labels(labels, a, step)
                } else {
                    self.tally_stream(row.fingerprint, a, step)
                }
            },
        }
    }

    /// Takes one batch of rows.
    pub fn push_rows<S: Fn(&Reducer, Option<Moments>, u64, u64) -> Moments>(
        &mut self,
        rows: &Vec<MetricScanRow>,
        step: &S,
    ) -> (res: Result<(), ReadError>)
        requires
            old(self).wf(*step),
            old(self).taken@ + rows@.len() < u64::MAX,
            forall|r: &Reducer, m: Option<Moments>, n: u64, v: u64|
                call_requires(*step, (r, m, n, v)),
        ensures
            ({
                let next = take_instant_rows(
                    old(self).cfg,
                    old(self).streams@,
                    old(self)@,
                    rows@,
                    rows@.len() as int,
                );
                match res {
                    Ok(()) => {
                        &&& next == Ok::<InstantView, ErrorView>(final(self)@)
                        &&& final(self).wf(*step)
                        &&& final(self).same_query(*old(self))
                        &&& final(self).taken@ == old(self).taken@ + rows@.len()
                    },
                    Err(e) => {
                        &&& next == Err::<InstantView, ErrorView>(e@)
                        &&& final(self).same_query(*old(self))
                        &&& final(self)@.groups == before_refusal(
                            old(self).cfg,
                            old(self).streams@,
                            old(self)@,
                            rows@,
                            rows@.len() as int,
                        ).groups
                        &&& final(self)@.group_bytes == before_refusal(
                            old(self).cfg,
                            old(self).streams@,
                            old(self)@,
                            rows@,
                            rows@.len() as int,
                        ).group_bytes
                    },
                }
            }),
    {
        let ghost entry = *self;
        let mut i: usize = 0;
        while i < rows.len()
            invariant
                i <= rows@.len(),
                self.wf(*step),
                self.same_query(entry),
                entry == *old(self),
                self.taken@ == entry.taken@ + i,
                entry.taken@ + rows@.len() < u64::MAX,
                take_instant_rows(entry.cfg, entry.streams@, entry@, rows@, i as int)
                    == Ok::<InstantView, ErrorView>(self@),
                forall|r: &Reducer, m: Option<Moments>, n: u64, v: u64|
                    call_requires(*step, (r, m, n, v)),
            decreases rows@.len() - i,
        {
            match self.push_row(&rows[i], step) {
                Ok(()) => {},
                Err(e) => {
                    proof {
                        lemma_instant_error(
                            entry.cfg,
                            entry.streams@,
                            entry@,
                            rows@,
                            i + 1,
                            rows@.len() as int,
                        );
                    }
                    return Err(e);
                },
            }
            i = i + 1;
        }
        Ok(())
    }
}

/// Where a group stands by key does not depend on the stream asked for.
proof fn lemma_tally_fp_free(groups: Seq<GroupTally>, a: u64, b: u64, key: Seq<char>)
    ensures
        tally_index(true, groups, a, key) == tally_index(true, groups, b, key),
    decreases groups.len(),
{
    if groups.len() > 0 {
        lemma_tally_fp_free(groups.drop_last(), a, b, key);
    }
}

/// Where a group stands by stream does not depend on the key asked for.
proof fn lemma_tally_key_free(groups: Seq<GroupTally>, fp: u64, a: Seq<char>, b: Seq<char>)
    ensures
        tally_index(false, groups, fp, a) == tally_index(false, groups, fp, b),
    decreases groups.len(),
{
    if groups.len() > 0 {
        lemma_tally_key_free(groups.drop_last(), fp, a, b);
    }
}

// ---------------------------------------------------------------------
// The result.
// ---------------------------------------------------------------------

/// Whether a function takes every accumulator that a reducer makes a value of.
pub open spec fn takes_groups<B: Fn(&Reducer, BucketAcc) -> u64>(done: B) -> bool {
    forall|r: &Reducer, acc: BucketAcc|
        (acc is Simple ==> accum::is_simple_op(r.op)) ==> #[trigger] call_requires(done, (r, acc))
}

/// Whether `v` is what `done` makes of an accumulator of the group's samples.
pub open spec fn group_value<
    S: Fn(&Reducer, Option<Moments>, u64, u64) -> Moments,
    B: Fn(&Reducer, BucketAcc) -> u64,
>(step: S, done: B, r: Reducer, hist: Seq<Arrival>, v: u64) -> bool {
    exists|acc: BucketAcc|
        acc_ok(step, r, hist, acc) && #[trigger] call_ensures(done, (&r, acc), v)
}

/// Whether `out` is what an instant query that ends in state `v` answers: for
/// `absent_over_time` one sample if nothing was there, else one sample for each
/// group.
pub open spec fn instant_answer<
    S: Fn(&Reducer, Option<Moments>, u64, u64) -> Moments,
    B: Fn(&Reducer, BucketAcc) -> u64,
>(
    step: S,
    done: B,
    cfg: InstantConfig,
    absent_labels: Seq<PairView>,
    v: InstantView,
    out: Seq<VectorSample>,
) -> bool {
    if cfg.is_absent() {
        if v.present {
            out.len() == 0
        } else {
            out.len() == 1 && text::labels_view(out[0].labels@) == absent_labels && out[0].value
                == ONE
        }
    } else {
        &&& out.len() == v.groups.len()
        &&& forall|i: int|
            0 <= i < out.len() ==> {
                &&& text::labels_view((#[trigger] out[i]).labels@) == v.groups[i].labels
                &&& group_value(step, done, cfg.reducer, v.groups[i].hist, out[i].value)
            }
    }
}

proof fn lemma_tallies_first(fan_out: bool, groups: Seq<GroupTally>)
    requires
        groups.len() > 0,
    ensures
        tallies_bytes(fan_out, groups) == tally_bytes(fan_out, groups[0]) + tallies_bytes(
            fan_out,
            groups.skip(1),
        ),
    decreases groups.len(),
{
    if groups.len() == 1 {
        assert(groups.drop_last() =~= Seq::empty());
        assert(groups.skip(1) =~= Seq::empty());
    } else {
        lemma_tallies_first(fan_out, groups.drop_last());
        assert(groups.drop_last().skip(1) =~= groups.skip(1).drop_last());
        assert(groups.skip(1).last() == groups.last());
    }
}

impl ClientAggState {
    /// Ends the query. Everything that was charged has been released.
    fn finish_in_place<
        S: Fn(&Reducer, Option<Moments>, u64, u64) -> Moments,
        B: Fn(&Reducer, BucketAcc) -> u64,
    >(&mut self, Ghost(step): Ghost<S>, done: &B) -> (out: Vec<VectorSample>)
        requires
            old(self).wf(step),
            takes_groups(*done),
        ensures
            instant_answer(
                step,
                *done,
                old(self).cfg,
                text::labels_view(old(self).absent_labels@),
                old(self)@,
                out@,
            ),
            !old(self).cfg.is_absent() ==> final(self).group_bytes == 0,
    {
        let ghost entry = *self;
        let mut out: Vec<VectorSample> = Vec::new();
        if matches!(self.cfg.reducer.op, RangeAggOp::AbsentOverTime) {
            if !self.present {
                let mut labels: LabelSet = Vec::new();
                std::mem::swap(&mut labels, &mut self.absent_labels);
                out.push(VectorSample { labels, value: ONE });
            }
            return out;
        }
        let r: Reducer = self.cfg.reducer;
        let mut groups: Vec<InstantGroup> = Vec::new();
        std::mem::swap(&mut groups, &mut self.groups);
        let ghost all = groups@;
        let ghost views = entry@.groups;
        proof {
            assert(views.skip(0) =~= views);
            lemma_tallies_nonneg(entry.cfg.fan_out, views);
        }
        for g in it: groups
            invariant
                it.seq() == all,
                all == entry.groups@,
                views == entry@.groups,
                entry.wf(step),
                r == entry.cfg.reducer,
                out@.len() == it.index(),
                self.cfg.fan_out == entry.cfg.fan_out,
                self.group_bytes <= tallies_bytes(entry.cfg.fan_out, views.skip(it.index())),
                forall|i: int|
                    0 <= i < out@.len() ==> {
                        &&& text::labels_view((#[trigger] out@[i]).labels@) == views[i].labels
                        &&& group_value(step, *done, r, views[i].hist, out@[i].value)
                    },
                takes_groups(*done),
                !(r.op is AbsentOverTime),
        {
            let ghost n = it.index();
            proof {
                assert(g == all[n]);
                assert(views[n] == tally_view(g));
                lemma_tallies_first(entry.cfg.fan_out, views.skip(n));
                assert(views.skip(n)[0] == views[n]);
                assert(views.skip(n).skip(1) =~= views.skip(n + 1));
                lemma_tallies_nonneg(entry.cfg.fan_out, views.skip(n + 1));
            }
            let bytes: u64 = group_entry_bytes(
                g.key.as_str(),
                &g.labels,
                slot_of(self.cfg.fan_out),
            );
            discharge_group_bytes(&mut self.group_bytes, bytes);
            let InstantGroup { labels, acc, .. } = g;
            proof {
                assert(acc_ok(step, r, entry.groups@[n].hist@, acc));
            }
            let value: u64 = done(&r, acc);
            out.push(VectorSample { labels, value });
        }
        proof {
            assert(views.skip(views.len() as int) =~= Seq::empty());
        }
        out
    }

    /// Ends the query.
    pub fn finish<
        S: Fn(&Reducer, Option<Moments>, u64, u64) -> Moments,
        B: Fn(&Reducer, BucketAcc) -> u64,
    >(self, step: &S, done: &B) -> (res: QueryResult)
        requires
            self.wf(*step),
            takes_groups(*done),
        ensures
            res matches QueryResult::Vector(out) && instant_answer(
                *step,
                *done,
                self.cfg,
                text::labels_view(self.absent_labels@),
                self@,
                out@,
            ),
    {
        let mut state = self;
        QueryResult::Vector(state.finish_in_place::<S, B>(Ghost(*step), done))
    }
}

} // verus!
