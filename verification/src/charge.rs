//! What a query may hold at one time: caps, charges against them, and the sizes
//! that are charged.
//!
//! Every charge is sized before the memory it pays for is taken, and sized no
//! smaller than an allocator may round it up to.
use vstd::prelude::*;
use crate::error::{ErrorView, ReadError, RowBudget, TooBroadReason};
use crate::model::{QueryResult, RangeAggOp};
use crate::text::{self, byte_len, saturating_product, LabelSet, PairView};

verus! {

/// The most values kept for quantiles.
pub const MAX_QUANTILE_VALUES: u64 = 4_000_000;

/// The most points kept for counters.
pub const MAX_COUNTER_VALUES: u64 = 4_000_000;

/// The most series a result may hold.
pub const MAX_QUERY_SERIES: u64 = 500;

/// The most lines of one stream at one nanosecond.
pub const MAX_TS_COLLISION_GROUP: u64 = 10_000;

/// The most bytes staged for the lines of one stream at one nanosecond.
pub const MAX_TS_COLLISION_GROUP_BYTES: u64 = 8 * 1024 * 1024;

/// The smallest block an allocator hands out.
pub const MIN_ALLOC_BYTES: u64 = 32;

/// The most points retained in windows at one time.
pub const MAX_RETAINED_WINDOW_POINTS: u64 = 4_000_000;

/// The most bytes of group labels.
pub const MAX_CLIENT_AGG_GROUP_BYTES: u64 = 256 * 1024 * 1024;

/// The most result points.
pub const MAX_METRIC_RESULT_POINTS: u64 = 12_000_000;

/// The most bytes one row's templates may render.
pub const MAX_TEMPLATE_RENDER_BYTES: u64 = 64 * 1024 * 1024;

/// The most bytes of flattened key names one row may take.
pub const MAX_JSON_FLATTEN_KEY_BYTES: u64 = 64 * 1024 * 1024;

// ---------------------------------------------------------------------
// The result-series cap.
// ---------------------------------------------------------------------

/// How many series a result holds, where it is made of series.
pub open spec fn series_count(result: QueryResult) -> Option<nat> {
    match result {
        QueryResult::Vector(v) => Some(v@.len()),
        QueryResult::Matrix(m) => Some(m@.len()),
        QueryResult::VectorHist(v) => Some(v@.len()),
        QueryResult::MatrixHist(m) => Some(m@.len()),
        QueryResult::Streams { .. } => None,
        QueryResult::Scalar(_) => None,
        QueryResult::String(_) => None,
    }
}

/// Why a result is refused, where it has too many series.
pub open spec fn series_refusal(result: QueryResult) -> Option<ErrorView> {
    match series_count(result) {
        Some(n) if n > MAX_QUERY_SERIES => Some(
            ErrorView::QueryTooBroad(TooBroadReason::MetricSeries { cap: MAX_QUERY_SERIES }),
        ),
        _ => None,
    }
}

/// Refuses a result of too many series.
pub fn ensure_result_series(result: &QueryResult) -> (r: Result<(), ReadError>)
    ensures
        series_refusal(*result) == match r {
            Ok(_) => None::<ErrorView>,
            Err(e) => Some(e@),
        },
        r is Ok <==> (series_count(*result) is None || series_count(*result)->0
            <= MAX_QUERY_SERIES),
        r matches Err(e) ==> e@ == ErrorView::QueryTooBroad(
            TooBroadReason::MetricSeries { cap: MAX_QUERY_SERIES },
        ),
{
    let n: u64 = match result {
        QueryResult::Vector(v) => v.len() as u64,
        QueryResult::Matrix(m) => m.len() as u64,
        QueryResult::VectorHist(v) => v.len() as u64,
        QueryResult::MatrixHist(m) => m.len() as u64,
        QueryResult::Streams { .. } => {
            return Ok(());
        },
        QueryResult::Scalar(_) => {
            return Ok(());
        },
        QueryResult::String(_) => {
            return Ok(());
        },
    };
    if n > MAX_QUERY_SERIES {
        return Err(
            ReadError::QueryTooBroad(TooBroadReason::MetricSeries { cap: MAX_QUERY_SERIES }),
        );
    }
    Ok(())
}

// ---------------------------------------------------------------------
// Caps.
// ---------------------------------------------------------------------

/// Every cap on what one query retains.
#[derive(Debug, Clone, Copy, PartialEq, Eq, Structural)]
pub struct AggCaps {
    pub group_bytes: u64,
    pub retention_points: u64,
    pub quantile_values: u64,
    pub counter_values: u64,
    pub collision_members: u64,
    pub collision_bytes: u64,
    pub result_points: u64,
}

impl AggCaps {
    /// The caps of one query.
    #[verifier::allow_in_spec]
    pub fn default_caps() -> AggCaps
        returns
            (AggCaps {
                group_bytes: MAX_CLIENT_AGG_GROUP_BYTES,
                retention_points: MAX_RETAINED_WINDOW_POINTS,
                quantile_values: MAX_QUANTILE_VALUES,
                counter_values: MAX_COUNTER_VALUES,
                collision_members: MAX_TS_COLLISION_GROUP,
                collision_bytes: MAX_TS_COLLISION_GROUP_BYTES,
                result_points: MAX_METRIC_RESULT_POINTS,
            }),
    {
        AggCaps {
            group_bytes: MAX_CLIENT_AGG_GROUP_BYTES,
            retention_points: MAX_RETAINED_WINDOW_POINTS,
            quantile_values: MAX_QUANTILE_VALUES,
            counter_values: MAX_COUNTER_VALUES,
            collision_members: MAX_TS_COLLISION_GROUP,
            collision_bytes: MAX_TS_COLLISION_GROUP_BYTES,
            result_points: MAX_METRIC_RESULT_POINTS,
        }
    }

    /// The share of each cap that one of `n` parts gets.
    pub open spec fn share(self, n: u64) -> AggCaps {
        AggCaps {
            group_bytes: self.group_bytes / n,
            retention_points: self.retention_points / n,
            quantile_values: self.quantile_values / n,
            counter_values: self.counter_values / n,
            collision_members: self.collision_members / n,
            collision_bytes: self.collision_bytes / n,
            result_points: self.result_points / n,
        }
    }

    /// Whether `n` is no larger than any cap.
    pub open spec fn bounds(self, n: u64) -> bool {
        &&& n <= self.group_bytes
        &&& n <= self.retention_points
        &&& n <= self.quantile_values
        &&& n <= self.counter_values
        &&& n <= self.collision_members
        &&& n <= self.collision_bytes
        &&& n <= self.result_points
    }

    /// Whether `n` copies of `self` stay within `whole`, cap by cap.
    pub open spec fn times_within(self, n: u64, whole: AggCaps) -> bool {
        &&& self.group_bytes * n <= whole.group_bytes
        &&& self.retention_points * n <= whole.retention_points
        &&& self.quantile_values * n <= whole.quantile_values
        &&& self.counter_values * n <= whole.counter_values
        &&& self.collision_members * n <= whole.collision_members
        &&& self.collision_bytes * n <= whole.collision_bytes
        &&& self.result_points * n <= whole.result_points
    }

    /// The caps of one of `n` parts of a query.
    pub fn divided(self, n: u64) -> (r: AggCaps)
        requires
            n > 0,
        ensures
            r == self.share(n),
    {
        AggCaps {
            group_bytes: self.group_bytes / n,
            retention_points: self.retention_points / n,
            quantile_values: self.quantile_values / n,
            counter_values: self.counter_values / n,
            collision_members: self.collision_members / n,
            collision_bytes: self.collision_bytes / n,
            result_points: self.result_points / n,
        }
    }

    /// The smallest cap.
    pub fn min_field(self) -> (min: u64)
        ensures
            self.bounds(min),
            forall|n: u64| self.bounds(n) ==> n <= min,
    {
        let mut min: u64 = self.group_bytes;
        if self.retention_points < min {
            min = self.retention_points;
        }
        if self.quantile_values < min {
            min = self.quantile_values;
        }
        if self.counter_values < min {
            min = self.counter_values;
        }
        if self.collision_members < min {
            min = self.collision_members;
        }
        if self.collision_bytes < min {
            min = self.collision_bytes;
        }
        if self.result_points < min {
            min = self.result_points;
        }
        assert(self.bounds(min));
        min
    }
}

proof fn lemma_share(x: u64, n: u64)
    requires
        n > 0,
    ensures
        (x / n) * n <= x,
        n <= x ==> x / n >= 1,
        n == 1 ==> x / n == x,
{
    vstd::arithmetic::div_mod::lemma_fundamental_div_mod(x as int, n as int);
    vstd::arithmetic::div_mod::lemma_mod_bound(x as int, n as int);
    assert(n * (x as int / n as int) == (x as int / n as int) * n) by (nonlinear_arith);
    if n <= x && x / n == 0 {
        assert(n * 0int == 0) by (nonlinear_arith);
    }
    if n == 1 {
        assert(1 * (x as int / 1int) == x as int / 1int) by (nonlinear_arith);
    }
}

/// The parts of a divided query together stay within the caps of the whole, no
/// part is left without room as long as there are no more parts than the
/// smallest cap, and one part gets everything.
pub proof fn law_divided_caps_sum_within_the_whole(caps: AggCaps, n: u64)
    requires
        n > 0,
    ensures
        caps.share(n).times_within(n, caps),
        caps.bounds(n) ==> caps.share(n).bounds(1),
        caps.share(1) == caps,
{
    lemma_share(caps.group_bytes, n);
    lemma_share(caps.retention_points, n);
    lemma_share(caps.quantile_values, n);
    lemma_share(caps.counter_values, n);
    lemma_share(caps.collision_members, n);
    lemma_share(caps.collision_bytes, n);
    lemma_share(caps.result_points, n);
    lemma_share(caps.group_bytes, 1);
    lemma_share(caps.retention_points, 1);
    lemma_share(caps.quantile_values, 1);
    lemma_share(caps.counter_values, 1);
    lemma_share(caps.collision_members, 1);
    lemma_share(caps.collision_bytes, 1);
    lemma_share(caps.result_points, 1);
}

// ---------------------------------------------------------------------
// Block sizes.
// ---------------------------------------------------------------------

/// What a block of `content` bytes may cost.
pub open spec fn block_bytes(content: int) -> u64 {
    if 2 * content > MIN_ALLOC_BYTES {
        text::saturate(2 * content)
    } else {
        MIN_ALLOC_BYTES
    }
}

/// What a buffer of `content` bytes may cost while it grows.
pub open spec fn grown_bytes(content: int) -> u64 {
    text::saturate(3 * block_bytes(content))
}

/// What a block of `content` bytes may cost.
pub fn alloc_block_bytes(content: u64) -> (n: u64)
    ensures
        n == block_bytes(content as int),
{
    let doubled: u64 = saturating_product(content, 2);
    if doubled > MIN_ALLOC_BYTES {
        doubled
    } else {
        MIN_ALLOC_BYTES
    }
}

/// What a buffer of `content` bytes may cost while it grows.
pub fn grown_alloc_bytes(content: u64) -> (n: u64)
    ensures
        n == grown_bytes(content as int),
{
    saturating_product(alloc_block_bytes(content), 3)
}

/// The smallest power of two that is at least `n`.
pub open spec fn power_class(n: nat) -> nat
    decreases n,
{
    if n <= 1 {
        1
    } else {
        2 * power_class(((n + 1) / 2) as nat)
    }
}

/// The smallest multiple of sixteen that holds `n` bytes and an eight-byte header.
pub open spec fn header_class(n: nat) -> nat {
    ((n + 8 + 15) / 16 * 16) as nat
}

/// The most that either rounding makes of `n` bytes, and no less than the
/// smallest block.
pub open spec fn retained_class(n: nat) -> nat {
    let a = power_class(n);
    let b = header_class(n);
    let c = if a > b {
        a
    } else {
        b
    };
    if c > 32 {
        c
    } else {
        32
    }
}

proof fn lemma_power_class(n: nat)
    ensures
        power_class(n) >= n,
        power_class(n) >= 1,
        n >= 1 ==> power_class(n) <= 2 * n - 1,
        n >= 2 ==> power_class(n) % 2 == 0,
    decreases n,
{
    if n > 1 {
        let m = ((n + 1) / 2) as nat;
        lemma_power_class(m);
        if m < 2 {
            assert(n == 2);
        }
    }
}

/// A charge covers the block an allocator may round the request up to, and a
/// grown charge covers the new buffer together with the old one it replaces.
pub proof fn law_charges_cover_rounded_blocks(n: u64)
    requires
        12 * n <= u64::MAX,
    ensures
        block_bytes(n as int) >= retained_class(n as nat),
        grown_bytes(n as int) >= retained_class((2 * n) as nat) + retained_class(n as nat),
{
    lemma_power_class(n as nat);
    lemma_power_class((2 * n) as nat);
}

// ---------------------------------------------------------------------
// Charges.
// ---------------------------------------------------------------------

/// Charges window points against a cap. A refused charge changes nothing.
pub fn charge_retention(retained: &mut u64, points: u64, cap: u64) -> (r: Result<(), ReadError>)
    ensures
        r is Ok <==> text::saturate(*old(retained) + points) <= cap,
        r is Ok ==> *final(retained) == text::saturate(*old(retained) + points),
        r matches Err(e) ==> *final(retained) == *old(retained) && e@ == ErrorView::QueryTooBroad(
            TooBroadReason::MetricRetention {
                count: text::saturate(*old(retained) + points),
                cap,
            },
        ),
{
    let next: u64 = retained.saturating_add(points);
    if next > cap {
        return Err(
            ReadError::QueryTooBroad(TooBroadReason::MetricRetention { count: next, cap }),
        );
    }
    *retained = next;
    Ok(())
}

/// What is left of a counter once `n` have been released: none, where it is less.
pub open spec fn released(charged: int, n: int) -> int {
    if charged >= n {
        charged - n
    } else {
        0
    }
}

/// Releases window points.
pub fn discharge_retention(retained: &mut u64, points: u64)
    ensures
        *final(retained) == released(*old(retained) as int, points as int),
{
    *retained = retained.saturating_sub(points);
}

/// How many points one retained sample costs: a quantile also pays for the copy
/// of its value that it sorts.
pub open spec fn points_per_sample(op: RangeAggOp) -> u64 {
    if op is QuantileOverTime {
        2
    } else {
        1
    }
}

/// How many points one retained sample costs.
pub fn retention_points_per_sample(op: RangeAggOp) -> (n: u64)
    ensures
        n == points_per_sample(op),
{
    match op {
        RangeAggOp::QuantileOverTime => 2,
        _ => 1,
    }
}

/// Charges bytes of group labels against a cap. A refused charge changes nothing.
pub fn charge_group_bytes(charged: &mut u64, bytes: u64, cap: u64) -> (r: Result<(), ReadError>)
    ensures
        r is Ok <==> text::saturate(*old(charged) + bytes) <= cap,
        r is Ok ==> *final(charged) == text::saturate(*old(charged) + bytes),
        r matches Err(e) ==> *final(charged) == *old(charged) && e@ == ErrorView::QueryTooBroad(
            TooBroadReason::MetricGroupLabelBytes { bytes: text::saturate(*old(charged) + bytes), cap },
        ),
{
    let next: u64 = charged.saturating_add(bytes);
    if next > cap {
        return Err(
            ReadError::QueryTooBroad(TooBroadReason::MetricGroupLabelBytes { bytes: next, cap }),
        );
    }
    *charged = next;
    Ok(())
}

/// Releases bytes of group labels.
pub fn discharge_group_bytes(charged: &mut u64, bytes: u64)
    ensures
        *final(charged) == released(*old(charged) as int, bytes as int),
{
    *charged = charged.saturating_sub(bytes);
}

/// Charges result points against a cap. A refused charge changes nothing.
pub fn charge_result_points(charged: &mut u64, points: u64, cap: u64) -> (r: Result<
    (),
    ReadError,
>)
    ensures
        r is Ok <==> text::saturate(*old(charged) + points) <= cap,
        r is Ok ==> *final(charged) == text::saturate(*old(charged) + points),
        r matches Err(e) ==> *final(charged) == *old(charged) && e@ == ErrorView::QueryTooBroad(
            TooBroadReason::MetricResultPoints { count: text::saturate(*old(charged) + points), cap },
        ),
{
    let next: u64 = charged.saturating_add(points);
    if next > cap {
        return Err(
            ReadError::QueryTooBroad(TooBroadReason::MetricResultPoints { count: next, cap }),
        );
    }
    *charged = next;
    Ok(())
}

// ---------------------------------------------------------------------
// Sizes of what a group holds.
// ---------------------------------------------------------------------

/// The share of a growing map that one entry of `slot` bytes may cost.
pub open spec fn map_slot_bytes(slot: int) -> u64 {
    text::saturate((slot + 1) * 8 + 128)
}

/// The share of a growing map that one entry of `slot_bytes` may cost.
pub fn map_entry_bytes(slot_bytes: usize) -> (n: u64)
    ensures
        n == map_slot_bytes(slot_bytes as int),
{
    saturating_product((slot_bytes as u64).saturating_add(1), 8).saturating_add(128)
}

/// What the names and values of a label set may cost.
pub open spec fn pair_bytes(labels: Seq<PairView>) -> nat
    decreases labels.len(),
{
    if labels.len() == 0 {
        0
    } else {
        pair_bytes(labels.drop_last()) + (block_bytes(text::byte_count(labels.last().0)) as nat) + (
        block_bytes(text::byte_count(labels.last().1)) as nat)
    }
}

/// What a label set may cost.
pub open spec fn labels_bytes(labels: Seq<PairView>) -> u64 {
    text::saturate(
        pair_bytes(labels) + block_bytes(
            text::saturate((labels.len() * vstd::layout::size_of::<(String, String)>()) as int) as int,
        ),
    )
}

/// What a label set may cost.
pub fn label_set_bytes(labels: &LabelSet) -> (n: u64)
    ensures
        n == labels_bytes(text::labels_view(labels@)),
{
    let ghost view = text::labels_view(labels@);
    let mut bytes: u64 = 0;
    let mut i: usize = 0;
    while i < labels.len()
        invariant
            i <= labels@.len(),
            view == text::labels_view(labels@),
            bytes == text::saturate(pair_bytes(view.take(i as int)) as int),
        decreases labels@.len() - i,
    {
        proof {
            assert(view.take(i as int + 1).drop_last() =~= view.take(i as int));
            assert(view.take(i as int + 1).last() == view[i as int]);
            assert(view[i as int] == (labels@[i as int].0@, labels@[i as int].1@));
        }
        bytes = bytes.saturating_add(
            alloc_block_bytes(byte_len(labels[i].0.as_str())),
        ).saturating_add(alloc_block_bytes(byte_len(labels[i].1.as_str())));
        i = i + 1;
    }
    proof {
        assert(view.take(view.len() as int) =~= view);
    }
    let elems: u64 = saturating_product(
        labels.len() as u64,
        std::mem::size_of::<(String, String)>() as u64,
    );
    bytes.saturating_add(alloc_block_bytes(elems))
}

/// What a group of the given key, labels and map slot may cost.
pub open spec fn entry_bytes(key: Seq<char>, labels: Seq<PairView>, slot: int) -> u64 {
    text::saturate(map_slot_bytes(slot) + grown_bytes(text::byte_count(key)) + labels_bytes(labels))
}

/// What a group of the given key, labels and map slot may cost.
pub fn group_entry_bytes(key: &str, labels: &LabelSet, slot_bytes: usize) -> (n: u64)
    ensures
        n == entry_bytes(key@, text::labels_view(labels@), slot_bytes as int),
{
    map_entry_bytes(slot_bytes).saturating_add(grown_alloc_bytes(byte_len(key))).saturating_add(
        label_set_bytes(labels),
    )
}

// ---------------------------------------------------------------------
// The composed bound.
// ---------------------------------------------------------------------

/// How many counters check each cap at one time.
#[derive(Debug, Clone, Copy, PartialEq, Eq, Structural)]
pub struct CounterPlurality {
    pub group_bytes: u64,
    pub retention_points: u64,
    pub quantile_values: u64,
    pub counter_values: u64,
    pub collision_members: u64,
    pub collision_bytes: u64,
    pub result_points: u64,
}

/// The counters of one leaf: its own group bytes and those of the aggregation
/// folded into it, and likewise two reservations of result points.
#[verifier::allow_in_spec]
pub fn leaf_counters() -> CounterPlurality
    returns
        (CounterPlurality {
            group_bytes: 2,
            retention_points: 1,
            quantile_values: 1,
            counter_values: 1,
            collision_members: 1,
            collision_bytes: 1,
            result_points: 2,
        }),
{
    CounterPlurality {
        group_bytes: 2,
        retention_points: 1,
        quantile_values: 1,
        counter_values: 1,
        collision_members: 1,
        collision_bytes: 1,
        result_points: 2,
    }
}

/// The width of an emitted point.
pub const EMITTED_POINT_BYTES: u64 = 16;

/// The width of a folded point.
pub const FOLDED_POINT_BYTES: u64 = 24;

/// The width of a retained sample.
pub const RETENTION_POINT_BYTES: u64 = 32;

/// The width of a value kept for a quantile.
pub const QUANTILE_VALUE_BYTES: u64 = 8;

/// The width of a point kept for a counter.
pub const COUNTER_VALUE_BYTES: u64 = 16;

/// The bytes a staged line costs by its count alone: its bytes are charged to
/// the staging cap.
pub const COLLISION_MEMBER_BYTES: u64 = 0;

/// The most bytes one leaf of a query retains.
pub const MAX_LEAF_RETAINED_BYTES: u64 = 1_953_259_520;

/// The most bytes one query retains.
pub const MAX_QUERY_RETAINED_BYTES: u64 = 2_087_477_248;

/// The budgets of one row.
#[derive(Debug, Clone, Copy, PartialEq, Eq, Structural)]
pub struct RowBudgets {
    pub template_render: u64,
    pub json_flatten_keys: u64,
}

/// The budgets of one row.
#[verifier::allow_in_spec]
pub fn row_budgets() -> RowBudgets
    returns
        (RowBudgets {
            template_render: MAX_TEMPLATE_RENDER_BYTES,
            json_flatten_keys: MAX_JSON_FLATTEN_KEY_BYTES,
        }),
{
    RowBudgets {
        template_render: MAX_TEMPLATE_RENDER_BYTES,
        json_flatten_keys: MAX_JSON_FLATTEN_KEY_BYTES,
    }
}

/// The ceiling of a row budget.
pub open spec fn budget_ceiling(budget: RowBudget) -> u64 {
    match budget {
        RowBudget::TemplateRender => row_budgets().template_render,
        RowBudget::JsonFlattenKeys => row_budgets().json_flatten_keys,
    }
}

/// The ceiling of a row budget.
pub fn row_budget_ceiling(budget: RowBudget) -> (n: u64)
    ensures
        n == budget_ceiling(budget),
{
    match budget {
        RowBudget::TemplateRender => row_budgets().template_render,
        RowBudget::JsonFlattenKeys => row_budgets().json_flatten_keys,
    }
}

/// The most bytes the budgets of one row allow together.
pub fn row_retained_bytes() -> (n: u64)
    ensures
        n == budget_ceiling(RowBudget::TemplateRender) + budget_ceiling(
            RowBudget::JsonFlattenKeys,
        ),
        MAX_QUERY_RETAINED_BYTES == MAX_LEAF_RETAINED_BYTES + n,
{
    row_budgets().template_render + row_budgets().json_flatten_keys
}

/// The bytes that a leaf under the given caps, counted as often as the given
/// plurality says, retains at most.
pub open spec fn leaf_bound(caps: AggCaps, n: CounterPlurality) -> int {
    n.group_bytes * caps.group_bytes + n.retention_points * block_bytes(
        caps.retention_points * RETENTION_POINT_BYTES,
    ) + n.quantile_values * block_bytes(caps.quantile_values * QUANTILE_VALUE_BYTES)
        + n.counter_values * block_bytes(caps.counter_values * COUNTER_VALUE_BYTES)
        + n.collision_members * caps.collision_members * COLLISION_MEMBER_BYTES
        + n.collision_bytes * caps.collision_bytes + block_bytes(
        caps.result_points * EMITTED_POINT_BYTES,
    ) + block_bytes(caps.result_points * FOLDED_POINT_BYTES)
}

/// The most bytes one leaf of a query retains: one term for each cap.
pub fn leaf_retained_bytes() -> (n: u64)
    ensures
        n == leaf_bound(AggCaps::default_caps(), leaf_counters()),
        n == MAX_LEAF_RETAINED_BYTES,
{
    let caps = AggCaps::default_caps();
    let n = leaf_counters();
    let group_bytes: u64 = n.group_bytes * caps.group_bytes;
    let retention: u64 = n.retention_points * alloc_block_bytes(
        caps.retention_points * RETENTION_POINT_BYTES,
    );
    let quantile: u64 = n.quantile_values * alloc_block_bytes(
        caps.quantile_values * QUANTILE_VALUE_BYTES,
    );
    let counter: u64 = n.counter_values * alloc_block_bytes(
        caps.counter_values * COUNTER_VALUE_BYTES,
    );
    let collision_members: u64 = n.collision_members * caps.collision_members
        * COLLISION_MEMBER_BYTES;
    let collision_bytes: u64 = n.collision_bytes * caps.collision_bytes;
    let result_points: u64 = alloc_block_bytes(caps.result_points * EMITTED_POINT_BYTES)
        + alloc_block_bytes(caps.result_points * FOLDED_POINT_BYTES);
    group_bytes + retention + quantile + counter + collision_members + collision_bytes
        + result_points
}

} // verus!
