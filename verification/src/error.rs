//! The errors a read can end in.
use vstd::prelude::*;
use crate::text::{self, LabelSet, PairView};

verus! {

/// A per-row evaluation budget.
#[derive(Debug, Clone, Copy, PartialEq, Eq, Structural)]
pub enum RowBudget {
    /// Bytes one template may render for one row.
    TemplateRender,
    /// Bytes of flattened JSON key names for one row.
    JsonFlattenKeys,
}

/// One row went past one of its budgets.
#[derive(Debug, Clone, Copy, PartialEq, Eq, Structural)]
pub struct RowBudgetExceeded {
    pub budget: RowBudget,
}

/// Why a query was refused as too broad.
#[derive(Debug, Clone, Copy, PartialEq, Eq, Structural)]
pub enum TooBroadReason {
    /// More output series than a result may hold.
    MetricSeries { cap: u64 },
    /// Too many samples retained at one time.
    MetricRetention { count: u64, cap: u64 },
    /// Too many bytes of group labels.
    MetricGroupLabelBytes { bytes: u64, cap: u64 },
    /// Too many result points reserved.
    MetricResultPoints { count: u64, cap: u64 },
    /// Too many values kept for quantiles.
    QuantileValues { count: u64, cap: u64 },
    /// Too many points kept for counters.
    CounterValues { count: u64, cap: u64 },
    /// Too many samples of one stream at one nanosecond.
    TsCollisionGroup { count: u64, cap: u64, bytes: u64, bytes_cap: u64 },
    /// Too many grid intervals.
    MetricBuckets { buckets: u64, cap: u64 },
    /// The scan read more than it may.
    ScanBudgetBytes { budget_bytes: u64, estimate: Option<u64> },
    /// A row went past a per-row budget.
    RowBudget { budget: RowBudget, cap: u64 },
}

/// A failed read.
#[derive(Debug)]
pub enum ReadError {
    /// The query was refused as too broad.
    QueryTooBroad(TooBroadReason),
    /// A line kept its error label to the end of a metric pipeline.
    MetricPipelineError { error_type: String, series: LabelSet },
    /// The pipeline cannot be run.
    PipelineInvalid { reason: String },
}

/// What an error says.
pub enum ErrorView {
    QueryTooBroad(TooBroadReason),
    MetricPipelineError { error_type: Seq<char>, series: Seq<PairView> },
    PipelineInvalid { reason: Seq<char> },
}

impl View for ReadError {
    type V = ErrorView;

    open spec fn view(&self) -> ErrorView {
        match *self {
            ReadError::QueryTooBroad(r) => ErrorView::QueryTooBroad(r),
            ReadError::MetricPipelineError { error_type, series } => {
                ErrorView::MetricPipelineError {
                    error_type: error_type@,
                    series: text::labels_view(series@),
                }
            },
            ReadError::PipelineInvalid { reason } => ErrorView::PipelineInvalid {
                reason: reason@,
            },
        }
    }
}

impl TooBroadReason {
    /// The refusal in words.
    pub open spec fn text(self) -> &'static str {
        match self {
            TooBroadReason::MetricSeries { .. } => "the result has too many series",
            TooBroadReason::MetricRetention { .. } => "the concurrent sample limit was reached",
            TooBroadReason::MetricGroupLabelBytes { .. } => "the group labels take too many bytes",
            TooBroadReason::MetricResultPoints { .. } => "the result has too many points",
            TooBroadReason::QuantileValues { .. } => "too many values are kept for quantiles",
            TooBroadReason::CounterValues { .. } => "too many values are kept for counters",
            TooBroadReason::TsCollisionGroup { .. } => "too many same-nanosecond lines",
            TooBroadReason::MetricBuckets { .. } => "the step grid is too fine",
            TooBroadReason::ScanBudgetBytes { .. } => "the scan reads too many bytes",
            TooBroadReason::RowBudget { .. } => "one row takes too many bytes",
        }
    }

    /// The refusal in words.
    pub fn message(&self) -> (s: &'static str)
        ensures
            s == self.text(),
    {
        match self {
            TooBroadReason::MetricSeries { .. } => "the result has too many series",
            TooBroadReason::MetricRetention { .. } => "the concurrent sample limit was reached",
            TooBroadReason::MetricGroupLabelBytes { .. } => "the group labels take too many bytes",
            TooBroadReason::MetricResultPoints { .. } => "the result has too many points",
            TooBroadReason::QuantileValues { .. } => "too many values are kept for quantiles",
            TooBroadReason::CounterValues { .. } => "too many values are kept for counters",
            TooBroadReason::TsCollisionGroup { .. } => "too many same-nanosecond lines",
            TooBroadReason::MetricBuckets { .. } => "the step grid is too fine",
            TooBroadReason::ScanBudgetBytes { .. } => "the scan reads too many bytes",
            TooBroadReason::RowBudget { .. } => "one row takes too many bytes",
        }
    }
}

} // verus!
