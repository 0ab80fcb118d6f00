//! The plain values that queries, rows and results are made of.
//!
//! A floating-point number is carried as its 64-bit pattern. Arithmetic on it is
//! the caller's: the functions of this crate that need some take it as an
//! argument.
use vstd::prelude::*;
use crate::error::RowBudgetExceeded;
use crate::text::LabelSet;

verus! {

/// The reducer of a range aggregation.
#[derive(Debug, Clone, Copy, PartialEq, Eq, Structural)]
pub enum RangeAggOp {
    Rate,
    RateCounter,
    BytesRate,
    CountOverTime,
    BytesOverTime,
    SumOverTime,
    AvgOverTime,
    MinOverTime,
    MaxOverTime,
    StddevOverTime,
    StdvarOverTime,
    QuantileOverTime,
    FirstOverTime,
    LastOverTime,
    AbsentOverTime,
}

/// A vector aggregation.
#[derive(Debug, Clone, Copy, PartialEq, Eq, Structural)]
pub enum VectorAggOp {
    Sum,
    Avg,
    Min,
    Max,
    Count,
    Stddev,
    Stdvar,
    Topk,
    Bottomk,
    ApproxTopk,
    Sort,
    SortDesc,
}

/// What one line contributes to a range aggregation.
#[derive(Debug, Clone, Copy, PartialEq, Eq, Structural)]
pub enum ClientValue {
    /// One per line.
    Count,
    /// The line's length in bytes.
    Bytes,
    /// The unwrapped number.
    Unwrap,
}

/// A range aggregation to evaluate.
#[derive(Debug)]
pub struct ClientAgg {
    pub value: ClientValue,
    pub range_op: RangeAggOp,
    /// The bit pattern of the parameter, where the reducer takes one.
    pub param: Option<u64>,
    /// The labels `absent_over_time` answers with.
    pub absent_labels: LabelSet,
    /// Whether the aggregation has a `by` or `without` of its own.
    pub grouped: bool,
    /// Whether the pipeline changes labels.
    pub mutates_labels: bool,
}

/// Whether names are those to group by, or those to leave out.
#[derive(Debug, Clone, Copy, PartialEq, Eq, Structural)]
pub enum GroupingKind {
    By,
    Without,
}

/// What an aggregation groups by.
#[derive(Debug, PartialEq, Eq)]
pub struct Grouping {
    pub kind: GroupingKind,
    pub labels: Vec<String>,
}

/// A vector aggregation to evaluate.
#[derive(Debug, PartialEq, Eq)]
pub struct VectorAggSpec {
    pub op: VectorAggOp,
    pub grouping: Option<Grouping>,
    /// The bit pattern of the parameter, where the aggregation takes one.
    pub param: Option<u64>,
}

/// What a vector aggregation is.
pub struct VectorAggView {
    pub op: VectorAggOp,
    pub grouping: Option<(GroupingKind, Seq<Seq<char>>)>,
    pub param: Option<u64>,
}

impl VectorAggSpec {
    pub open spec fn view(&self) -> VectorAggView {
        VectorAggView {
            op: self.op,
            grouping: match self.grouping {
                None => None,
                Some(g) => Some((g.kind, g.labels@.map_values(|name: String| name@))),
            },
            param: self.param,
        }
    }

    /// The same aggregation once more.
    pub fn copy(&self) -> (out: VectorAggSpec)
        ensures
            out@ == self@,
    {
        let grouping: Option<Grouping> = match &self.grouping {
            None => None,
            Some(g) => {
                let mut labels: Vec<String> = Vec::new();
                let mut i: usize = 0;
                while i < g.labels.len()
                    invariant
                        i <= g.labels@.len(),
                        labels@ == g.labels@.take(i as int),
                    decreases g.labels@.len() - i,
                {
                    labels.push(g.labels[i].clone());
                    proof {
                        assert(labels@ =~= g.labels@.take(i + 1));
                    }
                    i = i + 1;
                }
                proof {
                    assert(labels@ =~= g.labels@);
                }
                Some(Grouping { kind: g.kind, labels })
            },
        };
        VectorAggSpec { op: self.op, grouping, param: self.param }
    }
}

/// What is known of a stream before its lines are read.
#[derive(Debug)]
pub struct StreamMeta {
    /// The stream's own labels.
    pub labels: LabelSet,
    /// The stable hash of the stream's labels.
    pub stream_hash: u64,
}

/// What a pipeline made of one line.
#[derive(Debug)]
pub enum MetricRun {
    /// A stage filtered the line out.
    Dropped,
    /// The line survived.
    Kept {
        /// The byte length of the resulting line.
        line_len: u64,
        /// The bit pattern of the unwrapped number, where there is one.
        value: Option<u64>,
        /// The resulting labels.
        labels: LabelSet,
    },
}

/// One scanned row with what its pipeline made of it.
#[derive(Debug)]
pub struct MetricScanRow {
    pub fingerprint: u64,
    pub timestamp_ns: i64,
    pub body: String,
    pub run: Result<MetricRun, RowBudgetExceeded>,
}

/// One instant sample.
#[derive(Debug, PartialEq, Eq)]
pub struct VectorSample {
    pub labels: LabelSet,
    /// The bit pattern of the value.
    pub value: u64,
}

/// One series of samples over time.
#[derive(Debug, PartialEq, Eq)]
pub struct MatrixSeries {
    pub labels: LabelSet,
    /// Timestamps with the bit patterns of their values.
    pub points: Vec<(i64, u64)>,
}

/// One log line.
#[derive(Debug, PartialEq, Eq)]
pub struct LogEntry {
    pub timestamp_ns: i64,
    pub line: String,
}

/// The lines of one stream.
#[derive(Debug, PartialEq, Eq)]
pub struct LogStream {
    pub labels: LabelSet,
    pub entries: Vec<LogEntry>,
}

/// One histogram at an instant.
#[derive(Debug, PartialEq, Eq)]
pub struct HistSample {
    pub labels: LabelSet,
    /// Bucket bounds with counts, as bit patterns.
    pub buckets: Vec<(u64, u64)>,
}

/// One series of histograms.
#[derive(Debug, PartialEq, Eq)]
pub struct HistSeries {
    pub labels: LabelSet,
    pub points: Vec<(i64, HistSample)>,
}

/// What a query answers.
#[derive(Debug, PartialEq, Eq)]
pub enum QueryResult {
    Streams { streams: Vec<LogStream> },
    Vector(Vec<VectorSample>),
    Matrix(Vec<MatrixSeries>),
    VectorHist(Vec<HistSample>),
    MatrixHist(Vec<HistSeries>),
    Scalar(u64),
    String(String),
}

} // verus!
