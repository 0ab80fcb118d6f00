//! Field detection over rows and pages of rows.
//!
//! Each sampled row comes with what the query's pipeline and the two bare parsers
//! made of it. Surviving rows are observed until enough have been; every row moves
//! the cursor.
use std::collections::HashMap;
use vstd::prelude::*;
use crate::charge::{self, alloc_block_bytes, row_budget_ceiling};
use crate::detected::{
    self, auto_parse_into, auto_parse_legacy_shape, AccView, FieldAccumulator, FieldSource,
    Observation, ParserRun, SourceView, Unit,
};
use crate::error::{ErrorView, ReadError, RowBudgetExceeded, TooBroadReason};
use crate::fan_out::StructuredMetadataCtx;
use crate::range_model;
use crate::text::{self, saturating_product, str_eq, LabelSet, PairView};

verus! {

// ---------------------------------------------------------------------
// Carried scratch space.
// ---------------------------------------------------------------------

/// The most slots of one list that are carried from row to row.
pub const MAX_FEEDER_SCRATCH_SLOTS: usize = 4096;

/// The most bytes of one text that are carried from row to row.
pub const MAX_FEEDER_SCRATCH_STRING_BYTES: usize = 4096;

/// The most bytes that are carried from row to row, where a pair of texts takes
/// forty-eight.
pub const MAX_FEEDER_SCRATCH_BYTES: u64 = 1_196_032;

/// The capacities of the buffers a row is worked on in.
#[derive(Debug, Clone, Copy, PartialEq, Eq, Structural)]
pub struct ScratchCapacities {
    /// Slots for the stream's labels merged with the row's metadata.
    pub merged: usize,
    /// Slots for the row's metadata.
    pub metadata: usize,
    /// Slots for the labels the pipeline makes.
    pub labels: usize,
    /// Bytes for the error text.
    pub err: usize,
    /// Bytes for the error details.
    pub details: usize,
}

/// What is carried of a capacity: all of it, or nothing where it is too much.
pub open spec fn carried(capacity: usize, cap: usize) -> usize {
    if capacity > cap {
        0
    } else {
        capacity
    }
}

/// Whether a buffer is let go rather than carried on.
pub fn lets_go(capacity: usize, cap: usize) -> (r: bool)
    ensures
        r == (capacity > cap),
{
    capacity > cap
}

/// What a list of pairs takes.
pub open spec fn slots_bytes(slots: usize) -> u64 {
    charge::block_bytes(
        text::saturate((slots * vstd::layout::size_of::<(String, String)>()) as int) as int,
    )
}

fn slots_block_bytes(slots: usize) -> (n: u64)
    ensures
        n == slots_bytes(slots),
{
    alloc_block_bytes(
        saturating_product(slots as u64, std::mem::size_of::<(String, String)>() as u64),
    )
}

impl ScratchCapacities {
    /// What is carried.
    pub open spec fn trimmed(self) -> ScratchCapacities {
        ScratchCapacities {
            merged: carried(self.merged, MAX_FEEDER_SCRATCH_SLOTS),
            metadata: carried(self.metadata, MAX_FEEDER_SCRATCH_SLOTS),
            labels: carried(self.labels, MAX_FEEDER_SCRATCH_SLOTS),
            err: carried(self.err, MAX_FEEDER_SCRATCH_STRING_BYTES),
            details: carried(self.details, MAX_FEEDER_SCRATCH_STRING_BYTES),
        }
    }

    /// What the buffers take.
    pub open spec fn bytes(self) -> u64 {
        text::saturate(
            slots_bytes(self.merged) + slots_bytes(self.metadata) + slots_bytes(self.labels)
                + charge::block_bytes(self.err as int) + charge::block_bytes(self.details as int),
        )
    }

    /// What the buffers take.
    pub fn scratch_bytes(&self) -> (n: u64)
        ensures
            n == self.bytes(),
    {
        slots_block_bytes(self.merged).saturating_add(slots_block_bytes(self.metadata)).saturating_add(
            slots_block_bytes(self.labels),
        ).saturating_add(alloc_block_bytes(self.err as u64)).saturating_add(
            alloc_block_bytes(self.details as u64),
        )
    }
}

/// The largest buffers that are carried.
pub open spec fn largest_carried() -> ScratchCapacities {
    ScratchCapacities {
        merged: MAX_FEEDER_SCRATCH_SLOTS,
        metadata: MAX_FEEDER_SCRATCH_SLOTS,
        labels: MAX_FEEDER_SCRATCH_SLOTS,
        err: MAX_FEEDER_SCRATCH_STRING_BYTES,
        details: MAX_FEEDER_SCRATCH_STRING_BYTES,
    }
}

/// The most bytes that are carried from row to row.
pub fn feeder_scratch_bytes() -> (n: u64)
    ensures
        n == largest_carried().bytes(),
{
    let most = ScratchCapacities {
        merged: MAX_FEEDER_SCRATCH_SLOTS,
        metadata: MAX_FEEDER_SCRATCH_SLOTS,
        labels: MAX_FEEDER_SCRATCH_SLOTS,
        err: MAX_FEEDER_SCRATCH_STRING_BYTES,
        details: MAX_FEEDER_SCRATCH_STRING_BYTES,
    };
    most.scratch_bytes()
}

proof fn lemma_slots_bytes_grow(a: usize, b: usize)
    requires
        a <= b,
    ensures
        slots_bytes(a) <= slots_bytes(b),
{
    let size = vstd::layout::size_of::<(String, String)>();
    assert(a * size <= b * size) by (nonlinear_arith)
        requires
            a <= b,
    ;
}

/// However wide a row was, what is carried to the next one is within the bound. The
/// bound is the published one where a pair of texts takes forty-eight bytes.
pub proof fn law_carried_scratch_is_bounded(c: ScratchCapacities)
    ensures
        c.trimmed().bytes() <= largest_carried().bytes(),
        vstd::layout::size_of::<(String, String)>() == 48 ==> c.trimmed().bytes()
            <= MAX_FEEDER_SCRATCH_BYTES,
        c.trimmed().trimmed() == c.trimmed(),
{
    let t = c.trimmed();
    let m = largest_carried();
    lemma_slots_bytes_grow(t.merged, m.merged);
    lemma_slots_bytes_grow(t.metadata, m.metadata);
    lemma_slots_bytes_grow(t.labels, m.labels);
    if vstd::layout::size_of::<(String, String)>() == 48 {
        assert(m.merged * vstd::layout::size_of::<(String, String)>() == 196_608)
            by (nonlinear_arith)
            requires
                m.merged == 4096,
                vstd::layout::size_of::<(String, String)>() == 48,
        ;
    }
}

// ---------------------------------------------------------------------
// One row.
// ---------------------------------------------------------------------

/// The structured metadata of a row.
#[derive(Debug)]
pub struct MergedMetadata {
    /// The stream's labels merged with the metadata.
    pub labels: LabelSet,
    /// The metadata as it came.
    pub pairs: LabelSet,
    /// What reading it left besides.
    pub ctx: StructuredMetadataCtx,
}

/// A row that survived the query's pipeline.
#[derive(Debug)]
pub struct SurvivingRow {
    /// The labels the pipeline made.
    pub labels: LabelSet,
    /// What the bare JSON parser made of the resulting line.
    pub json: Result<ParserRun, RowBudgetExceeded>,
    /// What the bare logfmt parser made of the resulting line.
    pub logfmt: Result<ParserRun, RowBudgetExceeded>,
}

/// One sampled row.
#[derive(Debug)]
pub struct SampledRow {
    pub fingerprint: u64,
    /// The structured metadata, where the row has any.
    pub metadata: Option<MergedMetadata>,
    /// What the query's pipeline made of the row.
    pub run: Result<Option<SurvivingRow>, RowBudgetExceeded>,
}

/// What feeding one row does: the observations it makes, and how it ends.
pub struct Fed {
    pub trace: Seq<Observation>,
    /// Whether the row survived.
    pub result: Result<bool, ErrorView>,
}

/// Whether labels have a name.
pub open spec fn has_name(labels: Seq<PairView>, name: Seq<char>) -> bool {
    exists|i: int| 0 <= i < labels.len() && (#[trigger] labels[i]).0 == name
}

/// The labels whose names are not among the base labels.
pub open spec fn added(labels: Seq<PairView>, base: Seq<PairView>) -> Seq<PairView> {
    labels.filter(|p: PairView| !has_name(base, p.0))
}

/// The labels a row's pipeline starts from.
pub open spec fn start_labels(row: SampledRow, base: Seq<PairView>) -> Seq<PairView> {
    match row.metadata {
        None => base,
        Some(m) => text::labels_view(m.labels@),
    }
}

/// The observations of a row before its format is detected: its metadata, then
/// what its pipeline added.
pub open spec fn pipeline_trace(row: SampledRow, live: SurvivingRow, base: Seq<PairView>) -> Seq<
    Observation,
> {
    (match row.metadata {
        None => Seq::empty(),
        Some(m) => detected::pairs_observed(
            text::labels_view(m.pairs@),
            SourceView::Unattributed,
        ),
    }) + detected::pairs_observed(
        added(text::labels_view(live.labels@), start_labels(row, base)),
        SourceView::Unattributed,
    )
}

/// The observations of a line's pairs under the JSON parser, each with its path.
pub open spec fn json_trace(run: ParserRun) -> Seq<Observation> {
    Seq::new(
        run.labels@.len(),
        |i: int|
            Observation {
                key: run.labels@[i].0@,
                value: run.labels@[i].1@,
                source: SourceView::Json { path: run.path_at(i) },
            },
    )
}

/// The observations of a line under the format that was detected.
pub open spec fn format_trace(found: Option<(Seq<char>, ParserRun)>) -> Seq<Observation> {
    match found {
        None => Seq::empty(),
        Some((name, run)) => if name == "json"@ {
            json_trace(run)
        } else {
            detected::pairs_observed(text::labels_view(run.labels@), SourceView::Logfmt)
        },
    }
}

/// What feeding a row of a stream does.
pub open spec fn fed_live(row: SampledRow, live: SurvivingRow, base: Seq<PairView>) -> Fed {
    let before = pipeline_trace(row, live, base);
    match detected::auto_parsed(live.json, live.logfmt) {
        Err(e) => Fed { trace: before, result: Err(range_model::budget_error(e)) },
        Ok(found) => Fed { trace: before + format_trace(found), result: Ok(true) },
    }
}

/// What feeding a row does. A row of an unknown stream and a row that was filtered
/// out are passed over, and a breached row budget fails the read.
pub open spec fn fed(row: SampledRow, streams: Map<u64, LabelSet>) -> Fed {
    if !streams.contains_key(row.fingerprint) {
        Fed { trace: Seq::empty(), result: Ok(false) }
    } else {
        match row.run {
            Err(e) => Fed { trace: Seq::empty(), result: Err(range_model::budget_error(e)) },
            Ok(None) => Fed { trace: Seq::empty(), result: Ok(false) },
            Ok(Some(live)) => fed_live(
                row,
                live,
                text::labels_view(streams[row.fingerprint]@),
            ),
        }
    }
}

/// The same as [`fed`], with a breached row budget in format detection taken for
/// another format, and without paths.
pub open spec fn fed_without_paths(row: SampledRow, streams: Map<u64, LabelSet>) -> Fed {
    if !streams.contains_key(row.fingerprint) {
        Fed { trace: Seq::empty(), result: Ok(false) }
    } else {
        match row.run {
            Err(e) => Fed { trace: Seq::empty(), result: Err(range_model::budget_error(e)) },
            Ok(None) => Fed { trace: Seq::empty(), result: Ok(false) },
            Ok(Some(live)) => Fed {
                trace: pipeline_trace(row, live, text::labels_view(streams[row.fingerprint]@)) + (
                if detected::takes(live.json) {
                    detected::pairs_observed(
                        text::labels_view(live.json->Ok_0.labels@),
                        SourceView::Json { path: None },
                    )
                } else if detected::takes(live.logfmt) {
                    detected::pairs_observed(
                        text::labels_view(live.logfmt->Ok_0.labels@),
                        SourceView::Logfmt,
                    )
                } else {
                    Seq::empty()
                }),
                result: Ok(true),
            },
        }
    }
}

/// What a failed read says, or whether a row survived.
pub open spec fn ending(r: Result<bool, ReadError>) -> Result<bool, ErrorView> {
    match r {
        Ok(b) => Ok(b),
        Err(e) => Err(e@),
    }
}

/// Whether labels have a name.
fn name_among(labels: &LabelSet, name: &str) -> (r: bool)
    ensures
        r == has_name(text::labels_view(labels@), name@),
{
    let ghost view = text::labels_view(labels@);
    let mut i: usize = 0;
    while i < labels.len()
        invariant
            i <= labels@.len(),
            view == text::labels_view(labels@),
            forall|j: int| 0 <= j < i ==> (#[trigger] view[j]).0 != name@,
        decreases labels@.len() - i,
    {
        proof {
            assert(view[i as int] == (labels@[i as int].0@, labels@[i as int].1@));
        }
        if str_eq(labels[i].0.as_str(), name) {
            return true;
        }
        i = i + 1;
    }
    false
}

/// Observes the labels whose names are not among the base labels.
fn observe_added<U: Fn(&str, Unit) -> bool>(
    labels: &LabelSet,
    base: &LabelSet,
    acc: &mut FieldAccumulator,
    reads: &U,
)
    requires
        old(acc).wf(),
        forall|s: &str, u: Unit| call_requires(*reads, (s, u)),
    ensures
        final(acc).wf(),
        detected::observes(
            *reads,
            old(acc)@,
            final(acc)@,
            detected::pairs_observed(
                added(text::labels_view(labels@), text::labels_view(base@)),
                SourceView::Unattributed,
            ),
        ),
{
    let ghost start = acc@;
    let ghost view = text::labels_view(labels@);
    let ghost base_view = text::labels_view(base@);
    let mut i: usize = 0;
    proof {
        assert(view.take(0) =~= Seq::<PairView>::empty());
        reveal(Seq::filter);
        assert(added(view.take(0), base_view) =~= Seq::<PairView>::empty());
        assert(detected::pairs_observed(
            added(view.take(0), base_view),
            SourceView::Unattributed,
        ) =~= Seq::<Observation>::empty());
    }
    while i < labels.len()
        invariant
            i <= labels@.len(),
            view == text::labels_view(labels@),
            base_view == text::labels_view(base@),
            acc.wf(),
            detected::observes(
                *reads,
                start,
                acc@,
                detected::pairs_observed(
                    added(view.take(i as int), base_view),
                    SourceView::Unattributed,
                ),
            ),
            forall|s: &str, u: Unit| call_requires(*reads, (s, u)),
        decreases labels@.len() - i,
    {
        let ghost before = acc@;
        let ghost so_far = added(view.take(i as int), base_view);
        proof {
            reveal(Seq::filter);
            assert(view.take(i + 1).drop_last() =~= view.take(i as int));
            assert(view.take(i + 1).last() == view[i as int]);
            assert(view[i as int] == (labels@[i as int].0@, labels@[i as int].1@));
        }
        if !name_among(base, labels[i].0.as_str()) {
            acc.observe_pair(
                labels[i].0.as_str(),
                labels[i].1.as_str(),
                FieldSource::Unattributed,
                reads,
            );
            proof {
                let o = Observation {
                    key: labels@[i as int].0@,
                    value: labels@[i as int].1@,
                    source: SourceView::Unattributed,
                };
                let first = detected::pairs_observed(so_far, SourceView::Unattributed);
                detected::lemma_observes_next(*reads, start, before, acc@, first, o);
                assert(added(view.take(i + 1), base_view) == so_far.push(view[i as int]));
                assert(detected::pairs_observed(
                    so_far.push(view[i as int]),
                    SourceView::Unattributed,
                ) =~= first.push(o));
            }
        } else {
            proof {
                assert(added(view.take(i + 1), base_view) == so_far);
            }
        }
        i = i + 1;
    }
    proof {
        assert(view.take(view.len() as int) =~= view);
    }
}

/// Observes the pairs of a line under the JSON parser, each with its path.
fn observe_json<U: Fn(&str, Unit) -> bool>(run: &ParserRun, acc: &mut FieldAccumulator, reads: &U)
    requires
        old(acc).wf(),
        forall|s: &str, u: Unit| call_requires(*reads, (s, u)),
    ensures
        final(acc).wf(),
        detected::observes(*reads, old(acc)@, final(acc)@, json_trace(*run)),
{
    let ghost start = acc@;
    let ghost trace = json_trace(*run);
    let mut i: usize = 0;
    proof {
        assert(trace.take(0) =~= Seq::<Observation>::empty());
    }
    while i < run.labels.len()
        invariant
            i <= run.labels@.len(),
            trace == json_trace(*run),
            acc.wf(),
            detected::observes(*reads, start, acc@, trace.take(i as int)),
            forall|s: &str, u: Unit| call_requires(*reads, (s, u)),
        decreases run.labels@.len() - i,
    {
        let ghost before = acc@;
        let source = FieldSource::Json { path: run.path(i) };
        acc.observe_pair(run.labels[i].0.as_str(), run.labels[i].1.as_str(), source, reads);
        proof {
            assert(source@ == SourceView::Json { path: run.path_at(i as int) });
            detected::lemma_observes_next(
                *reads,
                start,
                before,
                acc@,
                trace.take(i as int),
                trace[i as int],
            );
            assert(trace.take(i as int).push(trace[i as int]) =~= trace.take(i + 1));
        }
        i = i + 1;
    }
    proof {
        assert(trace.take(trace.len() as int) =~= trace);
    }
}

/// Observes a surviving row up to the detection of its format.
fn observe_pipeline<U: Fn(&str, Unit) -> bool>(
    metadata: &Option<MergedMetadata>,
    labels: &LabelSet,
    base: &LabelSet,
    acc: &mut FieldAccumulator,
    reads: &U,
    Ghost(row): Ghost<SampledRow>,
    Ghost(live): Ghost<SurvivingRow>,
)
    requires
        old(acc).wf(),
        row.metadata == *metadata,
        live.labels == *labels,
        forall|s: &str, u: Unit| call_requires(*reads, (s, u)),
    ensures
        final(acc).wf(),
        detected::observes(
            *reads,
            old(acc)@,
            final(acc)@,
            pipeline_trace(row, live, text::labels_view(base@)),
        ),
{
    let ghost start = acc@;
    match metadata {
        None => {
            observe_added(labels, base, acc, reads);
            proof {
                let second = detected::pairs_observed(
                    added(
                        text::labels_view(labels@),
                        start_labels(row, text::labels_view(base@)),
                    ),
                    SourceView::Unattributed,
                );
                assert(Seq::<Observation>::empty() + second =~= second);
            }
        },
        Some(m) => {
            acc.observe_structured_metadata(&m.pairs, reads);
            let ghost mid = acc@;
            observe_added(labels, &m.labels, acc, reads);
            proof {
                detected::lemma_observes_join(
                    *reads,
                    start,
                    mid,
                    acc@,
                    detected::pairs_observed(
                        text::labels_view(m.pairs@),
                        SourceView::Unattributed,
                    ),
                    detected::pairs_observed(
                        added(text::labels_view(labels@), text::labels_view(m.labels@)),
                        SourceView::Unattributed,
                    ),
                );
            }
        },
    }
}

/// The error of a breached row budget.
fn budget_breach(e: RowBudgetExceeded) -> (r: ReadError)
    ensures
        r@ == range_model::budget_error(e),
{
    ReadError::QueryTooBroad(
        TooBroadReason::RowBudget { budget: e.budget, cap: row_budget_ceiling(e.budget) },
    )
}

/// Observes a line under the format detected from what the parsers made of it.
pub fn auto_parse_observe<U: Fn(&str, Unit) -> bool>(
    json: Result<ParserRun, RowBudgetExceeded>,
    logfmt: Result<ParserRun, RowBudgetExceeded>,
    acc: &mut FieldAccumulator,
    reads: &U,
) -> (r: Result<(), ReadError>)
    requires
        old(acc).wf(),
        forall|s: &str, u: Unit| call_requires(*reads, (s, u)),
    ensures
        final(acc).wf(),
        match detected::auto_parsed(json, logfmt) {
            Err(e) => r is Err && r->Err_0@ == range_model::budget_error(e) && final(acc)@ == old(
                acc,
            )@,
            Ok(found) => r is Ok && detected::observes(
                *reads,
                old(acc)@,
                final(acc)@,
                format_trace(found),
            ),
        },
{
    match auto_parse_into(json, logfmt) {
        Err(e) => Err(budget_breach(e)),
        Ok(None) => Ok(()),
        Ok(Some((name, run))) => {
            if str_eq(name, "json") {
                observe_json(&run, acc, reads);
            } else {
                acc.observe_parsed(&run.labels, FieldSource::Logfmt, reads);
            }
            Ok(())
        },
    }
}

proof fn lemma_parsers_differ()
    ensures
        "json"@ != "logfmt"@,
{
    reveal_strlit("json");
    reveal_strlit("logfmt");
    assert("json"@.len() != "logfmt"@.len());
}

/// Runs one row that survived its pipeline into the fields found so far.
fn observe_detected_row<U: Fn(&str, Unit) -> bool>(
    metadata: &Option<MergedMetadata>,
    live: SurvivingRow,
    base: &LabelSet,
    acc: &mut FieldAccumulator,
    reads: &U,
    Ghost(row): Ghost<SampledRow>,
) -> (r: (Result<bool, ReadError>, LabelSet))
    requires
        old(acc).wf(),
        row.metadata == *metadata,
        forall|s: &str, u: Unit| call_requires(*reads, (s, u)),
    ensures
        final(acc).wf(),
        r.1 == live.labels,
        ending(r.0) == fed_live(row, live, text::labels_view(base@)).result,
        detected::observes(
            *reads,
            old(acc)@,
            final(acc)@,
            fed_live(row, live, text::labels_view(base@)).trace,
        ),
{
    let ghost start = acc@;
    let ghost before = pipeline_trace(row, live, text::labels_view(base@));
    observe_pipeline(metadata, &live.labels, base, acc, reads, Ghost(row), Ghost(live));
    let ghost mid = acc@;
    let ghost found = detected::auto_parsed(live.json, live.logfmt);
    let SurvivingRow { labels, json, logfmt } = live;
    match auto_parse_observe(json, logfmt, acc, reads) {
        Err(e) => (Err(e), labels),
        Ok(()) => {
            proof {
                detected::lemma_observes_join(
                    *reads,
                    start,
                    mid,
                    acc@,
                    before,
                    format_trace(found->Ok_0),
                );
            }
            (Ok(true), labels)
        },
    }
}

/// Runs one row that survived its pipeline into the fields found so far, without
/// paths.
fn observe_detected_row_legacy_shape<U: Fn(&str, Unit) -> bool>(
    metadata: &Option<MergedMetadata>,
    live: SurvivingRow,
    base: &LabelSet,
    acc: &mut FieldAccumulator,
    reads: &U,
    Ghost(row): Ghost<SampledRow>,
    Ghost(streams): Ghost<Map<u64, LabelSet>>,
) -> (labels: LabelSet)
    requires
        old(acc).wf(),
        row.metadata == *metadata,
        row.run == Ok::<Option<SurvivingRow>, RowBudgetExceeded>(Some(live)),
        streams.contains_key(row.fingerprint),
        streams[row.fingerprint] == *base,
        forall|s: &str, u: Unit| call_requires(*reads, (s, u)),
    ensures
        final(acc).wf(),
        labels == live.labels,
        detected::observes(
            *reads,
            old(acc)@,
            final(acc)@,
            fed_without_paths(row, streams).trace,
        ),
{
    let ghost start = acc@;
    let ghost before = pipeline_trace(row, live, text::labels_view(base@));
    observe_pipeline(metadata, &live.labels, base, acc, reads, Ghost(row), Ghost(live));
    let ghost mid = acc@;
    let ghost whole = fed_without_paths(row, streams).trace;
    proof {
        lemma_parsers_differ();
    }
    let SurvivingRow { labels, json, logfmt } = live;
    match auto_parse_legacy_shape(json, logfmt) {
        None => {
            proof {
                assert(before + Seq::<Observation>::empty() =~= before);
            }
        },
        Some((name, pairs)) => {
            let source = if str_eq(name, "json") {
                FieldSource::Json { path: None }
            } else {
                FieldSource::Logfmt
            };
            acc.observe_parsed(&pairs, source, reads);
            proof {
                let second = detected::pairs_observed(text::labels_view(pairs@), source@);
                assert(whole =~= before + second);
                detected::lemma_observes_join(*reads, start, mid, acc@, before, second);
            }
        },
    }
    labels
}

/// Empties a text. This is `String::clear`, which leaves no character.
pub assume_specification[ std::string::String::clear ](s: &mut std::string::String)
    ensures
        final(s)@ == Seq::<char>::empty(),
;

/// The slots a list has room for. This is `Vec::capacity`, which is never less than the
/// length; how much more an allocation has room for is the allocator's to say, and is
/// left unsaid.
#[verifier::external_body]
fn slots_held(list: &LabelSet) -> (n: usize)
    ensures
        n >= list@.len(),
{
    list.capacity()
}

/// The bytes a text has room for. This is `String::capacity`, which is never less than
/// the length in bytes; how much more an allocation has room for is left unsaid.
#[verifier::external_body]
fn bytes_held(s: &String) -> (n: usize)
    ensures
        n >= text::byte_count(s@),
{
    s.capacity()
}

/// Empties a list, lets it go where it has room for more than is carried, and says what
/// room is carried on.
fn trim_list(list: &mut LabelSet) -> (n: usize)
    ensures
        final(list)@.len() == 0,
        exists|held: usize|
            held >= old(list)@.len() && n == #[trigger] carried(held, MAX_FEEDER_SCRATCH_SLOTS),
{
    let held: usize = slots_held(list);
    list.clear();
    if lets_go(held, MAX_FEEDER_SCRATCH_SLOTS) {
        *list = Vec::new();
        proof {
            assert(0 == carried(held, MAX_FEEDER_SCRATCH_SLOTS));
        }
        0
    } else {
        proof {
            assert(held == carried(held, MAX_FEEDER_SCRATCH_SLOTS));
        }
        held
    }
}

/// Empties a text, lets it go where it has room for more than is carried, and says what
/// room is carried on.
fn trim_text(s: &mut String) -> (n: usize)
    ensures
        final(s)@.len() == 0,
        exists|held: usize|
            held >= text::byte_count(old(s)@) && n == #[trigger] carried(
                held,
                MAX_FEEDER_SCRATCH_STRING_BYTES,
            ),
{
    let held: usize = bytes_held(s);
    s.clear();
    if lets_go(held, MAX_FEEDER_SCRATCH_STRING_BYTES) {
        *s = String::new();
        proof {
            reveal_strlit("");
            assert(0 == carried(held, MAX_FEEDER_SCRATCH_STRING_BYTES));
        }
        0
    } else {
        proof {
            assert(held == carried(held, MAX_FEEDER_SCRATCH_STRING_BYTES));
        }
        held
    }
}

/// Nothing has been allocated yet.
pub open spec fn no_room() -> ScratchCapacities {
    ScratchCapacities { merged: 0, metadata: 0, labels: 0, err: 0, details: 0 }
}

/// The buffers a row is worked on in: those its metadata and its labels came in, and
/// for the rest those carried from the row before.
pub open spec fn worked_in(
    before: DetectedRowFeeder,
    row: SampledRow,
    streams: Map<u64, LabelSet>,
    worked: DetectedRowFeeder,
) -> bool {
    &&& match row.metadata {
        None => {
            &&& worked.merge_buf == before.merge_buf
            &&& worked.sm_buf == before.sm_buf
            &&& worked.sm_ctx == before.sm_ctx
        },
        Some(m) => {
            &&& worked.merge_buf == m.labels
            &&& worked.sm_buf == m.pairs
            &&& worked.sm_ctx == m.ctx
        },
    }
    &&& match row.run {
        Ok(Some(live)) if streams.contains_key(row.fingerprint) => worked.label_scratch
            == live.labels,
        _ => worked.label_scratch == before.label_scratch,
    }
}

/// The buffers rows are worked on in, carried from one row to the next.
#[derive(Debug)]
pub struct DetectedRowFeeder {
    /// The stream's labels merged with the row's metadata.
    pub merge_buf: LabelSet,
    /// The row's metadata.
    pub sm_buf: LabelSet,
    /// What reading the metadata left besides.
    pub sm_ctx: StructuredMetadataCtx,
    /// The labels the pipeline makes.
    pub label_scratch: LabelSet,
    /// What the buffers had room for when they were last emptied.
    pub room: ScratchCapacities,
}

impl DetectedRowFeeder {
    /// Nothing is left in the buffers, and they are no larger than is carried.
    pub open spec fn wf(&self) -> bool {
        &&& self.idle()
        &&& self.room.bytes() <= largest_carried().bytes()
    }

    /// Nothing is left in the buffers of the row before.
    pub open spec fn idle(&self) -> bool {
        &&& self.merge_buf@.len() == 0
        &&& self.sm_buf@.len() == 0
        &&& self.label_scratch@.len() == 0
        &&& self.sm_ctx.err@.len() == 0
        &&& self.sm_ctx.details@.len() == 0
        &&& !self.sm_ctx.has_ordinary
    }

    /// Nothing is carried yet.
    pub fn new() -> (f: DetectedRowFeeder)
        ensures
            f.wf(),
            f.room == no_room(),
            f.sm_ctx.stream_label_count is None,
            f.sm_ctx.sm_over_stream@.len() == 0,
    {
        proof {
            reveal_strlit("");
        }
        DetectedRowFeeder {
            merge_buf: Vec::new(),
            sm_buf: Vec::new(),
            sm_ctx: StructuredMetadataCtx {
                err: String::new(),
                details: String::new(),
                has_ordinary: false,
                stream_label_count: None,
                sm_over_stream: Vec::new(),
            },
            label_scratch: Vec::new(),
            room: ScratchCapacities { merged: 0, metadata: 0, labels: 0, err: 0, details: 0 },
        }
    }

    /// Empties every buffer, and lets go of those with room for more than is carried.
    fn trim(&mut self)
        ensures
            final(self).wf(),
            exists|c: ScratchCapacities| #[trigger]
                old(self).has_room(c) && final(self).room == c.trimmed(),
    {
        let ghost before = *self;
        let merged: usize = trim_list(&mut self.merge_buf);
        let metadata: usize = trim_list(&mut self.sm_buf);
        let labels: usize = trim_list(&mut self.label_scratch);
        let err: usize = trim_text(&mut self.sm_ctx.err);
        let details: usize = trim_text(&mut self.sm_ctx.details);
        self.sm_ctx.has_ordinary = false;
        self.room = ScratchCapacities { merged, metadata, labels, err, details };
        proof {
            let slots = MAX_FEEDER_SCRATCH_SLOTS;
            let bytes = MAX_FEEDER_SCRATCH_STRING_BYTES;
            let c = ScratchCapacities {
                merged: choose|held: usize|
                    held >= before.merge_buf@.len() && merged == #[trigger] carried(held, slots),
                metadata: choose|held: usize|
                    held >= before.sm_buf@.len() && metadata == #[trigger] carried(held, slots),
                labels: choose|held: usize|
                    held >= before.label_scratch@.len() && labels == #[trigger] carried(
                        held,
                        slots,
                    ),
                err: choose|held: usize|
                    held >= text::byte_count(before.sm_ctx.err@) && err == #[trigger] carried(
                        held,
                        bytes,
                    ),
                details: choose|held: usize|
                    held >= text::byte_count(before.sm_ctx.details@)
                        && details == #[trigger] carried(held, bytes),
            };
            assert(before.has_room(c));
            law_carried_scratch_is_bounded(c);
        }
    }

    /// Takes over the buffers a row's metadata came in.
    fn hold(&mut self, metadata: Option<MergedMetadata>)
        ensures
            match metadata {
                None => *final(self) == *old(self),
                Some(m) => *final(self) == (DetectedRowFeeder {
                    merge_buf: m.labels,
                    sm_buf: m.pairs,
                    sm_ctx: m.ctx,
                    ..*old(self)
                }),
            },
    {
        if let Some(m) = metadata {
            self.merge_buf = m.labels;
            self.sm_buf = m.pairs;
            self.sm_ctx = m.ctx;
        }
    }

    /// What the buffers have room for: what they hold, or more.
    pub open spec fn has_room(&self, c: ScratchCapacities) -> bool {
        &&& c.merged >= self.merge_buf@.len()
        &&& c.metadata >= self.sm_buf@.len()
        &&& c.labels >= self.label_scratch@.len()
        &&& c.err >= text::byte_count(self.sm_ctx.err@)
        &&& c.details >= text::byte_count(self.sm_ctx.details@)
    }

    /// What the buffers take, by what they had room for when they were last emptied.
    pub fn scratch_capacity_bytes(&self) -> (n: u64)
        ensures
            n == self.room.bytes(),
    {
        self.room.scratch_bytes()
    }

    /// Feeds one row, and says whether it survived. Whatever happens, the buffers are
    /// emptied, and those that are too large are let go.
    pub fn feed_row<U: Fn(&str, Unit) -> bool>(
        &mut self,
        row: SampledRow,
        base_labels: &HashMap<u64, LabelSet>,
        acc: &mut FieldAccumulator,
        reads: &U,
    ) -> (r: Result<bool, ReadError>)
        requires
            old(acc).wf(),
            forall|s: &str, u: Unit| call_requires(*reads, (s, u)),
        ensures
            final(acc).wf(),
            ending(r) == fed(row, base_labels@).result,
            detected::observes(
                *reads,
                old(acc)@,
                final(acc)@,
                fed(row, base_labels@).trace,
            ),
            final(self).wf(),
            exists|worked: DetectedRowFeeder, c: ScratchCapacities|
                worked_in(*old(self), row, base_labels@, worked) && #[trigger] worked.has_room(c)
                    && final(self).room == c.trimmed(),
    {
        broadcast use vstd::std_specs::hash::group_hash_axioms;

        let ghost whole = row;
        let SampledRow { fingerprint, metadata, run } = row;
        let r: Result<bool, ReadError> = match base_labels.get(&fingerprint) {
            None => Ok(false),
            Some(base) => match run {
                Err(e) => Err(budget_breach(e)),
                Ok(None) => Ok(false),
                Ok(Some(live)) => {
                    let (survived, labels) = observe_detected_row(
                        &metadata,
                        live,
                        base,
                        acc,
                        reads,
                        Ghost(whole),
                    );
                    self.label_scratch = labels;
                    survived
                },
            },
        };
        self.hold(metadata);
        self.trim();
        r
    }

    /// Feeds one row as [`DetectedRowFeeder::feed_row`] does, without paths.
    pub fn feed_row_legacy_shape<U: Fn(&str, Unit) -> bool>(
        &mut self,
        row: SampledRow,
        base_labels: &HashMap<u64, LabelSet>,
        acc: &mut FieldAccumulator,
        reads: &U,
    ) -> (r: Result<bool, ReadError>)
        requires
            old(acc).wf(),
            forall|s: &str, u: Unit| call_requires(*reads, (s, u)),
        ensures
            final(acc).wf(),
            ending(r) == fed_without_paths(row, base_labels@).result,
            detected::observes(
                *reads,
                old(acc)@,
                final(acc)@,
                fed_without_paths(row, base_labels@).trace,
            ),
            if base_labels@.contains_key(row.fingerprint) {
                final(self).wf()
            } else {
                *final(self) == *old(self)
            },
    {
        broadcast use vstd::std_specs::hash::group_hash_axioms;

        let ghost whole = row;
        let base = match base_labels.get(&row.fingerprint) {
            None => {
                return Ok(false);
            },
            Some(base) => base,
        };
        let SampledRow { fingerprint, metadata, run } = row;
        let r: Result<bool, ReadError> = match run {
            Err(e) => Err(budget_breach(e)),
            Ok(None) => Ok(false),
            Ok(Some(live)) => {
                self.label_scratch = observe_detected_row_legacy_shape(
                    &metadata,
                    live,
                    base,
                    acc,
                    reads,
                    Ghost(whole),
                    Ghost(base_labels@),
                );
                Ok(true)
            },
        };
        self.hold(metadata);
        self.trim();
        r
    }
}

/// An observation without its path.
pub open spec fn without_path(o: Observation) -> Observation {
    match o.source {
        SourceView::Json { .. } => Observation { source: SourceView::Json { path: None }, ..o },
        _ => o,
    }
}

/// A row of a stream that is not known, and a row the pipeline dropped, do not survive
/// and leave what was observed before as it was.
pub proof fn law_skipped_rows_change_nothing<U: Fn(&str, Unit) -> bool>(
    reads: U,
    row: SampledRow,
    streams: Map<u64, LabelSet>,
    a: AccView,
    b: AccView,
)
    requires
        !streams.contains_key(row.fingerprint) || row.run == Ok::<
            Option<SurvivingRow>,
            RowBudgetExceeded,
        >(None),
        detected::observes(reads, a, b, fed(row, streams).trace) || detected::observes(
            reads,
            a,
            b,
            fed_without_paths(row, streams).trace,
        ),
    ensures
        fed(row, streams).result == Ok::<bool, ErrorView>(false),
        fed_without_paths(row, streams).result == Ok::<bool, ErrorView>(false),
        b == a,
{
}

/// Where format detection breaches no row budget, feeding a row with and without
/// paths makes the same observations but for the paths, and ends alike.
pub proof fn law_feeding_without_paths_agrees(row: SampledRow, streams: Map<u64, LabelSet>)
    requires
        row.run matches Ok(Some(live)) ==> detected::auto_parsed(live.json, live.logfmt) is Ok,
    ensures
        fed(row, streams).result == fed_without_paths(row, streams).result,
        fed(row, streams).trace.map_values(|o: Observation| without_path(o)) == fed_without_paths(
            row,
            streams,
        ).trace,
{
    lemma_parsers_differ();
    let f = |o: Observation| without_path(o);
    let a = fed(row, streams).trace;
    let b = fed_without_paths(row, streams).trace;
    if streams.contains_key(row.fingerprint) && row.run is Ok && row.run->Ok_0 is Some {
        let live = row.run->Ok_0->0;
        let base = text::labels_view(streams[row.fingerprint]@);
        let p = pipeline_trace(row, live, base);
        let found = detected::auto_parsed(live.json, live.logfmt)->Ok_0;
        assert(a == p + format_trace(found));
        assert(p.map_values(f) =~= p) by {
            assert forall|i: int| 0 <= i < p.len() implies #[trigger] p[i].source
                == SourceView::Unattributed by {}
        }
        let rest = format_trace(found).map_values(f);
        assert(a.map_values(f) =~= p + rest);
        match found {
            None => {
                assert(rest =~= Seq::<Observation>::empty());
            },
            Some((name, run)) => {
                if name == "json"@ {
                    assert(detected::takes(live.json) && run == live.json->Ok_0);
                    assert(rest =~= detected::pairs_observed(
                        text::labels_view(run.labels@),
                        SourceView::Json { path: None },
                    ));
                } else {
                    assert(!detected::takes(live.json) && detected::takes(live.logfmt));
                    assert(rest =~= detected::pairs_observed(
                        text::labels_view(run.labels@),
                        SourceView::Logfmt,
                    ));
                }
            },
        }
    }
    assert(a.map_values(f) =~= b);
}

} // verus!
