//! Field detection over streams, in one place.
use std::collections::HashMap;
use vstd::prelude::*;
use crate::detected::{
    self, AccView, DetectedFieldOut, FieldAccumulator, FieldOutView, FieldSource, FieldView,
    Observation, SourceView, Unit, MAX_DETECTED_FIELD_BYTES,
};
use crate::detected_probe::{self, DetectedRowFeeder, Fed, SampledRow, ScratchCapacities};
use crate::error::{ErrorView, ReadError};
use crate::field_answer;
use crate::order;
use crate::paging::{self, DetectedPagedState, PageRow, TailCursor};
use crate::text::{copy_labels, str_eq, LabelSet};

verus! {

/// The streams, the fields found so far, and how far the read has come.
pub struct DetectedFieldsProbe {
    acc: FieldAccumulator,
    state: DetectedPagedState,
    base_labels: HashMap<u64, LabelSet>,
}

/// A probe, as values.
pub struct ProbeView {
    pub fields: AccView,
    pub streams: Map<u64, LabelSet>,
    pub cursor: Option<TailCursor>,
    pub spent: u64,
    pub matched: u32,
    pub page_size: u32,
    pub line_limit: u32,
    pub budget: u64,
}

impl View for DetectedFieldsProbe {
    type V = ProbeView;

    closed spec fn view(&self) -> ProbeView {
        ProbeView {
            fields: self.acc@,
            streams: self.base_labels@,
            cursor: self.state.cursor,
            spent: self.state.spent,
            matched: self.state.matched,
            page_size: self.state.page_size,
            line_limit: self.state.line_limit,
            budget: self.state.budget,
        }
    }
}

/// The source a parser name stands for.
pub open spec fn source_named(parser: Option<Seq<char>>) -> SourceView {
    match parser {
        None => SourceView::Unattributed,
        Some(name) => if name == "json"@ {
            SourceView::Json { path: None }
        } else {
            SourceView::Logfmt
        },
    }
}

/// A probe that has seen nothing.
pub open spec fn fresh_probe(line_limit: u32, field_limit: u32, budget: u64) -> ProbeView {
    ProbeView {
        fields: detected::empty_acc(field_limit, budget),
        streams: Map::empty(),
        cursor: None,
        spent: 0,
        matched: 0,
        page_size: if line_limit == 0 {
            1
        } else {
            line_limit
        },
        line_limit,
        budget: u64::MAX,
    }
}

/// Whether feeding a row leads from `a` to `b` and ends with `r`: nothing happens once
/// enough rows have been observed.
pub open spec fn feeds<U: Fn(&str, Unit) -> bool>(
    reads: U,
    a: ProbeView,
    b: ProbeView,
    fed: Fed,
    r: Result<bool, ErrorView>,
) -> bool {
    if a.matched >= a.line_limit {
        r == Ok::<bool, ErrorView>(false) && b == a
    } else {
        &&& r == fed.result
        &&& detected::observes(reads, a.fields, b.fields, fed.trace)
        &&& b == (ProbeView {
            fields: b.fields,
            matched: if fed.result == Ok::<bool, ErrorView>(true) {
                (a.matched + 1) as u32
            } else {
                a.matched
            },
            ..a
        })
    }
}

impl DetectedFieldsProbe {
    /// The fields found so far are in order, and no buffer holds anything of a row.
    pub closed spec fn wf(&self) -> bool {
        self.acc.wf() && self.state.feeder.wf()
    }

    /// What the buffers carried from row to row have room for.
    pub closed spec fn carried(&self) -> ScratchCapacities {
        self.state.feeder.room
    }

    /// Nothing seen yet, under the shipped byte budget.
    pub fn new(line_limit: u32, field_limit: u32) -> (p: DetectedFieldsProbe)
        ensures
            p.wf(),
            p@ == fresh_probe(line_limit, field_limit, MAX_DETECTED_FIELD_BYTES),
            p.carried() == detected_probe::no_room(),
    {
        Self::with_byte_budget(line_limit, field_limit, MAX_DETECTED_FIELD_BYTES)
    }

    /// Nothing seen yet.
    pub fn with_byte_budget(line_limit: u32, field_limit: u32, retention_budget: u64) -> (p:
        DetectedFieldsProbe)
        ensures
            p.wf(),
            p@ == fresh_probe(line_limit, field_limit, retention_budget),
            p.carried() == detected_probe::no_room(),
    {
        broadcast use vstd::std_specs::hash::group_hash_axioms;

        let page_size: u32 = if line_limit == 0 {
            1
        } else {
            line_limit
        };
        DetectedFieldsProbe {
            acc: FieldAccumulator::with_byte_budget(field_limit, retention_budget),
            state: DetectedPagedState {
                feeder: DetectedRowFeeder::new(),
                cursor: None,
                spent: 0,
                matched: 0,
                page_size,
                line_limit,
                budget: u64::MAX,
            },
            base_labels: HashMap::new(),
        }
    }

    /// Adds a stream, or changes its labels.
    pub fn add_stream(&mut self, fingerprint: u64, labels: &LabelSet)
        requires
            old(self).wf(),
        ensures
            final(self).wf(),
            exists|held: LabelSet| #[trigger]
                held@ == labels@ && final(self)@ == (ProbeView {
                    streams: old(self)@.streams.insert(fingerprint, held),
                    ..old(self)@
                }),
    {
        broadcast use vstd::std_specs::hash::group_hash_axioms;

        let held = copy_labels(labels);
        let ghost kept = held;
        self.base_labels.insert(fingerprint, held);
        proof {
            assert(kept@ == labels@);
        }
    }

    /// Observes one pair. The parser is `json`, `logfmt` or none.
    pub fn observe_pair<U: Fn(&str, Unit) -> bool>(
        &mut self,
        key: &str,
        value: &str,
        parser: Option<&'static str>,
        reads: &U,
    )
        requires
            old(self).wf(),
            parser matches Some(name) ==> name@ == "json"@ || name@ == "logfmt"@,
            forall|s: &str, u: Unit| call_requires(*reads, (s, u)),
        ensures
            final(self).wf(),
            ({
                let named = match parser {
                    None => None::<Seq<char>>,
                    Some(name) => Some(name@),
                };
                &&& detected::observes_one(
                    *reads,
                    old(self)@.fields,
                    final(self)@.fields,
                    (Observation { key: key@, value: value@, source: source_named(named) }),
                )
                &&& final(self)@ == (ProbeView { fields: final(self)@.fields, ..old(self)@ })
            }),
    {
        let source = match parser {
            None => FieldSource::Unattributed,
            Some(name) => if str_eq(name, "json") {
                FieldSource::Json { path: None }
            } else {
                FieldSource::Logfmt
            },
        };
        self.acc.observe_pair(key, value, source, reads);
    }

    /// Feeds one row, unless enough have been observed.
    pub fn feed_row<U: Fn(&str, Unit) -> bool>(&mut self, row: SampledRow, reads: &U) -> (r: Result<
        bool,
        ReadError,
    >)
        requires
            old(self).wf(),
            forall|s: &str, u: Unit| call_requires(*reads, (s, u)),
        ensures
            final(self).wf(),
            feeds(
                *reads,
                old(self)@,
                final(self)@,
                detected_probe::fed(row, old(self)@.streams),
                detected_probe::ending(r),
            ),
    {
        if self.state.matched >= self.state.line_limit {
            return Ok(false);
        }
        let survived: bool = match self.state.feeder.feed_row(
            row,
            &self.base_labels,
            &mut self.acc,
            reads,
        ) {
            Ok(survived) => survived,
            Err(e) => {
                return Err(e);
            },
        };
        if survived {
            self.state.matched = self.state.matched + 1;
        }
        Ok(survived)
    }

    /// Feeds one row as [`DetectedFieldsProbe::feed_row`] does, without paths.
    pub fn feed_row_legacy_shape<U: Fn(&str, Unit) -> bool>(
        &mut self,
        row: SampledRow,
        reads: &U,
    ) -> (r: Result<bool, ReadError>)
        requires
            old(self).wf(),
            forall|s: &str, u: Unit| call_requires(*reads, (s, u)),
        ensures
            final(self).wf(),
            feeds(
                *reads,
                old(self)@,
                final(self)@,
                detected_probe::fed_without_paths(row, old(self)@.streams),
                detected_probe::ending(r),
            ),
    {
        if self.state.matched >= self.state.line_limit {
            return Ok(false);
        }
        let survived: bool = match self.state.feeder.feed_row_legacy_shape(
            row,
            &self.base_labels,
            &mut self.acc,
            reads,
        ) {
            Ok(survived) => survived,
            Err(e) => {
                return Err(e);
            },
        };
        if survived {
            self.state.matched = self.state.matched + 1;
        }
        Ok(survived)
    }

    /// Drains one page.
    pub fn absorb_page<U: Fn(&str, Unit) -> bool>(
        &mut self,
        items: Vec<Result<PageRow, ReadError>>,
        read_bytes: u64,
        reads: &U,
    ) -> (r: Result<Option<bool>, ReadError>)
        requires
            old(self).wf(),
            forall|s: &str, u: Unit| call_requires(*reads, (s, u)),
        ensures
            final(self).wf(),
            ({
                let before = old(self)@;
                let d = paging::drained(
                    items@,
                    before.matched,
                    before.streams,
                    before.line_limit,
                );
                &&& detected::observes(*reads, before.fields, final(self)@.fields, d.trace)
                &&& paging::page_view(r) == paging::page_ending(
                    d.failed,
                    before.spent,
                    d.matched,
                    before.line_limit,
                    paging::clip(d.rows.len() as int),
                    before.page_size,
                )
                &&& final(self)@.spent == paging::page_spent(
                    d.failed,
                    before.spent,
                    before.budget,
                    Some(read_bytes),
                )
                &&& final(self)@ == (ProbeView {
                    fields: final(self)@.fields,
                    cursor: paging::advanced(before.cursor, d.rows),
                    matched: d.matched,
                    spent: if d.failed is None {
                        paging::spent_after(before.spent, before.budget, Some(read_bytes))
                    } else {
                        before.spent
                    },
                    ..before
                })
            }),
    {
        self.state.absorb_page(items, Some(read_bytes), &self.base_labels, &mut self.acc, reads)
    }

    /// Takes one row of a page as it arrives.
    pub fn absorb_row<U: Fn(&str, Unit) -> bool>(
        &mut self,
        tracker: &mut paging::TailCursorTracker,
        row: PageRow,
        reads: &U,
    ) -> (r: Result<(), ReadError>)
        requires
            old(self).wf(),
            forall|s: &str, u: Unit| call_requires(*reads, (s, u)),
        ensures
            final(self).wf(),
            *final(tracker) == old(tracker).stepped(row.key()),
            ({
                let before = old(self)@;
                let fed = detected_probe::fed(row.row, before.streams);
                if before.matched >= before.line_limit {
                    r is Ok && final(self)@ == before
                } else {
                    &&& detected::observes(*reads, before.fields, final(self)@.fields, fed.trace)
                    &&& match fed.result {
                        Err(e) => r is Err && r->Err_0@ == e,
                        Ok(_) => r is Ok,
                    }
                    &&& final(self)@ == (ProbeView {
                        fields: final(self)@.fields,
                        matched: if fed.result == Ok::<bool, ErrorView>(true) {
                            (before.matched + 1) as u32
                        } else {
                            before.matched
                        },
                        ..before
                    })
                }
            }),
    {
        self.state.absorb_row(tracker, row, &self.base_labels, &mut self.acc, reads)
    }

    /// Ends a page whose rows arrived one by one.
    pub fn end_page(
        &mut self,
        tracker: paging::TailCursorTracker,
        failed: Option<ReadError>,
        read_bytes: u64,
    ) -> (r: Result<Option<bool>, ReadError>)
        requires
            old(self).wf(),
        ensures
            final(self).wf(),
            ({
                let before = old(self)@;
                let error = match failed {
                    None => None::<ErrorView>,
                    Some(e) => Some(e@),
                };
                &&& paging::page_view(r) == paging::page_ending(
                    error,
                    before.spent,
                    before.matched,
                    before.line_limit,
                    tracker.rows,
                    before.page_size,
                )
                &&& final(self)@.spent == paging::page_spent(
                    error,
                    before.spent,
                    before.budget,
                    Some(read_bytes),
                )
                &&& final(self)@ == (ProbeView {
                    cursor: tracker.cursor_after(before.cursor),
                    spent: if failed is None {
                        paging::spent_after(before.spent, before.budget, Some(read_bytes))
                    } else {
                        before.spent
                    },
                    ..before
                })
            }),
    {
        self.state.end_page(tracker, failed, Some(read_bytes))
    }

    /// The labels of a stream.
    pub fn stream_labels(&self, fingerprint: u64) -> (r: Option<&LabelSet>)
        ensures
            match r {
                Some(labels) => self@.streams.contains_key(fingerprint) && *labels
                    == self@.streams[fingerprint],
                None => !self@.streams.contains_key(fingerprint),
            },
    {
        broadcast use vstd::std_specs::hash::group_hash_axioms;

        self.base_labels.get(&fingerprint)
    }

    /// The rows observed.
    pub fn matched(&self) -> (n: u32)
        ensures
            n == self@.matched,
    {
        self.state.matched
    }

    /// The bytes charged.
    pub fn charged(&self) -> (n: u64)
        ensures
            n == self@.fields.budget.charged,
    {
        self.acc.charged()
    }

    /// The most bytes ever charged.
    pub fn peak_charged(&self) -> (n: u64)
        ensures
            n == self@.fields.budget.peak,
    {
        self.acc.peak_charged()
    }

    /// What the carried buffers take: never more than the bound.
    pub fn scratch_capacity_bytes(&self) -> (n: u64)
        requires
            self.wf(),
        ensures
            n == self.carried().bytes(),
            n <= detected_probe::largest_carried().bytes(),
    {
        self.state.feeder.scratch_capacity_bytes()
    }

    /// The answer, and whether the byte budget ever refused.
    pub fn finish(self) -> (r: (Vec<DetectedFieldOut>, bool))
        requires
            self.wf(),
        ensures
            detected::outs(r.0@) == detected::answer(self@.fields),
            r.1 == self@.fields.budget.capped,
    {
        self.acc.finish()
    }
}

// ---------------------------------------------------------------------
// With and without paths.
// ---------------------------------------------------------------------

/// Whether feeding the rows one after the other, with paths or without, leads through
/// `states` and ends with `results`.
pub open spec fn feeds_all<U: Fn(&str, Unit) -> bool>(
    reads: U,
    with_paths: bool,
    rows: Seq<SampledRow>,
    states: Seq<ProbeView>,
    results: Seq<Result<bool, ErrorView>>,
) -> bool {
    &&& states.len() == rows.len() + 1
    &&& results.len() == rows.len()
    &&& forall|i: int|
        0 <= i < rows.len() ==> feeds(
            reads,
            states[i],
            states[i + 1],
            row_fed(with_paths, states[i].streams, #[trigger] rows[i]),
            results[i],
        )
}

/// What feeding a row does, with paths or without.
pub open spec fn row_fed(with_paths: bool, streams: Map<u64, LabelSet>, row: SampledRow) -> Fed {
    if with_paths {
        detected_probe::fed(row, streams)
    } else {
        detected_probe::fed_without_paths(row, streams)
    }
}

/// What the first rows, fed one after the other, were observed to hold.
pub open spec fn run_trace(
    with_paths: bool,
    rows: Seq<SampledRow>,
    states: Seq<ProbeView>,
    n: int,
) -> Seq<Observation>
    decreases n,
{
    if n <= 0 {
        Seq::empty()
    } else {
        let before = run_trace(with_paths, rows, states, n - 1);
        let at = states[n - 1];
        if at.matched >= at.line_limit {
            before
        } else {
            before + row_fed(with_paths, at.streams, rows[n - 1]).trace
        }
    }
}

/// Observations without their paths.
pub open spec fn without_paths(trace: Seq<Observation>) -> Seq<Observation> {
    trace.map_values(|o: Observation| detected_probe::without_path(o))
}

/// What feeding rows leads to is what observing the run's trace leads to.
proof fn lemma_run_observes<U: Fn(&str, Unit) -> bool>(
    reads: U,
    with_paths: bool,
    rows: Seq<SampledRow>,
    states: Seq<ProbeView>,
    results: Seq<Result<bool, ErrorView>>,
    n: int,
)
    requires
        feeds_all(reads, with_paths, rows, states, results),
        0 <= n <= rows.len(),
    ensures
        detected::observes(
            reads,
            states[0].fields,
            states[n].fields,
            run_trace(with_paths, rows, states, n),
        ),
        states[n].streams == states[0].streams,
        states[n].line_limit == states[0].line_limit,
    decreases n,
{
    if n > 0 {
        lemma_run_observes(reads, with_paths, rows, states, results, n - 1);
        let at = states[n - 1];
        let fed = row_fed(with_paths, at.streams, rows[n - 1]);
        assert(feeds(reads, states[n - 1], states[n - 1 + 1], fed, results[n - 1]));
        if at.matched < at.line_limit {
            detected::lemma_observes_join(
                reads,
                states[0].fields,
                at.fields,
                states[n].fields,
                run_trace(with_paths, rows, states, n - 1),
                fed.trace,
            );
        }
    }
}

/// Two runs over the same rows, one with paths and one without, go alike.
proof fn lemma_runs_go_alike<U: Fn(&str, Unit) -> bool>(
    reads: U,
    rows: Seq<SampledRow>,
    a: Seq<ProbeView>,
    ra: Seq<Result<bool, ErrorView>>,
    b: Seq<ProbeView>,
    rb: Seq<Result<bool, ErrorView>>,
    n: int,
)
    requires
        feeds_all(reads, true, rows, a, ra),
        feeds_all(reads, false, rows, b, rb),
        a[0] == b[0],
        forall|i: int| 0 <= i < rows.len() ==> reads_formats(#[trigger] rows[i]),
        0 <= n <= rows.len(),
    ensures
        a[n].matched == b[n].matched,
        a[n].streams == b[n].streams,
        a[n].line_limit == b[n].line_limit,
        forall|i: int| 0 <= i < n ==> #[trigger] ra[i] == rb[i],
        run_trace(false, rows, b, n) == without_paths(run_trace(true, rows, a, n)),
    decreases n,
{
    if n == 0 {
        assert(without_paths(run_trace(true, rows, a, 0)) =~= Seq::empty());
    } else {
        let m = n - 1;
        lemma_runs_go_alike(reads, rows, a, ra, b, rb, m);
        let row = rows[m];
        let streams = a[m].streams;
        assert(feeds(reads, a[m], a[m + 1], row_fed(true, streams, row), ra[m]));
        assert(feeds(reads, b[m], b[m + 1], row_fed(false, streams, row), rb[m]));
        detected_probe::law_feeding_without_paths_agrees(row, streams);
        let ta = run_trace(true, rows, a, m);
        let fa = detected_probe::fed(row, streams).trace;
        assert(without_paths(ta + fa) =~= without_paths(ta) + without_paths(fa));
    }
}

/// Whether format detection of a row breaches no row budget.
pub open spec fn reads_formats(row: SampledRow) -> bool {
    row.run matches Ok(Some(live)) ==> detected::auto_parsed(live.json, live.logfmt) is Ok
}

/// Whether every value reads as one type.
pub open spec fn reads_alike<U: Fn(&str, Unit) -> bool>(reads: U) -> bool {
    forall|value: Seq<char>, t: Seq<char>, u: Seq<char>| #[trigger]
        detected::detects(reads, value, t) && #[trigger] detected::detects(reads, value, u) ==> t
            == u
}

/// Leaving out the paths changes what is observed under a name in the path alone.
proof fn lemma_without_paths(trace: Seq<Observation>, key: Seq<char>)
    ensures
        field_answer::names_of(without_paths(trace)) == field_answer::names_of(trace),
        detected::values_of(without_paths(trace), key) == detected::values_of(trace, key),
        field_answer::parsers_of(without_paths(trace), key) == field_answer::parsers_of(
            trace,
            key,
        ),
        field_answer::last_value(without_paths(trace), key) == field_answer::last_value(
            trace,
            key,
        ),
        field_answer::last_path(without_paths(trace), key) is None,
    decreases trace.len(),
{
    let bare = without_paths(trace);
    assert forall|v: Seq<char>| detected::values_of(bare, key).contains(v)
        == detected::values_of(trace, key).contains(v) by {
        if detected::values_of(trace, key).contains(v) {
            let i = choose|i: int|
                0 <= i < trace.len() && (#[trigger] trace[i]).key == key && trace[i].value == v;
            assert(bare[i].key == key && bare[i].value == v);
        }
        if detected::values_of(bare, key).contains(v) {
            let i = choose|i: int|
                0 <= i < bare.len() && (#[trigger] bare[i]).key == key && bare[i].value == v;
            assert(trace[i].key == key && trace[i].value == v);
        }
    }
    assert(detected::values_of(bare, key) =~= detected::values_of(trace, key));
    if trace.len() > 0 {
        lemma_without_paths(trace.drop_last(), key);
        assert(bare.drop_last() =~= without_paths(trace.drop_last()));
        assert(bare.last() == detected_probe::without_path(trace.last()));
    } else {
        assert(bare =~= trace);
    }
}

/// An answered field without its path.
pub open spec fn pathless(o: FieldOutView) -> FieldOutView {
    FieldOutView { json_path: None, ..o }
}

/// Feeding rows with paths and without differs in the paths alone, while no budget
/// refuses anything: every row ends alike, as many have been observed, and the answers
/// are the same once the paths are left out.
pub proof fn law_answers_agree_but_for_paths<U: Fn(&str, Unit) -> bool>(
    reads: U,
    field_limit: u32,
    budget: u64,
    rows: Seq<SampledRow>,
    a: Seq<ProbeView>,
    ra: Seq<Result<bool, ErrorView>>,
    b: Seq<ProbeView>,
    rb: Seq<Result<bool, ErrorView>>,
)
    requires
        reads_alike(reads),
        forall|i: int| 0 <= i < rows.len() ==> reads_formats(#[trigger] rows[i]),
        feeds_all(reads, true, rows, a, ra),
        feeds_all(reads, false, rows, b, rb),
        a[0] == b[0],
        a[0].fields == detected::empty_acc(field_limit, budget),
        !a.last().fields.budget.capped,
        !b.last().fields.budget.capped,
    ensures
        ra == rb,
        a.last().matched == b.last().matched,
        detected::answer(b.last().fields) == detected::answer(a.last().fields).map_values(
            |o: FieldOutView| pathless(o),
        ),
{
    let n = rows.len() as int;
    let fa = a.last().fields;
    let fb = b.last().fields;
    let ta = run_trace(true, rows, a, n);
    let tb = run_trace(false, rows, b, n);
    lemma_runs_go_alike(reads, rows, a, ra, b, rb, n);
    assert(ra =~= rb);
    lemma_run_observes(reads, true, rows, a, ra, n);
    lemma_run_observes(reads, false, rows, b, rb, n);
    field_answer::law_fields_tell_what_was_observed(reads, field_limit, budget, fa, ta);
    field_answer::law_fields_tell_what_was_observed(reads, field_limit, budget, fb, tb);
    lemma_without_paths(ta, Seq::empty());
    let show = |f: FieldView| detected::shown(f);
    let bare = |o: FieldOutView| pathless(o);
    let sa = fa.fields.map_values(show);
    let sb = fb.fields.map_values(show);
    assert forall|i: int| 0 <= i < sa.len() implies #[trigger] sb[i] == bare(sa[i]) by {
        let f = fa.fields[i];
        let g = fb.fields[i];
        lemma_without_paths(ta, f.label);
        assert(field_answer::field_told(reads, ta, f));
        assert(field_answer::field_told(reads, tb, g));
        assert(f.label == g.label);
        assert(f.field_type == g.field_type);
    }
    assert(sb =~= sa.map_values(bare));
    detected::lemma_label_le_preorder();
    order::lemma_stable_sort_mapped(sa, bare, detected::label_le(), detected::label_le());
}

} // verus!
