//! Field detection page by page.
//!
//! A page is drained to its end or to its first error. Every row moves the cursor,
//! also the rows that come once enough have been observed.
use std::collections::HashMap;
use vstd::prelude::*;
use crate::detected::{self, FieldAccumulator, Observation, Unit};
use crate::detected_probe::{self, DetectedRowFeeder, SampledRow};
use crate::error::{ErrorView, ReadError, TooBroadReason};
use crate::text::{self, LabelSet};

verus! {

// ---------------------------------------------------------------------
// The cursor.
// ---------------------------------------------------------------------

/// A row's place: its timestamp, its stream and the hash of its body.
pub type RowKey = (i64, u64, u64);

/// Where the next page starts: behind so many rows of this place.
#[derive(Debug, Clone, Copy, PartialEq, Eq)]
pub struct TailCursor {
    pub tuple: RowKey,
    pub seen: u32,
}

/// A count, held at the largest there is.
pub open spec fn clip(n: int) -> u32 {
    if n > u32::MAX {
        u32::MAX
    } else {
        n as u32
    }
}

/// How many rows at the end of a page have the same place.
pub open spec fn trailing_run(rows: Seq<RowKey>) -> nat
    decreases rows.len(),
{
    if rows.len() == 0 {
        0
    } else if rows.len() > 1 && rows.last() == rows[rows.len() - 2] {
        trailing_run(rows.drop_last()) + 1
    } else {
        1
    }
}

/// The cursor after a page. An empty page keeps it. Where the page ends at the
/// place the cursor stood at, the rows seen before still count.
pub open spec fn advanced(prev: Option<TailCursor>, rows: Seq<RowKey>) -> Option<TailCursor> {
    if rows.len() == 0 {
        prev
    } else {
        let carry: int = match prev {
            Some(c) => if c.tuple == rows.last() {
                c.seen as int
            } else {
                0
            },
            None => 0,
        };
        Some(TailCursor { tuple: rows.last(), seen: clip(trailing_run(rows) + carry) })
    }
}

/// Follows a page row by row.
#[derive(Debug, Clone, Copy, PartialEq, Eq)]
pub struct TailCursorTracker {
    pub tuple: Option<RowKey>,
    pub run: u32,
    pub rows: u32,
}

/// The tracker that has followed these rows.
pub open spec fn followed(rows: Seq<RowKey>) -> TailCursorTracker {
    TailCursorTracker {
        tuple: if rows.len() == 0 {
            None
        } else {
            Some(rows.last())
        },
        run: clip(trailing_run(rows) as int),
        rows: clip(rows.len() as int),
    }
}

impl TailCursorTracker {
    /// No row yet.
    pub fn new() -> (t: TailCursorTracker)
        ensures
            t == followed(Seq::empty()),
    {
        TailCursorTracker { tuple: None, run: 0, rows: 0 }
    }

    /// The tracker after one more row.
    pub open spec fn stepped(self, row: RowKey) -> TailCursorTracker {
        TailCursorTracker {
            tuple: Some(row),
            run: if self.tuple == Some(row) {
                clip(self.run + 1)
            } else {
                1
            },
            rows: clip(self.rows + 1),
        }
    }

    /// Follows one more row.
    pub fn observe(&mut self, timestamp_ns: i64, fingerprint: u64, body_hash: u64)
        ensures
            *final(self) == old(self).stepped((timestamp_ns, fingerprint, body_hash)),
    {
        self.rows = self.rows.saturating_add(1);
        let same: bool = match self.tuple {
            Some(t) => t.0 == timestamp_ns && t.1 == fingerprint && t.2 == body_hash,
            None => false,
        };
        if same {
            self.run = self.run.saturating_add(1);
        } else {
            self.tuple = Some((timestamp_ns, fingerprint, body_hash));
            self.run = 1;
        }
    }

    /// The cursor after the rows that were followed.
    pub open spec fn cursor_after(self, prev: Option<TailCursor>) -> Option<TailCursor> {
        match self.tuple {
            None => prev,
            Some(t) => {
                let carry: int = match prev {
                    Some(c) => if c.tuple == t {
                        c.seen as int
                    } else {
                        0
                    },
                    None => 0,
                };
                Some(TailCursor { tuple: t, seen: clip(self.run + carry) })
            },
        }
    }

    /// The next cursor and how many rows there were.
    pub fn finish(self, prev: Option<TailCursor>) -> (r: (Option<TailCursor>, u32))
        ensures
            r == (self.cursor_after(prev), self.rows),
    {
        match self.tuple {
            None => (prev, self.rows),
            Some(t) => {
                let carry: u32 = match prev {
                    Some(c) => if c.tuple.0 == t.0 && c.tuple.1 == t.1 && c.tuple.2 == t.2 {
                        c.seen
                    } else {
                        0
                    },
                    None => 0,
                };
                (Some(TailCursor { tuple: t, seen: self.run.saturating_add(carry) }), self.rows)
            },
        }
    }
}

/// Following the rows one by one comes to the same as looking at the whole page.
pub proof fn law_tracker_follows_the_page(
    rows: Seq<RowKey>,
    row: RowKey,
    prev: Option<TailCursor>,
)
    ensures
        followed(rows).stepped(row) == followed(rows.push(row)),
        followed(rows).cursor_after(prev) == advanced(prev, rows),
{
    let next = rows.push(row);
    assert(next.drop_last() =~= rows);
    if rows.len() > 0 {
        assert(next[next.len() - 2] == rows.last());
    }
}

// ---------------------------------------------------------------------
// Pages.
// ---------------------------------------------------------------------

/// Whether a page that failed still leaves an answer: only where the scan went over
/// its byte budget, and not on the first page.
pub open spec fn leaves_answer(e: ErrorView, spent: u64) -> bool {
    spent > 0 && e matches ErrorView::QueryTooBroad(TooBroadReason::ScanBudgetBytes { .. })
}

/// Ends the read with what there is, or with the error.
pub fn classify_page_error(mapped: ReadError, spent: u64) -> (r: Result<bool, ReadError>)
    ensures
        r == (if leaves_answer(mapped@, spent) {
            Ok::<bool, ReadError>(true)
        } else {
            Err(mapped)
        }),
{
    if spent > 0 {
        if let ReadError::QueryTooBroad(TooBroadReason::ScanBudgetBytes { .. }) = &mapped {
            return Ok(true);
        }
    }
    Err(mapped)
}

/// One row of a page.
#[derive(Debug)]
pub struct PageRow {
    pub timestamp_ns: i64,
    pub body_hash: u64,
    pub row: SampledRow,
}

impl PageRow {
    /// The row's place.
    pub open spec fn key(self) -> RowKey {
        (self.timestamp_ns, self.row.fingerprint, self.body_hash)
    }
}

/// How far a page has been drained.
pub struct Drained {
    pub rows: Seq<RowKey>,
    pub trace: Seq<Observation>,
    pub matched: u32,
    pub failed: Option<ErrorView>,
}

/// One more item of a page. Nothing counts behind the first error, and a row counts
/// for the cursor alone once enough have been observed.
pub open spec fn drained_one(
    d: Drained,
    item: Result<PageRow, ReadError>,
    streams: Map<u64, LabelSet>,
    line_limit: u32,
) -> Drained {
    if d.failed is Some {
        d
    } else {
        match item {
            Err(e) => Drained { failed: Some(e@), ..d },
            Ok(row) => {
                let seen = Drained { rows: d.rows.push(row.key()), ..d };
                if d.matched >= line_limit {
                    seen
                } else {
                    let fed = detected_probe::fed(row.row, streams);
                    let observed = Drained { trace: d.trace + fed.trace, ..seen };
                    match fed.result {
                        Err(e) => Drained { failed: Some(e), ..observed },
                        Ok(true) => Drained { matched: (d.matched + 1) as u32, ..observed },
                        Ok(false) => observed,
                    }
                }
            },
        }
    }
}

/// A page drained from its start.
pub open spec fn drained(
    items: Seq<Result<PageRow, ReadError>>,
    matched: u32,
    streams: Map<u64, LabelSet>,
    line_limit: u32,
) -> Drained
    decreases items.len(),
{
    if items.len() == 0 {
        Drained { rows: Seq::empty(), trace: Seq::empty(), matched, failed: None }
    } else {
        drained_one(
            drained(items.drop_last(), matched, streams, line_limit),
            items.last(),
            streams,
            line_limit,
        )
    }
}

/// What is carried between pages.
#[derive(Debug)]
pub struct DetectedPagedState {
    pub feeder: DetectedRowFeeder,
    pub cursor: Option<TailCursor>,
    /// The bytes read.
    pub spent: u64,
    /// The rows observed.
    pub matched: u32,
    pub page_size: u32,
    /// How many rows to observe.
    pub line_limit: u32,
    /// The bytes that may be read.
    pub budget: u64,
}

/// The bytes read after a page. A page that does not say what it read is taken to
/// have read all that was left.
pub open spec fn spent_after(spent: u64, budget: u64, read: Option<u64>) -> u64 {
    let more: int = match read {
        Some(n) => n as int,
        None => if budget > spent {
            budget - spent
        } else {
            0
        },
    };
    text::saturate(spent + more)
}

/// The bytes read after a page that may have failed: a page that failed is not counted.
pub open spec fn page_spent(
    failed: Option<ErrorView>,
    spent: u64,
    budget: u64,
    read: Option<u64>,
) -> u64 {
    match failed {
        None => spent_after(spent, budget, read),
        Some(_) => spent,
    }
}

/// How a page ends: with an error, with `Some(true)` where the read stops short of
/// its end, with `Some(false)` where it is complete, and with `None` where there is
/// another page.
pub open spec fn page_ending(
    failed: Option<ErrorView>,
    spent: u64,
    matched: u32,
    line_limit: u32,
    fetched: u32,
    page_size: u32,
) -> Result<Option<bool>, ErrorView> {
    match failed {
        Some(e) => if leaves_answer(e, spent) {
            Ok(Some(true))
        } else {
            Err(e)
        },
        None => if matched >= line_limit || fetched < page_size {
            Ok(Some(false))
        } else {
            Ok(None)
        },
    }
}

/// How a page ended, with what an error says.
pub open spec fn page_view(r: Result<Option<bool>, ReadError>) -> Result<Option<bool>, ErrorView> {
    match r {
        Ok(b) => Ok(b),
        Err(e) => Err(e@),
    }
}

impl DetectedPagedState {
    /// Takes one row of a page: the tracker follows it, and it is fed unless enough
    /// have been observed.
    pub fn absorb_row<U: Fn(&str, Unit) -> bool>(
        &mut self,
        tracker: &mut TailCursorTracker,
        row: PageRow,
        base_labels: &HashMap<u64, LabelSet>,
        acc: &mut FieldAccumulator,
        reads: &U,
    ) -> (r: Result<(), ReadError>)
        requires
            old(acc).wf(),
            forall|s: &str, u: Unit| call_requires(*reads, (s, u)),
        ensures
            final(acc).wf(),
            *final(tracker) == old(tracker).stepped(row.key()),
            ({
                let fed = detected_probe::fed(row.row, base_labels@);
                if old(self).matched >= old(self).line_limit {
                    r is Ok && *final(self) == *old(self) && final(acc)@ == old(acc)@
                } else {
                    &&& detected::observes(*reads, old(acc)@, final(acc)@, fed.trace)
                    &&& match fed.result {
                        Err(e) => r is Err && r->Err_0@ == e,
                        Ok(_) => r is Ok,
                    }
                    &&& *final(self) == (DetectedPagedState {
                        feeder: final(self).feeder,
                        matched: if fed.result == Ok::<bool, ErrorView>(true) {
                            (old(self).matched + 1) as u32
                        } else {
                            old(self).matched
                        },
                        ..*old(self)
                    })
                    &&& final(self).feeder.wf()
                }
            }),
    {
        tracker.observe(row.timestamp_ns, row.row.fingerprint, row.body_hash);
        if self.matched >= self.line_limit {
            return Ok(());
        }
        match self.feeder.feed_row(row.row, base_labels, acc, reads) {
            Ok(true) => {
                self.matched = self.matched + 1;
                Ok(())
            },
            Ok(false) => Ok(()),
            Err(e) => Err(e),
        }
    }

    /// Ends a page: moves the cursor over the rows it had, counts what it read, and
    /// decides how to go on.
    pub fn end_page(
        &mut self,
        tracker: TailCursorTracker,
        failed: Option<ReadError>,
        read_bytes: Option<u64>,
    ) -> (r: Result<Option<bool>, ReadError>)
        ensures
            ({
                let error = match failed {
                    None => None::<ErrorView>,
                    Some(e) => Some(e@),
                };
                &&& page_view(r) == page_ending(
                    error,
                    old(self).spent,
                    old(self).matched,
                    old(self).line_limit,
                    tracker.rows,
                    old(self).page_size,
                )
                &&& final(self).spent == page_spent(
                    error,
                    old(self).spent,
                    old(self).budget,
                    read_bytes,
                )
                &&& *final(self) == (DetectedPagedState {
                    cursor: tracker.cursor_after(old(self).cursor),
                    spent: if failed is None {
                        spent_after(old(self).spent, old(self).budget, read_bytes)
                    } else {
                        old(self).spent
                    },
                    ..*old(self)
                })
            }),
    {
        let (cursor, fetched) = tracker.finish(self.cursor);
        self.cursor = cursor;
        if let Some(mapped) = failed {
            return match classify_page_error(mapped, self.spent) {
                Ok(b) => Ok(Some(b)),
                Err(e) => Err(e),
            };
        }
        let read: u64 = match read_bytes {
            Some(n) => n,
            None => if self.budget > self.spent {
                self.budget - self.spent
            } else {
                0
            },
        };
        self.spent = self.spent.saturating_add(read);
        if self.matched >= self.line_limit || fetched < self.page_size {
            return Ok(Some(false));
        }
        Ok(None)
    }

    /// Drains one page and ends it.
    pub fn absorb_page<U: Fn(&str, Unit) -> bool>(
        &mut self,
        items: Vec<Result<PageRow, ReadError>>,
        read_bytes: Option<u64>,
        base_labels: &HashMap<u64, LabelSet>,
        acc: &mut FieldAccumulator,
        reads: &U,
    ) -> (r: Result<Option<bool>, ReadError>)
        requires
            old(acc).wf(),
            forall|s: &str, u: Unit| call_requires(*reads, (s, u)),
        ensures
            final(acc).wf(),
            ({
                let d = drained(
                    items@,
                    old(self).matched,
                    base_labels@,
                    old(self).line_limit,
                );
                &&& detected::observes(*reads, old(acc)@, final(acc)@, d.trace)
                &&& page_view(r) == page_ending(
                    d.failed,
                    old(self).spent,
                    d.matched,
                    old(self).line_limit,
                    clip(d.rows.len() as int),
                    old(self).page_size,
                )
                &&& final(self).cursor == advanced(old(self).cursor, d.rows)
                &&& final(self).matched == d.matched
                &&& old(self).feeder.wf() ==> final(self).feeder.wf()
                &&& final(self).spent == (if d.failed is None {
                    spent_after(old(self).spent, old(self).budget, read_bytes)
                } else {
                    old(self).spent
                })
                &&& final(self).spent == page_spent(
                    d.failed,
                    old(self).spent,
                    old(self).budget,
                    read_bytes,
                )
                &&& final(self).page_size == old(self).page_size
                &&& final(self).line_limit == old(self).line_limit
                &&& final(self).budget == old(self).budget
            }),
    {
        let ghost all = items@;
        let ghost start = acc@;
        let ghost before = *self;
        let ghost streams = base_labels@;
        let mut tracker = TailCursorTracker::new();
        let mut failed: Option<ReadError> = None;
        proof {
            assert(all.take(0) =~= Seq::<Result<PageRow, ReadError>>::empty());
        }
        for item in it: items
            invariant
                it.seq() == all,
                streams == base_labels@,
                acc.wf(),
                ({
                    let d = drained(
                        all.take(it.index() as int),
                        before.matched,
                        streams,
                        before.line_limit,
                    );
                    &&& detected::observes(*reads, start, acc@, d.trace)
                    &&& tracker == followed(d.rows)
                    &&& self.matched == d.matched
                    &&& d.failed == match failed {
                        None => None::<ErrorView>,
                        Some(e) => Some(e@),
                    }
                }),
                before.feeder.wf() ==> self.feeder.wf(),
                self.cursor == before.cursor,
                self.spent == before.spent,
                self.page_size == before.page_size,
                self.line_limit == before.line_limit,
                self.budget == before.budget,
                forall|s: &str, u: Unit| call_requires(*reads, (s, u)),
        {
            let ghost n = it.index() as int;
            let ghost d = drained(
                all.take(n),
                before.matched,
                streams,
                before.line_limit,
            );
            proof {
                assert(all.take(n + 1).drop_last() =~= all.take(n));
                assert(all.take(n + 1).last() == item);
            }
            if failed.is_none() {
                match item {
                    Err(e) => {
                        failed = Some(e);
                    },
                    Ok(row) => {
                        let ghost mid = acc@;
                        let ghost key = row.key();
                        let ghost fed = detected_probe::fed(row.row, streams);
                        let ghost limited = self.matched >= self.line_limit;
                        match self.absorb_row(&mut tracker, row, base_labels, acc, reads) {
                            Ok(()) => {},
                            Err(e) => {
                                failed = Some(e);
                            },
                        }
                        proof {
                            law_tracker_follows_the_page(d.rows, key, None);
                            if !limited {
                                detected::lemma_observes_join(
                                    *reads,
                                    start,
                                    mid,
                                    acc@,
                                    d.trace,
                                    fed.trace,
                                );
                            }
                        }
                    },
                }
            }
        }
        proof {
            assert(all.take(all.len() as int) =~= all);
        }
        proof {
            let rows = drained(all, before.matched, streams, before.line_limit).rows;
            law_tracker_follows_the_page(rows, (0, 0, 0), before.cursor);
        }
        self.end_page(tracker, failed, read_bytes)
    }
}

/// Every row before the first error moves the cursor, however many were observed.
pub proof fn law_page_is_drained_past_the_limit(
    items: Seq<Result<PageRow, ReadError>>,
    matched: u32,
    streams: Map<u64, LabelSet>,
    line_limit: u32,
)
    requires
        drained(items, matched, streams, line_limit).failed is None,
    ensures
        drained(items, matched, streams, line_limit).rows.len() == items.len(),
        forall|i: int|
            0 <= i < items.len() ==> (#[trigger] items[i]) is Ok && drained(
                items,
                matched,
                streams,
                line_limit,
            ).rows[i] == items[i]->Ok_0.key(),
    decreases items.len(),
{
    if items.len() > 0 {
        let front = items.drop_last();
        law_page_is_drained_past_the_limit(front, matched, streams, line_limit);
        assert forall|i: int| 0 <= i < items.len() implies (#[trigger] items[i]) is Ok && drained(
            items,
            matched,
            streams,
            line_limit,
        ).rows[i] == items[i]->Ok_0.key() by {
            if i < front.len() {
                assert(front[i] == items[i]);
            }
        }
    }
}

/// Rows are observed up to the limit and not beyond it.
pub proof fn law_observed_rows_stay_within_the_limit(
    items: Seq<Result<PageRow, ReadError>>,
    matched: u32,
    streams: Map<u64, LabelSet>,
    line_limit: u32,
)
    requires
        matched <= line_limit,
    ensures
        matched <= drained(items, matched, streams, line_limit).matched <= line_limit,
    decreases items.len(),
{
    if items.len() > 0 {
        law_observed_rows_stay_within_the_limit(items.drop_last(), matched, streams, line_limit);
    }
}

/// What a page that was cut short has observed is the beginning of what the whole
/// page observes.
pub proof fn law_cut_page_observes_a_beginning(
    items: Seq<Result<PageRow, ReadError>>,
    cut: int,
    matched: u32,
    streams: Map<u64, LabelSet>,
    line_limit: u32,
)
    requires
        0 <= cut <= items.len(),
    ensures
        drained(items.take(cut), matched, streams, line_limit).trace.is_prefix_of(
            drained(items, matched, streams, line_limit).trace,
        ),
        drained(items.take(cut), matched, streams, line_limit).rows.is_prefix_of(
            drained(items, matched, streams, line_limit).rows,
        ),
    decreases items.len(),
{
    if cut == items.len() {
        assert(items.take(cut) =~= items);
    } else {
        let front = items.drop_last();
        assert(front.take(cut) =~= items.take(cut));
        law_cut_page_observes_a_beginning(front, cut, matched, streams, line_limit);
        let a = drained(items.take(cut), matched, streams, line_limit);
        let b = drained(front, matched, streams, line_limit);
        let c = drained(items, matched, streams, line_limit);
        assert(b.trace.is_prefix_of(c.trace) && b.rows.is_prefix_of(c.rows));
        assert(a.trace =~= c.trace.subrange(0, a.trace.len() as int));
        assert(a.rows =~= c.rows.subrange(0, a.rows.len() as int));
    }
}

/// Behind the first error of a page nothing counts.
pub proof fn law_nothing_counts_behind_an_error(
    items: Seq<Result<PageRow, ReadError>>,
    cut: int,
    matched: u32,
    streams: Map<u64, LabelSet>,
    line_limit: u32,
)
    requires
        0 <= cut <= items.len(),
        drained(items.take(cut), matched, streams, line_limit).failed is Some,
    ensures
        drained(items, matched, streams, line_limit) == drained(
            items.take(cut),
            matched,
            streams,
            line_limit,
        ),
    decreases items.len(),
{
    if cut == items.len() {
        assert(items.take(cut) =~= items);
    } else {
        let front = items.drop_last();
        assert(front.take(cut) =~= items.take(cut));
        law_nothing_counts_behind_an_error(front, cut, matched, streams, line_limit);
    }
}

} // verus!
