//! What charges cover, and how a read goes on from page to page.
use vstd::prelude::*;
use crate::charge::{self, AggCaps, CounterPlurality};
use crate::detected::{self, Unit};
use crate::detected_probe::{self, Fed};
use crate::error::{ErrorView, ReadError, TooBroadReason};
use crate::model::QueryResult;
use crate::paging::{self, PageRow, RowKey, TailCursor};
use crate::probe::{self, ProbeView};
use crate::text::{self, LabelSet, PairView};

verus! {

// ---------------------------------------------------------------------
// Charges.
// ---------------------------------------------------------------------

/// A block costs twice its content, and never less than the smallest block; while it grows
/// it costs three times that. More content never costs less.
pub proof fn law_blocks_cost_twice_their_content(m: int, n: int)
    requires
        0 <= m <= n,
        6 * n <= u64::MAX,
    ensures
        charge::block_bytes(n) >= 2 * n,
        charge::block_bytes(n) >= 32,
        charge::block_bytes(n) == 2 * n || charge::block_bytes(n) == 32,
        charge::block_bytes(m) <= charge::block_bytes(n),
        charge::grown_bytes(n) == 3 * charge::block_bytes(n),
{
}

/// An entry of a map costs eight times its slot with a control byte, and a group of control
/// bytes.
pub proof fn law_slots_cost_eight_times_their_width(slot: int)
    requires
        0 <= slot,
        slot * 8 + 136 <= u64::MAX,
    ensures
        charge::map_slot_bytes(slot) == 8 * slot + 136,
{
}

/// The names and values of labels cost a block each, pair by pair.
pub proof fn law_labels_cost_pair_by_pair(labels: Seq<PairView>, p: PairView)
    ensures
        charge::pair_bytes(Seq::empty()) == 0,
        charge::pair_bytes(labels.push(p)) == charge::pair_bytes(labels) + charge::block_bytes(
            text::byte_count(p.0),
        ) + charge::block_bytes(text::byte_count(p.1)),
{
    assert(labels.push(p).drop_last() =~= labels);
}

/// A group costs its slot in the map, its key while that grows, and its labels with the
/// list that holds them; where all of that fits, it costs exactly their sum, and else the
/// most there is.
pub proof fn law_groups_cost_slot_key_and_labels(
    key: Seq<char>,
    labels: Seq<PairView>,
    slot: int,
)
    requires
        0 <= slot,
        labels.len() * vstd::layout::size_of::<(String, String)>() <= u64::MAX,
    ensures
        ({
            let list = labels.len() * vstd::layout::size_of::<(String, String)>();
            let own = charge::pair_bytes(labels) + charge::block_bytes(list as int);
            let whole = charge::map_slot_bytes(slot) + charge::grown_bytes(
                text::byte_count(key),
            ) + own;
            &&& own <= u64::MAX ==> charge::labels_bytes(labels) == own
            &&& whole <= u64::MAX ==> charge::entry_bytes(key, labels, slot) == whole
            &&& whole > u64::MAX ==> charge::entry_bytes(key, labels, slot) == u64::MAX
        }),
{
}

/// Releasing what was charged gives back what stood before it, and releasing more leaves
/// nothing.
pub proof fn law_releases_undo_charges(charged: int, n: int, m: int)
    requires
        0 <= charged,
        0 <= n,
        0 <= m,
    ensures
        charge::released(charged + n, n) == charged,
        charge::released(charged, charged + m) == 0,
        charge::released(charged, 0) == charged,
        0 <= charge::released(charged, n) <= charged,
{
}

/// What a leaf retains at most is what each of its counters may retain, as often as it is
/// kept, and the points it emits, once as they are and once folded.
pub proof fn law_leaves_retain_what_their_counters_may(
    caps: AggCaps,
    n: CounterPlurality,
    m: CounterPlurality,
)
    requires
        m == (CounterPlurality { group_bytes: (n.group_bytes + 1) as u64, ..n }),
        n.group_bytes < u64::MAX,
    ensures
        charge::leaf_bound(caps, m) == charge::leaf_bound(caps, n) + caps.group_bytes,
        charge::leaf_bound(
            caps,
            CounterPlurality {
                group_bytes: 0,
                retention_points: 0,
                quantile_values: 0,
                counter_values: 0,
                collision_members: 0,
                collision_bytes: 0,
                result_points: n.result_points,
            },
        ) == charge::block_bytes(caps.result_points * 16) + charge::block_bytes(
            caps.result_points * 24,
        ),
        charge::leaf_bound(
            caps,
            CounterPlurality {
                group_bytes: 1,
                retention_points: 1,
                quantile_values: 1,
                counter_values: 1,
                collision_members: 1,
                collision_bytes: 1,
                result_points: n.result_points,
            },
        ) == caps.group_bytes + charge::block_bytes(caps.retention_points * 32)
            + charge::block_bytes(caps.quantile_values * 8) + charge::block_bytes(
            caps.counter_values * 16,
        ) + caps.collision_bytes + charge::block_bytes(caps.result_points * 16)
            + charge::block_bytes(caps.result_points * 24),
{
    assert((n.group_bytes + 1) * caps.group_bytes == n.group_bytes * caps.group_bytes
        + caps.group_bytes) by (nonlinear_arith);
    assert(0 * caps.group_bytes == 0) by (nonlinear_arith);
    assert(1 * caps.collision_members * charge::COLLISION_MEMBER_BYTES == 0) by (nonlinear_arith)
        requires
            charge::COLLISION_MEMBER_BYTES == 0,
    ;
    assert(n.collision_members * caps.collision_members * charge::COLLISION_MEMBER_BYTES == 0)
        by (nonlinear_arith)
        requires
            charge::COLLISION_MEMBER_BYTES == 0,
    ;
}

/// A result has as many series as it has members, whatever they hold; streams, scalars and
/// texts have none to count.
pub proof fn law_results_count_their_members(result: QueryResult)
    ensures
        charge::series_count(result) is Some <==> (result is Vector || result is Matrix || result
            is VectorHist || result is MatrixHist),
        result matches QueryResult::Vector(v) ==> charge::series_count(result) == Some(v@.len()),
        result matches QueryResult::Matrix(m) ==> charge::series_count(result) == Some(m@.len()),
        result matches QueryResult::VectorHist(v) ==> charge::series_count(result) == Some(
            v@.len(),
        ),
        result matches QueryResult::MatrixHist(m) ==> charge::series_count(result) == Some(
            m@.len(),
        ),
{
}

// ---------------------------------------------------------------------
// Buffers.
// ---------------------------------------------------------------------

/// A buffer is carried from row to row whole, or not at all where it is too large.
pub proof fn law_buffers_are_carried_whole_or_not(capacity: usize, cap: usize)
    ensures
        capacity <= cap ==> detected_probe::carried(capacity, cap) == capacity,
        capacity > cap ==> detected_probe::carried(capacity, cap) == 0,
{
}

// ---------------------------------------------------------------------
// Pages.
// ---------------------------------------------------------------------

/// The run at the end of a page is as long as rows with the place of the last one stand
/// there without another between, and no longer.
pub proof fn law_the_trailing_run_is_maximal(rows: Seq<RowKey>)
    requires
        rows.len() > 0,
    ensures
        ({
            let n = paging::trailing_run(rows) as int;
            &&& 1 <= n <= rows.len()
            &&& forall|i: int|
                rows.len() - n <= i < rows.len() ==> #[trigger] rows[i] == rows.last()
            &&& n < rows.len() ==> rows[rows.len() - n - 1] != rows.last()
        }),
    decreases rows.len(),
{
    if rows.len() > 1 && rows.last() == rows[rows.len() - 2] {
        let front = rows.drop_last();
        law_the_trailing_run_is_maximal(front);
        let n = paging::trailing_run(front) as int;
        assert(front.last() == rows.last());
        assert forall|i: int| rows.len() - (n + 1) <= i < rows.len() implies #[trigger] rows[i]
            == rows.last() by {
            if i < front.len() {
                assert(front[i] == rows[i]);
            }
        }
        if n + 1 < rows.len() {
            assert(front[front.len() - n - 1] == rows[rows.len() - (n + 1) - 1]);
        }
    }
}

proof fn lemma_run_of_same(rows: Seq<RowKey>, t: RowKey)
    requires
        rows.len() > 0,
        forall|i: int| 0 <= i < rows.len() ==> #[trigger] rows[i] == t,
    ensures
        paging::trailing_run(rows) == rows.len(),
    decreases rows.len(),
{
    if rows.len() > 1 {
        let front = rows.drop_last();
        assert forall|i: int| 0 <= i < front.len() implies #[trigger] front[i] == t by {
            assert(front[i] == rows[i]);
        }
        lemma_run_of_same(front, t);
        assert(rows[rows.len() - 2] == t && rows[rows.len() - 1] == t);
    }
}

proof fn lemma_run_joins(a: Seq<RowKey>, b: Seq<RowKey>)
    requires
        a.len() > 0,
        forall|i: int| 0 <= i < b.len() ==> #[trigger] b[i] == a.last(),
    ensures
        paging::trailing_run(a + b) == paging::trailing_run(a) + b.len(),
    decreases b.len(),
{
    if b.len() == 0 {
        assert(a + b =~= a);
    } else {
        let front = b.drop_last();
        assert forall|i: int| 0 <= i < front.len() implies #[trigger] front[i] == a.last() by {
            assert(front[i] == b[i]);
        }
        lemma_run_joins(a, front);
        let all = a + b;
        assert(all.drop_last() =~= a + front);
        assert(all.last() == b[b.len() - 1]);
        if front.len() > 0 {
            assert(all[all.len() - 2] == b[b.len() - 2]);
        } else {
            assert(all[all.len() - 2] == a[a.len() - 1]);
        }
    }
}

/// A cursor stands at the last row of the last page that had any, and has seen the rows of
/// that place in one run: a page that goes on at the same place adds its rows to those seen
/// there, and one that ends elsewhere starts anew. Cutting a run in two pages changes
/// nothing.
pub proof fn law_cursors_count_the_rows_of_their_place(
    prev: Option<TailCursor>,
    a: Seq<RowKey>,
    b: Seq<RowKey>,
)
    requires
        a.len() > 0,
        a.len() + b.len() <= u32::MAX,
    ensures
        paging::advanced(prev, Seq::empty()) == prev,
        (paging::advanced(prev, a)->0).tuple == a.last(),
        paging::advanced(prev, a) is Some,
        (prev is None || (prev->0).tuple != a.last()) ==> (paging::advanced(prev, a)->0).seen
            == paging::trailing_run(a),
        prev is Some && (prev->0).tuple == a.last() && (prev->0).seen + paging::trailing_run(a)
            <= u32::MAX ==> (paging::advanced(prev, a)->0).seen == (prev->0).seen
            + paging::trailing_run(a),
        (forall|i: int| 0 <= i < b.len() ==> #[trigger] b[i] == a.last()) ==> paging::advanced(
            paging::advanced(prev, a),
            b,
        ) == paging::advanced(prev, a + b),
{
    law_the_trailing_run_is_maximal(a);
    if forall|i: int| 0 <= i < b.len() ==> #[trigger] b[i] == a.last() {
        lemma_run_joins(a, b);
        if b.len() > 0 {
            lemma_run_of_same(b, a.last());
            assert(b.last() == b[b.len() - 1]);
            assert((a + b).last() == a.last());
        } else {
            assert(a + b =~= a);
        }
    }
}

/// What a page read is added to what was read before; a page that does not say what it read
/// has used up the budget.
pub proof fn law_pages_use_up_what_they_read(spent: u64, budget: u64, n: u64)
    ensures
        spent + n <= u64::MAX ==> paging::spent_after(spent, budget, Some(n)) == spent + n,
        spent + n > u64::MAX ==> paging::spent_after(spent, budget, Some(n)) == u64::MAX,
        spent <= budget ==> paging::spent_after(spent, budget, None) == budget,
        spent > budget ==> paging::spent_after(spent, budget, None) == spent,
{
}

/// A read ends with an answer that stops short only where a later page went over the scan's
/// byte budget; any other error ends it, also on the first page. Without an error it is
/// complete once enough rows were observed or a page was not full, and else goes on.
pub proof fn law_reads_end_or_go_on(
    failed: Option<ErrorView>,
    spent: u64,
    matched: u32,
    line_limit: u32,
    fetched: u32,
    page_size: u32,
)
    ensures
        ({
            let r = paging::page_ending(failed, spent, matched, line_limit, fetched, page_size);
            let over = failed matches Some(
                ErrorView::QueryTooBroad(TooBroadReason::ScanBudgetBytes { .. }),
            );
            &&& r == Ok::<Option<bool>, ErrorView>(Some(true)) <==> over && spent > 0
            &&& r is Err <==> failed is Some && !(over && spent > 0)
            &&& r matches Err(e) ==> failed == Some(e)
            &&& r == Ok::<Option<bool>, ErrorView>(Some(false)) <==> failed is None && (matched
                >= line_limit || fetched < page_size)
            &&& r == Ok::<Option<bool>, ErrorView>(None) <==> failed is None && matched
                < line_limit && fetched >= page_size
        }),
{
}

/// One more row of a page that has not failed moves the cursor to its place, its time, its
/// stream and the hash of its body. While fewer rows than the limit were observed it is
/// observed too, and counts where it survived; past the limit it is not looked at.
pub proof fn law_rows_are_observed_up_to_the_limit(
    items: Seq<Result<PageRow, ReadError>>,
    row: PageRow,
    matched: u32,
    streams: Map<u64, LabelSet>,
    line_limit: u32,
)
    requires
        paging::drained(items, matched, streams, line_limit).failed is None,
    ensures
        ({
            let d = paging::drained(items, matched, streams, line_limit);
            let e = paging::drained(
                items.push(Ok::<PageRow, ReadError>(row)),
                matched,
                streams,
                line_limit,
            );
            let fed = detected_probe::fed(row.row, streams);
            &&& e.rows == d.rows.push((row.timestamp_ns, row.row.fingerprint, row.body_hash))
            &&& d.matched >= line_limit ==> e.trace == d.trace && e.matched == d.matched
                && e.failed is None
            &&& d.matched < line_limit ==> {
                &&& e.trace == d.trace + fed.trace
                &&& fed.result == Ok::<bool, ErrorView>(true) ==> e.matched == d.matched + 1
                    && e.failed is None
                &&& fed.result == Ok::<bool, ErrorView>(false) ==> e.matched == d.matched
                    && e.failed is None
                &&& fed.result matches Err(why) ==> e.failed == Some(why) && e.matched
                    == d.matched
            }
        }),
{
    let all = items.push(Ok::<PageRow, ReadError>(row));
    assert(all.drop_last() =~= items);
    assert(all.last() == Ok::<PageRow, ReadError>(row));
}

/// An item of a page that could not be read fails the page there, with what was observed
/// before it.
pub proof fn law_unread_items_fail_the_page(
    items: Seq<Result<PageRow, ReadError>>,
    why: ReadError,
    matched: u32,
    streams: Map<u64, LabelSet>,
    line_limit: u32,
)
    requires
        paging::drained(items, matched, streams, line_limit).failed is None,
    ensures
        ({
            let d = paging::drained(items, matched, streams, line_limit);
            let e = paging::drained(
                items.push(Err::<PageRow, ReadError>(why)),
                matched,
                streams,
                line_limit,
            );
            &&& e.failed == Some(why@)
            &&& e.rows == d.rows && e.trace == d.trace && e.matched == d.matched
        }),
{
    let all = items.push(Err::<PageRow, ReadError>(why));
    assert(all.drop_last() =~= items);
    assert(all.last() == Err::<PageRow, ReadError>(why));
}

/// A fresh probe asks for pages of as many rows as it is to observe, at least one, and has
/// observed none.
pub proof fn law_probes_start_with_nothing(line_limit: u32, field_limit: u32, budget: u64)
    ensures
        ({
            let p = probe::fresh_probe(line_limit, field_limit, budget);
            &&& p.page_size >= 1
            &&& line_limit >= 1 ==> p.page_size == line_limit
            &&& p.line_limit == line_limit
            &&& p.matched == 0 && p.spent == 0 && p.cursor is None
            &&& p.fields.fields.len() == 0 && p.fields.field_limit == field_limit
            &&& p.fields.budget.budget == budget && p.fields.budget.charged == 0
            &&& !p.fields.budget.capped
        }),
{
}

/// A result is refused where it has more than five hundred series, and only then.
pub proof fn law_results_have_at_most_five_hundred_series(result: QueryResult)
    ensures
        charge::series_refusal(result) is Some <==> (charge::series_count(result) matches Some(n)
            && n > 500),
        charge::series_refusal(result) matches Some(e) ==> e == ErrorView::QueryTooBroad(
            TooBroadReason::MetricSeries { cap: 500 },
        ),
{
}

/// The limits a query is evaluated under, and their shares.
pub proof fn law_limits_are_the_published_ones()
    ensures
        ({
            let caps = AggCaps::default_caps();
            &&& caps.group_bytes == 256 * 1024 * 1024
            &&& caps.retention_points == 4_000_000
            &&& caps.quantile_values == 4_000_000
            &&& caps.counter_values == 4_000_000
            &&& caps.collision_members == 10_000
            &&& caps.collision_bytes == 8 * 1024 * 1024
            &&& caps.result_points == 12_000_000
        }),
        detected::MAX_DETECTED_FIELD_BYTES == 64 * 1024 * 1024,
{
}

/// What the buffers take is what each of them takes, the lists by their slots and the texts
/// by their bytes; more room never takes less.
pub proof fn law_buffers_take_what_each_takes(
    c: detected_probe::ScratchCapacities,
    merged: usize,
)
    requires
        c.merged <= merged <= 0x1_0000,
        c.metadata <= 0x1_0000,
        c.labels <= 0x1_0000,
        c.err <= 0x1_0000,
        c.details <= 0x1_0000,
        vstd::layout::size_of::<(String, String)>() == 48,
    ensures
        c.bytes() == charge::block_bytes(48 * c.merged) + charge::block_bytes(48 * c.metadata)
            + charge::block_bytes(48 * c.labels) + charge::block_bytes(c.err as int)
            + charge::block_bytes(c.details as int),
        c.bytes() <= (detected_probe::ScratchCapacities { merged, ..c }).bytes(),
        c.trimmed().merged == if c.merged <= 4096 {
            c.merged
        } else {
            0
        },
        c.trimmed().metadata == if c.metadata <= 4096 {
            c.metadata
        } else {
            0
        },
        c.trimmed().labels == if c.labels <= 4096 {
            c.labels
        } else {
            0
        },
        c.trimmed().err == if c.err <= 4096 {
            c.err
        } else {
            0
        },
        c.trimmed().details == if c.details <= 4096 {
            c.details
        } else {
            0
        },
{
}

/// Feeding a row to a probe that has observed enough rows does nothing. Before that it
/// observes the row, counts it where it survived, and changes nothing else.
pub proof fn law_probes_stop_at_their_limit<U: Fn(&str, Unit) -> bool>(
    reads: U,
    a: ProbeView,
    b: ProbeView,
    fed: Fed,
    r: Result<bool, ErrorView>,
)
    requires
        probe::feeds(reads, a, b, fed, r),
    ensures
        a.matched >= a.line_limit ==> b == a && r == Ok::<bool, ErrorView>(false),
        a.matched < a.line_limit ==> {
            &&& r == fed.result
            &&& r == Ok::<bool, ErrorView>(true) ==> b.matched == a.matched + 1
            &&& r != Ok::<bool, ErrorView>(true) ==> b.matched == a.matched
            &&& b.streams == a.streams && b.cursor == a.cursor && b.spent == a.spent
            &&& b.page_size == a.page_size && b.line_limit == a.line_limit && b.budget == a.budget
        },
        b.matched <= a.line_limit || b.matched == a.matched,
{
}

/// A count of rows is itself where it fits, and else the largest there is.
pub proof fn law_row_counts_are_held_at_the_largest(n: int)
    requires
        0 <= n,
    ensures
        n <= u32::MAX ==> paging::clip(n) == n,
        n > u32::MAX ==> paging::clip(n) == u32::MAX,
{
}

/// Dividing the caps among parts loses less than one for each part.
pub proof fn law_divided_caps_lose_only_remainders(caps: AggCaps, n: u64)
    requires
        n > 0,
    ensures
        ({
            let s = caps.share(n);
            &&& 0 <= caps.group_bytes - s.group_bytes * n < n
            &&& 0 <= caps.retention_points - s.retention_points * n < n
            &&& 0 <= caps.quantile_values - s.quantile_values * n < n
            &&& 0 <= caps.counter_values - s.counter_values * n < n
            &&& 0 <= caps.collision_members - s.collision_members * n < n
            &&& 0 <= caps.collision_bytes - s.collision_bytes * n < n
            &&& 0 <= caps.result_points - s.result_points * n < n
        }),
{
    lemma_remainder(caps.group_bytes, n);
    lemma_remainder(caps.retention_points, n);
    lemma_remainder(caps.quantile_values, n);
    lemma_remainder(caps.counter_values, n);
    lemma_remainder(caps.collision_members, n);
    lemma_remainder(caps.collision_bytes, n);
    lemma_remainder(caps.result_points, n);
}

proof fn lemma_remainder(a: u64, n: u64)
    requires
        n > 0,
    ensures
        0 <= a - (a / n) * n < n,
{
    vstd::arithmetic::div_mod::lemma_fundamental_div_mod(a as int, n as int);
    assert((a / n) * n == n * (a / n)) by (nonlinear_arith);
}

/// A page that failed leaves what was read as it was, and any other adds what it read; what
/// was read never falls.
pub proof fn law_failed_pages_read_nothing(
    failed: Option<ErrorView>,
    spent: u64,
    budget: u64,
    n: u64,
)
    ensures
        failed is Some ==> paging::page_spent(failed, spent, budget, Some(n)) == spent,
        failed is Some ==> paging::page_spent(failed, spent, budget, None) == spent,
        failed is None && spent + n <= u64::MAX ==> paging::page_spent(
            failed,
            spent,
            budget,
            Some(n),
        ) == spent + n,
        failed is None && spent <= budget ==> paging::page_spent(failed, spent, budget, None)
            == budget,
        paging::page_spent(failed, spent, budget, Some(n)) >= spent,
        paging::page_spent(failed, spent, budget, None) >= spent,
{
}

/// A refusal says what there was too much of, whatever the numbers are.
pub proof fn law_refusals_say_what_was_too_much(r: TooBroadReason)
    ensures
        r is MetricSeries ==> r.text()@ == "the result has too many series"@,
        r is MetricResultPoints ==> r.text()@ == "the result has too many points"@,
        r is MetricRetention ==> r.text()@ == "the concurrent sample limit was reached"@,
        r is MetricGroupLabelBytes ==> r.text()@ == "the group labels take too many bytes"@,
        r is QuantileValues ==> r.text()@ == "too many values are kept for quantiles"@,
        r is CounterValues ==> r.text()@ == "too many values are kept for counters"@,
        r is TsCollisionGroup ==> r.text()@ == "too many same-nanosecond lines"@,
        r is MetricBuckets ==> r.text()@ == "the step grid is too fine"@,
        r is ScanBudgetBytes ==> r.text()@ == "the scan reads too many bytes"@,
        r is RowBudget ==> r.text()@ == "one row takes too many bytes"@,
{
}

} // verus!
