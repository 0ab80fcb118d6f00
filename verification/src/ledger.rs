//! What becomes of the lines of a range query: every line that counts is held once, under
//! its own labels, with its own time and value, and nothing else is held.
use vstd::prelude::*;
use crate::error::{ErrorView, RowBudgetExceeded};
use crate::model::{ClientValue, MetricRun, MetricScanRow, StreamMeta};
use crate::order;
use crate::range;
use crate::range_model::{self, CurView, GroupView, MemberView, SeriesView, SlideConfig, SlideView};
use crate::slide::{self, WinSample};
use crate::text;
use crate::window::Grid;

verus! {

/// A weight of lines, by their group's key, their stream's hash, their time and what they
/// count.
pub type Weight = spec_fn(Seq<char>, u64, i64, u64) -> int;

/// Whether some window of a grid holds a time.
pub open spec fn in_some_window(grid: Grid, ts: int) -> bool {
    exists|k: int| 0 <= k <= grid.kmax && #[trigger] in_window(grid, k, ts)
}

/// Whether the window that ends on point `k` holds a time.
pub open spec fn in_window(grid: Grid, k: int, ts: int) -> bool {
    let end = grid.start + k * grid.step;
    end - grid.range < ts <= end
}

/// Whether a weight leaves out the lines that no window holds.
pub open spec fn within(grid: Grid, f: Weight) -> bool {
    forall|key: Seq<char>, hash: u64, ts: i64, x: u64|
        !in_some_window(grid, ts as int) ==> #[trigger] f(key, hash, ts, x) == 0
}

/// What a line counts: one, its bytes, or the number unwrapped from it, where there is
/// one.
pub open spec fn row_count(kind: ClientValue, row: MetricScanRow) -> Option<u64> {
    match row.run {
        Ok(MetricRun::Kept { line_len, value, labels }) => match kind {
            ClientValue::Count => Some(1),
            ClientValue::Bytes => Some(line_len),
            ClientValue::Unwrap => value,
        },
        _ => None,
    }
}

/// The labels that name a line's group, where lines are grouped by them.
pub open spec fn row_group(cfg: SlideConfig, row: MetricScanRow) -> Seq<char> {
    match row.run {
        Ok(MetricRun::Kept { line_len, value, labels }) if cfg.fan_out && !cfg.is_absent =>
            text::json_object(order::stable_sort(text::labels_view(labels@), text::pair_le())),
        _ => Seq::empty(),
    }
}

/// What a row weighs: nothing, where its stream is not known or it counts nothing.
pub open spec fn row_weight(
    cfg: SlideConfig,
    streams: Map<u64, StreamMeta>,
    f: Weight,
) -> spec_fn(MetricScanRow) -> int {
    |row: MetricScanRow|
        match row_count(cfg.reducer.value, row) {
            Some(x) if streams.contains_key(row.fingerprint) => f(
                row_group(cfg, row),
                streams[row.fingerprint].stream_hash,
                row.timestamp_ns,
                x,
            ),
            _ => 0,
        }
}

/// What a sample weighs.
pub open spec fn sample_weight(key: Seq<char>, f: Weight) -> spec_fn(WinSample) -> int {
    |s: WinSample| f(key, s.stream_hash, s.ts, s.value)
}

/// What samples weigh.
pub open spec fn hist_weight(key: Seq<char>, hist: Seq<WinSample>, f: Weight) -> int {
    order::sum_of(hist, sample_weight(key, f))
}

/// What a group weighs.
pub open spec fn group_weight(f: Weight) -> spec_fn(GroupView) -> int {
    |g: GroupView| hist_weight(g.key, g.hist, f)
}

/// What a closed series weighs.
pub open spec fn closed_weight(f: Weight) -> spec_fn(SeriesView) -> int {
    |s: SeriesView| hist_weight(Seq::empty(), s.hist, f)
}

/// What a staged line weighs.
spec fn member_weight(hash: u64, ts: i64, f: Weight) -> spec_fn(MemberView) -> int {
    |m: MemberView|
        f(
            match m.out {
                Some(o) => o.0,
                None => Seq::empty(),
            },
            hash,
            ts,
            m.value,
        )
}

/// What a state holds weighs.
spec fn state_weight(streams: Map<u64, StreamMeta>, v: SlideView, f: Weight) -> int {
    held_weight(v, f) + match v.pending {
        Some((fp, ts)) => order::sum_of(
            v.members,
            member_weight(streams[fp].stream_hash, ts, f),
        ),
        None => 0,
    }
}

/// What a state holds weighs, but for what is staged.
pub open spec fn held_weight(v: SlideView, f: Weight) -> int {
    order::sum_of(v.groups, group_weight(f)) + order::sum_of(v.closed, closed_weight(f)) + (
    match v.cur {
        Some(c) => hist_weight(Seq::empty(), c.hist, f),
        None => 0,
    })
}

/// What holds of a state between rows.
spec fn in_order(cfg: SlideConfig, streams: Map<u64, StreamMeta>, v: SlideView, n: int) -> bool {
    &&& v.pending is None ==> v.members.len() == 0
    &&& v.members.len() <= n
    &&& v.cur matches Some(c) ==> c.hash == streams[c.fp].stream_hash
    &&& forall|i: int|
        0 <= i < v.members.len() ==> ((#[trigger] v.members[i]).out is Some <==> cfg.stages_out())
}

// ---------------------------------------------------------------------
// Sums.
// ---------------------------------------------------------------------

proof fn lemma_sum_join<A>(a: Seq<A>, b: Seq<A>, f: spec_fn(A) -> int)
    ensures
        order::sum_of(a + b, f) == order::sum_of(a, f) + order::sum_of(b, f),
    decreases b.len(),
{
    if b.len() == 0 {
        assert(a + b =~= a);
    } else {
        lemma_sum_join(a, b.drop_last(), f);
        assert((a + b).drop_last() =~= a + b.drop_last());
        assert((a + b).last() == b.last());
    }
}

proof fn lemma_sum_push<A>(a: Seq<A>, x: A, f: spec_fn(A) -> int)
    ensures
        order::sum_of(a.push(x), f) == order::sum_of(a, f) + f(x),
{
    assert(a.push(x).drop_last() =~= a);
}

proof fn lemma_sum_update<A>(a: Seq<A>, i: int, x: A, f: spec_fn(A) -> int)
    requires
        0 <= i < a.len(),
    ensures
        order::sum_of(a.update(i, x), f) == order::sum_of(a, f) - f(a[i]) + f(x),
    decreases a.len(),
{
    if i == a.len() - 1 {
        assert(a.update(i, x).drop_last() =~= a.drop_last());
    } else {
        lemma_sum_update(a.drop_last(), i, x, f);
        assert(a.update(i, x).drop_last() =~= a.drop_last().update(i, x));
    }
}

proof fn lemma_sum_zero<A>(a: Seq<A>, f: spec_fn(A) -> int)
    requires
        forall|i: int| 0 <= i < a.len() ==> f(#[trigger] a[i]) == 0,
    ensures
        order::sum_of(a, f) == 0,
    decreases a.len(),
{
    if a.len() > 0 {
        assert forall|i: int| 0 <= i < a.drop_last().len() implies f(
            #[trigger] a.drop_last()[i],
        ) == 0 by {
            assert(a.drop_last()[i] == a[i]);
        }
        lemma_sum_zero(a.drop_last(), f);
        assert(a.last() == a[a.len() - 1]);
    }
}

// ---------------------------------------------------------------------
// Windows.
// ---------------------------------------------------------------------

proof fn lemma_uncovered(grid: Grid, ts: int)
    requires
        grid.wf(),
        grid.first_cover(ts) > grid.last_cover(ts),
    ensures
        !in_some_window(grid, ts),
{
    grid.lemma_cover_run(ts);
    if in_some_window(grid, ts) {
        let k = choose|k: int| 0 <= k <= grid.kmax && #[trigger] in_window(grid, k, ts);
        assert(grid.covers(k, ts));
    }
}

proof fn lemma_has_points(grid: Grid, hist: Seq<WinSample>, k: int, n: int)
    requires
        0 <= k < n,
        slide::window_of(hist, grid.at(k), grid.range as int).len() > 0,
    ensures
        range_model::has_points(grid, hist, n),
    decreases n,
{
    if k < n - 1 {
        lemma_has_points(grid, hist, k, n - 1);
    }
}

proof fn lemma_pointless(grid: Grid, hist: Seq<WinSample>, f: Weight)
    requires
        grid.wf(),
        within(grid, f),
        !range_model::has_points(grid, hist, grid.slots()),
    ensures
        hist_weight(Seq::empty(), hist, f) == 0,
{
    let w = sample_weight(Seq::empty(), f);
    assert forall|i: int| 0 <= i < hist.len() implies w(#[trigger] hist[i]) == 0 by {
        let s = hist[i];
        if in_some_window(grid, s.ts as int) {
            let k = choose|k: int|
                0 <= k <= grid.kmax && #[trigger] in_window(grid, k, s.ts as int);
            let t = grid.at(k);
            let p = |x: WinSample| t - grid.range < x.ts <= t;
            let win = slide::window_of(hist, t, grid.range as int);
            hist.lemma_filter_contains(p, i);
            assert(win.contains(s));
            assert(win.len() > 0);
            lemma_has_points(grid, hist, k, grid.slots());
        }
    }
    lemma_sum_zero(hist, w);
}

// ---------------------------------------------------------------------
// Steps.
// ---------------------------------------------------------------------

proof fn lemma_rotate(cfg: SlideConfig, v: SlideView, f: Weight)
    requires
        cfg.grid.wf(),
        within(cfg.grid, f),
    ensures
        held_weight(range_model::rotate(cfg, v), f) == held_weight(v, f),
        range_model::rotate(cfg, v).cur is None,
        range_model::rotate(cfg, v).pending == v.pending,
        range_model::rotate(cfg, v).members == v.members,
{
    if let Some(c) = v.cur {
        if range_model::has_points(cfg.grid, c.hist, cfg.grid.slots()) {
            lemma_sum_push(
                v.closed,
                SeriesView { labels: c.labels, hist: c.hist },
                closed_weight(f),
            );
        } else {
            lemma_pointless(cfg.grid, c.hist, f);
        }
    }
}

proof fn lemma_ranked(values: Seq<u64>, members: Seq<MemberView>, ts: i64, hash: u64, f: Weight)
    requires
        values == range_model::values_of(members),
        forall|i: int| 0 <= i < members.len() ==> (#[trigger] members[i]).out is None,
    ensures
        hist_weight(Seq::empty(), slide::ranked(values, ts, hash), f) == order::sum_of(
            members,
            member_weight(hash, ts, f),
        ),
    decreases members.len(),
{
    let all = slide::ranked(values, ts, hash);
    if members.len() > 0 {
        let less = members.drop_last();
        assert forall|i: int| 0 <= i < less.len() implies (#[trigger] less[i]).out is None by {
            assert(less[i] == members[i]);
        }
        assert(range_model::values_of(less) =~= values.drop_last());
        lemma_ranked(values.drop_last(), less, ts, hash, f);
        assert(all.drop_last() =~= slide::ranked(values.drop_last(), ts, hash));
        assert(members.last() == members[members.len() - 1]);
    }
}

proof fn lemma_load(cfg: SlideConfig, v: SlideView, ts: i64, members: Seq<MemberView>, f: Weight)
    requires
        v.cur is Some,
        forall|i: int| 0 <= i < members.len() ==> (#[trigger] members[i]).out is None,
    ensures
        range_model::load(cfg, v, ts, members) matches Ok(w) ==> {
            &&& held_weight(w, f) == held_weight(v, f) + order::sum_of(
                members,
                member_weight((v.cur->0).hash, ts, f),
            )
            &&& w.cur is Some
            &&& (w.cur->0).hash == (v.cur->0).hash
            &&& (w.cur->0).fp == (v.cur->0).fp
            &&& w.pending == v.pending
            &&& w.members == v.members
        },
{
    let c = v.cur->0;
    let more = slide::ranked(range_model::values_of(members), ts, c.hash);
    lemma_ranked(range_model::values_of(members), members, ts, c.hash, f);
    lemma_sum_join(c.hist, more, sample_weight(Seq::empty(), f));
}

proof fn lemma_add(cfg: SlideConfig, v: SlideView, i: int, s: WinSample, f: Weight)
    requires
        0 <= i < v.groups.len(),
    ensures
        range_model::add_to_group(cfg, v, i, s) matches Ok(w) ==> {
            &&& held_weight(w, f) == held_weight(v, f) + f(
                v.groups[i].key,
                s.stream_hash,
                s.ts,
                s.value,
            )
            &&& w.cur == v.cur
            &&& w.pending == v.pending
            &&& w.members == v.members
        },
{
    let g = v.groups[i];
    let h = GroupView { hist: g.hist.push(s), ..g };
    lemma_sum_update(v.groups, i, h, group_weight(f));
    lemma_sum_push(g.hist, s, sample_weight(g.key, f));
}

proof fn lemma_fan_one(
    cfg: SlideConfig,
    v: SlideView,
    key: Seq<char>,
    labels: Seq<text::PairView>,
    s: WinSample,
    f: Weight,
)
    requires
        cfg.grid.wf(),
        within(cfg.grid, f),
    ensures
        range_model::fan_one(cfg, v, key, labels, s) matches Ok(w) ==> {
            &&& held_weight(w, f) == held_weight(v, f) + f(key, s.stream_hash, s.ts, s.value)
            &&& w.cur == v.cur
            &&& w.pending == v.pending
            &&& w.members == v.members
        },
{
    if cfg.grid.first_cover(s.ts as int) > cfg.grid.last_cover(s.ts as int) {
        lemma_uncovered(cfg.grid, s.ts as int);
    } else {
        range_model::lemma_group_index_in_range(v.groups, key);
        lemma_group_index_key(v.groups, key);
        match range_model::group_index(v.groups, key) {
            Some(i) => {
                lemma_add(cfg, v, i, s, f);
            },
            None => {
                if let Ok(w) = range_model::open_series(
                    cfg,
                    v,
                    key,
                    labels,
                    range_model::group_slot(),
                ) {
                    let g = GroupView { key, labels, hist: Seq::empty() };
                    let x = SlideView { groups: w.groups.push(g), ..w };
                    lemma_sum_push(w.groups, g, group_weight(f));
                    lemma_add(cfg, x, w.groups.len() as int, s, f);
                }
            },
        }
    }
}

proof fn lemma_group_index_key(groups: Seq<GroupView>, key: Seq<char>)
    ensures
        range_model::group_index(groups, key) matches Some(i) ==> 0 <= i < groups.len()
            && groups[i].key == key,
        range_model::group_index(groups, key) is None ==> forall|i: int|
            0 <= i < groups.len() ==> (#[trigger] groups[i]).key != key,
    decreases groups.len(),
{
    if groups.len() > 0 {
        lemma_group_index_key(groups.drop_last(), key);
        if range_model::group_index(groups, key) is None {
            assert forall|i: int| 0 <= i < groups.len() implies (#[trigger] groups[i]).key
                != key by {
                if i < groups.len() - 1 {
                    assert(groups.drop_last()[i] == groups[i]);
                }
            }
        }
    }
}

proof fn lemma_fan_all(
    cfg: SlideConfig,
    v: SlideView,
    ts: i64,
    hash: u64,
    members: Seq<MemberView>,
    n: int,
    f: Weight,
)
    requires
        cfg.grid.wf(),
        within(cfg.grid, f),
        0 <= n <= members.len(),
        forall|i: int| 0 <= i < members.len() ==> (#[trigger] members[i]).out is Some,
    ensures
        range_model::fan_all(cfg, v, ts, hash, members, n) matches Ok(w) ==> {
            &&& held_weight(w, f) == held_weight(v, f) + order::sum_of(
                members.take(n),
                member_weight(hash, ts, f),
            )
            &&& w.cur == v.cur
            &&& w.pending == v.pending
            &&& w.members == v.members
        },
    decreases n,
{
    if n > 0 {
        lemma_fan_all(cfg, v, ts, hash, members, n - 1, f);
        let m = members[n - 1];
        assert(m.out is Some);
        assert(members.take(n).drop_last() =~= members.take(n - 1));
        assert(members.take(n).last() == m);
        if let Ok(w) = range_model::fan_all(cfg, v, ts, hash, members, n - 1) {
            lemma_fan_one(
                cfg,
                w,
                (m.out->0).0,
                (m.out->0).1,
                WinSample { ts, stream_hash: hash, tie_rank: (n - 1) as u32, value: m.value },
                f,
            );
        }
    }
}

proof fn lemma_ranked_members(
    cfg: SlideConfig,
    members: Seq<MemberView>,
    g: spec_fn(MemberView) -> int,
)
    requires
        members.len() <= usize::MAX,
    ensures
        order::sum_of(range_model::ranked_members(cfg, members), g) == order::sum_of(members, g),
        range_model::ranked_members(cfg, members).len() == members.len(),
        forall|i: int|
            0 <= i < members.len() ==> members.contains(
                #[trigger] range_model::ranked_members(cfg, members)[i],
            ),
{
    let sorted = range_model::ranked_members(cfg, members);
    if cfg.needs_body_order {
        range_model::lemma_body_le_preorder();
        order::lemma_stable_sort_permutes(members, range_model::body_le());
        order::lemma_sum_permutes(sorted, members, g);
        broadcast use vstd::seq_lib::group_to_multiset_ensures;

        assert forall|i: int| 0 <= i < members.len() implies members.contains(
            #[trigger] sorted[i],
        ) by {
            assert(sorted.to_multiset().contains(sorted[i]));
        }
    }
}

proof fn lemma_flush(
    cfg: SlideConfig,
    streams: Map<u64, StreamMeta>,
    v: SlideView,
    n: int,
    f: Weight,
)
    requires
        cfg.grid.wf(),
        within(cfg.grid, f),
        !cfg.is_absent,
        in_order(cfg, streams, v, n),
        n <= usize::MAX,
    ensures
        range_model::flush(cfg, streams, v) matches Ok(w) ==> {
            &&& held_weight(w, f) == state_weight(streams, v, f)
            &&& w.pending is None
            &&& in_order(cfg, streams, w, n)
        },
{
    if let Some((fp, ts)) = v.pending {
        let w = SlideView { pending: None, members: Seq::empty(), coll_bytes: 0, ..v };
        let hash = streams[fp].stream_hash;
        let g = member_weight(hash, ts, f);
        let members = range_model::ranked_members(cfg, v.members);
        lemma_ranked_members(cfg, v.members, g);
        assert forall|i: int| 0 <= i < members.len() implies ((#[trigger] members[i]).out is Some
            <==> cfg.stages_out()) by {
            assert(v.members.contains(members[i]));
        }
        assert(held_weight(w, f) == held_weight(v, f));
        if cfg.fan_out {
            lemma_fan_all(cfg, w, ts, hash, members, members.len() as int, f);
            assert(members.take(members.len() as int) =~= members);
        } else {
            let labels = text::labels_view(streams[fp].labels@);
            if v.cur is Some && (v.cur->0).fp == fp {
                lemma_load(cfg, w, ts, members, f);
            } else {
                lemma_rotate(cfg, w, f);
                if let Ok(x) = range_model::open_series(
                    cfg,
                    range_model::rotate(cfg, w),
                    Seq::empty(),
                    labels,
                    range_model::series_slot(),
                ) {
                    let y = SlideView {
                        cur: Some(CurView { fp, hash, labels, hist: Seq::empty() }),
                        ..x
                    };
                    assert(hist_weight(Seq::empty(), Seq::empty(), f) == 0);
                    assert(held_weight(y, f) == held_weight(range_model::rotate(cfg, w), f));
                    lemma_load(cfg, y, ts, members, f);
                }
            }
        }
    }
}

/// Whether a row of a known stream fails the query: its budget was breached, or a label
/// reports an error.
pub open spec fn row_fails(streams: Map<u64, StreamMeta>, row: MetricScanRow) -> bool {
    &&& streams.contains_key(row.fingerprint)
    &&& match row.run {
        Err(_) => true,
        Ok(MetricRun::Kept { line_len, value, labels }) => exists|i: int|
            0 <= i < labels@.len() && (#[trigger] labels@[i]).0@ == "__error__"@
                && labels@[i].1@.len() > 0,
        Ok(MetricRun::Dropped) => false,
    }
}

pub proof fn lemma_surviving(labels: Seq<text::PairView>)
    ensures
        range_model::surviving_error(labels) is Some <==> exists|i: int|
            0 <= i < labels.len() && (#[trigger] labels[i]).0 == "__error__"@ && labels[i].1.len()
                > 0,
    decreases labels.len(),
{
    if labels.len() > 0 {
        let rest = labels.drop_first();
        lemma_surviving(rest);
        if range_model::surviving_error(rest) is Some {
            let i = choose|i: int|
                0 <= i < rest.len() && (#[trigger] rest[i]).0 == "__error__"@ && rest[i].1.len()
                    > 0;
            assert(labels[i + 1] == rest[i]);
        }
        if exists|i: int|
            0 <= i < labels.len() && (#[trigger] labels[i]).0 == "__error__"@ && labels[i].1.len()
                > 0 {
            let i = choose|i: int|
                0 <= i < labels.len() && (#[trigger] labels[i]).0 == "__error__"@
                    && labels[i].1.len() > 0;
            if i > 0 {
                assert(rest[i - 1] == labels[i]);
            }
        }
    }
}

proof fn lemma_take_row(
    cfg: SlideConfig,
    streams: Map<u64, StreamMeta>,
    v: SlideView,
    row: MetricScanRow,
    n: int,
    f: Weight,
)
    requires
        cfg.grid.wf(),
        within(cfg.grid, f),
        !cfg.is_absent,
        in_order(cfg, streams, v, n),
        n < usize::MAX,
    ensures
        range_model::take_row(cfg, streams, v, row) matches Ok(w) ==> {
            &&& state_weight(streams, w, f) == state_weight(streams, v, f) + row_weight(
                cfg,
                streams,
                f,
            )(row)
            &&& in_order(cfg, streams, w, n + 1)
            &&& !row_fails(streams, row)
        },
{
    let at = (row.fingerprint, row.timestamp_ns);
    lemma_flush(cfg, streams, v, n, f);
    let turned = if v.pending is Some && v.pending->0 != at {
        range_model::flush(cfg, streams, v)
    } else {
        Ok(v)
    };
    if let Ok(w) = turned {
        assert(state_weight(streams, w, f) == state_weight(streams, v, f));
        assert(in_order(cfg, streams, w, n));
        if let Ok(MetricRun::Kept { line_len, value, labels }) = row.run {
            let lv = text::labels_view(labels@);
            lemma_surviving(lv);
            if row_fails(streams, row) {
                let i = choose|i: int|
                    0 <= i < labels@.len() && (#[trigger] labels@[i]).0@ == "__error__"@
                        && labels@[i].1@.len() > 0;
                assert(lv[i].0 == "__error__"@ && lv[i].1.len() > 0);
            }
            if let Some(x) = range_model::line_value(cfg.reducer.value, line_len, value) {
                if let Ok(y) = range_model::stage(cfg, w, at, row.body@, lv, x) {
                    if streams.contains_key(row.fingerprint) {
                        let hash = streams[row.fingerprint].stream_hash;
                        let g = member_weight(hash, row.timestamp_ns, f);
                        lemma_sum_push(w.members, y.members.last(), g);
                        assert(y.members =~= w.members.push(y.members.last()));
                        assert(order::sum_of(Seq::<MemberView>::empty(), g) == 0);
                        if w.pending is None {
                            assert(w.members =~= Seq::empty());
                        }
                        assert(g(y.members.last()) == row_weight(cfg, streams, f)(row));
                        assert(held_weight(y, f) == held_weight(w, f));
                    }
                }
            }
        }
    }
}

proof fn lemma_take_rows(
    cfg: SlideConfig,
    streams: Map<u64, StreamMeta>,
    rows: Seq<MetricScanRow>,
    n: int,
    f: Weight,
)
    requires
        cfg.grid.wf(),
        within(cfg.grid, f),
        !cfg.is_absent,
        0 <= n <= rows.len(),
        rows.len() < usize::MAX,
    ensures
        range_model::take_rows(cfg, streams, range::start_view(), rows, n) matches Ok(w) ==> {
            &&& state_weight(streams, w, f) == order::sum_of(
                rows.take(n),
                row_weight(cfg, streams, f),
            )
            &&& in_order(cfg, streams, w, n)
            &&& forall|i: int| 0 <= i < n ==> !row_fails(streams, #[trigger] rows[i])
        },
    decreases n,
{
    if n > 0 {
        lemma_take_rows(cfg, streams, rows, n - 1, f);
        assert(rows.take(n).drop_last() =~= rows.take(n - 1));
        assert(rows.take(n).last() == rows[n - 1]);
        if let Ok(w) = range_model::take_rows(cfg, streams, range::start_view(), rows, n - 1) {
            lemma_take_row(cfg, streams, w, rows[n - 1], n - 1, f);
        }
    }
}

/// Every line is held once. However lines are weighed, by the labels they are grouped by,
/// by their stream, by their time and by what they count, what a range query ends up
/// holding weighs what its rows weigh: no line that a window holds is lost, none counts
/// twice, and none is moved to another group, stream, time or value. And a query that ends
/// without an error has met no row of a known stream that fails.
pub proof fn law_every_line_is_held_once(
    cfg: SlideConfig,
    streams: Map<u64, StreamMeta>,
    rows: Seq<MetricScanRow>,
    v: SlideView,
    x: SlideView,
    f: Weight,
)
    requires
        cfg.grid.wf(),
        !cfg.is_absent,
        within(cfg.grid, f),
        rows.len() < usize::MAX,
        range_model::take_rows(cfg, streams, range::start_view(), rows, rows.len() as int) == Ok::<
            SlideView,
            ErrorView,
        >(v),
        range::end_state(cfg, streams, v) == Ok::<SlideView, ErrorView>(x),
    ensures
        order::sum_of(x.groups, group_weight(f)) + order::sum_of(x.closed, closed_weight(f))
            == order::sum_of(rows, row_weight(cfg, streams, f)),
        x.cur is None,
        forall|i: int| 0 <= i < rows.len() ==> !row_fails(streams, #[trigger] rows[i]),
{
    lemma_take_rows(cfg, streams, rows, rows.len() as int, f);
    assert(rows.take(rows.len() as int) =~= rows);
    lemma_flush(cfg, streams, v, rows.len() as int, f);
    if let Ok(w) = range_model::flush(cfg, streams, v) {
        lemma_rotate(cfg, w, f);
    }
}

// ---------------------------------------------------------------------
// Groups and series.
// ---------------------------------------------------------------------

/// Whether samples are all of one stream, under its labels.
pub open spec fn of_stream(
    streams: Map<u64, StreamMeta>,
    labels: Seq<text::PairView>,
    hist: Seq<WinSample>,
    fp: u64,
) -> bool {
    &&& streams.contains_key(fp)
    &&& labels == text::labels_view(streams[fp].labels@)
    &&& hist.len() > 0
    &&& forall|i: int|
        0 <= i < hist.len() ==> (#[trigger] hist[i]).stream_hash == streams[fp].stream_hash
}

/// Whether samples are all of one of the streams, under its labels.
pub open spec fn of_some_stream(
    streams: Map<u64, StreamMeta>,
    labels: Seq<text::PairView>,
    hist: Seq<WinSample>,
) -> bool {
    exists|fp: u64| #[trigger] of_stream(streams, labels, hist, fp)
}

/// Whether groups are told apart by their labels, and each holds something that a window
/// holds, under the labels that its key renders.
pub open spec fn told_apart(grid: Grid, groups: Seq<GroupView>) -> bool {
    &&& forall|i: int, j: int|
        0 <= i < j < groups.len() ==> (#[trigger] groups[i]).key != (#[trigger] groups[j]).key
    &&& forall|i: int|
        0 <= i < groups.len() ==> {
            &&& (#[trigger] groups[i]).key == text::json_object(groups[i].labels)
            &&& groups[i].hist.len() > 0
        }
    &&& forall|i: int, k: int|
        0 <= i < groups.len() && 0 <= k < groups[i].hist.len() ==> in_some_window(
            grid,
            (#[trigger] groups[i].hist[k]).ts as int,
        )
}

/// Whether what a state holds is sorted by group and by stream.
spec fn sorted_out(cfg: SlideConfig, streams: Map<u64, StreamMeta>, v: SlideView, n: int) -> bool {
    &&& in_order(cfg, streams, v, n)
    &&& told_apart(cfg.grid, v.groups)
    &&& forall|i: int|
        0 <= i < v.closed.len() ==> of_some_stream(
            streams,
            (#[trigger] v.closed[i]).labels,
            v.closed[i].hist,
        )
    &&& v.cur matches Some(c) ==> of_stream(streams, c.labels, c.hist, c.fp)
    &&& v.pending matches Some(at) ==> streams.contains_key(at.0) && v.members.len() > 0
    &&& forall|i: int|
        0 <= i < v.members.len() ==> ((#[trigger] v.members[i]).out matches Some(o) ==> o.0
            == text::json_object(o.1))
}

proof fn lemma_covered(grid: Grid, ts: int)
    requires
        grid.wf(),
        grid.first_cover(ts) <= grid.last_cover(ts),
    ensures
        in_some_window(grid, ts),
{
    grid.lemma_cover_run(ts);
    let k = grid.first_cover(ts);
    assert(grid.covers(k, ts));
    assert(in_window(grid, k, ts));
}

proof fn lemma_fan_one_apart(
    cfg: SlideConfig,
    v: SlideView,
    key: Seq<char>,
    labels: Seq<text::PairView>,
    s: WinSample,
)
    requires
        cfg.grid.wf(),
        told_apart(cfg.grid, v.groups),
        key == text::json_object(labels),
    ensures
        range_model::fan_one(cfg, v, key, labels, s) matches Ok(w) ==> {
            &&& told_apart(cfg.grid, w.groups)
            &&& w.closed == v.closed
            &&& w.cur == v.cur
            &&& w.pending == v.pending
            &&& w.members == v.members
        },
{
    if cfg.grid.first_cover(s.ts as int) <= cfg.grid.last_cover(s.ts as int) {
        lemma_covered(cfg.grid, s.ts as int);
        lemma_group_index_key(v.groups, key);
        if let Ok(w) = range_model::fan_one(cfg, v, key, labels, s) {
            let at = match range_model::group_index(v.groups, key) {
                Some(i) => i,
                None => v.groups.len() as int,
            };
            assert forall|i: int| 0 <= i < w.groups.len() && i != at implies (
            #[trigger] w.groups[i]) == v.groups[i] by {}
            assert(w.groups[at].key == key);
            assert(w.groups[at].hist.last() == s);
            assert forall|i: int, k: int|
                0 <= i < w.groups.len() && 0 <= k < w.groups[i].hist.len() implies in_some_window(
                cfg.grid,
                (#[trigger] w.groups[i].hist[k]).ts as int,
            ) by {
                if i < v.groups.len() && k < v.groups[i].hist.len() {
                    assert(w.groups[i].hist[k] == v.groups[i].hist[k]);
                } else {
                    assert(w.groups[i].hist[k] == s);
                }
            }
        }
    }
}

proof fn lemma_fan_all_apart(
    cfg: SlideConfig,
    v: SlideView,
    ts: i64,
    hash: u64,
    members: Seq<MemberView>,
    n: int,
)
    requires
        cfg.grid.wf(),
        told_apart(cfg.grid, v.groups),
        0 <= n <= members.len(),
        forall|i: int|
            0 <= i < members.len() ==> (#[trigger] members[i]).out is Some && (members[i].out->0).0
                == text::json_object((members[i].out->0).1),
    ensures
        range_model::fan_all(cfg, v, ts, hash, members, n) matches Ok(w) ==> {
            &&& told_apart(cfg.grid, w.groups)
            &&& w.closed == v.closed
            &&& w.cur == v.cur
            &&& w.pending == v.pending
            &&& w.members == v.members
        },
    decreases n,
{
    if n > 0 {
        lemma_fan_all_apart(cfg, v, ts, hash, members, n - 1);
        let m = members[n - 1];
        assert(m.out is Some);
        if let Ok(w) = range_model::fan_all(cfg, v, ts, hash, members, n - 1) {
            lemma_fan_one_apart(
                cfg,
                w,
                (m.out->0).0,
                (m.out->0).1,
                WinSample { ts, stream_hash: hash, tie_rank: (n - 1) as u32, value: m.value },
            );
        }
    }
}

proof fn lemma_rotate_out(
    cfg: SlideConfig,
    streams: Map<u64, StreamMeta>,
    v: SlideView,
)
    requires
        forall|i: int|
            0 <= i < v.closed.len() ==> of_some_stream(
                streams,
                (#[trigger] v.closed[i]).labels,
                v.closed[i].hist,
            ),
        v.cur matches Some(c) ==> of_stream(streams, c.labels, c.hist, c.fp),
    ensures
        ({
            let w = range_model::rotate(cfg, v);
            &&& forall|i: int|
                0 <= i < w.closed.len() ==> of_some_stream(
                    streams,
                    (#[trigger] w.closed[i]).labels,
                    w.closed[i].hist,
                )
            &&& w.groups == v.groups
            &&& w.members == v.members
            &&& w.pending == v.pending
            &&& w.cur is None
        }),
{
    let w = range_model::rotate(cfg, v);
    assert forall|i: int| 0 <= i < w.closed.len() implies of_some_stream(
        streams,
        (#[trigger] w.closed[i]).labels,
        w.closed[i].hist,
    ) by {
        if i < v.closed.len() {
            assert(w.closed[i] == v.closed[i]);
        } else {
            let c = v.cur->0;
            assert(of_stream(streams, c.labels, c.hist, c.fp));
        }
    }
}

proof fn lemma_load_out(
    cfg: SlideConfig,
    streams: Map<u64, StreamMeta>,
    v: SlideView,
    ts: i64,
    members: Seq<MemberView>,
    fp: u64,
)
    requires
        v.cur matches Some(c) && c.fp == fp && c.hash == streams[fp].stream_hash,
        members.len() > 0,
        streams.contains_key(fp),
        (v.cur->0).labels == text::labels_view(streams[fp].labels@),
        forall|i: int|
            0 <= i < (v.cur->0).hist.len() ==> (#[trigger] (v.cur->0).hist[i]).stream_hash
                == streams[fp].stream_hash,
    ensures
        range_model::load(cfg, v, ts, members) matches Ok(w) ==> {
            &&& w.cur matches Some(c) && of_stream(streams, c.labels, c.hist, c.fp) && c.hash
                == streams[c.fp].stream_hash
            &&& w.closed == v.closed
            &&& w.groups == v.groups
            &&& w.pending == v.pending
            &&& w.members == v.members
        },
{
    if let Ok(w) = range_model::load(cfg, v, ts, members) {
        let c = v.cur->0;
        let d = w.cur->0;
        let more = slide::ranked(range_model::values_of(members), ts, c.hash);
        assert(d.hist == c.hist + more);
        assert(of_stream(streams, d.labels, d.hist, fp)) by {
            assert forall|i: int| 0 <= i < d.hist.len() implies (#[trigger] d.hist[i]).stream_hash
                == streams[fp].stream_hash by {
                if i < c.hist.len() {
                    assert(d.hist[i] == c.hist[i]);
                } else {
                    assert(d.hist[i] == more[i - c.hist.len()]);
                }
            }
        }
    }
}

proof fn lemma_flush_out(cfg: SlideConfig, streams: Map<u64, StreamMeta>, v: SlideView, n: int)
    requires
        cfg.grid.wf(),
        !cfg.is_absent,
        sorted_out(cfg, streams, v, n),
        n <= usize::MAX,
    ensures
        range_model::flush(cfg, streams, v) matches Ok(w) ==> {
            &&& w.pending is None
            &&& sorted_out(cfg, streams, w, n)
        },
{
    if let Some((fp, ts)) = v.pending {
        let w = SlideView { pending: None, members: Seq::empty(), coll_bytes: 0, ..v };
        let members = range_model::ranked_members(cfg, v.members);
        lemma_ranked_members(cfg, v.members, |m: MemberView| 0int);
        assert forall|i: int| 0 <= i < members.len() implies {
            &&& (#[trigger] members[i]).out is Some <==> cfg.stages_out()
            &&& members[i].out matches Some(o) ==> o.0 == text::json_object(o.1)
        } by {
            assert(v.members.contains(members[i]));
        }
        if cfg.fan_out {
            lemma_fan_all_apart(
                cfg,
                w,
                ts,
                streams[fp].stream_hash,
                members,
                members.len() as int,
            );
        } else if v.cur is Some && (v.cur->0).fp == fp {
            lemma_load_out(cfg, streams, w, ts, members, fp);
        } else {
            lemma_rotate_out(cfg, streams, w);
            let labels = text::labels_view(streams[fp].labels@);
            if let Ok(x) = range_model::open_series(
                cfg,
                range_model::rotate(cfg, w),
                Seq::empty(),
                labels,
                range_model::series_slot(),
            ) {
                let y = SlideView {
                    cur: Some(
                        CurView {
                            fp,
                            hash: streams[fp].stream_hash,
                            labels,
                            hist: Seq::empty(),
                        },
                    ),
                    ..x
                };
                lemma_load_out(cfg, streams, y, ts, members, fp);
            }
        }
    }
}

proof fn lemma_take_row_out(
    cfg: SlideConfig,
    streams: Map<u64, StreamMeta>,
    v: SlideView,
    row: MetricScanRow,
    n: int,
)
    requires
        cfg.grid.wf(),
        !cfg.is_absent,
        sorted_out(cfg, streams, v, n),
        n < usize::MAX,
    ensures
        range_model::take_row(cfg, streams, v, row) matches Ok(w) ==> sorted_out(
            cfg,
            streams,
            w,
            n + 1,
        ),
{
    let at = (row.fingerprint, row.timestamp_ns);
    lemma_flush_out(cfg, streams, v, n);
    let turned = if v.pending is Some && v.pending->0 != at {
        range_model::flush(cfg, streams, v)
    } else {
        Ok(v)
    };
    if let Ok(w) = turned {
        if let Ok(MetricRun::Kept { line_len, value, labels }) = row.run {
            let lv = text::labels_view(labels@);
            if let Some(x) = range_model::line_value(cfg.reducer.value, line_len, value) {
                if let Ok(y) = range_model::stage(cfg, w, at, row.body@, lv, x) {
                    assert forall|i: int| 0 <= i < y.members.len() implies {
                        &&& (#[trigger] y.members[i]).out is Some <==> cfg.stages_out()
                        &&& y.members[i].out matches Some(o) ==> o.0 == text::json_object(o.1)
                    } by {
                        if i < w.members.len() {
                            assert(y.members[i] == w.members[i]);
                        }
                    }
                }
            }
        }
    }
}

proof fn lemma_take_rows_out(
    cfg: SlideConfig,
    streams: Map<u64, StreamMeta>,
    rows: Seq<MetricScanRow>,
    n: int,
)
    requires
        cfg.grid.wf(),
        !cfg.is_absent,
        0 <= n <= rows.len(),
        rows.len() < usize::MAX,
    ensures
        range_model::take_rows(cfg, streams, range::start_view(), rows, n) matches Ok(w)
            ==> sorted_out(cfg, streams, w, n),
    decreases n,
{
    if n > 0 {
        lemma_take_rows_out(cfg, streams, rows, n - 1);
        if let Ok(w) = range_model::take_rows(cfg, streams, range::start_view(), rows, n - 1) {
            lemma_take_row_out(cfg, streams, w, rows[n - 1], n - 1);
        }
    }
}

/// Where lines are grouped by their labels, no two groups have the same, and each group
/// holds only what some window holds. Where they are not, every series is that of one of
/// the streams, under its own labels.
pub proof fn law_groups_and_series_are_told_apart(
    cfg: SlideConfig,
    streams: Map<u64, StreamMeta>,
    rows: Seq<MetricScanRow>,
    v: SlideView,
    x: SlideView,
)
    requires
        cfg.grid.wf(),
        !cfg.is_absent,
        rows.len() < usize::MAX,
        range_model::take_rows(cfg, streams, range::start_view(), rows, rows.len() as int) == Ok::<
            SlideView,
            ErrorView,
        >(v),
        range::end_state(cfg, streams, v) == Ok::<SlideView, ErrorView>(x),
    ensures
        told_apart(cfg.grid, x.groups),
        forall|i: int|
            0 <= i < x.closed.len() ==> of_some_stream(
                streams,
                (#[trigger] x.closed[i]).labels,
                x.closed[i].hist,
            ),
{
    lemma_take_rows_out(cfg, streams, rows, rows.len() as int);
    lemma_flush_out(cfg, streams, v, rows.len() as int);
    if let Ok(w) = range_model::flush(cfg, streams, v) {
        lemma_rotate_out(cfg, streams, w);
    }
}

// ---------------------------------------------------------------------
// Absence.
// ---------------------------------------------------------------------

/// Whether one of the first `n` rows is of a known stream and counts something at a time.
pub open spec fn something_at(
    kind: ClientValue,
    streams: Map<u64, StreamMeta>,
    rows: Seq<MetricScanRow>,
    n: int,
    t: i64,
) -> bool {
    exists|i: int|
        0 <= i < n && streams.contains_key((#[trigger] rows[i]).fingerprint)
            && rows[i].timestamp_ns == t && row_count(kind, rows[i]) is Some
}

spec fn marked(v: SlideView, t: i64) -> bool {
    v.covers.contains(t) || (v.pending matches Some(at) && at.1 == t)
}

proof fn lemma_marks(
    cfg: SlideConfig,
    streams: Map<u64, StreamMeta>,
    rows: Seq<MetricScanRow>,
    n: int,
)
    requires
        cfg.is_absent,
        0 <= n <= rows.len(),
    ensures
        range_model::take_rows(cfg, streams, range::start_view(), rows, n) matches Ok(w)
            ==> forall|t: i64| #[trigger]
            marked(w, t) <==> something_at(cfg.reducer.value, streams, rows, n, t),
    decreases n,
{
    let kind = cfg.reducer.value;
    if n > 0 {
        lemma_marks(cfg, streams, rows, n - 1);
        let row = rows[n - 1];
        if let Ok(v) = range_model::take_rows(cfg, streams, range::start_view(), rows, n - 1) {
            if let Ok(w) = range_model::take_row(cfg, streams, v, row) {
                assert forall|t: i64| #[trigger] marked(w, t) <==> something_at(
                    kind,
                    streams,
                    rows,
                    n,
                    t,
                ) by {
                    lemma_marked_after(cfg, streams, v, row, w, t);
                    assert(marked(v, t) <==> something_at(kind, streams, rows, n - 1, t));
                    let here = streams.contains_key(row.fingerprint) && row.timestamp_ns == t
                        && row_count(kind, row) is Some;
                    if something_at(kind, streams, rows, n - 1, t) {
                        let i = choose|i: int|
                            0 <= i < n - 1 && streams.contains_key(
                                (#[trigger] rows[i]).fingerprint,
                            ) && rows[i].timestamp_ns == t && row_count(kind, rows[i]) is Some;
                        assert(0 <= i < n && rows[i].timestamp_ns == t);
                    }
                    if here {
                        assert(rows[n - 1].timestamp_ns == t);
                    }
                }
            }
        }
    }
}

proof fn lemma_marked_after(
    cfg: SlideConfig,
    streams: Map<u64, StreamMeta>,
    v: SlideView,
    row: MetricScanRow,
    w: SlideView,
    t: i64,
)
    requires
        cfg.is_absent,
        range_model::take_row(cfg, streams, v, row) == Ok::<SlideView, ErrorView>(w),
    ensures
        marked(w, t) <==> marked(v, t) || (streams.contains_key(row.fingerprint)
            && row.timestamp_ns == t && row_count(cfg.reducer.value, row) is Some),
{
    let at = (row.fingerprint, row.timestamp_ns);
    let turned = if v.pending is Some && v.pending->0 != at {
        range_model::flush(cfg, streams, v)
    } else {
        Ok(v)
    };
    let u = turned->Ok_0;
    if v.pending is Some && v.pending->0 != at {
        let last = (v.pending->0).1;
        assert(u.covers == v.covers.push(last));
        assert(u.covers[v.covers.len() as int] == last);
        if v.covers.contains(t) {
            let k = choose|k: int| 0 <= k < v.covers.len() && v.covers[k] == t;
            assert(u.covers[k] == t);
        }
    }
    assert(marked(u, t) <==> marked(v, t));
    assert(w.covers == u.covers);
}

/// What `absent_over_time` takes for present are the times of the lines of known streams
/// that count something, and no others.
pub proof fn law_presence_is_that_of_the_lines(
    cfg: SlideConfig,
    streams: Map<u64, StreamMeta>,
    rows: Seq<MetricScanRow>,
    v: SlideView,
    x: SlideView,
    t: i64,
)
    requires
        cfg.is_absent,
        range_model::take_rows(cfg, streams, range::start_view(), rows, rows.len() as int) == Ok::<
            SlideView,
            ErrorView,
        >(v),
        range::end_state(cfg, streams, v) == Ok::<SlideView, ErrorView>(x),
    ensures
        x.covers.contains(t) <==> something_at(
            cfg.reducer.value,
            streams,
            rows,
            rows.len() as int,
            t,
        ),
{
    lemma_marks(cfg, streams, rows, rows.len() as int);
    assert(marked(v, t) <==> something_at(
        cfg.reducer.value,
        streams,
        rows,
        rows.len() as int,
        t,
    ));
    if let Some(at) = v.pending {
        let w = range_model::flush(cfg, streams, v)->Ok_0;
        assert(w.covers == v.covers.push(at.1));
        assert(w.covers[v.covers.len() as int] == at.1);
        if v.covers.contains(t) {
            let k = choose|k: int| 0 <= k < v.covers.len() && v.covers[k] == t;
            assert(w.covers[k] == t);
        }
    }
}

/// A row that goes on at the same stream and time is refused only for a reason: a row of an
/// unknown stream, a dropped line and a line that counts nothing are passed over, and a line
/// that counts is staged where the caps of staged lines leave room.
pub proof fn law_rows_are_refused_only_for_a_reason(
    cfg: SlideConfig,
    streams: Map<u64, StreamMeta>,
    v: SlideView,
    row: MetricScanRow,
)
    requires
        v.pending is None || v.pending == Some((row.fingerprint, row.timestamp_ns)),
    ensures
        ({
            let r = range_model::take_row(cfg, streams, v, row);
            let counted = row_count(cfg.reducer.value, row);
            let known = streams.contains_key(row.fingerprint);
            &&& !known ==> r == Ok::<SlideView, ErrorView>(v)
            &&& known && row.run == Ok::<MetricRun, RowBudgetExceeded>(MetricRun::Dropped) ==> r
                == Ok::<SlideView, ErrorView>(v)
            &&& known && row.run is Ok && !row_fails(streams, row) && counted is None ==> r == Ok::<
                SlideView,
                ErrorView,
            >(v)
            &&& known && !row_fails(streams, row) && counted is Some && v.members.len()
                < cfg.caps.collision_members && cfg.caps.collision_bytes == u64::MAX ==> r is Ok
            &&& known ==> (row.run matches Err(b) ==> r == Err::<SlideView, ErrorView>(
                range_model::budget_error(b),
            ))
            &&& row_fails(streams, row) ==> r is Err
        }),
{
    if let Ok(MetricRun::Kept { line_len, value, labels }) = row.run {
        let lv = text::labels_view(labels@);
        lemma_surviving(lv);
        if range_model::surviving_error(lv) is Some {
            let i = choose|i: int|
                0 <= i < lv.len() && (#[trigger] lv[i]).0 == "__error__"@ && lv[i].1.len() > 0;
            assert(labels@[i].0@ == "__error__"@ && labels@[i].1@.len() > 0);
        }
        if row_fails(streams, row) {
            let i = choose|i: int|
                0 <= i < labels@.len() && (#[trigger] labels@[i]).0@ == "__error__"@
                    && labels@[i].1@.len() > 0;
            assert(lv[i].0 == "__error__"@ && lv[i].1.len() > 0);
        }
    }
}

/// Where nothing is staged, closing the run changes nothing.
pub proof fn law_nothing_staged_closes_to_nothing(
    cfg: SlideConfig,
    streams: Map<u64, StreamMeta>,
    v: SlideView,
)
    requires
        v.pending is None,
    ensures
        range_model::flush(cfg, streams, v) == Ok::<SlideView, ErrorView>(v),
{
}

/// A stream's lines are taken in where the caps leave room for them, for its series and for
/// its labels.
pub proof fn law_lines_are_taken_in_where_there_is_room(
    cfg: SlideConfig,
    v: SlideView,
    ts: i64,
    members: Seq<MemberView>,
)
    requires
        v.cur is Some,
        v.retained - range_model::cur_cost(cfg, (v.cur->0).hist) + slide::live(
            cfg.grid,
            (v.cur->0).hist,
            cfg.grid.first_cover(ts as int),
        ).len() * cfg.per_sample + members.len() * cfg.per_sample <= cfg.caps.retention_points,
    ensures
        range_model::load(cfg, v, ts, members) is Ok,
{
    let base = v.retained - range_model::cur_cost(cfg, (v.cur->0).hist) + slide::live(
        cfg.grid,
        (v.cur->0).hist,
        cfg.grid.first_cover(ts as int),
    ).len() * cfg.per_sample;
    lemma_never_over(
        base,
        cfg.per_sample as int,
        members.len() as int,
        cfg.caps.retention_points as int,
    );
}

proof fn lemma_never_over(base: int, each: int, n: int, cap: int)
    requires
        each >= 0,
        base + n * each <= cap,
    ensures
        slide::first_over(base, each, n, cap) is None,
    decreases n,
{
    if n > 0 {
        assert(n * each == (n - 1) * each + each) by (nonlinear_arith);
        lemma_never_over(base, each, n - 1, cap);
    }
}

} // verus!
