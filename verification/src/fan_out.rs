//! Streams that fan out into one group per label set.
//!
//! A row that carries structured metadata, or whose pipeline changes labels, joins
//! the group of its final label set. Every group and every line is charged before
//! it is kept.
use std::collections::HashMap;
use vstd::hash_map::StringHashMap;
use vstd::prelude::*;
use crate::charge::row_budget_ceiling;
use crate::detected::ERROR_DETAILS_LABEL;
use crate::error::{ReadError, RowBudgetExceeded, TooBroadReason};
use crate::order;
use crate::range_model::{self, ERROR_LABEL};
use crate::text::{self, byte_len, render_labels_json, sorted_labels, str_eq, LabelSet, PairView};

verus! {

// ---------------------------------------------------------------------
// Categories of labels.
// ---------------------------------------------------------------------

/// Where a label comes from.
#[derive(Debug, Clone, Copy, PartialEq, Eq, Structural)]
pub enum LabelCategory {
    Stream,
    StructuredMetadata,
    Parsed,
}

/// The labels of a line that are not its stream's.
#[derive(Debug)]
pub struct EntryCategories {
    pub structured_metadata: LabelSet,
    pub parsed: LabelSet,
}

/// The labels of a line that are not its stream's, as values.
pub struct CategoriesView {
    pub structured_metadata: Seq<PairView>,
    pub parsed: Seq<PairView>,
}

impl View for EntryCategories {
    type V = CategoriesView;

    open spec fn view(&self) -> CategoriesView {
        CategoriesView {
            structured_metadata: text::labels_view(self.structured_metadata@),
            parsed: text::labels_view(self.parsed@),
        }
    }
}

/// The pairs at the positions that `keep` names.
pub open spec fn picked(labels: Seq<PairView>, keep: spec_fn(int) -> bool) -> Seq<PairView>
    decreases labels.len(),
{
    if labels.len() == 0 {
        Seq::empty()
    } else {
        let front = picked(labels.drop_last(), keep);
        if keep(labels.len() - 1) {
            front.push(labels.last())
        } else {
            front
        }
    }
}

/// The pairs at the positions that `keep` names, by name and value.
pub open spec fn picked_sorted(labels: Seq<PairView>, keep: spec_fn(int) -> bool) -> Seq<PairView> {
    order::stable_sort(picked(labels, keep), text::pair_le())
}

/// The category at a position. A label without one belongs to the stream.
pub open spec fn category_at(cats: Seq<LabelCategory>, i: int) -> LabelCategory {
    if i < cats.len() {
        cats[i]
    } else {
        LabelCategory::Stream
    }
}

/// The positions of a category.
pub open spec fn of_category(cats: Seq<LabelCategory>, c: LabelCategory) -> spec_fn(int) -> bool {
    |i: int| category_at(cats, i) == c
}

/// Splits labels by category. The stream's stay in their order, the others are
/// sorted.
pub fn split_categories(labels: LabelSet, cats: &[LabelCategory]) -> (r: (
    LabelSet,
    EntryCategories,
))
    ensures
        ({
            let view = text::labels_view(labels@);
            &&& text::labels_view(r.0@) == picked(view, of_category(cats@, LabelCategory::Stream))
            &&& r.1@.structured_metadata == picked_sorted(
                view,
                of_category(cats@, LabelCategory::StructuredMetadata),
            )
            &&& r.1@.parsed == picked_sorted(view, of_category(cats@, LabelCategory::Parsed))
        }),
{
    let ghost all = labels@;
    let ghost view = text::labels_view(labels@);
    let ghost on_stream = of_category(cats@, LabelCategory::Stream);
    let ghost on_metadata = of_category(cats@, LabelCategory::StructuredMetadata);
    let ghost on_parsed = of_category(cats@, LabelCategory::Parsed);
    let count: usize = labels.len();
    let mut i: usize = 0;
    let mut stream: LabelSet = Vec::new();
    let mut metadata: LabelSet = Vec::new();
    let mut parsed: LabelSet = Vec::new();
    proof {
        assert(view.take(0) =~= Seq::<PairView>::empty());
        assert(text::labels_view(stream@) =~= Seq::<PairView>::empty());
    }
    for pair in it: labels
        invariant
            it.seq() == all,
            view == text::labels_view(all),
            on_stream == of_category(cats@, LabelCategory::Stream),
            on_metadata == of_category(cats@, LabelCategory::StructuredMetadata),
            on_parsed == of_category(cats@, LabelCategory::Parsed),
            text::labels_view(stream@) == picked(view.take(it.index() as int), on_stream),
            text::labels_view(metadata@) == picked(view.take(it.index() as int), on_metadata),
            text::labels_view(parsed@) == picked(view.take(it.index() as int), on_parsed),
            i == it.index(),
            count == all.len(),
    {
        let ghost n = it.index() as int;
        let ghost at = (pair.0@, pair.1@);
        proof {
            assert(view.take(n + 1).drop_last() =~= view.take(n));
            assert(view.take(n + 1).last() == at);
        }
        let category: LabelCategory = if i < cats.len() {
            cats[i]
        } else {
            LabelCategory::Stream
        };
        proof {
            assert(category == category_at(cats@, n));
            assert(on_stream(n) == (category == LabelCategory::Stream));
            assert(on_metadata(n) == (category == LabelCategory::StructuredMetadata));
            assert(on_parsed(n) == (category == LabelCategory::Parsed));
        }
        let ghost s0 = text::labels_view(stream@);
        let ghost m0 = text::labels_view(metadata@);
        let ghost p0 = text::labels_view(parsed@);
        match category {
            LabelCategory::Stream => {
                stream.push(pair);
                proof {
                    assert(text::labels_view(stream@) =~= s0.push(at));
                }
            },
            LabelCategory::StructuredMetadata => {
                metadata.push(pair);
                proof {
                    assert(text::labels_view(metadata@) =~= m0.push(at));
                }
            },
            LabelCategory::Parsed => {
                parsed.push(pair);
                proof {
                    assert(text::labels_view(parsed@) =~= p0.push(at));
                }
            },
        }
        i = i + 1;
    }
    proof {
        assert(view.take(view.len() as int) =~= view);
    }
    (
        stream,
        EntryCategories {
            structured_metadata: sorted_labels(&metadata),
            parsed: sorted_labels(&parsed),
        },
    )
}

/// What reading a row's structured metadata left besides its labels.
#[derive(Debug)]
pub struct StructuredMetadataCtx {
    /// The error that came as metadata.
    pub err: String,
    /// The error details that came as metadata.
    pub details: String,
    /// Whether there was metadata besides, with a value.
    pub has_ordinary: bool,
    /// How many of the merged labels are the stream's.
    pub stream_label_count: Option<usize>,
    /// The stream labels whose places metadata took over.
    pub sm_over_stream: Vec<String>,
}

/// The reserved pairs that show. An error shows. Its details show with it, or beside
/// other metadata, but not alone.
pub open spec fn visible(ctx: StructuredMetadataCtx) -> Seq<PairView> {
    let shows_err = ctx.err@.len() > 0;
    let shows_details = ctx.details@.len() > 0 && (shows_err || ctx.has_ordinary);
    let err: Seq<PairView> = if shows_err {
        seq![(ERROR_LABEL@, ctx.err@)]
    } else {
        Seq::empty()
    };
    if shows_details {
        err.push((ERROR_DETAILS_LABEL@, ctx.details@))
    } else {
        err
    }
}

/// Whether metadata took over the place of a stream label.
pub open spec fn taken_over(ctx: StructuredMetadataCtx, name: Seq<char>) -> bool {
    exists|i: int| 0 <= i < ctx.sm_over_stream@.len() && (#[trigger] ctx.sm_over_stream@[i])@ == name
}

/// The positions of the merged labels that stay the stream's.
pub open spec fn stays_stream(ctx: StructuredMetadataCtx, labels: Seq<PairView>) -> spec_fn(
    int,
) -> bool {
    let base: int = match ctx.stream_label_count {
        Some(n) => n as int,
        None => labels.len() as int,
    };
    |i: int| i < base && !taken_over(ctx, labels[i].0)
}

/// The other positions.
pub open spec fn leaves_stream(ctx: StructuredMetadataCtx, labels: Seq<PairView>) -> spec_fn(
    int,
) -> bool {
    |i: int| !stays_stream(ctx, labels)(i)
}

impl StructuredMetadataCtx {
    /// Appends the reserved pairs that show.
    pub fn append_visible(&self, out: &mut LabelSet)
        ensures
            text::labels_view(final(out)@) == text::labels_view(old(out)@) + visible(*self),
    {
        let ghost before = text::labels_view(out@);
        let shows_err: bool = !self.err.as_str().is_empty();
        if shows_err {
            out.push((ERROR_LABEL.to_string(), self.err.clone()));
        }
        if !self.details.as_str().is_empty() && (shows_err || self.has_ordinary) {
            out.push((ERROR_DETAILS_LABEL.to_string(), self.details.clone()));
        }
        proof {
            assert(text::labels_view(out@) =~= before + visible(*self));
        }
    }

    /// Whether metadata took over the place of a stream label.
    fn is_taken_over(&self, name: &str) -> (r: bool)
        ensures
            r == taken_over(*self, name@),
    {
        let mut i: usize = 0;
        while i < self.sm_over_stream.len()
            invariant
                i <= self.sm_over_stream@.len(),
                forall|j: int| 0 <= j < i ==> (#[trigger] self.sm_over_stream@[j])@ != name@,
            decreases self.sm_over_stream@.len() - i,
        {
            if str_eq(self.sm_over_stream[i].as_str(), name) {
                return true;
            }
            i = i + 1;
        }
        false
    }
}

/// Merged labels split: what stays the stream's, what stands beside the line as metadata,
/// and the reserved pairs that show.
pub open spec fn merged_split(merged: Seq<PairView>, ctx: StructuredMetadataCtx) -> (
    Seq<PairView>,
    CategoriesView,
) {
    (
        picked_sorted(merged, stays_stream(ctx, merged)),
        CategoriesView {
            structured_metadata: picked_sorted(merged, leaves_stream(ctx, merged)),
            parsed: order::stable_sort(visible(ctx), text::pair_le()),
        },
    )
}

/// Splits merged labels where no pipeline ran: the stream's, the metadata, and the
/// reserved pairs that show, each sorted.
pub fn split_merged_categories(merged: LabelSet, ctx: &StructuredMetadataCtx) -> (r: (
    LabelSet,
    EntryCategories,
))
    ensures
        ({
            let view = text::labels_view(merged@);
            &&& text::labels_view(r.0@) == picked_sorted(view, stays_stream(*ctx, view))
            &&& r.1@.structured_metadata == picked_sorted(view, leaves_stream(*ctx, view))
            &&& r.1@.parsed == order::stable_sort(visible(*ctx), text::pair_le())
        }),
        (text::labels_view(r.0@), r.1@) == merged_split(text::labels_view(merged@), *ctx),
{
    let ghost all = merged@;
    let ghost view = text::labels_view(merged@);
    let ghost stays = stays_stream(*ctx, view);
    let ghost leaves = leaves_stream(*ctx, view);
    let count: usize = merged.len();
    let base: usize = match ctx.stream_label_count {
        Some(n) => n,
        None => count,
    };
    let mut i: usize = 0;
    let mut stream: LabelSet = Vec::new();
    let mut metadata: LabelSet = Vec::new();
    proof {
        assert(view.take(0) =~= Seq::<PairView>::empty());
        assert(text::labels_view(stream@) =~= Seq::<PairView>::empty());
    }
    for pair in it: merged
        invariant
            it.seq() == all,
            i == it.index(),
            count == all.len(),
            view == text::labels_view(all),
            base == (match ctx.stream_label_count {
                Some(n) => n,
                None => count,
            }),
            stays == stays_stream(*ctx, view),
            leaves == leaves_stream(*ctx, view),
            text::labels_view(stream@) == picked(view.take(it.index() as int), stays),
            text::labels_view(metadata@) == picked(view.take(it.index() as int), leaves),
    {
        let ghost n = it.index() as int;
        let ghost at = (pair.0@, pair.1@);
        proof {
            assert(view.take(n + 1).drop_last() =~= view.take(n));
            assert(view.take(n + 1).last() == at);
            assert(view[n] == at);
            assert(leaves(n) == !stays(n));
        }
        let ghost s0 = text::labels_view(stream@);
        let ghost m0 = text::labels_view(metadata@);
        if i < base && !ctx.is_taken_over(pair.0.as_str()) {
            proof {
                assert(stays(n));
            }
            stream.push(pair);
            proof {
                assert(text::labels_view(stream@) =~= s0.push(at));
            }
        } else {
            proof {
                assert(!stays(n));
            }
            metadata.push(pair);
            proof {
                assert(text::labels_view(metadata@) =~= m0.push(at));
            }
        }
        i = i + 1;
    }
    proof {
        assert(view.take(view.len() as int) =~= view);
    }
    let mut parsed: LabelSet = Vec::new();
    ctx.append_visible(&mut parsed);
    proof {
        assert(text::labels_view(parsed@) =~= visible(*ctx));
    }
    (
        sorted_labels(&stream),
        EntryCategories {
            structured_metadata: sorted_labels(&metadata),
            parsed: sorted_labels(&parsed),
        },
    )
}

/// Empties a list of labels for reuse. The list keeps its allocation, of which the
/// contract says nothing: a list's contents do not tell its capacity.
pub fn recycle_label_scratch(scratch: LabelSet) -> (out: LabelSet)
    ensures
        out@ == Seq::<(String, String)>::empty(),
{
    let mut out = scratch;
    out.clear();
    out
}

proof fn lemma_picked_counts(labels: Seq<PairView>, keep: spec_fn(int) -> bool, p: PairView)
    ensures
        picked(labels, keep).to_multiset().count(p) + picked(
            labels,
            |i: int| !keep(i),
        ).to_multiset().count(p) == labels.to_multiset().count(p),
    decreases labels.len(),
{
    broadcast use vstd::seq_lib::group_to_multiset_ensures;

    let other = |i: int| !keep(i);
    if labels.len() == 0 {
        assert(labels =~= Seq::<PairView>::empty());
    } else {
        let front = labels.drop_last();
        lemma_picked_counts(front, keep, p);
        assert(front.push(labels.last()) =~= labels);
        assert(other(labels.len() - 1) == !keep(labels.len() - 1));
    }
}

/// Splitting merged labels neither loses a label nor makes one up.
pub proof fn law_split_keeps_every_label(ctx: StructuredMetadataCtx, labels: Seq<PairView>)
    requires
        labels.len() <= usize::MAX,
    ensures
        picked_sorted(labels, stays_stream(ctx, labels)).to_multiset().add(
            picked_sorted(labels, leaves_stream(ctx, labels)).to_multiset(),
        ) == labels.to_multiset(),
{
    let stays = stays_stream(ctx, labels);
    let leaves = leaves_stream(ctx, labels);
    text::lemma_pair_le_preorder();
    lemma_picked_len(labels, stays);
    lemma_picked_len(labels, leaves);
    order::lemma_stable_sort_permutes(picked(labels, stays), text::pair_le());
    order::lemma_stable_sort_permutes(picked(labels, leaves), text::pair_le());
    assert forall|p: PairView| picked(labels, stays).to_multiset().count(p) + picked(
        labels,
        leaves,
    ).to_multiset().count(p) == #[trigger] labels.to_multiset().count(p) by {
        lemma_picked_counts(labels, stays, p);
        assert(leaves =~= (|i: int| !stays(i)));
    }
    assert(picked_sorted(labels, stays).to_multiset().add(
        picked_sorted(labels, leaves).to_multiset(),
    ) =~= labels.to_multiset());
}

proof fn lemma_picked_len(labels: Seq<PairView>, keep: spec_fn(int) -> bool)
    ensures
        picked(labels, keep).len() <= labels.len(),
    decreases labels.len(),
{
    if labels.len() > 0 {
        lemma_picked_len(labels.drop_last(), keep);
    }
}

// ---------------------------------------------------------------------
// Groups.
// ---------------------------------------------------------------------

/// The 64-bit FNV-1a hash.
pub open spec fn fnv64(bytes: Seq<u8>) -> u64
    decreases bytes.len(),
{
    if bytes.len() == 0 {
        0xcbf2_9ce4_8422_2325u64
    } else {
        (fnv64(bytes.drop_last()) ^ (bytes.last() as u64)).wrapping_mul(0x0000_0100_0000_01b3u64)
    }
}

/// The 64-bit FNV-1a hash.
pub fn fnv1a64(bytes: &[u8]) -> (h: u64)
    ensures
        h == fnv64(bytes@),
{
    let mut h: u64 = 0xcbf2_9ce4_8422_2325;
    let mut i: usize = 0;
    proof {
        assert(bytes@.take(0) =~= Seq::<u8>::empty());
    }
    while i < bytes.len()
        invariant
            i <= bytes@.len(),
            h == fnv64(bytes@.take(i as int)),
        decreases bytes@.len() - i,
    {
        proof {
            assert(bytes@.take(i + 1).drop_last() =~= bytes@.take(i as int));
        }
        h = (h ^ (bytes[i] as u64)).wrapping_mul(0x0000_0100_0000_01b3);
        i = i + 1;
    }
    proof {
        assert(bytes@.take(bytes@.len() as int) =~= bytes@);
    }
    h
}

/// The lines of one label set.
#[derive(Debug)]
pub struct FanOutGroup {
    pub fingerprint: u64,
    pub service: String,
    pub entries: Vec<(i64, String)>,
    /// One for each line where labels are split by category, else none.
    pub categories: Vec<EntryCategories>,
}

/// The lines of one label set, as values.
pub struct GroupView {
    pub labels_json: Seq<char>,
    pub fingerprint: u64,
    pub service: Seq<char>,
    pub entries: Seq<(i64, Seq<char>)>,
    pub categories: Seq<CategoriesView>,
}

/// A stream of an answer.
#[derive(Debug)]
pub struct StreamResult {
    pub fingerprint: u64,
    pub service: String,
    pub labels_json: String,
    pub entries: Vec<(i64, String)>,
    pub categories: Vec<EntryCategories>,
}

/// Lines as values.
pub open spec fn lines(entries: Seq<(i64, String)>) -> Seq<(i64, Seq<char>)> {
    entries.map_values(|e: (i64, String)| (e.0, e.1@))
}

/// Categories as values.
pub open spec fn all_categories(s: Seq<EntryCategories>) -> Seq<CategoriesView> {
    s.map_values(|c: EntryCategories| c@)
}

/// A group under its rendered labels, as values.
pub open spec fn group_view(e: (String, FanOutGroup)) -> GroupView {
    GroupView {
        labels_json: e.0@,
        fingerprint: e.1.fingerprint,
        service: e.1.service@,
        entries: lines(e.1.entries@),
        categories: all_categories(e.1.categories@),
    }
}

impl View for StreamResult {
    type V = GroupView;

    open spec fn view(&self) -> GroupView {
        GroupView {
            labels_json: self.labels_json@,
            fingerprint: self.fingerprint,
            service: self.service@,
            entries: lines(self.entries@),
            categories: all_categories(self.categories@),
        }
    }
}

/// What is about to be kept, and has to be paid for.
#[derive(Debug)]
pub enum Retained<'a> {
    /// A new group.
    Group { labels_json: &'a String, service: &'a str },
    /// A line, with its labels where they are split by category.
    Line { line_bytes: u64, categories: Option<&'a EntryCategories> },
}

/// The groups, in the order they were first seen.
pub struct FanOutGroups {
    groups: Vec<(String, FanOutGroup)>,
    index: StringHashMap<usize>,
}

impl View for FanOutGroups {
    type V = Seq<GroupView>;

    closed spec fn view(&self) -> Seq<GroupView> {
        self.groups@.map_values(|e: (String, FanOutGroup)| group_view(e))
    }
}

/// Whether a group stands at a position.
pub open spec fn group_stands(groups: Seq<GroupView>, key: Seq<char>, i: int) -> bool {
    0 <= i < groups.len() && groups[i].labels_json == key
}

/// Whether there is a group of these labels.
pub open spec fn has_group(groups: Seq<GroupView>, key: Seq<char>) -> bool {
    exists|i: int| group_stands(groups, key, i)
}

/// Where the group of these labels stands.
pub open spec fn group_place(groups: Seq<GroupView>, key: Seq<char>) -> int {
    choose|i: int| group_stands(groups, key, i)
}

/// A group with one more line.
pub open spec fn with_line(
    g: GroupView,
    line: (i64, Seq<char>),
    categories: Option<CategoriesView>,
) -> GroupView {
    GroupView {
        entries: g.entries.push(line),
        categories: match categories {
            Some(c) => g.categories.push(c),
            None => g.categories,
        },
        ..g
    }
}

/// The groups with one more line. The first line of a group decides its service and
/// its fingerprint.
pub open spec fn with_entry(
    groups: Seq<GroupView>,
    key: Seq<char>,
    fingerprint: u64,
    service: Seq<char>,
    line: (i64, Seq<char>),
    categories: Option<CategoriesView>,
) -> Seq<GroupView> {
    if has_group(groups, key) {
        let i = group_place(groups, key);
        groups.update(i, with_line(groups[i], line, categories))
    } else {
        let fresh = GroupView {
            labels_json: key,
            fingerprint,
            service,
            entries: Seq::empty(),
            categories: Seq::empty(),
        };
        groups.push(with_line(fresh, line, categories))
    }
}

/// Categories, where there are any, as values.
pub open spec fn some_categories(c: Option<EntryCategories>) -> Option<CategoriesView> {
    match c {
        None => None,
        Some(c) => Some(c@),
    }
}

/// Whether paying for a line leads from one budget to another, or to an error.
pub open spec fn pays_line<S, F: Fn(&S, Retained<'_>) -> Result<S, ReadError>>(
    charge: F,
    before: S,
    line: Seq<char>,
    categories: Option<EntryCategories>,
    out: Result<S, ReadError>,
) -> bool {
    let held = match categories {
        None => None::<&EntryCategories>,
        Some(c) => Some(&c),
    };
    call_ensures(
        charge,
        (
            &before,
            Retained::Line {
                line_bytes: text::saturate(text::byte_count(line)),
                categories: held,
            },
        ),
        out,
    )
}

/// Whether paying for a group leads from one budget to another, or to an error.
pub open spec fn pays_group<S, F: Fn(&S, Retained<'_>) -> Result<S, ReadError>>(
    charge: F,
    before: S,
    key: &String,
    service: &str,
    out: Result<S, ReadError>,
) -> bool {
    call_ensures(charge, (&before, Retained::Group { labels_json: key, service }), out)
}

/// Whether one line joining its group leads from one state to another. A new group
/// is paid for first, then the line. Where either is refused, no group changes.
pub open spec fn joins<S, F: Fn(&S, Retained<'_>) -> Result<S, ReadError>>(
    charge: F,
    budget: S,
    after_budget: S,
    groups: Seq<GroupView>,
    after_groups: Seq<GroupView>,
    key: &String,
    fingerprint: u64,
    service: &str,
    line: (i64, Seq<char>),
    categories: Option<EntryCategories>,
    r: Result<(), ReadError>,
) -> bool {
    let joined = with_entry(
        groups,
        key@,
        fingerprint,
        service@,
        line,
        some_categories(categories),
    );
    if has_group(groups, key@) {
        match r {
            Ok(_) => {
                &&& pays_line(charge, budget, line.1, categories, Ok(after_budget))
                &&& after_groups == joined
            },
            Err(e) => {
                &&& pays_line(charge, budget, line.1, categories, Err(e))
                &&& after_budget == budget
                &&& after_groups == groups
            },
        }
    } else {
        match r {
            Ok(_) => {
                &&& exists|paid: S| #[trigger]
                    pays_group(charge, budget, key, service, Ok(paid)) && pays_line(
                        charge,
                        paid,
                        line.1,
                        categories,
                        Ok(after_budget),
                    )
                &&& after_groups == joined
            },
            Err(e) => {
                &&& after_groups == groups
                &&& {
                    ||| pays_group(charge, budget, key, service, Err(e)) && after_budget == budget
                    ||| pays_group(charge, budget, key, service, Ok(after_budget)) && pays_line(
                        charge,
                        after_budget,
                        line.1,
                        categories,
                        Err(e),
                    )
                }
            },
        }
    }
}

impl FanOutGroups {
    /// No label set occurs twice, and groups are found where they stand.
    pub closed spec fn wf(&self) -> bool {
        &&& forall|i: int|
            0 <= i < self.groups@.len() ==> self.index@.contains_key(
                (#[trigger] self.groups@[i]).0@,
            ) && self.index@[self.groups@[i].0@] == i
        &&& forall|k: Seq<char>| #[trigger]
            self.index@.contains_key(k) ==> self.index@[k] < self.groups@.len()
                && self.groups@[self.index@[k] as int].0@ == k
    }

    /// No groups.
    pub fn new() -> (g: FanOutGroups)
        ensures
            g.wf(),
            g@ == Seq::<GroupView>::empty(),
    {
        let g = FanOutGroups { groups: Vec::new(), index: StringHashMap::new() };
        proof {
            assert(g@ =~= Seq::<GroupView>::empty());
        }
        g
    }

    /// Appends a line to a group that is there.
    fn append(
        &mut self,
        at: usize,
        timestamp_ns: i64,
        line: String,
        categories: Option<EntryCategories>,
    )
        requires
            old(self).wf(),
            at < old(self)@.len(),
        ensures
            final(self).wf(),
            final(self)@ == old(self)@.update(
                at as int,
                with_line(
                    old(self)@[at as int],
                    (timestamp_ns, line@),
                    some_categories(categories),
                ),
            ),
    {
        let ghost before = *self;
        let ghost entry = self.groups@[at as int];
        let ghost added = some_categories(categories);
        self.groups[at].1.entries.push((timestamp_ns, line));
        let ghost mid = *self;
        if let Some(c) = categories {
            self.groups[at].1.categories.push(c);
        }
        proof {
            let now = self.groups@[at as int];
            assert(now.0 == entry.0);
            assert(lines(now.1.entries@) =~= lines(entry.1.entries@).push((timestamp_ns, line@)));
            assert(all_categories(now.1.categories@) =~= match added {
                Some(c) => all_categories(entry.1.categories@).push(c),
                None => all_categories(entry.1.categories@),
            });
            assert(self@ =~= before@.update(
                at as int,
                with_line(before@[at as int], (timestamp_ns, line@), added),
            ));
            assert forall|i: int| 0 <= i < self.groups@.len() implies self.index@.contains_key(
                (#[trigger] self.groups@[i]).0@,
            ) && self.index@[self.groups@[i].0@] == i by {
                assert(self.groups@[i].0 == before.groups@[i].0);
            }
            assert forall|k: Seq<char>| #[trigger] self.index@.contains_key(k) implies self.index@[k]
                < self.groups@.len() && self.groups@[self.index@[k] as int].0@ == k by {
                assert(before.groups@[before.index@[k] as int].0@ == k);
            }
        }
    }

    /// Opens a group with its first line.
    fn open(
        &mut self,
        labels_json: String,
        fingerprint: u64,
        service: &str,
        timestamp_ns: i64,
        line: String,
        categories: Option<EntryCategories>,
    )
        requires
            old(self).wf(),
            !has_group(old(self)@, labels_json@),
        ensures
            final(self).wf(),
            final(self)@ == with_entry(
                old(self)@,
                labels_json@,
                fingerprint,
                service@,
                (timestamp_ns, line@),
                some_categories(categories),
            ),
    {
        let ghost before = *self;
        let ghost key = labels_json@;
        let ghost added = some_categories(categories);
        let at: usize = self.groups.len();
        self.index.insert(labels_json.clone(), at);
        let mut kept: Vec<EntryCategories> = Vec::new();
        if let Some(c) = categories {
            kept.push(c);
        }
        let mut entries: Vec<(i64, String)> = Vec::new();
        entries.push((timestamp_ns, line));
        self.groups.push(
            (
                labels_json,
                FanOutGroup {
                    fingerprint,
                    service: service.to_string(),
                    entries,
                    categories: kept,
                },
            ),
        );
        proof {
            let now = self.groups@[at as int];
            assert(lines(now.1.entries@) =~= Seq::<(i64, Seq<char>)>::empty().push(
                (timestamp_ns, line@),
            ));
            assert(all_categories(now.1.categories@) =~= match added {
                Some(c) => Seq::<CategoriesView>::empty().push(c),
                None => Seq::<CategoriesView>::empty(),
            });
            assert(self@ =~= before@.push(group_view(now)));
            assert forall|i: int| 0 <= i < self.groups@.len() implies self.index@.contains_key(
                (#[trigger] self.groups@[i]).0@,
            ) && self.index@[self.groups@[i].0@] == i by {
                if i < at {
                    assert(self.groups@[i] == before.groups@[i]);
                    assert(group_stands(before@, before.groups@[i].0@, i));
                    assert(before.groups@[i].0@ != key);
                }
            }
            assert forall|k: Seq<char>| #[trigger] self.index@.contains_key(k) implies self.index@[k]
                < self.groups@.len() && self.groups@[self.index@[k] as int].0@ == k by {
                if k != key {
                    assert(before.index@.contains_key(k));
                }
            }
        }
    }

    /// Joins one line to the group of rendered labels.
    pub fn push_group_entry<S, F: Fn(&S, Retained<'_>) -> Result<S, ReadError>>(
        &mut self,
        budget: &mut S,
        charge: &F,
        labels_json: String,
        fingerprint: u64,
        service: &str,
        timestamp_ns: i64,
        line: String,
        categories: Option<EntryCategories>,
    ) -> (r: Result<(), ReadError>)
        requires
            old(self).wf(),
            forall|s: &S, k: Retained<'_>| call_requires(*charge, (s, k)),
        ensures
            final(self).wf(),
            joins(
                *charge,
                *old(budget),
                *final(budget),
                old(self)@,
                final(self)@,
                &labels_json,
                fingerprint,
                service,
                (timestamp_ns, line@),
                categories,
                r,
            ),
    {
        let ghost start = self@;
        let ghost key = labels_json@;
        let found: Option<usize> = match self.index.get(labels_json.as_str()) {
            Some(at) => Some(*at),
            None => None,
        };
        proof {
            match found {
                Some(at) => {
                    assert(self.groups@[at as int].0@ == key);
                    assert(group_stands(start, key, at as int));
                    let i = group_place(start, key);
                    assert(group_stands(start, key, i));
                    assert(self.groups@[i].0@ == key);
                    assert(i == at);
                },
                None => {
                    if has_group(start, key) {
                        let i = choose|i: int| group_stands(start, key, i);
                        assert(self.groups@[i].0@ == key);
                    }
                },
            }
        }
        let ghost whole = labels_json;
        let ghost first = *budget;
        if found.is_none() {
            match charge(&*budget, Retained::Group { labels_json: &labels_json, service }) {
                Ok(paid) => {
                    *budget = paid;
                    proof {
                        assert(pays_group(*charge, first, &whole, service, Ok(*budget)));
                    }
                },
                Err(e) => {
                    return Err(e);
                },
            }
        }
        let held = match &categories {
            None => None,
            Some(c) => Some(c),
        };
        let cost = Retained::Line { line_bytes: byte_len(line.as_str()), categories: held };
        let ghost second = *budget;
        match charge(&*budget, cost) {
            Ok(paid) => {
                *budget = paid;
                proof {
                    assert(pays_line(*charge, second, line@, categories, Ok(*budget)));
                }
            },
            Err(e) => {
                proof {
                    assert(pays_line(*charge, second, line@, categories, Err(e)));
                }
                return Err(e);
            },
        }
        match found {
            Some(at) => {
                self.append(at, timestamp_ns, line, categories);
            },
            None => {
                self.open(labels_json, fingerprint, service, timestamp_ns, line, categories);
            },
        }
        Ok(())
    }

    /// The groups as streams, in the order they were first seen.
    pub fn into_streams(self) -> (out: Vec<StreamResult>)
        ensures
            out@.map_values(|s: StreamResult| s@) == self@,
    {
        let ghost all = self.groups@;
        let ghost view = self@;
        let mut out: Vec<StreamResult> = Vec::new();
        for e in it: self.groups
            invariant
                it.seq() == all,
                out@.len() == it.index(),
                forall|i: int| 0 <= i < out@.len() ==> (#[trigger] out@[i])@ == group_view(all[i]),
        {
            let (labels_json, group) = e;
            let FanOutGroup { fingerprint, service, entries, categories } = group;
            out.push(StreamResult { fingerprint, service, labels_json, entries, categories });
        }
        proof {
            assert(out@.map_values(|s: StreamResult| s@) =~= view);
        }
        out
    }
}

/// The service of a label set: its service name, else the fallback.
pub open spec fn service_of(labels: Seq<PairView>, fallback: Seq<char>) -> Seq<char>
    decreases labels.len(),
{
    if labels.len() == 0 {
        fallback
    } else if labels[0].0 == "service_name"@ {
        labels[0].1
    } else {
        service_of(labels.skip(1), fallback)
    }
}

/// The service of a label set: its service name, else the fallback.
fn service_name<'a>(labels: &'a LabelSet, fallback: &'a str) -> (s: &'a str)
    ensures
        s@ == service_of(text::labels_view(labels@), fallback@),
{
    let ghost view = text::labels_view(labels@);
    let mut i: usize = 0;
    proof {
        assert(view.skip(0) =~= view);
    }
    while i < labels.len()
        invariant
            i <= labels@.len(),
            view == text::labels_view(labels@),
            service_of(view, fallback@) == service_of(view.skip(i as int), fallback@),
        decreases labels@.len() - i,
    {
        proof {
            assert(view.skip(i as int)[0] == (labels@[i as int].0@, labels@[i as int].1@));
            assert(view.skip(i as int).skip(1) =~= view.skip(i + 1));
        }
        if str_eq(labels[i].0.as_str(), "service_name") {
            return labels[i].1.as_str();
        }
        i = i + 1;
    }
    fallback
}

/// Whether one line joining the group of its label set leads from one state to
/// another.
pub open spec fn fans_out<S, F: Fn(&S, Retained<'_>) -> Result<S, ReadError>>(
    charge: F,
    budget: S,
    after_budget: S,
    groups: Seq<GroupView>,
    after_groups: Seq<GroupView>,
    labels: Seq<PairView>,
    fallback: Seq<char>,
    line: (i64, Seq<char>),
    categories: Option<EntryCategories>,
    r: Result<(), ReadError>,
) -> bool {
    exists|key: String, service: &str|
        {
            &&& key@ == text::json_object(labels)
            &&& service@ == service_of(labels, fallback)
            &&& #[trigger] joins(
                charge,
                budget,
                after_budget,
                groups,
                after_groups,
                &key,
                fnv64(vstd::utf8::encode_utf8(key@)),
                service,
                line,
                categories,
                r,
            )
        }
}

impl FanOutGroups {
    /// Joins one line to the group of its sorted labels.
    pub fn push_fanout_entry<S, F: Fn(&S, Retained<'_>) -> Result<S, ReadError>>(
        &mut self,
        budget: &mut S,
        charge: &F,
        labels: &LabelSet,
        timestamp_ns: i64,
        line: String,
        fallback_service: &str,
        categories: Option<EntryCategories>,
    ) -> (r: Result<(), ReadError>)
        requires
            old(self).wf(),
            forall|s: &S, k: Retained<'_>| call_requires(*charge, (s, k)),
        ensures
            final(self).wf(),
            fans_out(
                *charge,
                *old(budget),
                *final(budget),
                old(self)@,
                final(self)@,
                text::labels_view(labels@),
                fallback_service@,
                (timestamp_ns, line@),
                categories,
                r,
            ),
    {
        let labels_json = render_labels_json(labels);
        let ghost key = labels_json;
        let service = service_name(labels, fallback_service);
        let fingerprint: u64 = fnv1a64(labels_json.as_str().as_bytes());
        let r = self.push_group_entry(
            budget,
            charge,
            labels_json,
            fingerprint,
            service,
            timestamp_ns,
            line,
            categories,
        );
        proof {
            assert(key@ == text::json_object(text::labels_view(labels@)));
        }
        r
    }
}

/// A row that survived its pipeline.
#[derive(Debug)]
pub struct EvaluatedRow {
    pub line: String,
    /// The labels, in the order the pipeline left them.
    pub labels: LabelSet,
    /// The category of each label, where labels are split.
    pub categories: Option<Vec<LabelCategory>>,
}

/// The labels of an evaluated row that name its group.
pub open spec fn group_labels(row: EvaluatedRow) -> Seq<PairView> {
    let view = text::labels_view(row.labels@);
    order::stable_sort(
        match row.categories {
            None => view,
            Some(cats) => picked(view, of_category(cats@, LabelCategory::Stream)),
        },
        text::pair_le(),
    )
}

/// The other labels of an evaluated row, where labels are split.
pub open spec fn row_categories(row: EvaluatedRow) -> Option<CategoriesView> {
    let view = text::labels_view(row.labels@);
    match row.categories {
        None => None,
        Some(cats) => Some(
            CategoriesView {
                structured_metadata: picked_sorted(
                    view,
                    of_category(cats@, LabelCategory::StructuredMetadata),
                ),
                parsed: picked_sorted(view, of_category(cats@, LabelCategory::Parsed)),
            },
        ),
    }
}

/// Takes what a pipeline made of one row. A surviving line joins the group of its
/// labels; the answer says whether there was one.
pub fn eval_structured_metadata_row<S, F: Fn(&S, Retained<'_>) -> Result<S, ReadError>>(
    run: Result<Option<EvaluatedRow>, RowBudgetExceeded>,
    groups: &mut FanOutGroups,
    budget: &mut S,
    charge: &F,
    timestamp_ns: i64,
    service: &str,
) -> (r: (bool, Result<(), ReadError>))
    requires
        old(groups).wf(),
        forall|s: &S, k: Retained<'_>| call_requires(*charge, (s, k)),
    ensures
        final(groups).wf(),
        r.0 == (run matches Ok(Some(_)) && r.1 is Ok),
        match run {
            Err(e) => {
                &&& r.1 is Err && r.1->Err_0@ == range_model::budget_error(e)
                &&& final(groups)@ == old(groups)@ && *final(budget) == *old(budget)
            },
            Ok(None) => {
                &&& r.1 is Ok
                &&& final(groups)@ == old(groups)@ && *final(budget) == *old(budget)
            },
            Ok(Some(row)) => exists|cats: Option<EntryCategories>|
                some_categories(cats) == row_categories(row) && #[trigger] fans_out(
                    *charge,
                    *old(budget),
                    *final(budget),
                    old(groups)@,
                    final(groups)@,
                    group_labels(row),
                    service@,
                    (timestamp_ns, row.line@),
                    cats,
                    r.1,
                ),
        },
{
    let row = match run {
        Err(e) => {
            return (
                false,
                Err(
                    ReadError::QueryTooBroad(
                        TooBroadReason::RowBudget {
                            budget: e.budget,
                            cap: row_budget_ceiling(e.budget),
                        },
                    ),
                ),
            );
        },
        Ok(None) => {
            return (false, Ok(()));
        },
        Ok(Some(row)) => row,
    };
    let ghost whole = row;
    let ghost b0 = *budget;
    let ghost g0 = groups@;
    let EvaluatedRow { line, labels, categories } = row;
    let (kept, split) = match categories {
        None => (labels, None),
        Some(cats) => {
            let (stream, rest) = split_categories(labels, cats.as_slice());
            (stream, Some(rest))
        },
    };
    let ghost cats = split;
    let sorted = sorted_labels(&kept);
    let r = groups.push_fanout_entry(
        budget,
        charge,
        &sorted,
        timestamp_ns,
        line,
        service,
        split,
    );
    proof {
        assert(some_categories(cats) == row_categories(whole));
        assert(fans_out(
            *charge,
            b0,
            *budget,
            g0,
            groups@,
            group_labels(whole),
            service@,
            (timestamp_ns, whole.line@),
            cats,
            r,
        ));
    }
    let survived: bool = r.is_ok();
    (survived, r)
}

/// One row with structured metadata, where no pipeline runs.
#[derive(Debug)]
pub struct MetadataRow {
    pub fingerprint: u64,
    pub timestamp_ns: i64,
    pub body: String,
    /// The stream's labels merged with the metadata.
    pub merged: LabelSet,
    pub ctx: StructuredMetadataCtx,
}

/// The labels of a metadata row that name its group.
pub open spec fn metadata_labels(row: MetadataRow) -> Seq<PairView> {
    order::stable_sort(
        text::labels_view(row.merged@) + visible(row.ctx),
        text::pair_le(),
    )
}

/// The groups of rows with structured metadata.
pub struct SmFanOutAccumulator {
    groups: FanOutGroups,
}

impl View for SmFanOutAccumulator {
    type V = Seq<GroupView>;

    closed spec fn view(&self) -> Seq<GroupView> {
        self.groups@
    }
}

impl SmFanOutAccumulator {
    /// The groups are in order.
    pub closed spec fn wf(&self) -> bool {
        self.groups.wf()
    }

    /// No groups.
    pub fn new() -> (a: SmFanOutAccumulator)
        ensures
            a.wf(),
            a@ == Seq::<GroupView>::empty(),
    {
        SmFanOutAccumulator { groups: FanOutGroups::new() }
    }

    /// Takes one row. A row of an unknown stream is passed over. `services` holds
    /// the service of each stream.
    pub fn push_row<S, F: Fn(&S, Retained<'_>) -> Result<S, ReadError>>(
        &mut self,
        row: MetadataRow,
        services: &HashMap<u64, String>,
        budget: &mut S,
        charge: &F,
    ) -> (r: Result<(), ReadError>)
        requires
            old(self).wf(),
            forall|s: &S, k: Retained<'_>| call_requires(*charge, (s, k)),
        ensures
            final(self).wf(),
            if services@.contains_key(row.fingerprint) {
                fans_out(
                    *charge,
                    *old(budget),
                    *final(budget),
                    old(self)@,
                    final(self)@,
                    metadata_labels(row),
                    services@[row.fingerprint]@,
                    (row.timestamp_ns, row.body@),
                    None,
                    r,
                )
            } else {
                r is Ok && final(self)@ == old(self)@ && *final(budget) == *old(budget)
            },
    {
        broadcast use vstd::std_specs::hash::group_hash_axioms;

        let service = match services.get(&row.fingerprint) {
            None => {
                return Ok(());
            },
            Some(service) => service,
        };
        let MetadataRow { fingerprint, timestamp_ns, body, merged, ctx } = row;
        let mut labels = merged;
        ctx.append_visible(&mut labels);
        let sorted = sorted_labels(&labels);
        self.groups.push_fanout_entry(
            budget,
            charge,
            &sorted,
            timestamp_ns,
            body,
            service.as_str(),
            None,
        )
    }

    /// The groups as streams, in the order they were first seen.
    pub fn into_streams(self) -> (out: Vec<StreamResult>)
        ensures
            out@.map_values(|s: StreamResult| s@) == self@,
    {
        self.groups.into_streams()
    }
}

/// A line joins exactly one group: the number of lines grows by one, whichever group
/// it joins.
pub proof fn law_one_line_joins_one_group(
    groups: Seq<GroupView>,
    key: Seq<char>,
    fingerprint: u64,
    service: Seq<char>,
    line: (i64, Seq<char>),
    categories: Option<CategoriesView>,
)
    ensures
        ({
            let size = |g: GroupView| g.entries.len() as int;
            order::sum_of(
                with_entry(groups, key, fingerprint, service, line, categories),
                size,
            ) == order::sum_of(groups, size) + 1
        }),
{
    let size = |g: GroupView| g.entries.len() as int;
    let after = with_entry(groups, key, fingerprint, service, line, categories);
    if has_group(groups, key) {
        let i = group_place(groups, key);
        assert(group_stands(groups, key, i));
        order::lemma_sum_remove(groups, size, i);
        order::lemma_sum_remove(after, size, i);
        assert(after.remove(i) =~= groups.remove(i));
    } else {
        assert(after.drop_last() =~= groups);
    }
}

/// Groups are kept apart by their labels: where no two groups had the same labels,
/// no two have after one more line.
pub proof fn law_groups_stay_distinct(
    groups: Seq<GroupView>,
    key: Seq<char>,
    fingerprint: u64,
    service: Seq<char>,
    line: (i64, Seq<char>),
    categories: Option<CategoriesView>,
)
    requires
        forall|i: int, j: int|
            0 <= i < j < groups.len() ==> (#[trigger] groups[i]).labels_json != (
            #[trigger] groups[j]).labels_json,
    ensures
        ({
            let after = with_entry(groups, key, fingerprint, service, line, categories);
            forall|i: int, j: int|
                0 <= i < j < after.len() ==> (#[trigger] after[i]).labels_json != (
                #[trigger] after[j]).labels_json
        }),
{
    let after = with_entry(groups, key, fingerprint, service, line, categories);
    if has_group(groups, key) {
        let at = group_place(groups, key);
        assert(group_stands(groups, key, at));
        assert forall|i: int, j: int| 0 <= i < j < after.len() implies (
        #[trigger] after[i]).labels_json != (#[trigger] after[j]).labels_json by {
            assert(after[i].labels_json == groups[i].labels_json);
            assert(after[j].labels_json == groups[j].labels_json);
        }
    } else {
        assert forall|i: int, j: int| 0 <= i < j < after.len() implies (
        #[trigger] after[i]).labels_json != (#[trigger] after[j]).labels_json by {
            if groups[i].labels_json == key {
                assert(group_stands(groups, key, i));
            }
        }
    }
}

} // verus!
