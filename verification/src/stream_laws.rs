//! What fanning lines out into groups keeps: which group a line ends, which labels name
//! it, and which labels stand beside the line.
use vstd::prelude::*;
use crate::error::ReadError;
use crate::fan_out::{
    self, CategoriesView, EntryCategories, EvaluatedRow, GroupView, LabelCategory, MetadataRow,
    Retained, StructuredMetadataCtx,
};
use crate::order;
use crate::text::{self, PairView};

verus! {

// ---------------------------------------------------------------------
// Lines and groups.
// ---------------------------------------------------------------------

/// Whether no two groups have the same labels.
pub open spec fn kept_apart(groups: Seq<GroupView>) -> bool {
    forall|i: int, j: int|
        0 <= i < j < groups.len() ==> (#[trigger] groups[i]).labels_json != (
        #[trigger] groups[j]).labels_json
}

/// Whether a group is another with one line more, at its end, and its categories, where
/// it has any, at theirs.
pub open spec fn ends_with(
    before: GroupView,
    after: GroupView,
    line: (i64, Seq<char>),
    categories: Option<CategoriesView>,
) -> bool {
    let n = before.entries.len() as int;
    let m = before.categories.len() as int;
    &&& after.labels_json == before.labels_json
    &&& after.fingerprint == before.fingerprint
    &&& after.service == before.service
    &&& after.entries.len() == n + 1
    &&& after.entries[n] == line
    &&& forall|j: int| 0 <= j < n ==> #[trigger] after.entries[j] == before.entries[j]
    &&& forall|j: int| 0 <= j < m ==> #[trigger] after.categories[j] == before.categories[j]
    &&& match categories {
        Some(c) => after.categories.len() == m + 1 && after.categories[m] == c,
        None => after.categories.len() == m,
    }
}

/// One more line ends the group of its labels, and leaves every other group as it was.
/// Where a group had the labels of each of its lines beside them, it has them again, the
/// new line's at the new line's place. A label set that has no group yet gets one, after
/// all the others, with the line's fingerprint and service.
pub proof fn law_a_line_ends_its_group(
    groups: Seq<GroupView>,
    key: Seq<char>,
    fingerprint: u64,
    service: Seq<char>,
    line: (i64, Seq<char>),
    categories: Option<CategoriesView>,
    i: int,
)
    requires
        kept_apart(groups),
        0 <= i,
    ensures
        ({
            let after = fan_out::with_entry(
                groups,
                key,
                fingerprint,
                service,
                line,
                categories,
            );
            let known = exists|j: int|
                0 <= j < groups.len() && (#[trigger] groups[j]).labels_json == key;
            &&& known ==> after.len() == groups.len()
            &&& !known ==> after.len() == groups.len() + 1
            &&& i < groups.len() && groups[i].labels_json != key ==> after[i] == groups[i]
            &&& i < groups.len() && groups[i].labels_json == key ==> {
                &&& ends_with(groups[i], after[i], line, categories)
                &&& categories is Some && groups[i].categories.len() == groups[i].entries.len()
                    ==> {
                    &&& after[i].categories.len() == after[i].entries.len()
                    &&& after[i].categories[groups[i].entries.len() as int] == categories->0
                }
            }
            &&& !known && i == groups.len() ==> {
                &&& after[i].labels_json == key
                &&& after[i].fingerprint == fingerprint
                &&& after[i].service == service
                &&& after[i].entries == seq![line]
                &&& after[i].categories == match categories {
                    Some(c) => seq![c],
                    None => Seq::empty(),
                }
            }
        }),
{
    let after = fan_out::with_entry(groups, key, fingerprint, service, line, categories);
    let known = exists|j: int| 0 <= j < groups.len() && (#[trigger] groups[j]).labels_json == key;
    if known {
        let j = choose|j: int| 0 <= j < groups.len() && (#[trigger] groups[j]).labels_json == key;
        assert(fan_out::group_stands(groups, key, j));
    } else {
        if fan_out::has_group(groups, key) {
            let j = choose|j: int| fan_out::group_stands(groups, key, j);
            assert(groups[j].labels_json == key);
        }
        assert(after[groups.len() as int].entries =~= seq![line]);
        match categories {
            Some(c) => {
                assert(after[groups.len() as int].categories =~= seq![c]);
            },
            None => {},
        }
    }
    if i < groups.len() && groups[i].labels_json == key {
        let j = fan_out::group_place(groups, key);
        assert(fan_out::group_stands(groups, key, i));
        assert(fan_out::group_stands(groups, key, j));
        assert(i == j);
    }
}

/// A line that is taken ends the group of its labels as the others say, and a line that is
/// refused changes no group.
pub proof fn law_a_refused_line_joins_no_group<
    S,
    F: Fn(&S, Retained<'_>) -> Result<S, ReadError>,
>(
    charge: F,
    budget: S,
    after_budget: S,
    groups: Seq<GroupView>,
    after: Seq<GroupView>,
    labels: Seq<PairView>,
    fallback: Seq<char>,
    line: (i64, Seq<char>),
    categories: Option<EntryCategories>,
    r: Result<(), ReadError>,
    i: int,
)
    requires
        kept_apart(groups),
        0 <= i,
        fan_out::fans_out(
            charge,
            budget,
            after_budget,
            groups,
            after,
            labels,
            fallback,
            line,
            categories,
            r,
        ),
    ensures
        r is Err ==> after == groups,
        r is Ok ==> {
            let key = text::json_object(labels);
            let known = exists|j: int|
                0 <= j < groups.len() && (#[trigger] groups[j]).labels_json == key;
            let beside = match categories {
                Some(c) => Some(c@),
                None => None::<CategoriesView>,
            };
            &&& known ==> after.len() == groups.len()
            &&& !known ==> after.len() == groups.len() + 1
            &&& i < groups.len() && groups[i].labels_json != key ==> after[i] == groups[i]
            &&& i < groups.len() && groups[i].labels_json == key ==> ends_with(
                groups[i],
                after[i],
                line,
                beside,
            )
            &&& !known && i == groups.len() ==> {
                &&& after[i].labels_json == key
                &&& after[i].service == fan_out::service_of(labels, fallback)
                &&& after[i].fingerprint == fan_out::fnv64(vstd::utf8::encode_utf8(key))
                &&& after[i].entries == seq![line]
                &&& beside is None ==> after[i].categories.len() == 0
                &&& beside is Some ==> after[i].categories == seq![beside->0]
            }
        },
{
    let (key, service) = choose|key: String, service: &str|
        {
            &&& key@ == text::json_object(labels)
            &&& service@ == fan_out::service_of(labels, fallback)
            &&& #[trigger] fan_out::joins(
                charge,
                budget,
                after_budget,
                groups,
                after,
                &key,
                fan_out::fnv64(vstd::utf8::encode_utf8(key@)),
                service,
                line,
                categories,
                r,
            )
        };
    let beside = match categories {
        Some(c) => Some(c@),
        None => None::<CategoriesView>,
    };
    law_a_line_ends_its_group(
        groups,
        key@,
        fan_out::fnv64(vstd::utf8::encode_utf8(key@)),
        service@,
        line,
        beside,
        i,
    );
}

/// The service of a label set is the value of its first label of that name, and the
/// fallback where it has none.
pub proof fn law_service_is_the_first_of_its_name(
    labels: Seq<PairView>,
    fallback: Seq<char>,
    i: int,
)
    requires
        0 <= i <= labels.len(),
        forall|j: int| 0 <= j < i ==> (#[trigger] labels[j]).0 != "service_name"@,
    ensures
        i == labels.len() ==> fan_out::service_of(labels, fallback) == fallback,
        i < labels.len() && labels[i].0 == "service_name"@ ==> fan_out::service_of(
            labels,
            fallback,
        ) == labels[i].1,
    decreases labels.len(),
{
    if i > 0 {
        let rest = labels.skip(1);
        assert(labels[0].0 != "service_name"@);
        assert forall|j: int| 0 <= j < i - 1 implies (#[trigger] rest[j]).0
            != "service_name"@ by {
            assert(rest[j] == labels[j + 1]);
        }
        law_service_is_the_first_of_its_name(rest, fallback, i - 1);
    }
}

// ---------------------------------------------------------------------
// Labels and their categories.
// ---------------------------------------------------------------------

proof fn lemma_picked(labels: Seq<PairView>, keep: spec_fn(int) -> bool)
    ensures
        forall|i: int|
            0 <= i < labels.len() && keep(i) ==> fan_out::picked(labels, keep).contains(
                #[trigger] labels[i],
            ),
        forall|k: int|
            0 <= k < fan_out::picked(labels, keep).len() ==> comes_from(
                labels,
                keep,
                #[trigger] fan_out::picked(labels, keep)[k],
            ),
        fan_out::picked(labels, keep).len() <= labels.len(),
    decreases labels.len(),
{
    if labels.len() > 0 {
        let front = labels.drop_last();
        let before = fan_out::picked(front, keep);
        let all = fan_out::picked(labels, keep);
        lemma_picked(front, keep);
        assert forall|i: int| 0 <= i < labels.len() && keep(i) implies all.contains(
            #[trigger] labels[i],
        ) by {
            if i < front.len() {
                assert(front[i] == labels[i]);
                let k = choose|k: int| 0 <= k < before.len() && before[k] == front[i];
                assert(all[k] == labels[i]);
            } else {
                assert(all[all.len() - 1] == labels[i]);
            }
        }
        assert forall|k: int| 0 <= k < all.len() implies comes_from(
            labels,
            keep,
            #[trigger] all[k],
        ) by {
            if k < before.len() {
                assert(all[k] == before[k]);
                let i = choose|i: int|
                    0 <= i < front.len() && keep(i) && #[trigger] front[i] == before[k];
                assert(labels[i] == before[k]);
            } else {
                assert(labels[labels.len() - 1] == all[k]);
            }
        }
    }
}

/// Whether a pair stands at some position that `keep` names.
pub open spec fn comes_from(
    labels: Seq<PairView>,
    keep: spec_fn(int) -> bool,
    p: PairView,
) -> bool {
    exists|i: int| 0 <= i < labels.len() && keep(i) && #[trigger] labels[i] == p
}

/// Whether labels stand by name and then by value, as texts order by their bytes.
pub open spec fn by_name_and_value(labels: Seq<PairView>) -> bool {
    forall|i: int, j: int|
        0 <= i <= j < labels.len() ==> {
            let (a, b) = (#[trigger] labels[i], #[trigger] labels[j]);
            &&& text::text_le(a.0, b.0)
            &&& a.0 == b.0 ==> text::text_le(a.1, b.1)
        }
}

proof fn lemma_picked_sorted(labels: Seq<PairView>, keep: spec_fn(int) -> bool)
    requires
        labels.len() <= usize::MAX,
    ensures
        ({
            let part = fan_out::picked_sorted(labels, keep);
            &&& part.to_multiset() == fan_out::picked(labels, keep).to_multiset()
            &&& part.len() == fan_out::picked(labels, keep).len()
            &&& forall|i: int|
                0 <= i < labels.len() && keep(i) ==> part.contains(#[trigger] labels[i])
            &&& forall|k: int|
                0 <= k < part.len() ==> comes_from(labels, keep, #[trigger] part[k])
            &&& by_name_and_value(part)
        }),
{
    broadcast use vstd::seq_lib::group_to_multiset_ensures;

    let plain = fan_out::picked(labels, keep);
    let part = fan_out::picked_sorted(labels, keep);
    lemma_picked(labels, keep);
    lemma_sorted_pairs(plain);
    assert forall|i: int| 0 <= i < labels.len() && keep(i) implies part.contains(
        #[trigger] labels[i],
    ) by {
        assert(plain.contains(labels[i]));
        assert(part.to_multiset().contains(labels[i]));
    }
    assert forall|k: int| 0 <= k < part.len() implies comes_from(
        labels,
        keep,
        #[trigger] part[k],
    ) by {
        assert(part.to_multiset().contains(part[k]));
        assert(plain.contains(part[k]));
        let m = choose|m: int| 0 <= m < plain.len() && plain[m] == part[k];
        assert(comes_from(labels, keep, plain[m]));
    }
}

proof fn lemma_sorted_pairs(labels: Seq<PairView>)
    requires
        labels.len() <= usize::MAX,
    ensures
        order::stable_sort(labels, text::pair_le()).to_multiset() == labels.to_multiset(),
        order::stable_sort(labels, text::pair_le()).len() == labels.len(),
        by_name_and_value(order::stable_sort(labels, text::pair_le())),
{
    text::lemma_pair_le_preorder();
    let sorted = order::stable_sort(labels, text::pair_le());
    order::lemma_stable_sort_permutes(labels, text::pair_le());
    order::lemma_stable_sort_ascends(labels, text::pair_le());
    assert forall|i: int, j: int| 0 <= i <= j < sorted.len() implies ({
        let (a, b) = (#[trigger] sorted[i], #[trigger] sorted[j]);
        &&& text::text_le(a.0, b.0)
        &&& a.0 == b.0 ==> text::text_le(a.1, b.1)
    }) by {
        assert(text::pair_le()(sorted[i], sorted[j]));
    }
}

/// Whether labels hold what stands at some positions of a label set, and nothing else, by
/// name and value.
pub open spec fn holds_exactly(
    part: Seq<PairView>,
    labels: Seq<PairView>,
    keep: spec_fn(int) -> bool,
) -> bool {
    &&& forall|i: int| 0 <= i < labels.len() && keep(i) ==> part.contains(#[trigger] labels[i])
    &&& forall|k: int| 0 <= k < part.len() ==> comes_from(labels, keep, #[trigger] part[k])
    &&& by_name_and_value(part)
}

proof fn lemma_three_parts(labels: Seq<PairView>, cats: Seq<LabelCategory>)
    ensures
        fan_out::picked(labels, fan_out::of_category(cats, LabelCategory::Stream)).len()
            + fan_out::picked(
            labels,
            fan_out::of_category(cats, LabelCategory::StructuredMetadata),
        ).len() + fan_out::picked(
            labels,
            fan_out::of_category(cats, LabelCategory::Parsed),
        ).len() == labels.len(),
    decreases labels.len(),
{
    if labels.len() > 0 {
        lemma_three_parts(labels.drop_last(), cats);
    }
}

/// A row's labels go where their categories say, each to one place: those of the stream,
/// and those without a category, name the group; the metadata's and the parsed ones stand
/// beside the line. A row whose labels are not split is named by all of them.
pub proof fn law_labels_go_by_their_category(row: EvaluatedRow)
    requires
        row.labels@.len() <= usize::MAX,
    ensures
        ({
            let labels = text::labels_view(row.labels@);
            match row.categories {
                None => {
                    &&& fan_out::row_categories(row) is None
                    &&& fan_out::group_labels(row).to_multiset() == labels.to_multiset()
                    &&& by_name_and_value(fan_out::group_labels(row))
                },
                Some(cats) => {
                    let named = fan_out::group_labels(row);
                    let beside = fan_out::row_categories(row)->0;
                    &&& fan_out::row_categories(row) is Some
                    &&& holds_exactly(
                        named,
                        labels,
                        |i: int| i >= cats@.len() || cats@[i] is Stream,
                    )
                    &&& holds_exactly(
                        beside.structured_metadata,
                        labels,
                        |i: int| i < cats@.len() && cats@[i] is StructuredMetadata,
                    )
                    &&& holds_exactly(
                        beside.parsed,
                        labels,
                        |i: int| i < cats@.len() && cats@[i] is Parsed,
                    )
                    &&& named.len() + beside.structured_metadata.len() + beside.parsed.len()
                        == labels.len()
                },
            }
        }),
{
    let labels = text::labels_view(row.labels@);
    match row.categories {
        None => {
            lemma_sorted_pairs(labels);
        },
        Some(cats) => {
            lemma_part(labels, cats@, LabelCategory::Stream, |i: int|
                i >= cats@.len() || cats@[i] is Stream);
            lemma_part(labels, cats@, LabelCategory::StructuredMetadata, |i: int|
                i < cats@.len() && cats@[i] is StructuredMetadata);
            lemma_part(labels, cats@, LabelCategory::Parsed, |i: int|
                i < cats@.len() && cats@[i] is Parsed);
            lemma_three_parts(labels, cats@);
        },
    }
}

proof fn lemma_part(
    labels: Seq<PairView>,
    cats: Seq<LabelCategory>,
    c: LabelCategory,
    keep: spec_fn(int) -> bool,
)
    requires
        labels.len() <= usize::MAX,
        forall|i: int| i >= 0 ==> #[trigger] keep(i) == (fan_out::category_at(cats, i) == c),
    ensures
        ({
            let part = fan_out::picked_sorted(labels, fan_out::of_category(cats, c));
            &&& holds_exactly(part, labels, keep)
            &&& part.len() == fan_out::picked(labels, fan_out::of_category(cats, c)).len()
        }),
{
    let of = fan_out::of_category(cats, c);
    let part = fan_out::picked_sorted(labels, of);
    lemma_picked_sorted(labels, of);
    assert forall|i: int| 0 <= i < labels.len() && keep(i) implies part.contains(
        #[trigger] labels[i],
    ) by {
        assert(of(i));
    }
    assert forall|k: int| 0 <= k < part.len() implies comes_from(
        labels,
        keep,
        #[trigger] part[k],
    ) by {
        assert(comes_from(labels, of, part[k]));
        let i = choose|i: int| 0 <= i < labels.len() && of(i) && #[trigger] labels[i] == part[k];
        assert(keep(i));
    }
}

// ---------------------------------------------------------------------
// Structured metadata.
// ---------------------------------------------------------------------

/// Of merged labels, those at the stream's own places stay the stream's, unless metadata
/// took over their name; all others stand beside the line. Both come by name and value.
pub proof fn law_metadata_leaves_the_stream(ctx: StructuredMetadataCtx, labels: Seq<PairView>)
    requires
        labels.len() <= usize::MAX,
    ensures
        ({
            let own = |i: int|
                {
                    &&& ctx.stream_label_count matches Some(n) ==> i < n
                    &&& forall|k: int|
                        0 <= k < ctx.sm_over_stream@.len() ==> (
                        #[trigger] ctx.sm_over_stream@[k])@ != labels[i].0
                };
            &&& holds_exactly(
                fan_out::picked_sorted(labels, fan_out::stays_stream(ctx, labels)),
                labels,
                own,
            )
            &&& holds_exactly(
                fan_out::picked_sorted(labels, fan_out::leaves_stream(ctx, labels)),
                labels,
                |i: int| !own(i),
            )
        }),
{
    let own = |i: int|
        {
            &&& ctx.stream_label_count matches Some(n) ==> i < n
            &&& forall|k: int|
                0 <= k < ctx.sm_over_stream@.len() ==> (#[trigger] ctx.sm_over_stream@[k])@
                    != labels[i].0
        };
    let stays = fan_out::stays_stream(ctx, labels);
    let leaves = fan_out::leaves_stream(ctx, labels);
    lemma_picked_sorted(labels, stays);
    lemma_picked_sorted(labels, leaves);
    assert forall|i: int| 0 <= i < labels.len() implies #[trigger] own(i) == stays(i) by {}
    let other = |i: int| !own(i);
    lemma_same_positions(
        fan_out::picked_sorted(labels, stays),
        labels,
        stays,
        own,
    );
    lemma_same_positions(
        fan_out::picked_sorted(labels, leaves),
        labels,
        leaves,
        other,
    );
}

proof fn lemma_same_positions(
    part: Seq<PairView>,
    labels: Seq<PairView>,
    a: spec_fn(int) -> bool,
    b: spec_fn(int) -> bool,
)
    requires
        holds_exactly(part, labels, a),
        forall|i: int| 0 <= i < labels.len() ==> #[trigger] a(i) == b(i),
    ensures
        holds_exactly(part, labels, b),
{
    assert forall|i: int| 0 <= i < labels.len() && b(i) implies part.contains(
        #[trigger] labels[i],
    ) by {
        assert(a(i));
    }
    assert forall|k: int| 0 <= k < part.len() implies comes_from(labels, b, #[trigger] part[k]) by {
        assert(comes_from(labels, a, part[k]));
        let i = choose|i: int| 0 <= i < labels.len() && a(i) && #[trigger] labels[i] == part[k];
        assert(b(i));
    }
}

/// The error that came as metadata shows where there is one, and its details show where
/// there are any and they do not stand alone, after it. Nothing else shows.
pub proof fn law_reserved_metadata_shows(ctx: StructuredMetadataCtx)
    ensures
        ({
            let shown = fan_out::visible(ctx);
            let err = ("__error__"@, ctx.err@);
            let details = ("__error_details__"@, ctx.details@);
            &&& ctx.err@.len() == 0 && ctx.details@.len() == 0 ==> shown.len() == 0
            &&& ctx.err@.len() == 0 && !ctx.has_ordinary ==> shown.len() == 0
            &&& ctx.err@.len() > 0 && ctx.details@.len() == 0 ==> shown == seq![err]
            &&& ctx.err@.len() > 0 && ctx.details@.len() > 0 ==> shown == seq![err, details]
            &&& ctx.err@.len() == 0 && ctx.details@.len() > 0 && ctx.has_ordinary ==> shown
                == seq![details]
        }),
{
    let err: PairView = ("__error__"@, ctx.err@);
    let details: PairView = ("__error_details__"@, ctx.details@);
    assert(seq![err].push(details) =~= seq![err, details]);
    assert(Seq::<PairView>::empty().push(details) =~= seq![details]);
}

/// A row with metadata is named by the stream's labels merged with the metadata and the
/// reserved pairs that show, all of them, by name and value.
pub proof fn law_metadata_rows_are_named_by_all_they_show(row: MetadataRow)
    requires
        row.merged@.len() + 2 <= usize::MAX,
    ensures
        fan_out::metadata_labels(row).to_multiset() == text::labels_view(
            row.merged@,
        ).to_multiset().add(fan_out::visible(row.ctx).to_multiset()),
        by_name_and_value(fan_out::metadata_labels(row)),
{
    let labels = text::labels_view(row.merged@);
    let shown = fan_out::visible(row.ctx);
    lemma_sorted_pairs(labels + shown);
    vstd::seq_lib::lemma_multiset_commutative(labels, shown);
}

/// Merged labels split into three: the stream's own, the others as metadata, and the
/// reserved pairs that show as parsed, each by name and value.
pub proof fn law_merged_labels_split_in_three(
    labels: Seq<PairView>,
    ctx: StructuredMetadataCtx,
)
    requires
        labels.len() <= usize::MAX,
    ensures
        ({
            let (stream, beside) = fan_out::merged_split(labels, ctx);
            let own = |i: int|
                {
                    &&& ctx.stream_label_count matches Some(n) ==> i < n
                    &&& forall|k: int|
                        0 <= k < ctx.sm_over_stream@.len() ==> (
                        #[trigger] ctx.sm_over_stream@[k])@ != labels[i].0
                };
            &&& holds_exactly(stream, labels, own)
            &&& holds_exactly(beside.structured_metadata, labels, |i: int| !own(i))
            &&& stream.to_multiset().add(beside.structured_metadata.to_multiset())
                == labels.to_multiset()
            &&& beside.parsed.to_multiset() == fan_out::visible(ctx).to_multiset()
            &&& by_name_and_value(beside.parsed)
        }),
{
    law_metadata_leaves_the_stream(ctx, labels);
    fan_out::law_split_keeps_every_label(ctx, labels);
    lemma_sorted_pairs(fan_out::visible(ctx));
}

/// Whether a line of these bytes and categories takes a budget to an outcome.
pub open spec fn line_paid<S, F: Fn(&S, Retained<'_>) -> Result<S, ReadError>>(
    charge: F,
    before: S,
    line: Seq<char>,
    categories: Option<EntryCategories>,
    out: Result<S, ReadError>,
) -> bool {
    exists|n: u64, held: Option<&EntryCategories>|
        {
            &&& #[trigger] call_ensures(
                charge,
                (&before, Retained::Line { line_bytes: n, categories: held }),
                out,
            )
            &&& n == if text::byte_count(line) <= u64::MAX {
                text::byte_count(line) as u64
            } else {
                u64::MAX
            }
            &&& held is Some <==> categories is Some
            &&& categories matches Some(c) ==> *(held->0) == c
        }
}

/// A line is paid for by its bytes and its categories. Where its group is there that is
/// all, and a line that is refused costs nothing. Where it is not, the group is paid for
/// first, with its rendered labels and its service.
pub proof fn law_lines_are_paid_for<S, F: Fn(&S, Retained<'_>) -> Result<S, ReadError>>(
    charge: F,
    budget: S,
    after_budget: S,
    groups: Seq<GroupView>,
    after: Seq<GroupView>,
    key: &String,
    fingerprint: u64,
    service: &str,
    line: (i64, Seq<char>),
    categories: Option<EntryCategories>,
    r: Result<(), ReadError>,
    paid: S,
)
    requires
        fan_out::joins(
            charge,
            budget,
            after_budget,
            groups,
            after,
            key,
            fingerprint,
            service,
            line,
            categories,
            r,
        ),
        forall|out: Result<S, ReadError>|
            #[trigger] call_ensures(
                charge,
                (&budget, Retained::Group { labels_json: key, service }),
                out,
            ) ==> out == Ok::<S, ReadError>(paid),
    ensures
        ({
            let known = exists|j: int|
                0 <= j < groups.len() && (#[trigger] groups[j]).labels_json == key@;
            &&& known && r is Ok ==> line_paid(
                charge,
                budget,
                line.1,
                categories,
                Ok(after_budget),
            )
            &&& known && r is Err ==> after_budget == budget && line_paid(
                charge,
                budget,
                line.1,
                categories,
                Err(r->Err_0),
            )
            &&& !known && r is Ok ==> line_paid(
                charge,
                paid,
                line.1,
                categories,
                Ok(after_budget),
            )
            &&& !known && r is Err ==> after_budget == paid && line_paid(
                charge,
                paid,
                line.1,
                categories,
                Err(r->Err_0),
            )
        }),
{
    let known = exists|j: int| 0 <= j < groups.len() && (#[trigger] groups[j]).labels_json == key@;
    if known {
        let j = choose|j: int| 0 <= j < groups.len() && (#[trigger] groups[j]).labels_json == key@;
        assert(fan_out::group_stands(groups, key@, j));
        assert(fan_out::has_group(groups, key@));
        if r is Ok {
            lemma_line_paid(charge, budget, line.1, categories, Ok(after_budget));
        } else {
            lemma_line_paid(charge, budget, line.1, categories, Err(r->Err_0));
        }
    } else {
        if fan_out::has_group(groups, key@) {
            let j = choose|j: int| fan_out::group_stands(groups, key@, j);
            assert(groups[j].labels_json == key@);
        }
        if r is Ok {
            let p = choose|p: S| #[trigger]
                fan_out::pays_group(charge, budget, key, service, Ok(p)) && fan_out::pays_line(
                    charge,
                    p,
                    line.1,
                    categories,
                    Ok(after_budget),
                );
            assert(p == paid);
            lemma_line_paid(charge, paid, line.1, categories, Ok(after_budget));
        } else {
            assert(!fan_out::pays_group(charge, budget, key, service, Err(r->Err_0)));
            assert(after_budget == paid);
            lemma_line_paid(charge, paid, line.1, categories, Err(r->Err_0));
        }
    }
}

proof fn lemma_line_paid<S, F: Fn(&S, Retained<'_>) -> Result<S, ReadError>>(
    charge: F,
    before: S,
    line: Seq<char>,
    categories: Option<EntryCategories>,
    out: Result<S, ReadError>,
)
    requires
        fan_out::pays_line(charge, before, line, categories, out),
    ensures
        line_paid(charge, before, line, categories, out),
{
    let held = match categories {
        None => None::<&EntryCategories>,
        Some(c) => Some(&c),
    };
    let n = text::saturate(text::byte_count(line));
    assert(call_ensures(
        charge,
        (&before, Retained::Line { line_bytes: n, categories: held }),
        out,
    ));
}

} // verus!
