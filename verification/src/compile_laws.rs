//! What the rules of the compiler satisfy: which names a statement can read after a link,
//! and what a link that becomes part of the statement adds to it.
use vstd::prelude::*;
use crate::compile::{
    self, BlockReason, Capability, ColView, Fidelity, LabelFilterExpr, LabelFmt, LineFilter,
    LqlLink, NeverReason, ProvenanceView, RelationView, SortDir, Stage,
};
use crate::error::ErrorView;

verus! {

// ---------------------------------------------------------------------
// Names.
// ---------------------------------------------------------------------

/// Where a name's value comes from is what its first column says, and an unknown name comes
/// from nowhere.
pub proof fn law_the_first_column_of_a_name_speaks(cols: Seq<ColView>, name: Seq<char>, i: int)
    requires
        0 <= i <= cols.len(),
        forall|j: int| 0 <= j < i ==> (#[trigger] cols[j]).0 != name,
    ensures
        i == cols.len() ==> compile::provenance_of(cols, name) is None,
        i < cols.len() && cols[i].0 == name ==> compile::provenance_of(cols, name) == Some(
            cols[i].1,
        ),
    decreases cols.len(),
{
    if i > 0 {
        let rest = cols.skip(1);
        assert(cols[0].0 != name);
        assert forall|j: int| 0 <= j < i - 1 implies (#[trigger] rest[j]).0 != name by {
            assert(rest[j] == cols[j + 1]);
        }
        law_the_first_column_of_a_name_speaks(rest, name, i - 1);
    }
}

/// Setting where a name's value comes from is read back, leaves every other name as it was,
/// and adds a column only where the name was not known.
pub proof fn law_a_set_name_is_read_back(
    cols: Seq<ColView>,
    name: Seq<char>,
    p: ProvenanceView,
    other: Seq<char>,
)
    ensures
        compile::provenance_of(compile::with_provenance(cols, name, p), name) == Some(p),
        other != name ==> compile::provenance_of(
            compile::with_provenance(cols, name, p),
            other,
        ) == compile::provenance_of(cols, other),
        compile::with_provenance(cols, name, p).len() == if compile::provenance_of(cols, name)
            is Some {
            cols.len()
        } else {
            cols.len() + 1
        },
    decreases cols.len(),
{
    let set = compile::with_provenance(cols, name, p);
    if cols.len() == 0 {
        assert(set.skip(1) =~= cols);
        assert(set[0] == (name, p));
        assert(compile::provenance_of(set.skip(1), other) is None);
    } else if cols[0].0 == name {
        assert(set[0] == (name, p));
        assert(set.skip(1) =~= cols.skip(1));
    } else {
        law_a_set_name_is_read_back(cols.skip(1), name, p, other);
        assert(set[0] == cols[0]);
        assert(set.skip(1) =~= compile::with_provenance(cols.skip(1), name, p));
    }
}

/// A stored name is read by its own name, a computed one by its expression, and a name that
/// only the evaluator has, or nobody, cannot be read.
pub proof fn law_names_are_read_where_they_come_from(cols: Seq<ColView>, name: Seq<char>)
    ensures
        match compile::provenance_of(cols, name) {
            Some(ProvenanceView::Stored) => compile::resolved(cols, name) == Some(name),
            Some(ProvenanceView::Computed(e)) => compile::resolved(cols, name) == Some(e),
            Some(ProvenanceView::EvaluatorOnly) => compile::resolved(cols, name) is None,
            None => compile::resolved(cols, name) is None,
        },
{
}

/// A statement reads a label filter where it reads every name in it, whatever joins them.
pub proof fn law_filters_need_all_their_names(
    a: LabelFilterExpr,
    b: LabelFilterExpr,
    name: String,
    cols: Seq<ColView>,
)
    ensures
        ({
            let both = compile::filter_resolves(a, cols) && compile::filter_resolves(b, cols);
            let read = compile::resolved(cols, name@) is Some;
            &&& compile::filter_resolves(LabelFilterExpr::And(Box::new(a), Box::new(b)), cols)
                == both
            &&& compile::filter_resolves(LabelFilterExpr::Or(Box::new(a), Box::new(b)), cols)
                == both
            &&& compile::filter_resolves(LabelFilterExpr::Match { name }, cols) == read
            &&& compile::filter_resolves(LabelFilterExpr::Compare { name }, cols) == read
            &&& compile::filter_resolves(LabelFilterExpr::Ip { name }, cols) == read
        }),
{
}

// ---------------------------------------------------------------------
// Links that are left to the evaluator.
// ---------------------------------------------------------------------

/// Whether a link, left to the evaluator, writes a name.
pub open spec fn writes(link: LqlLink, name: Seq<char>) -> bool {
    match link {
        LqlLink::Pipe(Stage::LineFormat(_)) => name == "body"@,
        LqlLink::Pipe(Stage::Unpack) => name == "body"@,
        LqlLink::Pipe(Stage::Decolorize) => name == "body"@,
        LqlLink::Pipe(Stage::Unwrap(label)) => name == label@,
        LqlLink::Pipe(Stage::LabelFormat(fmts)) => exists|i: int|
            0 <= i < fmts@.len() && match #[trigger] fmts@[i] {
                LabelFmt::Rename { dst, .. } => dst@ == name,
                LabelFmt::Template { dst, .. } => dst@ == name,
            },
        LqlLink::Window { .. } => name == "__bucket"@,
        LqlLink::LabelReplace { dst, .. } => name == dst@,
        LqlLink::Emit => name == "__response"@,
        _ => false,
    }
}

proof fn lemma_rewritten(rel: RelationView, fmts: Seq<LabelFmt>, name: Seq<char>)
    ensures
        ({
            let after = compile::rewritten(rel, fmts);
            let hit = exists|i: int|
                0 <= i < fmts.len() && match #[trigger] fmts[i] {
                    LabelFmt::Rename { dst, .. } => dst@ == name,
                    LabelFmt::Template { dst, .. } => dst@ == name,
                };
            &&& hit ==> compile::provenance_of(after.cols.cols, name) == Some(
                ProvenanceView::EvaluatorOnly,
            )
            &&& !hit ==> compile::provenance_of(after.cols.cols, name) == compile::provenance_of(
                rel.cols.cols,
                name,
            )
            &&& after.exact == rel.exact
        }),
    decreases fmts.len(),
{
    if fmts.len() > 0 {
        let front = fmts.drop_last();
        lemma_rewritten(rel, front, name);
        let mid = compile::rewritten(rel, front);
        law_a_set_name_is_read_back(
            mid.cols.cols,
            compile::fmt_dst(fmts.last()),
            ProvenanceView::EvaluatorOnly,
            name,
        );
        let before = exists|i: int|
            0 <= i < front.len() && match #[trigger] front[i] {
                LabelFmt::Rename { dst, .. } => dst@ == name,
                LabelFmt::Template { dst, .. } => dst@ == name,
            };
        if before {
            let i = choose|i: int|
                0 <= i < front.len() && match #[trigger] front[i] {
                    LabelFmt::Rename { dst, .. } => dst@ == name,
                    LabelFmt::Template { dst, .. } => dst@ == name,
                };
            assert(fmts[i] == front[i]);
        }
        let hit = exists|i: int|
            0 <= i < fmts.len() && match #[trigger] fmts[i] {
                LabelFmt::Rename { dst, .. } => dst@ == name,
                LabelFmt::Template { dst, .. } => dst@ == name,
            };
        if hit && !before {
            let i = choose|i: int|
                0 <= i < fmts.len() && match #[trigger] fmts[i] {
                    LabelFmt::Rename { dst, .. } => dst@ == name,
                    LabelFmt::Template { dst, .. } => dst@ == name,
                };
            if i < front.len() {
                assert(front[i] == fmts[i]);
            }
            assert(compile::fmt_dst(fmts.last()) == name);
        }
        if compile::fmt_dst(fmts.last()) == name {
            assert(fmts[fmts.len() - 1] == fmts.last());
        }
    }
}

/// What the evaluator writes no statement can read afterwards, and every name that it does
/// not write, drop or fail to keep is read as before.
pub proof fn law_written_names_are_the_evaluators(
    link: LqlLink,
    rel: RelationView,
    name: Seq<char>,
)
    requires
        !(link matches LqlLink::Pipe(Stage::Drop(_))),
        !(link matches LqlLink::Pipe(Stage::Keep(_))),
    ensures
        ({
            let after = compile::residual_of(compile::dispatched(link), link, rel);
            &&& writes(link, name) ==> compile::provenance_of(after.cols.cols, name) == Some(
                ProvenanceView::EvaluatorOnly,
            )
            &&& writes(link, name) ==> compile::resolved(after.cols.cols, name) is None
            &&& !writes(link, name) ==> compile::provenance_of(after.cols.cols, name)
                == compile::provenance_of(rel.cols.cols, name)
        }),
{
    let cols = rel.cols.cols;
    law_a_set_name_is_read_back(cols, "body"@, ProvenanceView::EvaluatorOnly, name);
    law_a_set_name_is_read_back(cols, "__bucket"@, ProvenanceView::EvaluatorOnly, name);
    law_a_set_name_is_read_back(cols, "__response"@, ProvenanceView::EvaluatorOnly, name);
    match link {
        LqlLink::Pipe(Stage::Unwrap(label)) => {
            law_a_set_name_is_read_back(cols, label@, ProvenanceView::EvaluatorOnly, name);
        },
        LqlLink::LabelReplace { dst, .. } => {
            law_a_set_name_is_read_back(cols, dst@, ProvenanceView::EvaluatorOnly, name);
        },
        LqlLink::Pipe(Stage::LabelFormat(fmts)) => {
            lemma_rewritten(rel, fmts@, name);
        },
        _ => {},
    }
}

/// A parser and an unpacked line make names that no statement knows, recorded after those
/// before; keeping some names forgets them; nothing else touches what is recorded.
pub proof fn law_made_names_are_recorded(link: LqlLink, rel: RelationView)
    ensures
        ({
            let after = compile::residual_of(compile::dispatched(link), link, rel);
            let makes = link matches LqlLink::Pipe(Stage::Parser(_)) || link
                matches LqlLink::Pipe(Stage::Unpack);
            let keeps = link matches LqlLink::Pipe(Stage::Keep(_));
            &&& makes ==> after.cols.open.len() == rel.cols.open.len() + 1
                && after.cols.open.drop_last() == rel.cols.open
            &&& keeps ==> after.cols.open.len() == 0
            &&& !makes && !keeps ==> after.cols.open == rel.cols.open
        }),
{
    let after = compile::residual_of(compile::dispatched(link), link, rel);
    if link matches LqlLink::Pipe(Stage::Parser(_)) || link matches LqlLink::Pipe(
        Stage::Unpack,
    ) {
        assert(after.cols.open.drop_last() =~= rel.cols.open);
    }
    if let LqlLink::Pipe(Stage::LabelFormat(fmts)) = link {
        lemma_rewritten_open(rel, fmts@);
    }
}

proof fn lemma_rewritten_open(rel: RelationView, fmts: Seq<LabelFmt>)
    ensures
        compile::rewritten(rel, fmts).cols.open == rel.cols.open,
    decreases fmts.len(),
{
    if fmts.len() > 0 {
        lemma_rewritten_open(rel, fmts.drop_last());
    }
}

// ---------------------------------------------------------------------
// Links that become part of the statement.
// ---------------------------------------------------------------------

/// A line filter adds its condition, after those there are, on the relation's source, and
/// nothing else; where it has none, the pipeline is invalid, and says why.
pub proof fn law_a_line_filter_adds_its_condition(f: LineFilter, rel: RelationView)
    ensures
        ({
            let link = LqlLink::Pipe(Stage::LineFilter(f));
            match f.condition {
                Ok(sql) => compile::applied(compile::dispatched(link), link, rel) matches Ok(
                    after,
                ) && {
                    &&& after.predicate.len() == rel.predicate.len() + 1
                    &&& after.predicate.drop_last() == rel.predicate
                    &&& after.predicate.last() == (sql@, rel.source)
                    &&& after == (RelationView { predicate: after.predicate, ..rel })
                },
                Err(reason) => compile::applied(compile::dispatched(link), link, rel) == Err::<
                    RelationView,
                    ErrorView,
                >(ErrorView::PipelineInvalid { reason: reason@ }),
            }
        }),
{
    let link = LqlLink::Pipe(Stage::LineFilter(f));
    if let Ok(after) = compile::applied(compile::dispatched(link), link, rel) {
        assert(after.predicate.drop_last() =~= rel.predicate);
    }
}

/// An order makes the rows come by time, the newest first, and a limit takes as many of
/// them as it says; no other link that is part of the statement changes the relation, but
/// for a line filter.
pub proof fn law_orders_and_limits_are_taken_over(n: u32, other: LqlLink, rel: RelationView)
    requires
        !(other is Order),
        !(other is Limit),
        !(other matches LqlLink::Pipe(Stage::LineFilter(_))),
    ensures
        compile::applied(compile::dispatched(LqlLink::Order), LqlLink::Order, rel) matches Ok(
            after,
        ) && after == (RelationView {
            ordering: Some(seq![("timestamp_ns"@, SortDir::Desc)]),
            ..rel
        }),
        compile::applied(compile::dispatched(LqlLink::Limit(n)), LqlLink::Limit(n), rel) matches Ok(
            after,
        ) && after == (RelationView { limit: Some(n as u64), ..rel }),
        compile::applied(compile::dispatched(other), other, rel) == Ok::<RelationView, ErrorView>(
            rel,
        ),
{
}

/// Left to the evaluator, an order leaves the rows unordered and a limit leaves them
/// unlimited; no other link does either.
pub proof fn law_orders_and_limits_are_lost(link: LqlLink, rel: RelationView)
    ensures
        ({
            let after = compile::residual_of(compile::dispatched(link), link, rel);
            &&& after.ordering == if link is Order {
                None
            } else {
                rel.ordering
            }
            &&& after.limit == if link is Limit {
                None
            } else {
                rel.limit
            }
        }),
{
    if let LqlLink::Pipe(Stage::LabelFormat(fmts)) = link {
        lemma_rewritten_rest(rel, fmts@);
    }
}

proof fn lemma_rewritten_rest(rel: RelationView, fmts: Seq<LabelFmt>)
    ensures
        compile::rewritten(rel, fmts).ordering == rel.ordering,
        compile::rewritten(rel, fmts).limit == rel.limit,
    decreases fmts.len(),
{
    if fmts.len() > 0 {
        lemma_rewritten_rest(rel, fmts.drop_last());
    }
}

/// A line filter becomes part of the statement where the line is read as it is stored and
/// the filter can be pushed; an order where the time can be read. A selector always does,
/// building the response and telling what is absent never do, and nothing else does yet.
pub proof fn law_links_become_part_of_the_statement(link: LqlLink, rel: RelationView)
    ensures
        ({
            let c = compile::capability_of(compile::dispatched(link), link, rel);
            let stored = compile::provenance_of(rel.cols.cols, "body"@) != Some(
                ProvenanceView::EvaluatorOnly,
            );
            match link {
                LqlLink::Source => c is Yes,
                LqlLink::Pipe(Stage::LineFilter(f)) => {
                    &&& c is Yes <==> stored && f.pushable
                    &&& !stored ==> c == Capability::No(BlockReason::BodyNotStored)
                    &&& stored && !f.pushable ==> c == Capability::No(BlockReason::NotPushable)
                },
                LqlLink::Pipe(Stage::Parser(_)) => c == Capability::No(
                    if stored {
                        BlockReason::NotYetLowered
                    } else {
                        BlockReason::BodyNotStored
                    },
                ),
                LqlLink::Pipe(Stage::LabelFilter(e)) => c == Capability::No(
                    if compile::filter_resolves(e, rel.cols.cols) {
                        BlockReason::NotYetLowered
                    } else {
                        BlockReason::NameNotResolvable
                    },
                ),
                LqlLink::Order => c is Yes <==> compile::resolved(
                    rel.cols.cols,
                    "timestamp_ns"@,
                ) is Some,
                LqlLink::Limit(_) => {
                    &&& rel.ordering is None ==> c == Capability::No(
                        BlockReason::OrderingNotEstablished,
                    )
                    &&& rel.ordering is Some && !rel.exact ==> c == Capability::No(
                        BlockReason::NotExact,
                    )
                },
                LqlLink::RangeAgg { op, .. } => if op is AbsentOverTime {
                    c == Capability::Never(NeverReason::NoRowToComputeFrom)
                } else {
                    c == Capability::No(BlockReason::NotYetLowered)
                },
                LqlLink::Emit => c == Capability::Never(NeverReason::ResponseBuild),
                _ => c == Capability::No(BlockReason::NotYetLowered),
            }
        }),
{
}

/// Every link that can become part of the statement means there what it means to the
/// evaluator, and no other link has a meaning there.
pub proof fn law_what_is_pushed_means_the_same(link: LqlLink, rel: RelationView)
    ensures
        compile::capability_of(compile::dispatched(link), link, rel) is Yes
            ==> compile::fidelity_of(compile::dispatched(link)) == Some(Fidelity::Equivalent),
        compile::fidelity_of(compile::dispatched(link)) is Some <==> (link is Source || link
            is Order || link is Limit || link matches LqlLink::Pipe(Stage::LineFilter(_))),
{
}

/// Handing on one stream more takes at most twenty digits, a quote and a separator, and one
/// element; handing on none takes the frame.
pub proof fn law_handing_on_costs_by_the_stream(n: int)
    ensures
        compile::handoff_text(n + 1) - compile::handoff_text(n) == 22,
        compile::handoff_elements(n + 1) - compile::handoff_elements(n) == 1,
        compile::handoff_text(0) == 32,
        compile::handoff_elements(0) == 4,
{
}

/// A chain starts from all lines of the selected streams: the line and the time are read as
/// they are stored, the level from the metadata, and nothing is filtered, ordered or limited
/// yet. Its first line filter and its order become part of the statement.
pub proof fn law_chains_start_from_the_stored_line(f: LineFilter)
    ensures
        ({
            let rel = compile::seed_view();
            let filter = LqlLink::Pipe(Stage::LineFilter(f));
            &&& compile::resolved(rel.cols.cols, "body"@) == Some("body"@)
            &&& compile::resolved(rel.cols.cols, "timestamp_ns"@) == Some("timestamp_ns"@)
            &&& compile::resolved(rel.cols.cols, "level"@) == Some(
                "JSONExtractString(structured_metadata, 'level')"@,
            )
            &&& rel.source == "log_streams_idx"@
            &&& rel.projection == seq![("fingerprint"@, "fingerprint"@)]
            &&& rel.predicate.len() == 0 && rel.cols.open.len() == 0
            &&& rel.grouping is None && rel.ordering is None && rel.limit is None
            &&& rel.shape is Lines && rel.exact && rel.depth == 0
            &&& f.pushable ==> compile::capability_of(
                compile::dispatched(filter),
                filter,
                rel,
            ) is Yes
            &&& compile::capability_of(
                compile::dispatched(LqlLink::Order),
                LqlLink::Order,
                rel,
            ) is Yes
        }),
{
    reveal_strlit("body");
    reveal_strlit("timestamp_ns");
    reveal_strlit("level");
    let cols = compile::seed_view().cols.cols;
    assert("body"@.len() != "timestamp_ns"@.len());
    assert("body"@.len() != "level"@.len());
    assert("level"@.len() != "timestamp_ns"@.len());
    law_the_first_column_of_a_name_speaks(cols, "body"@, 0);
    law_the_first_column_of_a_name_speaks(cols, "timestamp_ns"@, 1);
    law_the_first_column_of_a_name_speaks(cols, "level"@, 2);
}

} // verus!
