//! How far the stages of a log query go into the statement that reads it.
//!
//! A query is a chain of links. Each link either becomes part of the statement, or
//! is left to the evaluator. What is left has an effect on what later links may
//! assume: whether the rows are exactly those asked for, and which names can still
//! be read.
use vstd::prelude::*;
use crate::detected;
use crate::error::{ErrorView, ReadError};
use crate::model::{self, RangeAggOp, VectorAggOp};
use crate::text::str_eq;

verus! {

// ---------------------------------------------------------------------
// Names.
// ---------------------------------------------------------------------

/// A table.
#[derive(Debug, Clone, Copy, PartialEq, Eq)]
pub struct SourceRef(pub &'static str);

/// The index of streams by label.
pub const LOG_STREAMS_IDX: &'static str = "log_streams_idx";

/// The streams.
pub const LOG_STREAMS: &'static str = "log_streams";

/// The lines.
pub const LOG_SAMPLES: &'static str = "log_samples";

/// The name streams are handed on by.
pub const FINGERPRINT: &'static str = "fingerprint";

/// The stored line.
pub const BODY: &'static str = "body";

/// A key of the structured metadata.
pub const LEVEL: &'static str = "level";

/// The expression that reads it.
pub const LEVEL_EXPR: &'static str = "JSONExtractString(structured_metadata, 'level')";

/// The column a read is ordered by.
pub const TIMESTAMP_NS: &'static str = "timestamp_ns";

/// The name under which bucketing is recorded.
pub const BUCKET: &'static str = "__bucket";

/// The name under which building the response is recorded.
pub const RESPONSE: &'static str = "__response";

/// A table as a source.
#[derive(Debug, Clone, Copy, PartialEq, Eq)]
pub struct LqlSource(pub SourceRef);

/// What the rows of a relation are.
#[derive(Debug, Clone, Copy, PartialEq, Eq, Structural)]
pub enum LqlShape {
    Lines,
    Samples,
    Series,
}

/// The streams handed from one part of a read to the next.
#[derive(Debug, PartialEq, Eq)]
pub struct LqlHandoff(pub Vec<u64>);

/// Names a parser makes that the statement cannot see, with what made them.
#[derive(Debug, Clone, Copy, PartialEq, Eq)]
pub struct EvaluatorOnlyLabels(pub &'static str);

impl LqlSource {
    /// The table.
    pub fn source_ref(&self) -> (s: SourceRef)
        ensures
            s == self.0,
    {
        self.0
    }

    /// The source a table is.
    pub fn named(s: SourceRef) -> (source: LqlSource)
        ensures
            source.0 == s,
    {
        LqlSource(s)
    }
}

impl EvaluatorOnlyLabels {
    /// The expression that reads one of the names: there is none.
    pub fn resolve(&self, name: &str) -> (e: Option<String>)
        ensures
            e is None,
    {
        None
    }

    /// What made the names.
    pub fn id(&self) -> (id: &'static str)
        ensures
            id == self.0,
    {
        self.0
    }
}

// ---------------------------------------------------------------------
// Links.
// ---------------------------------------------------------------------

/// A filter on the line.
#[derive(Debug, PartialEq, Eq)]
pub struct LineFilter {
    /// Whether the filter can be pushed into the statement.
    pub pushable: bool,
    /// The condition it becomes there, or why there is none.
    pub condition: Result<String, String>,
}

/// A parser.
#[derive(Debug, PartialEq, Eq)]
pub enum ParserStage {
    Json,
    Logfmt,
    Regexp(String),
    Pattern(String),
}

/// A filter on labels, by the names it reads.
#[derive(Debug, PartialEq, Eq)]
pub enum LabelFilterExpr {
    Match { name: String },
    Compare { name: String },
    Ip { name: String },
    And(Box<LabelFilterExpr>, Box<LabelFilterExpr>),
    Or(Box<LabelFilterExpr>, Box<LabelFilterExpr>),
}

/// One element of a label rewrite.
#[derive(Debug, PartialEq, Eq)]
pub enum LabelFmt {
    Rename { dst: String, src: String },
    Template { dst: String, template: String },
}

/// One element of a list of labels to drop or to keep.
#[derive(Debug, PartialEq, Eq)]
pub struct DropKeepElem {
    pub label: String,
}

/// A stage of a pipeline.
#[derive(Debug, PartialEq, Eq)]
pub enum Stage {
    LineFilter(LineFilter),
    Parser(ParserStage),
    LabelFilter(LabelFilterExpr),
    LineFormat(String),
    LabelFormat(Vec<LabelFmt>),
    /// The label whose number becomes the sample.
    Unwrap(String),
    Unpack,
    Decolorize,
    Drop(Vec<DropKeepElem>),
    Keep(Vec<DropKeepElem>),
}

/// Names to group by.
#[derive(Debug, PartialEq, Eq)]
pub struct Grouping {
    pub keys: Vec<String>,
}

/// A link of a query's chain.
#[derive(Debug, PartialEq, Eq)]
#[allow(inconsistent_fields)]
pub enum LqlLink {
    /// The stream selector.
    Source,
    Pipe(Stage),
    Window { range_ns: i64, step_ns: i64, offset_ns: i64, grid_start_ns: i64 },
    RangeAgg { op: RangeAggOp, grouping: Option<model::Grouping>, param: Option<String> },
    VectorAgg { op: VectorAggOp, grouping: Option<model::Grouping>, param: Option<String> },
    LabelReplace { dst: String, replacement: String, src: String, regex: String },
    Order,
    Limit(u32),
    /// Building the response.
    Emit,
}

/// The language these links belong to.
#[derive(Debug, Clone, Copy, PartialEq, Eq, Structural)]
pub struct Lql;

// ---------------------------------------------------------------------
// Relations.
// ---------------------------------------------------------------------

/// Where a name's value comes from.
#[derive(Debug, PartialEq, Eq)]
pub enum Provenance {
    /// A column of that name.
    Stored,
    /// An expression.
    Computed(String),
    /// The evaluator: no statement can read it.
    EvaluatorOnly,
}

/// Where a name's value comes from, as a value.
pub enum ProvenanceView {
    Stored,
    Computed(Seq<char>),
    EvaluatorOnly,
}

impl View for Provenance {
    type V = ProvenanceView;

    open spec fn view(&self) -> ProvenanceView {
        match *self {
            Provenance::Stored => ProvenanceView::Stored,
            Provenance::Computed(e) => ProvenanceView::Computed(e@),
            Provenance::EvaluatorOnly => ProvenanceView::EvaluatorOnly,
        }
    }
}

/// A name with where its value comes from.
#[derive(Debug, PartialEq, Eq)]
pub struct Col {
    pub name: String,
    pub provenance: Provenance,
}

/// A name with where its value comes from, as values.
pub type ColView = (Seq<char>, ProvenanceView);

/// Columns as values.
pub open spec fn cols_view(cols: Seq<Col>) -> Seq<ColView> {
    cols.map_values(|c: Col| (c.name@, c.provenance@))
}

/// The names a relation has.
#[derive(Debug, PartialEq, Eq)]
pub struct ColSet {
    pub cols: Vec<Col>,
    /// What else made names, none of which the statement can see.
    pub open: Vec<EvaluatorOnlyLabels>,
}

/// The names a relation has, as values.
pub struct ColSetView {
    pub cols: Seq<ColView>,
    pub open: Seq<Seq<char>>,
}

impl View for ColSet {
    type V = ColSetView;

    open spec fn view(&self) -> ColSetView {
        ColSetView {
            cols: cols_view(self.cols@),
            open: self.open@.map_values(|o: EvaluatorOnlyLabels| o.0@),
        }
    }
}

/// Where a name's value comes from, where the name is known.
pub open spec fn provenance_of(cols: Seq<ColView>, name: Seq<char>) -> Option<ProvenanceView>
    decreases cols.len(),
{
    if cols.len() == 0 {
        None
    } else if cols[0].0 == name {
        Some(cols[0].1)
    } else {
        provenance_of(cols.skip(1), name)
    }
}

/// The expression that reads a name, where there is one.
pub open spec fn resolved(cols: Seq<ColView>, name: Seq<char>) -> Option<Seq<char>> {
    match provenance_of(cols, name) {
        Some(ProvenanceView::Stored) => Some(name),
        Some(ProvenanceView::Computed(e)) => Some(e),
        Some(ProvenanceView::EvaluatorOnly) => None,
        None => None,
    }
}

/// The columns once a name's value comes from somewhere else. An unknown name is
/// added.
pub open spec fn with_provenance(
    cols: Seq<ColView>,
    name: Seq<char>,
    p: ProvenanceView,
) -> Seq<ColView>
    decreases cols.len(),
{
    if cols.len() == 0 {
        seq![(name, p)]
    } else if cols[0].0 == name {
        cols.update(0, (name, p))
    } else {
        seq![cols[0]] + with_provenance(cols.skip(1), name, p)
    }
}

/// The columns without some names.
pub open spec fn cols_without(cols: Seq<ColView>, names: Seq<Seq<char>>) -> Seq<ColView> {
    cols.filter(|c: ColView| !names.contains(c.0))
}

/// The columns of some names.
pub open spec fn cols_only(cols: Seq<ColView>, names: Seq<Seq<char>>) -> Seq<ColView> {
    cols.filter(|c: ColView| names.contains(c.0))
}

/// Whether a name is among some.
fn is_among(names: &Vec<String>, name: &str) -> (r: bool)
    ensures
        r == detected::texts(names@).contains(name@),
{
    let ghost all = detected::texts(names@);
    let mut i: usize = 0;
    while i < names.len()
        invariant
            i <= names@.len(),
            all == detected::texts(names@),
            forall|j: int| 0 <= j < i ==> #[trigger] all[j] != name@,
        decreases names@.len() - i,
    {
        proof {
            assert(all[i as int] == names@[i as int]@);
        }
        if str_eq(names[i].as_str(), name) {
            return true;
        }
        i = i + 1;
    }
    false
}

impl ColSet {
    /// Where a name stands.
    fn place(&self, name: &str) -> (r: Option<usize>)
        ensures
            match r {
                Some(i) => {
                    &&& i < self.cols@.len()
                    &&& self.cols@[i as int].name@ == name@
                    &&& forall|j: int| 0 <= j < i ==> (#[trigger] self.cols@[j]).name@ != name@
                },
                None => forall|j: int|
                    0 <= j < self.cols@.len() ==> (#[trigger] self.cols@[j]).name@ != name@,
            },
    {
        let mut i: usize = 0;
        while i < self.cols.len()
            invariant
                i <= self.cols@.len(),
                forall|j: int| 0 <= j < i ==> (#[trigger] self.cols@[j]).name@ != name@,
            decreases self.cols@.len() - i,
        {
            if str_eq(self.cols[i].name.as_str(), name) {
                return Some(i);
            }
            i = i + 1;
        }
        None
    }

    /// Where a name's value comes from, where the name is known.
    pub fn provenance(&self, name: &str) -> (r: Option<&Provenance>)
        ensures
            provenance_of(self@.cols, name@) == match r {
                None => None::<ProvenanceView>,
                Some(p) => Some(p@),
            },
    {
        let found = self.place(name);
        proof {
            lemma_provenance_of(self@.cols, name@, match found {
                Some(i) => i as int,
                None => self@.cols.len() as int,
            });
        }
        match found {
            Some(i) => Some(&self.cols[i].provenance),
            None => None,
        }
    }

    /// Whether a statement can read a name.
    pub fn resolves(&self, name: &str) -> (r: bool)
        ensures
            r == resolved(self@.cols, name@) is Some,
    {
        match self.provenance(name) {
            Some(Provenance::Stored) => true,
            Some(Provenance::Computed(_)) => true,
            Some(Provenance::EvaluatorOnly) => false,
            None => false,
        }
    }

    /// Has a name's value come from somewhere else.
    pub fn set_provenance(&mut self, name: &str, p: Provenance)
        ensures
            final(self)@.cols == with_provenance(old(self)@.cols, name@, p@),
            final(self)@.open == old(self)@.open,
    {
        let found = self.place(name);
        let ghost before = self@.cols;
        proof {
            lemma_with_provenance(before, name@, p@, match found {
                Some(i) => i as int,
                None => before.len() as int,
            });
        }
        match found {
            Some(i) => {
                let ghost held = self.cols@[i as int];
                self.cols[i].provenance = p;
                proof {
                    assert(self@.cols =~= before.update(i as int, (name@, p@)));
                }
            },
            None => {
                self.cols.push(Col { name: name.to_string(), provenance: p });
                proof {
                    assert(self@.cols =~= before.push((name@, p@)));
                }
            },
        }
    }

    /// Adds names that no statement can see.
    pub fn widen(&mut self, source: EvaluatorOnlyLabels)
        ensures
            final(self)@.cols == old(self)@.cols,
            final(self)@.open == old(self)@.open.push(source.0@),
    {
        let ghost before = self@.open;
        self.open.push(source);
        proof {
            assert(self@.open =~= before.push(source.0@));
        }
    }

    /// Takes names out, or takes out all others.
    fn narrowed(cols: Vec<Col>, names: &Vec<String>, keep: bool) -> (out: Vec<Col>)
        ensures
            cols_view(out@) == (if keep {
                cols_only(cols_view(cols@), detected::texts(names@))
            } else {
                cols_without(cols_view(cols@), detected::texts(names@))
            }),
    {
        let ghost all = cols@;
        let ghost view = cols_view(cols@);
        let ghost listed = detected::texts(names@);
        let ghost rule = if keep {
            |c: ColView| listed.contains(c.0)
        } else {
            |c: ColView| !listed.contains(c.0)
        };
        let mut out: Vec<Col> = Vec::new();
        proof {
            reveal(Seq::filter);
            assert(view.take(0) =~= Seq::<ColView>::empty());
            assert(view.take(0).filter(rule) =~= Seq::<ColView>::empty());
            assert(cols_view(out@) =~= Seq::<ColView>::empty());
        }
        for c in it: cols
            invariant
                it.seq() == all,
                view == cols_view(all),
                listed == detected::texts(names@),
                rule == if keep {
                    |c: ColView| listed.contains(c.0)
                } else {
                    |c: ColView| !listed.contains(c.0)
                },
                cols_view(out@) == view.take(it.index() as int).filter(rule),
        {
            let ghost n = it.index() as int;
            let ghost before = cols_view(out@);
            proof {
                reveal(Seq::filter);
                assert(view.take(n + 1).drop_last() =~= view.take(n));
                assert(view.take(n + 1).last() == (c.name@, c.provenance@));
                assert(rule((c.name@, c.provenance@)) == (listed.contains(c.name@) == keep));
            }
            let ghost at = (c.name@, c.provenance@);
            if is_among(names, c.name.as_str()) == keep {
                out.push(c);
                proof {
                    assert(cols_view(out@) =~= before.push(at));
                }
            }
        }
        proof {
            assert(view.take(view.len() as int) =~= view);
        }
        out
    }

    /// The set without some names.
    pub fn without(self, names: &Vec<String>) -> (r: ColSet)
        ensures
            r@.cols == cols_without(self@.cols, detected::texts(names@)),
            r@.open == self@.open,
    {
        let ColSet { cols, open } = self;
        ColSet { cols: Self::narrowed(cols, names, false), open }
    }

    /// The names of some that the set has.
    pub fn only(self, names: &Vec<String>) -> (r: ColSet)
        ensures
            r@.cols == cols_only(self@.cols, detected::texts(names@)),
            r@.open == Seq::<Seq<char>>::empty(),
    {
        let r = ColSet { cols: Self::narrowed(self.cols, names, true), open: Vec::new() };
        proof {
            assert(r@.open =~= Seq::<Seq<char>>::empty());
        }
        r
    }
}

proof fn lemma_provenance_of(cols: Seq<ColView>, name: Seq<char>, i: int)
    requires
        0 <= i <= cols.len(),
        forall|j: int| 0 <= j < i ==> (#[trigger] cols[j]).0 != name,
        i < cols.len() ==> cols[i].0 == name,
    ensures
        provenance_of(cols, name) == (if i < cols.len() {
            Some(cols[i].1)
        } else {
            None
        }),
    decreases cols.len(),
{
    if cols.len() > 0 && i > 0 {
        let rest = cols.skip(1);
        assert forall|j: int| 0 <= j < i - 1 implies (#[trigger] rest[j]).0 != name by {
            assert(cols[j + 1].0 != name);
        }
        assert(cols[0].0 != name);
        lemma_provenance_of(rest, name, i - 1);
    }
}

proof fn lemma_with_provenance(cols: Seq<ColView>, name: Seq<char>, p: ProvenanceView, i: int)
    requires
        0 <= i <= cols.len(),
        forall|j: int| 0 <= j < i ==> (#[trigger] cols[j]).0 != name,
        i < cols.len() ==> cols[i].0 == name,
    ensures
        with_provenance(cols, name, p) == (if i < cols.len() {
            cols.update(i, (name, p))
        } else {
            cols.push((name, p))
        }),
    decreases cols.len(),
{
    if cols.len() == 0 {
        assert(cols.push((name, p)) =~= seq![(name, p)]);
    } else if i > 0 {
        let rest = cols.skip(1);
        assert forall|j: int| 0 <= j < i - 1 implies (#[trigger] rest[j]).0 != name by {
            assert(cols[j + 1].0 != name);
        }
        assert(cols[0].0 != name);
        lemma_with_provenance(rest, name, p, i - 1);
        if i < cols.len() {
            assert(seq![cols[0]] + rest.update(i - 1, (name, p)) =~= cols.update(i, (name, p)));
        } else {
            assert(seq![cols[0]] + rest.push((name, p)) =~= cols.push((name, p)));
        }
    }
}

/// Which way a key sorts.
#[derive(Debug, Clone, Copy, PartialEq, Eq, Structural)]
pub enum SortDir {
    Asc,
    Desc,
}

/// What rows are sorted by.
#[derive(Debug, PartialEq, Eq)]
pub struct SortOrder {
    pub keys: Vec<(String, SortDir)>,
}

/// A condition on the rows of a source.
#[derive(Debug, PartialEq, Eq)]
pub struct Condition {
    pub sql: String,
    pub source: SourceRef,
}

/// What a chain has come to: the statement so far, and what holds of its rows.
#[derive(Debug, PartialEq, Eq)]
pub struct Relation {
    pub source: LqlSource,
    /// Conditions that all hold.
    pub predicate: Vec<Condition>,
    /// Names with the expressions they stand for.
    pub projection: Vec<(String, String)>,
    pub cols: ColSet,
    pub grouping: Option<Grouping>,
    pub ordering: Option<SortOrder>,
    pub limit: Option<u64>,
    pub shape: LqlShape,
    /// Whether the rows are exactly those asked for, not more.
    pub exact: bool,
    pub depth: u32,
}

/// What a chain has come to, as values.
pub struct RelationView {
    pub source: Seq<char>,
    pub predicate: Seq<(Seq<char>, Seq<char>)>,
    pub projection: Seq<(Seq<char>, Seq<char>)>,
    pub cols: ColSetView,
    pub grouping: Option<Seq<Seq<char>>>,
    pub ordering: Option<Seq<(Seq<char>, SortDir)>>,
    pub limit: Option<u64>,
    pub shape: LqlShape,
    pub exact: bool,
    pub depth: u32,
}

impl View for Relation {
    type V = RelationView;

    open spec fn view(&self) -> RelationView {
        RelationView {
            source: ((self.source.0).0)@,
            predicate: self.predicate@.map_values(|c: Condition| (c.sql@, c.source.0@)),
            projection: self.projection@.map_values(|p: (String, String)| (p.0@, p.1@)),
            cols: self.cols@,
            grouping: match self.grouping {
                None => None,
                Some(g) => Some(detected::texts(g.keys@)),
            },
            ordering: match self.ordering {
                None => None,
                Some(o) => Some(o.keys@.map_values(|k: (String, SortDir)| (k.0@, k.1))),
            },
            limit: self.limit,
            shape: self.shape,
            exact: self.exact,
            depth: self.depth,
        }
    }
}

/// What a chain starts from: the selected streams, with the stored line, the sort
/// key and one metadata key.
pub open spec fn seed_view() -> RelationView {
    RelationView {
        source: LOG_STREAMS_IDX@,
        predicate: Seq::empty(),
        projection: seq![(FINGERPRINT@, FINGERPRINT@)],
        cols: ColSetView {
            cols: seq![
                (BODY@, ProvenanceView::Stored),
                (TIMESTAMP_NS@, ProvenanceView::Stored),
                (LEVEL@, ProvenanceView::Computed(LEVEL_EXPR@)),
            ],
            open: Seq::empty(),
        },
        grouping: None,
        ordering: None,
        limit: None,
        shape: LqlShape::Lines,
        exact: true,
        depth: 0,
    }
}

/// What a chain starts from.
pub fn seed_relation() -> (r: Relation)
    ensures
        r@ == seed_view(),
{
    let mut projection: Vec<(String, String)> = Vec::new();
    projection.push((FINGERPRINT.to_string(), FINGERPRINT.to_string()));
    let mut cols: Vec<Col> = Vec::new();
    cols.push(Col { name: BODY.to_string(), provenance: Provenance::Stored });
    cols.push(Col { name: TIMESTAMP_NS.to_string(), provenance: Provenance::Stored });
    cols.push(
        Col { name: LEVEL.to_string(), provenance: Provenance::Computed(LEVEL_EXPR.to_string()) },
    );
    let r = Relation {
        source: LqlSource(SourceRef(LOG_STREAMS_IDX)),
        predicate: Vec::new(),
        projection,
        cols: ColSet { cols, open: Vec::new() },
        grouping: None,
        ordering: None,
        limit: None,
        shape: LqlShape::Lines,
        exact: true,
        depth: 0,
    };
    proof {
        assert(r@.predicate =~= seed_view().predicate);
        assert(r@.projection =~= seed_view().projection);
        assert(r@.cols.cols =~= seed_view().cols.cols);
        assert(r@.cols.open =~= seed_view().cols.open);
    }
    r
}

// ---------------------------------------------------------------------
// Rules.
// ---------------------------------------------------------------------

/// Why a link stays out of the statement for now.
#[derive(Debug, Clone, Copy, PartialEq, Eq, Structural)]
pub enum BlockReason {
    /// Nothing renders it.
    NotYetLowered,
    /// The line it reads is not the stored one.
    BodyNotStored,
    /// It cannot be pushed.
    NotPushable,
    /// It reads a name the statement cannot see.
    NameNotResolvable,
    /// The rows are not ordered.
    OrderingNotEstablished,
    /// The rows are more than those asked for.
    NotExact,
}

/// Why a link can never be part of a statement.
#[derive(Debug, Clone, Copy, PartialEq, Eq, Structural)]
pub enum NeverReason {
    /// The answer is about rows that are not there.
    NoRowToComputeFrom,
    /// It builds the response.
    ResponseBuild,
}

/// Whether a link becomes part of the statement.
#[derive(Debug, Clone, Copy, PartialEq, Eq, Structural)]
pub enum Capability {
    Yes,
    No(BlockReason),
    Never(NeverReason),
}

/// How what a link became compares with what it means.
#[derive(Debug, Clone, Copy, PartialEq, Eq, Structural)]
pub enum Fidelity {
    /// It means the same.
    Equivalent,
    /// It lets more rows through.
    Wider,
}

/// The rules a link goes by.
#[derive(Debug, Clone, Copy, PartialEq, Eq, Structural)]
pub enum Dispatcher {
    Source,
    LineFilter,
    Parser,
    LabelFilter,
    LineFormat,
    LabelFormat,
    Unwrap,
    Unpack,
    Decolorize,
    Drop,
    Keep,
    Window,
    RangeAgg,
    VectorAgg,
    LabelReplace,
    Order,
    Limit,
    Emit,
}

/// What handing streams on costs.
#[derive(Debug, Clone, Copy, PartialEq, Eq, Structural)]
pub struct HandoffCost {
    pub text_bytes: u64,
    pub ast_elements: u64,
}

/// The rules a link goes by.
pub open spec fn dispatched(link: LqlLink) -> Dispatcher {
    match link {
        LqlLink::Source => Dispatcher::Source,
        LqlLink::Pipe(Stage::LineFilter(_)) => Dispatcher::LineFilter,
        LqlLink::Pipe(Stage::Parser(_)) => Dispatcher::Parser,
        LqlLink::Pipe(Stage::LabelFilter(_)) => Dispatcher::LabelFilter,
        LqlLink::Pipe(Stage::LineFormat(_)) => Dispatcher::LineFormat,
        LqlLink::Pipe(Stage::LabelFormat(_)) => Dispatcher::LabelFormat,
        LqlLink::Pipe(Stage::Unwrap(_)) => Dispatcher::Unwrap,
        LqlLink::Pipe(Stage::Unpack) => Dispatcher::Unpack,
        LqlLink::Pipe(Stage::Decolorize) => Dispatcher::Decolorize,
        LqlLink::Pipe(Stage::Drop(_)) => Dispatcher::Drop,
        LqlLink::Pipe(Stage::Keep(_)) => Dispatcher::Keep,
        LqlLink::Window { .. } => Dispatcher::Window,
        LqlLink::RangeAgg { .. } => Dispatcher::RangeAgg,
        LqlLink::VectorAgg { .. } => Dispatcher::VectorAgg,
        LqlLink::LabelReplace { .. } => Dispatcher::LabelReplace,
        LqlLink::Order => Dispatcher::Order,
        LqlLink::Limit(_) => Dispatcher::Limit,
        LqlLink::Emit => Dispatcher::Emit,
    }
}

impl Lql {
    /// The rules a link goes by.
    pub fn lower_of(stage: &LqlLink) -> (d: Dispatcher)
        ensures
            d == dispatched(*stage),
    {
        match stage {
            LqlLink::Source => Dispatcher::Source,
            LqlLink::Pipe(s) => match s {
                Stage::LineFilter(_) => Dispatcher::LineFilter,
                Stage::Parser(_) => Dispatcher::Parser,
                Stage::LabelFilter(_) => Dispatcher::LabelFilter,
                Stage::LineFormat(_) => Dispatcher::LineFormat,
                Stage::LabelFormat(_) => Dispatcher::LabelFormat,
                Stage::Unwrap(_) => Dispatcher::Unwrap,
                Stage::Unpack => Dispatcher::Unpack,
                Stage::Decolorize => Dispatcher::Decolorize,
                Stage::Drop(_) => Dispatcher::Drop,
                Stage::Keep(_) => Dispatcher::Keep,
            },
            LqlLink::Window { .. } => Dispatcher::Window,
            LqlLink::RangeAgg { .. } => Dispatcher::RangeAgg,
            LqlLink::VectorAgg { .. } => Dispatcher::VectorAgg,
            LqlLink::LabelReplace { .. } => Dispatcher::LabelReplace,
            LqlLink::Order => Dispatcher::Order,
            LqlLink::Limit(_) => Dispatcher::Limit,
            LqlLink::Emit => Dispatcher::Emit,
        }
    }

    /// The table a link reads: no link goes to another one.
    pub fn source_of(stage: &LqlLink, rel: &Relation) -> (s: SourceRef)
        ensures
            s.0@ == rel@.source,
    {
        rel.source.0
    }

    /// What handing on `n` streams costs: at most twenty digits and a separator
    /// each, and the frame around them.
    pub fn handoff_cost(n: u64) -> (c: HandoffCost)
        requires
            32 + 22 * n <= u64::MAX,
        ensures
            c.text_bytes == 32 + 22 * n,
            c.ast_elements == 4 + n,
            c.text_bytes == handoff_text(n as int),
            c.ast_elements == handoff_elements(n as int),
    {
        HandoffCost { text_bytes: 32 + n * 22, ast_elements: 4 + n }
    }
}

/// The bytes of text that handing on `n` streams takes.
pub open spec fn handoff_text(n: int) -> int {
    32 + 22 * n
}

/// The elements of a statement that handing on `n` streams takes.
pub open spec fn handoff_elements(n: int) -> int {
    4 + n
}

/// Whether the line can be read by a statement. A line nothing was recorded of is
/// the stored one.
pub open spec fn line_stored(rel: RelationView) -> bool {
    !(provenance_of(rel.cols.cols, BODY@) matches Some(ProvenanceView::EvaluatorOnly))
}

/// Whether the line can be read by a statement.
fn body_stored(rel: &Relation) -> (r: bool)
    ensures
        r == line_stored(rel@),
{
    match rel.cols.provenance(BODY) {
        Some(Provenance::EvaluatorOnly) => false,
        _ => true,
    }
}

/// Whether a statement can read every name of a label filter.
pub open spec fn filter_resolves(e: LabelFilterExpr, cols: Seq<ColView>) -> bool
    decreases e,
{
    match e {
        LabelFilterExpr::Match { name } => resolved(cols, name@) is Some,
        LabelFilterExpr::Compare { name } => resolved(cols, name@) is Some,
        LabelFilterExpr::Ip { name } => resolved(cols, name@) is Some,
        LabelFilterExpr::And(a, b) => filter_resolves(*a, cols) && filter_resolves(*b, cols),
        LabelFilterExpr::Or(a, b) => filter_resolves(*a, cols) && filter_resolves(*b, cols),
    }
}

/// Whether a statement can read every name of a label filter.
fn names_resolve(e: &LabelFilterExpr, cols: &ColSet) -> (r: bool)
    ensures
        r == filter_resolves(*e, cols@.cols),
    decreases e,
{
    match e {
        LabelFilterExpr::Match { name } => cols.resolves(name.as_str()),
        LabelFilterExpr::Compare { name } => cols.resolves(name.as_str()),
        LabelFilterExpr::Ip { name } => cols.resolves(name.as_str()),
        LabelFilterExpr::And(a, b) => names_resolve(&**a, cols) && names_resolve(&**b, cols),
        LabelFilterExpr::Or(a, b) => names_resolve(&**a, cols) && names_resolve(&**b, cols),
    }
}

/// Whether a link becomes part of the statement, by the rules `d`.
pub open spec fn capability_of(d: Dispatcher, link: LqlLink, rel: RelationView) -> Capability {
    match d {
        Dispatcher::Source => Capability::Yes,
        Dispatcher::LineFilter => match link {
            LqlLink::Pipe(Stage::LineFilter(f)) => if !line_stored(rel) {
                Capability::No(BlockReason::BodyNotStored)
            } else if !f.pushable {
                Capability::No(BlockReason::NotPushable)
            } else {
                Capability::Yes
            },
            _ => Capability::No(BlockReason::NotYetLowered),
        },
        Dispatcher::Parser => if line_stored(rel) {
            Capability::No(BlockReason::NotYetLowered)
        } else {
            Capability::No(BlockReason::BodyNotStored)
        },
        Dispatcher::LabelFilter => match link {
            LqlLink::Pipe(Stage::LabelFilter(e)) => if filter_resolves(e, rel.cols.cols) {
                Capability::No(BlockReason::NotYetLowered)
            } else {
                Capability::No(BlockReason::NameNotResolvable)
            },
            _ => Capability::No(BlockReason::NotYetLowered),
        },
        Dispatcher::RangeAgg => match link {
            LqlLink::RangeAgg { op: RangeAggOp::AbsentOverTime, .. } => Capability::Never(
                NeverReason::NoRowToComputeFrom,
            ),
            _ => Capability::No(BlockReason::NotYetLowered),
        },
        Dispatcher::Order => if resolved(rel.cols.cols, TIMESTAMP_NS@) is Some {
            Capability::Yes
        } else {
            Capability::No(BlockReason::NameNotResolvable)
        },
        Dispatcher::Limit => if rel.ordering is None {
            Capability::No(BlockReason::OrderingNotEstablished)
        } else if !rel.exact {
            Capability::No(BlockReason::NotExact)
        } else {
            Capability::Yes
        },
        Dispatcher::Emit => Capability::Never(NeverReason::ResponseBuild),
        _ => Capability::No(BlockReason::NotYetLowered),
    }
}

/// What the relation is once a link is part of the statement, by the rules `d`.
pub open spec fn applied(d: Dispatcher, link: LqlLink, rel: RelationView) -> Result<
    RelationView,
    ErrorView,
> {
    match d {
        Dispatcher::LineFilter => match link {
            LqlLink::Pipe(Stage::LineFilter(f)) => match f.condition {
                Ok(sql) => Ok(
                    RelationView { predicate: rel.predicate.push((sql@, rel.source)), ..rel },
                ),
                Err(reason) => Err(ErrorView::PipelineInvalid { reason: reason@ }),
            },
            _ => Ok(rel),
        },
        Dispatcher::Order => Ok(
            RelationView { ordering: Some(seq![(TIMESTAMP_NS@, SortDir::Desc)]), ..rel },
        ),
        Dispatcher::Limit => match link {
            LqlLink::Limit(n) => Ok(RelationView { limit: Some(n as u64), ..rel }),
            _ => Ok(rel),
        },
        _ => Ok(rel),
    }
}

/// The relation once a name's value is the evaluator's.
pub open spec fn evaluator_owns(rel: RelationView, name: Seq<char>) -> RelationView {
    RelationView {
        cols: ColSetView {
            cols: with_provenance(rel.cols.cols, name, ProvenanceView::EvaluatorOnly),
            ..rel.cols
        },
        ..rel
    }
}

/// The relation once a parser has made names.
pub open spec fn widened(rel: RelationView, id: Seq<char>) -> RelationView {
    RelationView { cols: ColSetView { open: rel.cols.open.push(id), ..rel.cols }, ..rel }
}

/// The name a parser's labels are recorded under.
pub open spec fn parser_id(link: LqlLink) -> Seq<char> {
    match link {
        LqlLink::Pipe(Stage::Parser(ParserStage::Json)) => "parser:json"@,
        LqlLink::Pipe(Stage::Parser(ParserStage::Logfmt)) => "parser:logfmt"@,
        LqlLink::Pipe(Stage::Parser(ParserStage::Regexp(_))) => "parser:regexp"@,
        LqlLink::Pipe(Stage::Parser(ParserStage::Pattern(_))) => "parser:pattern"@,
        _ => "parser"@,
    }
}

/// The label an element of a label rewrite writes.
pub open spec fn fmt_dst(f: LabelFmt) -> Seq<char> {
    match f {
        LabelFmt::Rename { dst, .. } => dst@,
        LabelFmt::Template { dst, .. } => dst@,
    }
}

/// The relation once the labels a rewrite writes are the evaluator's.
pub open spec fn rewritten(rel: RelationView, fmts: Seq<LabelFmt>) -> RelationView
    decreases fmts.len(),
{
    if fmts.len() == 0 {
        rel
    } else {
        evaluator_owns(rewritten(rel, fmts.drop_last()), fmt_dst(fmts.last()))
    }
}

/// The labels a list names.
pub open spec fn listed(elems: Seq<DropKeepElem>) -> Seq<Seq<char>> {
    elems.map_values(|e: DropKeepElem| e.label@)
}

/// What the relation is once a link is left to the evaluator, by the rules `d`.
pub open spec fn residual_of(d: Dispatcher, link: LqlLink, rel: RelationView) -> RelationView {
    match d {
        Dispatcher::Source => rel,
        Dispatcher::LineFilter => RelationView { exact: false, ..rel },
        Dispatcher::Parser => widened(rel, parser_id(link)),
        Dispatcher::LabelFilter => RelationView { exact: false, ..rel },
        Dispatcher::LineFormat => evaluator_owns(rel, BODY@),
        Dispatcher::LabelFormat => match link {
            LqlLink::Pipe(Stage::LabelFormat(fmts)) => rewritten(rel, fmts@),
            _ => rel,
        },
        Dispatcher::Unwrap => match link {
            LqlLink::Pipe(Stage::Unwrap(label)) => evaluator_owns(rel, label@),
            _ => rel,
        },
        Dispatcher::Unpack => widened(evaluator_owns(rel, BODY@), "unpack:labels"@),
        Dispatcher::Decolorize => evaluator_owns(rel, BODY@),
        Dispatcher::Drop => match link {
            LqlLink::Pipe(Stage::Drop(elems)) => RelationView {
                cols: ColSetView {
                    cols: cols_without(rel.cols.cols, listed(elems@)),
                    ..rel.cols
                },
                ..rel
            },
            _ => rel,
        },
        Dispatcher::Keep => match link {
            LqlLink::Pipe(Stage::Keep(elems)) => RelationView {
                cols: ColSetView {
                    cols: cols_only(rel.cols.cols, listed(elems@)),
                    open: Seq::empty(),
                },
                ..rel
            },
            _ => rel,
        },
        Dispatcher::Window => evaluator_owns(rel, BUCKET@),
        Dispatcher::RangeAgg => RelationView { exact: false, ..rel },
        Dispatcher::VectorAgg => RelationView { exact: false, ..rel },
        Dispatcher::LabelReplace => {
            let owned = match link {
                LqlLink::LabelReplace { dst, .. } => evaluator_owns(rel, dst@),
                _ => rel,
            };
            RelationView { exact: false, ..owned }
        },
        Dispatcher::Order => RelationView { ordering: None, ..rel },
        Dispatcher::Limit => RelationView { limit: None, ..rel },
        Dispatcher::Emit => evaluator_owns(rel, RESPONSE@),
    }
}

/// The fidelity of a link that can become part of the statement.
pub open spec fn fidelity_of(d: Dispatcher) -> Option<Fidelity> {
    match d {
        Dispatcher::Source => Some(Fidelity::Equivalent),
        Dispatcher::LineFilter => Some(Fidelity::Equivalent),
        Dispatcher::Order => Some(Fidelity::Equivalent),
        Dispatcher::Limit => Some(Fidelity::Equivalent),
        _ => None,
    }
}

/// The label an element of a label rewrite writes.
fn label_fmt_dst(f: &LabelFmt) -> (dst: &str)
    ensures
        dst@ == fmt_dst(*f),
{
    match f {
        LabelFmt::Rename { dst, .. } => dst.as_str(),
        LabelFmt::Template { dst, .. } => dst.as_str(),
    }
}

/// The labels a list names.
fn elem_names(elems: &Vec<DropKeepElem>) -> (names: Vec<String>)
    ensures
        detected::texts(names@) == listed(elems@),
{
    let mut names: Vec<String> = Vec::new();
    let mut i: usize = 0;
    while i < elems.len()
        invariant
            i <= elems@.len(),
            names@.len() == i,
            forall|j: int| 0 <= j < i ==> (#[trigger] names@[j])@ == elems@[j].label@,
        decreases elems@.len() - i,
    {
        names.push(elems[i].label.clone());
        i = i + 1;
    }
    proof {
        assert(detected::texts(names@) =~= listed(elems@));
    }
    names
}

/// Makes the labels a rewrite writes the evaluator's.
fn rewrite_labels(rel: Relation, fmts: &Vec<LabelFmt>) -> (r: Relation)
    ensures
        r@ == rewritten(rel@, fmts@),
{
    let ghost start = rel@;
    let mut rel = rel;
    let mut i: usize = 0;
    proof {
        assert(fmts@.take(0) =~= Seq::<LabelFmt>::empty());
    }
    while i < fmts.len()
        invariant
            i <= fmts@.len(),
            rel@ == rewritten(start, fmts@.take(i as int)),
        decreases fmts@.len() - i,
    {
        proof {
            assert(fmts@.take(i + 1).drop_last() =~= fmts@.take(i as int));
            assert(fmts@.take(i + 1).last() == fmts@[i as int]);
        }
        rel.cols.set_provenance(label_fmt_dst(&fmts[i]), Provenance::EvaluatorOnly);
        i = i + 1;
    }
    proof {
        assert(fmts@.take(fmts@.len() as int) =~= fmts@);
    }
    rel
}

impl Dispatcher {
    /// Whether a link becomes part of the statement.
    pub fn capability(&self, link: &LqlLink, rel: &Relation) -> (c: Capability)
        ensures
            c == capability_of(*self, *link, rel@),
    {
        match self {
            Dispatcher::Source => Capability::Yes,
            Dispatcher::LineFilter => {
                if let LqlLink::Pipe(Stage::LineFilter(f)) = link {
                    if !body_stored(rel) {
                        Capability::No(BlockReason::BodyNotStored)
                    } else if !f.pushable {
                        Capability::No(BlockReason::NotPushable)
                    } else {
                        Capability::Yes
                    }
                } else {
                    Capability::No(BlockReason::NotYetLowered)
                }
            },
            Dispatcher::Parser => {
                if body_stored(rel) {
                    Capability::No(BlockReason::NotYetLowered)
                } else {
                    Capability::No(BlockReason::BodyNotStored)
                }
            },
            Dispatcher::LabelFilter => {
                if let LqlLink::Pipe(Stage::LabelFilter(e)) = link {
                    if !names_resolve(e, &rel.cols) {
                        return Capability::No(BlockReason::NameNotResolvable);
                    }
                }
                Capability::No(BlockReason::NotYetLowered)
            },
            Dispatcher::RangeAgg => {
                if let LqlLink::RangeAgg { op: RangeAggOp::AbsentOverTime, .. } = link {
                    return Capability::Never(NeverReason::NoRowToComputeFrom);
                }
                Capability::No(BlockReason::NotYetLowered)
            },
            Dispatcher::Order => {
                if rel.cols.resolves(TIMESTAMP_NS) {
                    Capability::Yes
                } else {
                    Capability::No(BlockReason::NameNotResolvable)
                }
            },
            Dispatcher::Limit => {
                if rel.ordering.is_none() {
                    Capability::No(BlockReason::OrderingNotEstablished)
                } else if !rel.exact {
                    Capability::No(BlockReason::NotExact)
                } else {
                    Capability::Yes
                }
            },
            Dispatcher::Emit => Capability::Never(NeverReason::ResponseBuild),
            _ => Capability::No(BlockReason::NotYetLowered),
        }
    }

    /// Makes a link part of the statement.
    pub fn apply(&self, link: &LqlLink, rel: Relation) -> (r: Result<Relation, ReadError>)
        ensures
            applied(*self, *link, rel@) == match r {
                Ok(out) => Ok(out@),
                Err(e) => Err(e@),
            },
    {
        let mut rel = rel;
        match self {
            Dispatcher::LineFilter => {
                if let LqlLink::Pipe(Stage::LineFilter(f)) = link {
                    match &f.condition {
                        Ok(sql) => {
                            let ghost before = rel@.predicate;
                            let source: SourceRef = rel.source.0;
                            rel.predicate.push(Condition { sql: sql.clone(), source });
                            proof {
                                assert(rel@.predicate =~= before.push((sql@, rel@.source)));
                            }
                        },
                        Err(reason) => {
                            return Err(ReadError::PipelineInvalid { reason: reason.clone() });
                        },
                    }
                }
                Ok(rel)
            },
            Dispatcher::Order => {
                let mut keys: Vec<(String, SortDir)> = Vec::new();
                keys.push((TIMESTAMP_NS.to_string(), SortDir::Desc));
                proof {
                    assert(keys@.map_values(|k: (String, SortDir)| (k.0@, k.1)) =~= seq![
                        (TIMESTAMP_NS@, SortDir::Desc),
                    ]);
                }
                rel.ordering = Some(SortOrder { keys });
                Ok(rel)
            },
            Dispatcher::Limit => {
                if let LqlLink::Limit(n) = link {
                    rel.limit = Some(*n as u64);
                }
                Ok(rel)
            },
            _ => Ok(rel),
        }
    }

    /// Leaves a link to the evaluator.
    pub fn residual_effect(&self, link: &LqlLink, rel: Relation) -> (r: Relation)
        ensures
            r@ == residual_of(*self, *link, rel@),
    {
        let mut rel = rel;
        match self {
            Dispatcher::Source => {},
            Dispatcher::LineFilter | Dispatcher::LabelFilter | Dispatcher::RangeAgg
            | Dispatcher::VectorAgg => {
                rel.exact = false;
            },
            Dispatcher::Parser => {
                let id = match link {
                    LqlLink::Pipe(Stage::Parser(ParserStage::Json)) => "parser:json",
                    LqlLink::Pipe(Stage::Parser(ParserStage::Logfmt)) => "parser:logfmt",
                    LqlLink::Pipe(Stage::Parser(ParserStage::Regexp(_))) => "parser:regexp",
                    LqlLink::Pipe(Stage::Parser(ParserStage::Pattern(_))) => "parser:pattern",
                    _ => "parser",
                };
                rel.cols.widen(EvaluatorOnlyLabels(id));
            },
            Dispatcher::LineFormat | Dispatcher::Decolorize => {
                rel.cols.set_provenance(BODY, Provenance::EvaluatorOnly);
            },
            Dispatcher::LabelFormat => {
                if let LqlLink::Pipe(Stage::LabelFormat(fmts)) = link {
                    return rewrite_labels(rel, fmts);
                }
            },
            Dispatcher::Unwrap => {
                if let LqlLink::Pipe(Stage::Unwrap(label)) = link {
                    rel.cols.set_provenance(label.as_str(), Provenance::EvaluatorOnly);
                }
            },
            Dispatcher::Unpack => {
                rel.cols.set_provenance(BODY, Provenance::EvaluatorOnly);
                rel.cols.widen(EvaluatorOnlyLabels("unpack:labels"));
            },
            Dispatcher::Drop => {
                if let LqlLink::Pipe(Stage::Drop(elems)) = link {
                    rel.cols = rel.cols.without(&elem_names(elems));
                }
            },
            Dispatcher::Keep => {
                if let LqlLink::Pipe(Stage::Keep(elems)) = link {
                    rel.cols = rel.cols.only(&elem_names(elems));
                }
            },
            Dispatcher::Window => {
                rel.cols.set_provenance(BUCKET, Provenance::EvaluatorOnly);
            },
            Dispatcher::LabelReplace => {
                if let LqlLink::LabelReplace { dst, .. } = link {
                    rel.cols.set_provenance(dst.as_str(), Provenance::EvaluatorOnly);
                }
                rel.exact = false;
            },
            Dispatcher::Order => {
                rel.ordering = None;
            },
            Dispatcher::Limit => {
                rel.limit = None;
            },
            Dispatcher::Emit => {
                rel.cols.set_provenance(RESPONSE, Provenance::EvaluatorOnly);
            },
        }
        rel
    }

    /// The fidelity of a link that can become part of the statement.
    pub fn fidelity(&self) -> (f: Option<Fidelity>)
        ensures
            f == fidelity_of(*self),
    {
        match self {
            Dispatcher::Source | Dispatcher::LineFilter | Dispatcher::Order | Dispatcher::Limit => {
                Some(Fidelity::Equivalent)
            },
            _ => None,
        }
    }
}

// ---------------------------------------------------------------------
// What holds of every link.
// ---------------------------------------------------------------------

proof fn lemma_owned_unreadable(cols: Seq<ColView>, name: Seq<char>)
    ensures
        provenance_of(
            with_provenance(cols, name, ProvenanceView::EvaluatorOnly),
            name,
        ) == Some(ProvenanceView::EvaluatorOnly),
    decreases cols.len(),
{
    let after = with_provenance(cols, name, ProvenanceView::EvaluatorOnly);
    if cols.len() > 0 && cols[0].0 != name {
        lemma_owned_unreadable(cols.skip(1), name);
        assert(after.skip(1) =~= with_provenance(
            cols.skip(1),
            name,
            ProvenanceView::EvaluatorOnly,
        ));
    }
}

/// Leaving a link to the evaluator never makes the rows more exact than they were,
/// and never changes what they are or where they come from.
pub proof fn law_residual_links_only_lose(link: LqlLink, rel: RelationView)
    ensures
        ({
            let after = residual_of(dispatched(link), link, rel);
            &&& after.exact ==> rel.exact
            &&& after.shape == rel.shape
            &&& after.source == rel.source
            &&& after.predicate == rel.predicate
            &&& after.projection == rel.projection
            &&& after.grouping == rel.grouping
            &&& after.depth == rel.depth
        }),
{
    if let LqlLink::Pipe(Stage::LabelFormat(fmts)) = link {
        lemma_rewritten_keeps(rel, fmts@);
    }
}

proof fn lemma_rewritten_keeps(rel: RelationView, fmts: Seq<LabelFmt>)
    ensures
        rewritten(rel, fmts) == (RelationView { cols: rewritten(rel, fmts).cols, ..rel }),
    decreases fmts.len(),
{
    if fmts.len() > 0 {
        lemma_rewritten_keeps(rel, fmts.drop_last());
    }
}

/// Only links that take rows out make the rows inexact when left to the evaluator.
pub proof fn law_only_dropping_links_cost_exactness(link: LqlLink, rel: RelationView)
    requires
        rel.exact,
    ensures
        !residual_of(dispatched(link), link, rel).exact <==> {
            ||| link matches LqlLink::Pipe(Stage::LineFilter(_))
            ||| link matches LqlLink::Pipe(Stage::LabelFilter(_))
            ||| link is RangeAgg
            ||| link is VectorAgg
            ||| link is LabelReplace
        },
{
    if let LqlLink::Pipe(Stage::LabelFormat(fmts)) = link {
        lemma_rewritten_keeps(rel, fmts@);
    }
}

/// Once the line has been rewritten by the evaluator, no line filter and no parser
/// is blocked for any other reason than that.
pub proof fn law_rewritten_line_blocks_what_reads_it(
    rewriter: LqlLink,
    reader: LqlLink,
    rel: RelationView,
)
    requires
        rewriter matches LqlLink::Pipe(Stage::LineFormat(_)) || rewriter matches LqlLink::Pipe(
            Stage::Decolorize,
        ) || rewriter matches LqlLink::Pipe(Stage::Unpack),
        reader matches LqlLink::Pipe(Stage::LineFilter(_)) || reader matches LqlLink::Pipe(
            Stage::Parser(_),
        ),
    ensures
        capability_of(
            dispatched(reader),
            reader,
            residual_of(dispatched(rewriter), rewriter, rel),
        ) == Capability::No(BlockReason::BodyNotStored),
{
    lemma_owned_unreadable(rel.cols.cols, BODY@);
}

/// A line filter goes by the line alone: a filter that is left to the evaluator
/// before it does not keep it out of the statement.
pub proof fn law_residual_filter_blocks_no_later_filter(
    before: LqlLink,
    after: LqlLink,
    rel: RelationView,
)
    requires
        before matches LqlLink::Pipe(Stage::LineFilter(_)) || before matches LqlLink::Pipe(
            Stage::LabelFilter(_),
        ),
        after matches LqlLink::Pipe(Stage::LineFilter(_)),
    ensures
        capability_of(dispatched(after), after, residual_of(dispatched(before), before, rel))
            == capability_of(dispatched(after), after, rel),
{
}

/// A limit becomes part of the statement exactly where the rows are ordered and are
/// those asked for.
pub proof fn law_limit_needs_order_and_exactness(n: u32, rel: RelationView)
    ensures
        capability_of(dispatched(LqlLink::Limit(n)), LqlLink::Limit(n), rel) == Capability::Yes
            <==> rel.ordering is Some && rel.exact,
{
}

proof fn lemma_filtered_name(
    cols: Seq<ColView>,
    names: Seq<Seq<char>>,
    name: Seq<char>,
    keep: bool,
)
    requires
        names.contains(name) != keep,
    ensures
        provenance_of(
            if keep {
                cols_only(cols, names)
            } else {
                cols_without(cols, names)
            },
            name,
        ) is None,
{
    let rule = if keep {
        |c: ColView| names.contains(c.0)
    } else {
        |c: ColView| !names.contains(c.0)
    };
    let after = cols.filter(rule);
    assert forall|i: int| 0 <= i < after.len() implies (#[trigger] after[i]).0 != name by {
        cols.lemma_filter_pred(rule, i);
    }
    lemma_provenance_of(after, name, after.len() as int);
}

/// No statement can read a dropped name, nor a name that was not kept.
pub proof fn law_dropped_names_are_unreadable(
    elems: Vec<DropKeepElem>,
    rel: RelationView,
    name: Seq<char>,
)
    ensures
        listed(elems@).contains(name) ==> resolved(
            residual_of(Dispatcher::Drop, LqlLink::Pipe(Stage::Drop(elems)), rel).cols.cols,
            name,
        ) is None,
        !listed(elems@).contains(name) ==> resolved(
            residual_of(Dispatcher::Keep, LqlLink::Pipe(Stage::Keep(elems)), rel).cols.cols,
            name,
        ) is None,
{
    if listed(elems@).contains(name) {
        lemma_filtered_name(rel.cols.cols, listed(elems@), name, false);
    } else {
        lemma_filtered_name(rel.cols.cols, listed(elems@), name, true);
    }
}

/// Dropping and keeping the same labels are complements: each column survives
/// exactly one of them.
pub proof fn law_drop_and_keep_are_complements(
    elems: Vec<DropKeepElem>,
    rel: RelationView,
    c: ColView,
)
    requires
        rel.cols.cols.contains(c),
    ensures
        residual_of(
            Dispatcher::Drop,
            LqlLink::Pipe(Stage::Drop(elems)),
            rel,
        ).cols.cols.contains(c) <==> !residual_of(
            Dispatcher::Keep,
            LqlLink::Pipe(Stage::Keep(elems)),
            rel,
        ).cols.cols.contains(c),
{
    let names = listed(elems@);
    let cols = rel.cols.cols;
    let out = |x: ColView| !names.contains(x.0);
    let kept = |x: ColView| names.contains(x.0);
    assert(cols_without(cols, names) == cols.filter(out));
    assert(cols_only(cols, names) == cols.filter(kept));
    broadcast use vstd::seq_lib::group_filter_ensures;

    let i = choose|i: int| 0 <= i < cols.len() && cols[i] == c;
    assert(cols[i] == c);
    assert(out(c) == !kept(c));
    if kept(c) {
        assert(cols.filter(kept).contains(c));
        if cols.filter(out).contains(c) {
            let j = choose|j: int| 0 <= j < cols.filter(out).len() && cols.filter(out)[j] == c;
            assert(out(cols.filter(out)[j]));
        }
    } else {
        assert(cols.filter(out).contains(c));
        if cols.filter(kept).contains(c) {
            let j = choose|j: int| 0 <= j < cols.filter(kept).len() && cols.filter(kept)[j] == c;
            assert(kept(cols.filter(kept)[j]));
        }
    }
}

} // verus!
