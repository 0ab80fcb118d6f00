//! Field detection: which names and values sampled lines hold, and of what type.
//!
//! Everything that is kept is paid for first, out of a byte budget. Where the
//! budget refuses, detection goes on with what it has.
use vstd::hash_map::StringHashMap;
use vstd::hash_set::StringHashSet;
use vstd::prelude::*;
use crate::charge::{self, alloc_block_bytes, grown_alloc_bytes, map_entry_bytes};
use crate::error::RowBudgetExceeded;
use crate::literal::{self, is_float, is_integer};
use crate::order::{self, stable_sorted, Ranked};
use crate::range_model::ERROR_LABEL;
use crate::text::{self, byte_len, saturating_product, str_eq, str_le, LabelSet, PairView};

verus! {

/// The label that tells what went wrong with a line.
pub const ERROR_DETAILS_LABEL: &'static str = "__error_details__";

/// The most bytes of fields that one request keeps.
pub const MAX_DETECTED_FIELD_BYTES: u64 = 64 * 1024 * 1024;

/// A label name with how many values it has.
#[derive(Debug, Clone, PartialEq, Eq)]
pub struct DetectedLabelOut {
    pub label: String,
    pub cardinality: u64,
}

/// A detected field.
#[derive(Debug, Clone, PartialEq, Eq)]
pub struct DetectedFieldOut {
    pub label: String,
    /// `string`, `int`, `float`, `boolean`, `duration` or `bytes`.
    pub field_type: &'static str,
    /// How many distinct values were kept.
    pub cardinality: u64,
    /// The parsers the field came from, in the order they were met.
    pub parsers: Vec<&'static str>,
    /// The path of the JSON key the field was flattened from.
    pub json_path: Option<Vec<String>>,
}

/// What field detection answers.
#[derive(Debug, Clone, PartialEq, Eq)]
pub struct DetectedFields {
    pub fields: Vec<DetectedFieldOut>,
    /// Whether the scan stopped before its end.
    pub truncated: bool,
    /// Whether the byte budget refused something.
    pub retention_capped: bool,
}

/// Whether a label name is kept whatever its values look like.
pub open spec fn static_label(key: Seq<char>) -> bool {
    key == "cluster"@ || key == "namespace"@ || key == "instance"@ || key == "pod"@
}

/// Whether a label name is kept whatever its values look like.
pub fn is_static_detected_label(key: &str) -> (r: bool)
    ensures
        r == static_label(key@),
{
    str_eq(key, "cluster") || str_eq(key, "namespace") || str_eq(key, "instance") || str_eq(
        key,
        "pod",
    )
}

// ---------------------------------------------------------------------
// Types.
// ---------------------------------------------------------------------

/// A kind of quantity with a unit.
#[derive(Debug, Clone, Copy, PartialEq, Eq, Structural)]
pub enum Unit {
    Duration,
    Bytes,
}

/// Whether a text is a truth value.
pub open spec fn spells_boolean(v: Seq<char>) -> bool {
    v == "t"@ || v == "T"@ || v == "TRUE"@ || v == "true"@ || v == "True"@ || v == "f"@ || v
        == "F"@ || v == "FALSE"@ || v == "false"@ || v == "False"@
}

/// Whether a text is a truth value.
pub fn is_boolean(v: &str) -> (r: bool)
    ensures
        r == spells_boolean(v@),
{
    str_eq(v, "t") || str_eq(v, "T") || str_eq(v, "TRUE") || str_eq(v, "true") || str_eq(v, "True")
        || str_eq(v, "f") || str_eq(v, "F") || str_eq(v, "FALSE") || str_eq(v, "false") || str_eq(
        v,
        "False",
    )
}

/// The type of a text that has no unit: integer first, then floating point, then
/// truth value.
pub open spec fn plain_type(v: Seq<char>) -> Option<Seq<char>> {
    if literal::spells_integer(v) {
        Some("int"@)
    } else if literal::spells_float(v) {
        Some("float"@)
    } else if spells_boolean(v) {
        Some("boolean"@)
    } else {
        None
    }
}

/// Whether a reader can answer `r` when asked for a unit in a text.
pub open spec fn read_as<U: Fn(&str, Unit) -> bool>(
    reads: U,
    v: Seq<char>,
    unit: Unit,
    r: bool,
) -> bool {
    exists|s: &str| s@ == v && #[trigger] call_ensures(reads, (s, unit), r)
}

/// Whether `t` is the type of a text: a plain type, else a duration, else bytes,
/// else a string.
pub open spec fn detects<U: Fn(&str, Unit) -> bool>(
    reads: U,
    v: Seq<char>,
    t: Seq<char>,
) -> bool {
    match plain_type(v) {
        Some(plain) => t == plain,
        None => {
            ||| t == "duration"@ && read_as(reads, v, Unit::Duration, true)
            ||| t == "bytes"@ && read_as(reads, v, Unit::Duration, false) && read_as(
                reads,
                v,
                Unit::Bytes,
                true,
            )
            ||| t == "string"@ && read_as(reads, v, Unit::Duration, false) && read_as(
                reads,
                v,
                Unit::Bytes,
                false,
            )
        },
    }
}

/// The type of a text. `reads` tells whether a text is a quantity with a unit.
pub fn determine_type<U: Fn(&str, Unit) -> bool>(value: &str, reads: &U) -> (t: &'static str)
    requires
        forall|s: &str, u: Unit| call_requires(*reads, (s, u)),
    ensures
        detects(*reads, value@, t@),
{
    if is_integer(value) {
        return "int";
    }
    if is_float(value) {
        return "float";
    }
    if is_boolean(value) {
        return "boolean";
    }
    if reads(value, Unit::Duration) {
        return "duration";
    }
    if reads(value, Unit::Bytes) {
        return "bytes";
    }
    "string"
}

// ---------------------------------------------------------------------
// The byte budget.
// ---------------------------------------------------------------------

/// A byte budget that refuses rather than fails.
#[derive(Debug, Clone, Copy, PartialEq, Eq, Structural)]
pub struct RetentionBudget {
    pub charged: u64,
    pub peak: u64,
    pub budget: u64,
    pub capped: bool,
}

impl RetentionBudget {
    /// What is charged is within the budget, and was never more.
    pub open spec fn wf(self) -> bool {
        self.charged == self.peak <= self.budget
    }

    /// Whether a charge fits.
    pub open spec fn fits(self, bytes: u64) -> bool {
        text::saturate(self.charged + bytes) <= self.budget
    }

    /// The budget after a charge. A refused one only leaves a mark.
    pub open spec fn after(self, bytes: u64) -> RetentionBudget {
        if self.fits(bytes) {
            RetentionBudget {
                charged: text::saturate(self.charged + bytes),
                peak: if self.peak >= text::saturate(self.charged + bytes) {
                    self.peak
                } else {
                    text::saturate(self.charged + bytes)
                },
                budget: self.budget,
                capped: self.capped,
            }
        } else {
            RetentionBudget { capped: true, ..self }
        }
    }

    /// Nothing is charged yet.
    pub fn new(budget: u64) -> (b: RetentionBudget)
        ensures
            b == (RetentionBudget { charged: 0, peak: 0, budget, capped: false }),
            b.wf(),
    {
        RetentionBudget { charged: 0, peak: 0, budget, capped: false }
    }

    /// Charges bytes, and says whether they fit.
    pub fn charge(&mut self, bytes: u64) -> (ok: bool)
        ensures
            ok == old(self).fits(bytes),
            *final(self) == old(self).after(bytes),
            old(self).wf() ==> final(self).wf(),
    {
        let next: u64 = self.charged.saturating_add(bytes);
        if next > self.budget {
            self.capped = true;
            return false;
        }
        self.charged = next;
        if next > self.peak {
            self.peak = next;
        }
        true
    }
}

// ---------------------------------------------------------------------
// One field.
// ---------------------------------------------------------------------

/// What one field has shown so far.
pub struct FieldState {
    pub field_type: &'static str,
    pub values: StringHashSet,
    pub parsers: Vec<&'static str>,
    pub json_path: Option<Vec<String>>,
    /// Whether the value set has stopped growing.
    pub frozen: bool,
}

/// What one field has shown so far, as values.
pub struct FieldView {
    pub label: Seq<char>,
    pub field_type: Seq<char>,
    pub values: Set<Seq<char>>,
    pub parsers: Seq<Seq<char>>,
    pub json_path: Option<Seq<Seq<char>>>,
    pub frozen: bool,
}

/// Owned texts as values.
pub open spec fn texts(s: Seq<String>) -> Seq<Seq<char>> {
    s.map_values(|x: String| x@)
}

/// Fixed texts as values.
pub open spec fn names(s: Seq<&'static str>) -> Seq<Seq<char>> {
    s.map_values(|x: &'static str| x@)
}

/// A stored path as values.
pub open spec fn stored_path(p: Option<Vec<String>>) -> Option<Seq<Seq<char>>> {
    match p {
        None => None,
        Some(v) => Some(texts(v@)),
    }
}

/// A named field as values.
pub open spec fn field_view(entry: (String, FieldState)) -> FieldView {
    FieldView {
        label: entry.0@,
        field_type: entry.1.field_type@,
        values: entry.1.values@,
        parsers: names(entry.1.parsers@),
        json_path: stored_path(entry.1.json_path),
        frozen: entry.1.frozen,
    }
}

/// How a pair was found.
#[derive(Debug, Clone, Copy)]
pub enum FieldSource<'p> {
    /// In structured metadata, or by the query's own pipeline.
    Unattributed,
    /// By the logfmt parser.
    Logfmt,
    /// By the JSON parser, with the path of the key where there is one.
    Json { path: Option<&'p [String]> },
}

/// How a pair was found, as a value.
pub enum SourceView {
    Unattributed,
    Logfmt,
    Json { path: Option<Seq<Seq<char>>> },
}

impl<'p> FieldSource<'p> {
    /// The source as a value.
    pub open spec fn view(self) -> SourceView {
        match self {
            FieldSource::Unattributed => SourceView::Unattributed,
            FieldSource::Logfmt => SourceView::Logfmt,
            FieldSource::Json { path: None } => SourceView::Json { path: None },
            FieldSource::Json { path: Some(p) } => SourceView::Json { path: Some(texts(p@)) },
        }
    }

    /// The parser to name.
    pub fn parser(&self) -> (name: Option<&'static str>)
        ensures
            parser_of(self@) == match name {
                None => None::<Seq<char>>,
                Some(n) => Some(n@),
            },
    {
        match self {
            FieldSource::Unattributed => None,
            FieldSource::Logfmt => Some("logfmt"),
            FieldSource::Json { .. } => Some("json"),
        }
    }
}

/// The parser a source names.
pub open spec fn parser_of(source: SourceView) -> Option<Seq<char>> {
    match source {
        SourceView::Unattributed => None,
        SourceView::Logfmt => Some("logfmt"@),
        SourceView::Json { .. } => Some("json"@),
    }
}

/// What keeping a field name costs.
pub open spec fn name_cost(name: Seq<char>) -> u64 {
    text::saturate(
        text::saturate(
            charge::map_slot_bytes(vstd::layout::size_of::<(String, FieldState)>() as int)
                + charge::grown_bytes(text::saturate(text::byte_count(name)) as int),
        ) + charge::block_bytes(
            text::saturate((2 * vstd::layout::size_of::<&'static str>()) as int) as int,
        ),
    )
}

/// What keeping a field name costs.
pub fn field_entry_bytes(name: &str) -> (n: u64)
    ensures
        n == name_cost(name@),
{
    map_entry_bytes(std::mem::size_of::<(String, FieldState)>()).saturating_add(
        grown_alloc_bytes(byte_len(name)),
    ).saturating_add(
        alloc_block_bytes(saturating_product(2, std::mem::size_of::<&'static str>() as u64)),
    )
}

/// What keeping a value costs.
pub open spec fn value_cost(value: Seq<char>) -> u64 {
    text::saturate(
        charge::map_slot_bytes(vstd::layout::size_of::<String>() as int) + charge::block_bytes(
            text::saturate(text::byte_count(value)) as int,
        ),
    )
}

/// What keeping a value costs.
pub fn value_entry_bytes(value: &str) -> (n: u64)
    ensures
        n == value_cost(value@),
{
    map_entry_bytes(std::mem::size_of::<String>()).saturating_add(
        alloc_block_bytes(byte_len(value)),
    )
}

/// What the parts of a path cost.
pub open spec fn parts_cost(path: Seq<Seq<char>>) -> int
    decreases path.len(),
{
    if path.len() == 0 {
        0
    } else {
        parts_cost(path.drop_last()) + charge::block_bytes(
            text::saturate(text::byte_count(path.last())) as int,
        )
    }
}

/// What keeping a path costs.
pub open spec fn path_cost(path: Seq<Seq<char>>) -> u64 {
    text::saturate(
        charge::block_bytes(
            text::saturate((path.len() * vstd::layout::size_of::<String>()) as int) as int,
        ) + parts_cost(path),
    )
}

/// What keeping a path costs.
pub fn json_path_bytes(path: &[String]) -> (n: u64)
    ensures
        n == path_cost(texts(path@)),
{
    let ghost view = texts(path@);
    let spine: u64 = alloc_block_bytes(
        saturating_product(path.len() as u64, std::mem::size_of::<String>() as u64),
    );
    let mut n: u64 = spine;
    let mut i: usize = 0;
    proof {
        assert(view.take(0) =~= Seq::<Seq<char>>::empty());
    }
    while i < path.len()
        invariant
            i <= path@.len(),
            view == texts(path@),
            0 <= parts_cost(view.take(i as int)),
            n == text::saturate(spine + parts_cost(view.take(i as int))),
        decreases path@.len() - i,
    {
        proof {
            assert(view.take(i + 1).drop_last() =~= view.take(i as int));
            assert(view.take(i + 1).last() == path@[i as int]@);
        }
        n = n.saturating_add(alloc_block_bytes(byte_len(path[i].as_str())));
        i = i + 1;
    }
    proof {
        assert(view.take(view.len() as int) =~= view);
    }
    n
}

/// The field and the budget after a JSON observation has brought a path, or none.
/// A path that is no dearer is free, a dearer one costs the difference.
pub open spec fn path_stored(
    b: RetentionBudget,
    f: FieldView,
    path: Option<Seq<Seq<char>>>,
) -> (RetentionBudget, FieldView) {
    if f.json_path == path {
        (b, f)
    } else {
        match path {
            None => (b, FieldView { json_path: None, ..f }),
            Some(p) => {
                let held: u64 = match f.json_path {
                    None => 0,
                    Some(q) => path_cost(q),
                };
                let kept = FieldView { json_path: Some(p), ..f };
                if path_cost(p) <= held {
                    (b, kept)
                } else {
                    let more = (path_cost(p) - held) as u64;
                    (
                        b.after(more),
                        if b.fits(more) {
                            kept
                        } else {
                            f
                        },
                    )
                }
            },
        }
    }
}

/// The field and the budget after one observation of a value of type `t`.
pub open spec fn field_observed(
    b: RetentionBudget,
    f: FieldView,
    value: Seq<char>,
    t: Seq<char>,
    source: SourceView,
) -> (RetentionBudget, FieldView) {
    let typed = FieldView { field_type: t, ..f };
    let grows = !f.frozen && !f.values.contains(value);
    let fits = b.fits(value_cost(value));
    let b1 = if grows {
        b.after(value_cost(value))
    } else {
        b
    };
    let valued = if !grows {
        typed
    } else if fits {
        FieldView { values: typed.values.insert(value), ..typed }
    } else {
        FieldView { frozen: true, ..typed }
    };
    let named = match parser_of(source) {
        Some(p) => if valued.parsers.contains(p) {
            valued
        } else {
            FieldView { parsers: valued.parsers.push(p), ..valued }
        },
        None => valued,
    };
    match source {
        SourceView::Json { path } => path_stored(b1, named, path),
        _ => (b1, named),
    }
}

/// Whether two paths are the same.
fn same_path(a: &Vec<String>, b: &[String]) -> (r: bool)
    ensures
        r == (texts(a@) == texts(b@)),
{
    if a.len() != b.len() {
        proof {
            assert(texts(a@).len() != texts(b@).len());
        }
        return false;
    }
    let mut i: usize = 0;
    while i < a.len()
        invariant
            a@.len() == b@.len(),
            i <= a@.len(),
            forall|j: int| 0 <= j < i ==> #[trigger] a@[j]@ == b@[j]@,
        decreases a@.len() - i,
    {
        if !str_eq(a[i].as_str(), b[i].as_str()) {
            proof {
                assert(texts(a@)[i as int] != texts(b@)[i as int]);
            }
            return false;
        }
        i = i + 1;
    }
    proof {
        assert(texts(a@) =~= texts(b@));
    }
    true
}

/// A copy of a path.
fn copy_path(path: &[String]) -> (out: Vec<String>)
    ensures
        texts(out@) == texts(path@),
{
    let mut out: Vec<String> = Vec::with_capacity(path.len());
    let mut i: usize = 0;
    while i < path.len()
        invariant
            i <= path@.len(),
            out@.len() == i,
            forall|j: int| 0 <= j < i ==> #[trigger] out@[j]@ == path@[j]@,
        decreases path@.len() - i,
    {
        out.push(path[i].clone());
        i = i + 1;
    }
    proof {
        assert(texts(out@) =~= texts(path@));
    }
    out
}

/// Stores the path of a JSON observation.
fn store_json_path(
    budget: &mut RetentionBudget,
    state: &mut FieldState,
    path: Option<&[String]>,
    Ghost(label): Ghost<String>,
)
    requires
        old(budget).wf(),
    ensures
        final(budget).wf(),
        (*final(budget), field_view((label, *final(state)))) == path_stored(
            *old(budget),
            field_view((label, *old(state))),
            match path {
                None => None::<Seq<Seq<char>>>,
                Some(p) => Some(texts(p@)),
            },
        ),
{
    let held: u64 = match &state.json_path {
        None => 0,
        Some(q) => {
            if let Some(p) = path {
                if same_path(q, p) {
                    return ;
                }
            }
            json_path_bytes(q.as_slice())
        },
    };
    match path {
        None => {
            state.json_path = None;
        },
        Some(p) => {
            let new: u64 = json_path_bytes(p);
            if new > held {
                if !budget.charge(new - held) {
                    return ;
                }
            }
            state.json_path = Some(copy_path(p));
        },
    }
}

/// Whether a parser is named already.
fn names_parser(parsers: &Vec<&'static str>, p: &'static str) -> (r: bool)
    ensures
        r == names(parsers@).contains(p@),
{
    let mut i: usize = 0;
    while i < parsers.len()
        invariant
            i <= parsers@.len(),
            forall|j: int| 0 <= j < i ==> #[trigger] parsers@[j]@ != p@,
        decreases parsers@.len() - i,
    {
        if str_eq(parsers[i], p) {
            proof {
                assert(names(parsers@)[i as int] == p@);
            }
            return true;
        }
        i = i + 1;
    }
    proof {
        if names(parsers@).contains(p@) {
            let j = choose|j: int| 0 <= j < names(parsers@).len() && names(parsers@)[j] == p@;
            assert(parsers@[j]@ == p@);
        }
    }
    false
}

/// Takes one observation into a field.
fn observe_admitted<U: Fn(&str, Unit) -> bool>(
    budget: &mut RetentionBudget,
    state: &mut FieldState,
    value: &str,
    source: FieldSource<'_>,
    reads: &U,
    Ghost(label): Ghost<String>,
)
    requires
        old(budget).wf(),
        forall|s: &str, u: Unit| call_requires(*reads, (s, u)),
    ensures
        final(budget).wf(),
        detects(*reads, value@, final(state).field_type@),
        (*final(budget), field_view((label, *final(state)))) == field_observed(
            *old(budget),
            field_view((label, *old(state))),
            value@,
            final(state).field_type@,
            source@,
        ),
{
    let ghost f0 = field_view((label, *state));
    state.field_type = determine_type(value, reads);
    if !state.frozen && !state.values.contains(value) {
        if budget.charge(value_entry_bytes(value)) {
            state.values.insert(value.to_string());
        } else {
            state.frozen = true;
        }
    }
    if let Some(p) = source.parser() {
        if !names_parser(&state.parsers, p) {
            let ghost before = names(state.parsers@);
            state.parsers.push(p);
            proof {
                assert(names(state.parsers@) =~= before.push(p@));
            }
        }
    }
    if let FieldSource::Json { path } = source {
        store_json_path(budget, state, path, Ghost(label));
    }
}

// ---------------------------------------------------------------------
// All fields.
// ---------------------------------------------------------------------

/// The fields found so far, in the order they were first seen.
pub struct FieldAccumulator {
    field_limit: u32,
    fields: Vec<(String, FieldState)>,
    index: StringHashMap<usize>,
    budget: RetentionBudget,
}

/// The fields found so far, as values.
pub struct AccView {
    pub field_limit: u32,
    pub fields: Seq<FieldView>,
    pub budget: RetentionBudget,
}

/// One observed pair.
pub struct Observation {
    pub key: Seq<char>,
    pub value: Seq<char>,
    pub source: SourceView,
}

/// Whether a name never becomes a field.
pub open spec fn is_error_label(key: Seq<char>) -> bool {
    key == ERROR_LABEL@ || key == ERROR_DETAILS_LABEL@
}

/// Whether a field stands at a position.
pub open spec fn stands_at(fields: Seq<FieldView>, key: Seq<char>, i: int) -> bool {
    0 <= i < fields.len() && fields[i].label == key
}

/// Whether a name is a field.
pub open spec fn has_field(fields: Seq<FieldView>, key: Seq<char>) -> bool {
    exists|i: int| stands_at(fields, key, i)
}

/// Where a field stands.
pub open spec fn field_at(fields: Seq<FieldView>, key: Seq<char>) -> int {
    choose|i: int| stands_at(fields, key, i)
}

/// A field that has shown nothing yet.
pub open spec fn fresh_field(key: Seq<char>) -> FieldView {
    FieldView {
        label: key,
        field_type: "string"@,
        values: Set::empty(),
        parsers: Seq::empty(),
        json_path: None,
        frozen: false,
    }
}

/// Whether an observation of this name counts: it is a field already, or there is
/// room and budget for one more.
pub open spec fn admitted(a: AccView, key: Seq<char>) -> bool {
    &&& !is_error_label(key)
    &&& has_field(a.fields, key) || (a.fields.len() < a.field_limit && a.budget.fits(
        name_cost(key),
    ))
}

/// What stands once a name has been let in, or not.
pub open spec fn with_name(a: AccView, key: Seq<char>) -> AccView {
    if is_error_label(key) || has_field(a.fields, key) || a.fields.len() >= a.field_limit {
        a
    } else {
        AccView {
            fields: if a.budget.fits(name_cost(key)) {
                a.fields.push(fresh_field(key))
            } else {
                a.fields
            },
            budget: a.budget.after(name_cost(key)),
            ..a
        }
    }
}

/// What stands after one observation of a value of type `t`.
pub open spec fn observed(a: AccView, o: Observation, t: Seq<char>) -> AccView {
    let named = with_name(a, o.key);
    if admitted(a, o.key) {
        let i = field_at(named.fields, o.key);
        let (b, f) = field_observed(named.budget, named.fields[i], o.value, t, o.source);
        AccView { fields: named.fields.update(i, f), budget: b, ..named }
    } else {
        named
    }
}

/// Whether one observation leads from `a` to `b`, where `reads` tells units.
pub open spec fn observes_one<U: Fn(&str, Unit) -> bool>(
    reads: U,
    a: AccView,
    b: AccView,
    o: Observation,
) -> bool {
    if admitted(a, o.key) {
        exists|t: Seq<char>| #[trigger] detects(reads, o.value, t) && b == observed(a, o, t)
    } else {
        b == with_name(a, o.key)
    }
}

/// Whether observations, one after the other, lead from `a` to `b`.
pub open spec fn observes<U: Fn(&str, Unit) -> bool>(
    reads: U,
    a: AccView,
    b: AccView,
    trace: Seq<Observation>,
) -> bool
    decreases trace.len(),
{
    if trace.len() == 0 {
        b == a
    } else {
        exists|mid: AccView|
            observes(reads, a, mid, trace.drop_last()) && #[trigger] observes_one(
                reads,
                mid,
                b,
                trace.last(),
            )
    }
}

/// Observations join.
pub proof fn lemma_observes_join<U: Fn(&str, Unit) -> bool>(
    reads: U,
    a: AccView,
    b: AccView,
    c: AccView,
    first: Seq<Observation>,
    second: Seq<Observation>,
)
    requires
        observes(reads, a, b, first),
        observes(reads, b, c, second),
    ensures
        observes(reads, a, c, first + second),
    decreases second.len(),
{
    if second.len() == 0 {
        assert(first + second =~= first);
    } else {
        let mid = choose|mid: AccView|
            observes(reads, b, mid, second.drop_last()) && #[trigger] observes_one(
                reads,
                mid,
                c,
                second.last(),
            );
        lemma_observes_join(reads, a, b, mid, first, second.drop_last());
        assert((first + second).drop_last() =~= first + second.drop_last());
        assert((first + second).last() == second.last());
    }
}

/// One more observation.
pub proof fn lemma_observes_next<U: Fn(&str, Unit) -> bool>(
    reads: U,
    a: AccView,
    b: AccView,
    c: AccView,
    first: Seq<Observation>,
    o: Observation,
)
    requires
        observes(reads, a, b, first),
        observes_one(reads, b, c, o),
    ensures
        observes(reads, a, c, first.push(o)),
{
    let whole = first.push(o);
    assert(whole.drop_last() =~= first);
    assert(observes_one(reads, b, c, whole.last()));
}

/// Pairs from one source as observations.
pub open spec fn pairs_observed(pairs: Seq<PairView>, source: SourceView) -> Seq<Observation> {
    pairs.map_values(|p: PairView| Observation { key: p.0, value: p.1, source })
}

/// A detected field, as values.
pub struct FieldOutView {
    pub label: Seq<char>,
    pub field_type: Seq<char>,
    pub cardinality: int,
    pub parsers: Seq<Seq<char>>,
    pub json_path: Option<Seq<Seq<char>>>,
}

impl View for DetectedFieldOut {
    type V = FieldOutView;

    open spec fn view(&self) -> FieldOutView {
        FieldOutView {
            label: self.label@,
            field_type: self.field_type@,
            cardinality: self.cardinality as int,
            parsers: names(self.parsers@),
            json_path: stored_path(self.json_path),
        }
    }
}

/// What is answered of a field.
pub open spec fn shown(f: FieldView) -> FieldOutView {
    FieldOutView {
        label: f.label,
        field_type: f.field_type,
        cardinality: f.values.len() as int,
        parsers: f.parsers,
        json_path: f.json_path,
    }
}

/// The order of the answer: by label.
pub open spec fn label_le() -> spec_fn(FieldOutView, FieldOutView) -> bool {
    |a: FieldOutView, b: FieldOutView| text::text_le(a.label, b.label)
}

/// Detected fields as values.
pub open spec fn outs(s: Seq<DetectedFieldOut>) -> Seq<FieldOutView> {
    s.map_values(|o: DetectedFieldOut| o@)
}

/// The answer: every field, by label.
pub open spec fn answer(a: AccView) -> Seq<FieldOutView> {
    order::stable_sort(a.fields.map_values(|f: FieldView| shown(f)), label_le())
}

pub proof fn lemma_label_le_preorder()
    ensures
        order::total_preorder(label_le()),
{
    let le = label_le();
    assert forall|a: FieldOutView, b: FieldOutView| #[trigger] le(a, b) || le(b, a) by {
        text::lemma_text_le_total(a.label, b.label);
    }
    assert forall|a: FieldOutView, b: FieldOutView, c: FieldOutView| #[trigger]
        le(a, b) && #[trigger] le(b, c) implies le(a, c) by {
        text::lemma_text_le_chains(a.label, b.label, c.label);
    }
}

impl Ranked for DetectedFieldOut {
    open spec fn rank_le() -> spec_fn(Self, Self) -> bool {
        |a: Self, b: Self| label_le()(a@, b@)
    }

    proof fn rank_is_preorder() {
        lemma_label_le_preorder();
        let le = Self::rank_le();
        assert forall|a: Self, b: Self| #[trigger] le(a, b) || le(b, a) by {
            assert(label_le()(a@, b@) || label_le()(b@, a@));
        }
        assert forall|a: Self, b: Self, c: Self| #[trigger] le(a, b) && #[trigger] le(
            b,
            c,
        ) implies le(a, c) by {
            assert(label_le()(a@, b@) && label_le()(b@, c@) ==> label_le()(a@, c@));
        }
    }

    fn ranks_le(&self, other: &Self) -> (r: bool) {
        proof {
            assert(Self::rank_le()(*self, *other) == text::text_le(self.label@, other.label@));
        }
        str_le(self.label.as_str(), other.label.as_str())
    }
}

impl View for FieldAccumulator {
    type V = AccView;

    closed spec fn view(&self) -> AccView {
        AccView {
            field_limit: self.field_limit,
            fields: self.fields@.map_values(|e: (String, FieldState)| field_view(e)),
            budget: self.budget,
        }
    }
}

impl FieldAccumulator {
    /// No name occurs twice, the limits hold, and names are found where they
    /// stand.
    pub closed spec fn wf(&self) -> bool {
        &&& self.budget.wf()
        &&& self.fields@.len() <= self.field_limit
        &&& forall|i: int|
            0 <= i < self.fields@.len() ==> self.index@.contains_key(
                (#[trigger] self.fields@[i]).0@,
            ) && self.index@[self.fields@[i].0@] == i
        &&& forall|k: Seq<char>| #[trigger]
            self.index@.contains_key(k) ==> self.index@[k] < self.fields@.len()
                && self.fields@[self.index@[k] as int].0@ == k
    }

    /// Nothing found yet, under the shipped byte budget.
    pub fn new(field_limit: u32) -> (a: FieldAccumulator)
        ensures
            a.wf(),
            a@ == empty_acc(field_limit, MAX_DETECTED_FIELD_BYTES),
    {
        Self::with_byte_budget(field_limit, MAX_DETECTED_FIELD_BYTES)
    }

    /// Nothing found yet.
    pub fn with_byte_budget(field_limit: u32, budget: u64) -> (a: FieldAccumulator)
        ensures
            a.wf(),
            a@ == empty_acc(field_limit, budget),
    {
        let a = FieldAccumulator {
            field_limit,
            fields: Vec::new(),
            index: StringHashMap::new(),
            budget: RetentionBudget::new(budget),
        };
        proof {
            assert(a@.fields =~= Seq::<FieldView>::empty());
        }
        a
    }

    /// Structured metadata: pairs no parser is named for.
    pub fn observe_structured_metadata<U: Fn(&str, Unit) -> bool>(
        &mut self,
        pairs: &LabelSet,
        reads: &U,
    )
        requires
            old(self).wf(),
            forall|s: &str, u: Unit| call_requires(*reads, (s, u)),
        ensures
            final(self).wf(),
            observes(
                *reads,
                old(self)@,
                final(self)@,
                pairs_observed(text::labels_view(pairs@), SourceView::Unattributed),
            ),
    {
        self.observe_parsed(pairs, FieldSource::Unattributed, reads);
    }

    /// Pairs from one source.
    pub fn observe_parsed<U: Fn(&str, Unit) -> bool>(
        &mut self,
        pairs: &LabelSet,
        source: FieldSource<'_>,
        reads: &U,
    )
        requires
            old(self).wf(),
            forall|s: &str, u: Unit| call_requires(*reads, (s, u)),
        ensures
            final(self).wf(),
            observes(
                *reads,
                old(self)@,
                final(self)@,
                pairs_observed(text::labels_view(pairs@), source@),
            ),
    {
        let ghost start = self@;
        let ghost trace = pairs_observed(text::labels_view(pairs@), source@);
        let mut i: usize = 0;
        proof {
            assert(trace.take(0) =~= Seq::<Observation>::empty());
        }
        while i < pairs.len()
            invariant
                i <= pairs@.len(),
                self.wf(),
                trace == pairs_observed(text::labels_view(pairs@), source@),
                observes(*reads, start, self@, trace.take(i as int)),
                forall|s: &str, u: Unit| call_requires(*reads, (s, u)),
            decreases pairs@.len() - i,
        {
            let ghost before = self@;
            self.observe_pair(pairs[i].0.as_str(), pairs[i].1.as_str(), source, reads);
            proof {
                assert(trace[i as int] == (Observation {
                    key: pairs@[i as int].0@,
                    value: pairs@[i as int].1@,
                    source: source@,
                }));
                lemma_observes_next(
                    *reads,
                    start,
                    before,
                    self@,
                    trace.take(i as int),
                    trace[i as int],
                );
                assert(trace.take(i as int).push(trace[i as int]) =~= trace.take(i + 1));
            }
            i = i + 1;
        }
        proof {
            assert(trace.take(trace.len() as int) =~= trace);
        }
    }

    /// One pair. Its name and its value are paid for before they are copied.
    pub fn observe_pair<U: Fn(&str, Unit) -> bool>(
        &mut self,
        key: &str,
        value: &str,
        source: FieldSource<'_>,
        reads: &U,
    )
        requires
            old(self).wf(),
            forall|s: &str, u: Unit| call_requires(*reads, (s, u)),
        ensures
            final(self).wf(),
            observes_one(
                *reads,
                old(self)@,
                final(self)@,
                (Observation { key: key@, value: value@, source: source@ }),
            ),
    {
        let ghost start = self@;
        let ghost o = Observation { key: key@, value: value@, source: source@ };
        if str_eq(key, ERROR_LABEL) || str_eq(key, ERROR_DETAILS_LABEL) {
            return ;
        }
        let found: Option<usize> = match self.index.get(key) {
            Some(at) => Some(*at),
            None => None,
        };
        let at: usize = match found {
            Some(at) => {
                proof {
                    assert(self.fields@[at as int].0@ == key@);
                    assert(stands_at(start.fields, key@, at as int));
                }
                at
            },
            None => {
                proof {
                    assert(!has_field(start.fields, key@)) by {
                        if has_field(start.fields, key@) {
                            let i = choose|i: int| stands_at(start.fields, key@, i);
                            assert(self.fields@[i].0@ == key@);
                        }
                    }
                }
                if self.fields.len() as u64 >= self.field_limit as u64 {
                    return ;
                }
                if !self.budget.charge(field_entry_bytes(key)) {
                    return ;
                }
                self.insert_fresh(key);
                proof {
                    assert(self@.fields == start.fields.push(fresh_field(key@)));
                    assert(self@ == with_name(start, key@));
                    assert(stands_at(self@.fields, key@, start.fields.len() as int));
                }
                self.fields.len() - 1
            },
        };
        let ghost named = self@;
        let ghost label = self.fields@[at as int].0;
        let ghost entries = self.fields@;
        proof {
            assert(named == with_name(start, key@));
            assert(entries[at as int].0@ == key@);
            assert(stands_at(named.fields, key@, at as int));
            let i = field_at(named.fields, key@);
            assert(stands_at(named.fields, key@, i));
            assert(entries[i].0@ == key@);
            assert(i == at);
            assert(named.fields[at as int] == field_view((label, entries[at as int].1)));
        }
        observe_admitted(
            &mut self.budget,
            &mut self.fields[at].1,
            value,
            source,
            reads,
            Ghost(label),
        );
        proof {
            let t = self.fields@[at as int].1.field_type@;
            assert forall|i: int| 0 <= i < self.fields@.len() implies self.index@.contains_key(
                (#[trigger] self.fields@[i]).0@,
            ) && self.index@[self.fields@[i].0@] == i by {
                assert(self.fields@[i].0 == entries[i].0);
            }
            assert forall|k: Seq<char>| #[trigger] self.index@.contains_key(k) implies self.index@[k]
                < self.fields@.len() && self.fields@[self.index@[k] as int].0@ == k by {
                assert(entries[self.index@[k] as int].0@ == k);
            }
            assert(self@.fields =~= named.fields.update(
                at as int,
                field_view((label, self.fields@[at as int].1)),
            ));
            assert(detects(*reads, value@, t));
            assert(self@ == observed(start, o, t));
        }
    }

    /// Lets a new name in.
    fn insert_fresh(&mut self, key: &str)
        requires
            old(self).wf(),
            old(self)@.fields.len() < old(self)@.field_limit,
            !old(self).index@.contains_key(key@),
        ensures
            final(self).wf(),
            final(self)@ == (AccView {
                fields: old(self)@.fields.push(fresh_field(key@)),
                ..old(self)@
            }),
            final(self).fields@.len() == old(self).fields@.len() + 1,
    {
        let ghost entry = *self;
        let at: usize = self.fields.len();
        self.index.insert(key.to_string(), at);
        self.fields.push(
            (
                key.to_string(),
                FieldState {
                    field_type: "string",
                    values: StringHashSet::new(),
                    parsers: Vec::with_capacity(2),
                    json_path: None,
                    frozen: false,
                },
            ),
        );
        proof {
            assert forall|i: int| 0 <= i < self.fields@.len() implies self.index@.contains_key(
                (#[trigger] self.fields@[i]).0@,
            ) && self.index@[self.fields@[i].0@] == i by {
                if i < at {
                    assert(self.fields@[i] == entry.fields@[i]);
                    assert(entry.index@.contains_key(entry.fields@[i].0@));
                }
            }
            assert forall|k: Seq<char>| #[trigger] self.index@.contains_key(k) implies self.index@[k]
                < self.fields@.len() && self.fields@[self.index@[k] as int].0@ == k by {
                if k != key@ {
                    assert(entry.index@.contains_key(k));
                }
            }
            let last = self.fields@[at as int];
            assert(names(last.1.parsers@) =~= Seq::<Seq<char>>::empty());
            assert(field_view(last) == fresh_field(key@));
            assert(self@.fields =~= entry@.fields.push(fresh_field(key@)));
        }
    }

    /// What a field has shown so far.
    pub fn field(&self, key: &str) -> (r: Option<&FieldState>)
        requires
            self.wf(),
        ensures
            match r {
                Some(state) => has_field(self@.fields, key@) && exists|label: String|
                    label@ == key@ && self@.fields[field_at(self@.fields, key@)]
                        == #[trigger] field_view((label, *state)),
                None => !has_field(self@.fields, key@),
            },
    {
        match self.index.get(key) {
            Some(at) => {
                let i: usize = *at;
                proof {
                    assert(stands_at(self@.fields, key@, i as int));
                    let j = field_at(self@.fields, key@);
                    assert(stands_at(self@.fields, key@, j));
                    assert(self.fields@[j].0@ == key@);
                    assert(i == j);
                    let label = self.fields@[i as int].0;
                    assert(label@ == key@);
                    assert(self@.fields[i as int] == field_view((label, self.fields@[i as int].1)));
                }
                Some(&self.fields[i].1)
            },
            None => {
                proof {
                    if has_field(self@.fields, key@) {
                        let i = choose|i: int| stands_at(self@.fields, key@, i);
                        assert(self.fields@[i].0@ == key@);
                    }
                }
                None
            },
        }
    }

    /// The bytes charged.
    pub fn charged(&self) -> (n: u64)
        ensures
            n == self@.budget.charged,
    {
        self.budget.charged
    }

    /// The most bytes ever charged.
    pub fn peak_charged(&self) -> (n: u64)
        ensures
            n == self@.budget.peak,
    {
        self.budget.peak
    }

    /// The answer, and whether the budget ever refused.
    pub fn finish(self) -> (r: (Vec<DetectedFieldOut>, bool))
        requires
            self.wf(),
        ensures
            outs(r.0@) == answer(self@),
            r.1 == self@.budget.capped,
    {
        let ghost view = self@;
        let ghost entries = self.fields@;
        let capped: bool = self.budget.capped;
        let mut out: Vec<DetectedFieldOut> = Vec::new();
        for e in it: self.fields
            invariant
                it.seq() == entries,
                out@.len() == it.index(),
                forall|i: int|
                    0 <= i < out@.len() ==> (#[trigger] out@[i])@ == shown(field_view(entries[i])),
        {
            let (label, state) = e;
            let cardinality: u64 = state.values.len() as u64;
            let FieldState { field_type, values, parsers, json_path, frozen } = state;
            out.push(DetectedFieldOut { label, field_type, cardinality, parsers, json_path });
        }
        proof {
            assert(out@.len() == out.len());
            let f = |o: DetectedFieldOut| o@;
            assert(out@.map_values(f) =~= view.fields.map_values(|v: FieldView| shown(v)));
            <DetectedFieldOut as Ranked>::rank_is_preorder();
            lemma_label_le_preorder();
            order::lemma_stable_sort_mapped(
                out@,
                f,
                <DetectedFieldOut as Ranked>::rank_le(),
                label_le(),
            );
        }
        let sorted = stable_sorted(out);
        (sorted, capped)
    }
}

/// Nothing found yet.
pub open spec fn empty_acc(field_limit: u32, budget: u64) -> AccView {
    AccView {
        field_limit,
        fields: Seq::empty(),
        budget: RetentionBudget { charged: 0, peak: 0, budget, capped: false },
    }
}

// ---------------------------------------------------------------------
// Detection of the format.
// ---------------------------------------------------------------------

/// What a bare parser made of one line.
#[derive(Debug)]
pub struct ParserRun {
    /// Whether the line survived.
    pub kept: bool,
    /// Whether the parser reported an error of its own.
    pub has_err: bool,
    /// The extracted pairs.
    pub labels: LabelSet,
    /// The paths of the JSON keys behind the pairs, by position.
    pub paths: Vec<Option<Vec<String>>>,
}

impl ParserRun {
    /// Whether the line is of the parser's format. A label that merely has the
    /// name of the error label does not count against it.
    pub open spec fn wins(self) -> bool {
        self.kept && !self.has_err
    }

    /// Whether the line is of the parser's format.
    pub fn is_win(&self) -> (r: bool)
        ensures
            r == self.wins(),
    {
        self.kept && !self.has_err
    }

    /// The path behind a pair.
    pub open spec fn path_at(self, i: int) -> Option<Seq<Seq<char>>> {
        if i < self.paths@.len() {
            stored_path(self.paths@[i])
        } else {
            None
        }
    }

    /// The path behind a pair.
    pub fn path(&self, i: usize) -> (p: Option<&[String]>)
        ensures
            self.path_at(i as int) == match p {
                None => None::<Seq<Seq<char>>>,
                Some(q) => Some(texts(q@)),
            },
    {
        if i < self.paths.len() {
            match &self.paths[i] {
                None => None,
                Some(v) => Some(v.as_slice()),
            }
        } else {
            None
        }
    }
}

/// What detection makes of a line: JSON where the JSON parser takes it, else
/// logfmt where that does, else neither. A breached row budget is an error, not
/// another format.
pub open spec fn auto_parsed(
    json: Result<ParserRun, RowBudgetExceeded>,
    logfmt: Result<ParserRun, RowBudgetExceeded>,
) -> Result<Option<(Seq<char>, ParserRun)>, RowBudgetExceeded> {
    match json {
        Err(e) => Err(e),
        Ok(run) => if run.wins() {
            Ok(Some(("json"@, run)))
        } else {
            match logfmt {
                Err(e) => Err(e),
                Ok(other) => if other.wins() {
                    Ok(Some(("logfmt"@, other)))
                } else {
                    Ok(None)
                },
            }
        },
    }
}

/// Detects the format of a line from what the two bare parsers made of it.
pub fn auto_parse_into(
    json: Result<ParserRun, RowBudgetExceeded>,
    logfmt: Result<ParserRun, RowBudgetExceeded>,
) -> (r: Result<Option<(&'static str, ParserRun)>, RowBudgetExceeded>)
    ensures
        auto_parsed(json, logfmt) == match r {
            Err(e) => Err(e),
            Ok(None) => Ok(None),
            Ok(Some((name, run))) => Ok(Some((name@, run))),
        },
{
    let run = match json {
        Err(e) => {
            return Err(e);
        },
        Ok(run) => run,
    };
    if run.is_win() {
        return Ok(Some(("json", run)));
    }
    let other = match logfmt {
        Err(e) => {
            return Err(e);
        },
        Ok(other) => other,
    };
    if other.is_win() {
        return Ok(Some(("logfmt", other)));
    }
    Ok(None)
}

/// Whether a parser takes a line, a breached row budget counting as another
/// format.
pub open spec fn takes(run: Result<ParserRun, RowBudgetExceeded>) -> bool {
    run matches Ok(r) && r.wins()
}

/// What detection makes of a line where a breached row budget is taken for another format.
pub open spec fn legacy_parsed(
    json: Result<ParserRun, RowBudgetExceeded>,
    logfmt: Result<ParserRun, RowBudgetExceeded>,
) -> Option<(Seq<char>, Seq<(String, String)>)> {
    if takes(json) {
        Some(("json"@, json->Ok_0.labels@))
    } else if takes(logfmt) {
        Some(("logfmt"@, logfmt->Ok_0.labels@))
    } else {
        None
    }
}

/// Detects the format of a line as [`auto_parse_into`] does, but takes a breached
/// row budget for another format, and forgets the paths.
pub fn auto_parse_legacy_shape(
    json: Result<ParserRun, RowBudgetExceeded>,
    logfmt: Result<ParserRun, RowBudgetExceeded>,
) -> (r: Option<(&'static str, LabelSet)>)
    ensures
        match r {
            Some((name, pairs)) => {
                ||| takes(json) && name@ == "json"@ && pairs@ == json->Ok_0.labels@
                ||| !takes(json) && takes(logfmt) && name@ == "logfmt"@ && pairs@
                    == logfmt->Ok_0.labels@
            },
            None => !takes(json) && !takes(logfmt),
        },
        legacy_parsed(json, logfmt) == match r {
            Some((name, pairs)) => Some((name@, pairs@)),
            None => None::<(Seq<char>, Seq<(String, String)>)>,
        },
{
    if let Ok(run) = json {
        if run.is_win() {
            return Some(("json", run.labels));
        }
    }
    if let Ok(run) = logfmt {
        if run.is_win() {
            return Some(("logfmt", run.labels));
        }
    }
    None
}

// ---------------------------------------------------------------------
// What holds of every sequence of observations.
// ---------------------------------------------------------------------

/// What one observation keeps.
pub proof fn lemma_observed_keeps<U: Fn(&str, Unit) -> bool>(
    reads: U,
    a: AccView,
    b: AccView,
    o: Observation,
)
    requires
        observes_one(reads, a, b, o),
    ensures
        b.field_limit == a.field_limit,
        b.budget.budget == a.budget.budget,
        a.budget.wf() ==> b.budget.wf(),
        a.budget.charged <= b.budget.charged || !a.budget.wf(),
        a.budget.capped ==> b.budget.capped,
        a.fields.len() <= b.fields.len(),
        a.fields.len() <= a.field_limit ==> b.fields.len() <= b.field_limit,
        forall|i: int|
            0 <= i < a.fields.len() ==> (#[trigger] b.fields[i]).label == a.fields[i].label,
        b.fields.len() > a.fields.len() ==> b.fields.len() == a.fields.len() + 1
            && b.fields.last().label == o.key,
        admitted(a, o.key) ==> has_field(b.fields, o.key),
{
    let named = with_name(a, o.key);
    if admitted(a, o.key) {
        let t = choose|t: Seq<char>| #[trigger]
            detects(reads, o.value, t) && b == observed(a, o, t);
        if !has_field(a.fields, o.key) {
            assert(stands_at(named.fields, o.key, a.fields.len() as int));
        }
        let i = field_at(named.fields, o.key);
        assert(stands_at(named.fields, o.key, i));
        assert(stands_at(b.fields, o.key, i));
    }
}

/// The budget is never exceeded, whatever is observed; what is charged never
/// falls, and a refusal is never forgotten.
pub proof fn law_charges_stay_within_the_budget<U: Fn(&str, Unit) -> bool>(
    reads: U,
    a: AccView,
    b: AccView,
    trace: Seq<Observation>,
)
    requires
        a.budget.wf(),
        observes(reads, a, b, trace),
    ensures
        b.budget.wf(),
        b.budget.budget == a.budget.budget,
        a.budget.charged <= b.budget.charged <= b.budget.budget,
        a.budget.capped ==> b.budget.capped,
    decreases trace.len(),
{
    if trace.len() > 0 {
        let mid = choose|mid: AccView|
            observes(reads, a, mid, trace.drop_last()) && #[trigger] observes_one(
                reads,
                mid,
                b,
                trace.last(),
            );
        law_charges_stay_within_the_budget(reads, a, mid, trace.drop_last());
        lemma_observed_keeps(reads, mid, b, trace.last());
    }
}

/// A refused charge changes nothing but the mark that there was one.
pub proof fn law_refused_charge_costs_nothing(b: RetentionBudget, bytes: u64)
    requires
        !b.fits(bytes),
    ensures
        b.after(bytes) == (RetentionBudget { capped: true, ..b }),
{
}

/// The names that were seen first stay: fields keep their places, later names come
/// behind them, and once the limit is reached no name joins.
pub proof fn law_first_seen_names_win<U: Fn(&str, Unit) -> bool>(
    reads: U,
    a: AccView,
    b: AccView,
    trace: Seq<Observation>,
)
    requires
        a.fields.len() <= a.field_limit,
        observes(reads, a, b, trace),
    ensures
        b.field_limit == a.field_limit,
        a.fields.len() <= b.fields.len() <= b.field_limit,
        forall|i: int|
            0 <= i < a.fields.len() ==> (#[trigger] b.fields[i]).label == a.fields[i].label,
    decreases trace.len(),
{
    if trace.len() > 0 {
        let mid = choose|mid: AccView|
            observes(reads, a, mid, trace.drop_last()) && #[trigger] observes_one(
                reads,
                mid,
                b,
                trace.last(),
            );
        law_first_seen_names_win(reads, a, mid, trace.drop_last());
        lemma_observed_keeps(reads, mid, b, trace.last());
        assert forall|i: int| 0 <= i < a.fields.len() implies (#[trigger] b.fields[i]).label
            == a.fields[i].label by {
            assert(mid.fields[i].label == a.fields[i].label);
        }
    }
}

/// Error labels never become fields.
pub proof fn law_error_labels_are_no_fields<U: Fn(&str, Unit) -> bool>(
    reads: U,
    a: AccView,
    b: AccView,
    trace: Seq<Observation>,
    key: Seq<char>,
)
    requires
        observes(reads, a, b, trace),
        is_error_label(key),
        !has_field(a.fields, key),
    ensures
        !has_field(b.fields, key),
    decreases trace.len(),
{
    if trace.len() > 0 {
        let mid = choose|mid: AccView|
            observes(reads, a, mid, trace.drop_last()) && #[trigger] observes_one(
                reads,
                mid,
                b,
                trace.last(),
            );
        law_error_labels_are_no_fields(reads, a, mid, trace.drop_last(), key);
        lemma_observed_keeps(reads, mid, b, trace.last());
        if has_field(b.fields, key) {
            let i = choose|i: int| stands_at(b.fields, key, i);
            if i < mid.fields.len() {
                assert(b.fields[i].label == mid.fields[i].label);
                assert(stands_at(mid.fields, key, i));
            }
        }
    }
}

/// Whether names are distinct and no field has stopped growing.
pub open spec fn growing(a: AccView) -> bool {
    &&& forall|i: int, j: int|
        0 <= i < j < a.fields.len() ==> (#[trigger] a.fields[i]).label != (
        #[trigger] a.fields[j]).label
    &&& forall|i: int| 0 <= i < a.fields.len() ==> !(#[trigger] a.fields[i]).frozen
}

/// The values observed under a name.
pub open spec fn values_of(trace: Seq<Observation>, key: Seq<char>) -> Set<Seq<char>> {
    Set::new(
        |v: Seq<char>|
            exists|i: int|
                0 <= i < trace.len() && (#[trigger] trace[i]).key == key && trace[i].value == v,
    )
}

/// The values kept under a name.
pub open spec fn kept_values(a: AccView, key: Seq<char>) -> Set<Seq<char>> {
    if has_field(a.fields, key) {
        a.fields[field_at(a.fields, key)].values
    } else {
        Set::empty()
    }
}

pub proof fn lemma_values_of_last(trace: Seq<Observation>, key: Seq<char>)
    requires
        trace.len() > 0,
    ensures
        values_of(trace, key) == (if trace.last().key == key {
            values_of(trace.drop_last(), key).insert(trace.last().value)
        } else {
            values_of(trace.drop_last(), key)
        }),
{
    let front = trace.drop_last();
    let rhs = if trace.last().key == key {
        values_of(front, key).insert(trace.last().value)
    } else {
        values_of(front, key)
    };
    assert forall|v: Seq<char>| values_of(trace, key).contains(v) == rhs.contains(v) by {
        if values_of(trace, key).contains(v) {
            let i = choose|i: int|
                0 <= i < trace.len() && (#[trigger] trace[i]).key == key && trace[i].value == v;
            if i < front.len() {
                assert(front[i].key == key && front[i].value == v);
            }
        }
        if values_of(front, key).contains(v) {
            let i = choose|i: int|
                0 <= i < front.len() && (#[trigger] front[i]).key == key && front[i].value == v;
            assert(trace[i].key == key && trace[i].value == v);
        }
        if trace.last().key == key && trace.last().value == v {
            assert(trace[trace.len() - 1].key == key);
        }
    }
    assert(values_of(trace, key) =~= rhs);
}

/// One observation that the budget did not refuse.
proof fn lemma_observed_grows<U: Fn(&str, Unit) -> bool>(
    reads: U,
    a: AccView,
    b: AccView,
    o: Observation,
    key: Seq<char>,
)
    requires
        growing(a),
        observes_one(reads, a, b, o),
        !b.budget.capped,
    ensures
        growing(b),
        !a.budget.capped,
        has_field(a.fields, key) ==> has_field(b.fields, key),
        has_field(b.fields, key) ==> has_field(a.fields, key) || (o.key == key && a.fields.len()
            < a.field_limit),
        o.key == key && !is_error_label(key) && a.fields.len() < a.field_limit ==> has_field(
            b.fields,
            key,
        ),
        has_field(b.fields, key) && !is_error_label(key) ==> kept_values(b, key) == (if o.key
            == key {
            kept_values(a, key).insert(o.value)
        } else {
            kept_values(a, key)
        }),
{
    lemma_observed_keeps(reads, a, b, o);
    let named = with_name(a, o.key);
    if has_field(a.fields, key) {
        let i = choose|i: int| stands_at(a.fields, key, i);
        assert(b.fields[i].label == key);
        assert(stands_at(b.fields, key, i));
    }
    if has_field(b.fields, key) && !has_field(a.fields, key) {
        let i = choose|i: int| stands_at(b.fields, key, i);
        if i < a.fields.len() {
            assert(b.fields[i].label == a.fields[i].label);
            assert(stands_at(a.fields, key, i));
        }
    }
    if admitted(a, o.key) {
        let t = choose|t: Seq<char>| #[trigger]
            detects(reads, o.value, t) && b == observed(a, o, t);
        if !has_field(a.fields, o.key) {
            assert(stands_at(named.fields, o.key, a.fields.len() as int));
            assert forall|i: int| 0 <= i < a.fields.len() implies (#[trigger] a.fields[i]).label
                != o.key by {
                if a.fields[i].label == o.key {
                    assert(stands_at(a.fields, o.key, i));
                }
            }
        }
        let i = field_at(named.fields, o.key);
        assert(stands_at(named.fields, o.key, i));
        let (budget, f) = field_observed(named.budget, named.fields[i], o.value, t, o.source);
        assert(b.fields == named.fields.update(i, f));
        assert(!named.fields[i].frozen);
        assert(!budget.capped);
        assert(f.values == named.fields[i].values.insert(o.value)) by {
            if named.fields[i].values.contains(o.value) {
                assert(named.fields[i].values.insert(o.value) =~= named.fields[i].values);
            }
        }
        assert(!f.frozen);
        assert forall|x: int, y: int| 0 <= x < y < b.fields.len() implies (
        #[trigger] b.fields[x]).label != (#[trigger] b.fields[y]).label by {
            assert(b.fields[x].label == named.fields[x].label);
            assert(b.fields[y].label == named.fields[y].label);
        }
        if has_field(b.fields, key) {
            let j = field_at(b.fields, key);
            assert(stands_at(b.fields, key, j));
            assert(named.fields[j].label == key);
            if o.key == key {
                assert(stands_at(b.fields, key, i));
                assert(j == i);
                if has_field(a.fields, key) {
                    let k = field_at(a.fields, key);
                    assert(stands_at(a.fields, key, k));
                    assert(b.fields[k].label == key);
                    assert(k == i);
                } else {
                    assert(i == a.fields.len());
                    assert(named.fields[i].values == Set::<Seq<char>>::empty());
                }
            } else {
                assert(j != i);
                assert(has_field(a.fields, key));
                let k = field_at(a.fields, key);
                assert(stands_at(a.fields, key, k));
                assert(b.fields[k].label == key);
                assert(k == j);
            }
        }
    } else {
        assert(b == named);
        assert(b.fields == a.fields);
    }
}

/// A name that was observed while there was room is a field.
proof fn lemma_observed_is_field<U: Fn(&str, Unit) -> bool>(
    reads: U,
    a: AccView,
    b: AccView,
    trace: Seq<Observation>,
    key: Seq<char>,
)
    requires
        growing(a),
        observes(reads, a, b, trace),
        !b.budget.capped,
        b.fields.len() < b.field_limit,
        !is_error_label(key),
        exists|i: int| 0 <= i < trace.len() && (#[trigger] trace[i]).key == key,
    ensures
        has_field(b.fields, key),
    decreases trace.len(),
{
    let mid = choose|mid: AccView|
        observes(reads, a, mid, trace.drop_last()) && #[trigger] observes_one(
            reads,
            mid,
            b,
            trace.last(),
        );
    lemma_observed_keeps(reads, mid, b, trace.last());
    lemma_exact(reads, a, mid, trace.drop_last(), key);
    lemma_observed_grows(reads, mid, b, trace.last(), key);
    if trace.last().key != key {
        let i = choose|i: int| 0 <= i < trace.len() && (#[trigger] trace[i]).key == key;
        assert(trace.drop_last()[i].key == key);
        lemma_observed_is_field(reads, a, mid, trace.drop_last(), key);
    }
}

proof fn lemma_exact<U: Fn(&str, Unit) -> bool>(
    reads: U,
    a: AccView,
    b: AccView,
    trace: Seq<Observation>,
    key: Seq<char>,
)
    requires
        growing(a),
        observes(reads, a, b, trace),
        !b.budget.capped,
    ensures
        growing(b),
        !is_error_label(key) && has_field(b.fields, key) ==> kept_values(b, key) == kept_values(
            a,
            key,
        ).union(values_of(trace, key)),
    decreases trace.len(),
{
    if trace.len() == 0 {
        assert(values_of(trace, key) =~= Set::<Seq<char>>::empty());
        assert(kept_values(a, key).union(values_of(trace, key)) =~= kept_values(a, key));
    } else {
        let front = trace.drop_last();
        let o = trace.last();
        let mid = choose|mid: AccView|
            observes(reads, a, mid, front) && #[trigger] observes_one(reads, mid, b, o);
        lemma_observed_keeps(reads, mid, b, o);
        lemma_exact(reads, a, mid, front, key);
        lemma_observed_grows(reads, mid, b, o, key);
        lemma_values_of_last(trace, key);
        if !is_error_label(key) && has_field(b.fields, key) {
            if !has_field(mid.fields, key) {
                if exists|i: int| 0 <= i < front.len() && (#[trigger] front[i]).key == key {
                    lemma_observed_is_field(reads, a, mid, front, key);
                }
                if has_field(a.fields, key) {
                    lemma_fields_stay(reads, a, mid, front, key);
                }
                assert(values_of(front, key) =~= Set::<Seq<char>>::empty());
                assert(kept_values(a, key) == Set::<Seq<char>>::empty());
            }
            let before = kept_values(a, key).union(values_of(front, key));
            assert(kept_values(mid, key) =~= before);
            assert(before.insert(o.value) =~= kept_values(a, key).union(
                values_of(front, key).insert(o.value),
            ));
        }
    }
}

proof fn lemma_fields_stay<U: Fn(&str, Unit) -> bool>(
    reads: U,
    a: AccView,
    b: AccView,
    trace: Seq<Observation>,
    key: Seq<char>,
)
    requires
        observes(reads, a, b, trace),
        has_field(a.fields, key),
    ensures
        has_field(b.fields, key),
    decreases trace.len(),
{
    if trace.len() > 0 {
        let mid = choose|mid: AccView|
            observes(reads, a, mid, trace.drop_last()) && #[trigger] observes_one(
                reads,
                mid,
                b,
                trace.last(),
            );
        lemma_fields_stay(reads, a, mid, trace.drop_last(), key);
        lemma_observed_keeps(reads, mid, b, trace.last());
        let i = choose|i: int| stands_at(mid.fields, key, i);
        assert(b.fields[i].label == key);
        assert(stands_at(b.fields, key, i));
    }
}

/// While the budget refuses nothing, a field holds exactly the distinct values that
/// were observed under its name.
pub proof fn law_values_are_exact_within_the_budget<U: Fn(&str, Unit) -> bool>(
    reads: U,
    field_limit: u32,
    budget: u64,
    b: AccView,
    trace: Seq<Observation>,
    key: Seq<char>,
)
    requires
        observes(reads, empty_acc(field_limit, budget), b, trace),
        !b.budget.capped,
        has_field(b.fields, key),
    ensures
        kept_values(b, key) == values_of(trace, key),
{
    let a = empty_acc(field_limit, budget);
    if is_error_label(key) {
        assert(!has_field(a.fields, key));
        law_error_labels_are_no_fields(reads, a, b, trace, key);
    }
    lemma_exact(reads, a, b, trace, key);
    assert(kept_values(a, key) =~= Set::<Seq<char>>::empty());
    assert(kept_values(a, key).union(values_of(trace, key)) =~= values_of(trace, key));
}

/// The last observation decides a field's type, also where its values have stopped
/// growing.
pub proof fn law_last_observation_decides_the_type<U: Fn(&str, Unit) -> bool>(
    reads: U,
    a: AccView,
    b: AccView,
    o: Observation,
)
    requires
        observes_one(reads, a, b, o),
        admitted(a, o.key),
    ensures
        has_field(b.fields, o.key),
        exists|i: int| #[trigger]
            stands_at(b.fields, o.key, i) && detects(reads, o.value, b.fields[i].field_type),
{
    let named = with_name(a, o.key);
    let t = choose|t: Seq<char>| #[trigger] detects(reads, o.value, t) && b == observed(a, o, t);
    if !has_field(a.fields, o.key) {
        assert(stands_at(named.fields, o.key, a.fields.len() as int));
    }
    let i = field_at(named.fields, o.key);
    assert(stands_at(named.fields, o.key, i));
    assert(stands_at(b.fields, o.key, i));
    assert(b.fields[i].field_type == t);
}

/// Only a JSON observation touches the path. One without a path clears it, one with
/// the same path is free, and a refused one leaves what is stored.
pub proof fn law_only_json_moves_the_path(
    b: RetentionBudget,
    f: FieldView,
    value: Seq<char>,
    t: Seq<char>,
    source: SourceView,
)
    ensures
        ({
            let (after, g) = field_observed(b, f, value, t, source);
            match source {
                SourceView::Json { path: None } => g.json_path is None,
                SourceView::Json { path: Some(p) } => {
                    &&& g.json_path == Some(p) || (g.json_path == f.json_path && after.capped)
                    &&& f.json_path == Some(p) && (f.frozen || f.values.contains(value)) ==> after
                        == b
                },
                _ => g.json_path == f.json_path,
            }
        }),
{
}

/// A frozen field keeps its values, and stays frozen.
pub proof fn law_frozen_values_stand(
    b: RetentionBudget,
    f: FieldView,
    value: Seq<char>,
    t: Seq<char>,
    source: SourceView,
)
    requires
        f.frozen,
    ensures
        field_observed(b, f, value, t, source).1.frozen,
        field_observed(b, f, value, t, source).1.values == f.values,
{
}

/// A parser is named once, in the order the parsers were met.
pub proof fn law_parsers_are_named_once(
    b: RetentionBudget,
    f: FieldView,
    value: Seq<char>,
    t: Seq<char>,
    source: SourceView,
)
    requires
        f.parsers.no_duplicates(),
    ensures
        field_observed(b, f, value, t, source).1.parsers.no_duplicates(),
        f.parsers.is_prefix_of(field_observed(b, f, value, t, source).1.parsers),
        parser_of(source) matches Some(p) ==> field_observed(
            b,
            f,
            value,
            t,
            source,
        ).1.parsers.contains(p),
{
    let g = field_observed(b, f, value, t, source).1;
    if let Some(p) = parser_of(source) {
        if !f.parsers.contains(p) {
            assert(g.parsers == f.parsers.push(p));
            assert(g.parsers[f.parsers.len() as int] == p);
        }
    }
}

/// The answer holds every field once and stands by label.
pub proof fn law_answer_stands_by_label(a: AccView)
    requires
        a.fields.len() <= a.field_limit,
    ensures
        answer(a).to_multiset() == a.fields.map_values(|f: FieldView| shown(f)).to_multiset(),
        forall|i: int, j: int|
            0 <= i < j < answer(a).len() ==> text::text_le(
                (#[trigger] answer(a)[i]).label,
                (#[trigger] answer(a)[j]).label,
            ),
{
    lemma_label_le_preorder();
    let s = a.fields.map_values(|f: FieldView| shown(f));
    order::lemma_stable_sort_permutes(s, label_le());
    order::lemma_stable_sort_ascends(s, label_le());
    assert forall|i: int, j: int| 0 <= i < j < answer(a).len() implies text::text_le(
        (#[trigger] answer(a)[i]).label,
        (#[trigger] answer(a)[j]).label,
    ) by {
        assert(label_le()(answer(a)[i], answer(a)[j]));
    }
}

} // verus!
