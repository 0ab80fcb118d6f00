//! What the answer of field detection tells of the observations, as long as the byte
//! budget refuses nothing.
use vstd::prelude::*;
use crate::detected::{self, AccView, FieldOutView, FieldView, Observation, SourceView, Unit};
use crate::order;
use crate::text;

verus! {

/// The names observed, without the error labels, each once, in the order they were
/// first seen.
pub open spec fn names_of(trace: Seq<Observation>) -> Seq<Seq<char>>
    decreases trace.len(),
{
    if trace.len() == 0 {
        Seq::empty()
    } else {
        let before = names_of(trace.drop_last());
        let key = trace.last().key;
        if detected::is_error_label(key) || before.contains(key) {
            before
        } else {
            before.push(key)
        }
    }
}

/// The names that become fields: the first ones, up to a limit.
pub open spec fn kept_names(trace: Seq<Observation>, limit: u32) -> Seq<Seq<char>> {
    let all = names_of(trace);
    if all.len() <= limit {
        all
    } else {
        all.take(limit as int)
    }
}

/// The parsers that found a name, each once, in the order they were first met.
pub open spec fn parsers_of(trace: Seq<Observation>, key: Seq<char>) -> Seq<Seq<char>>
    decreases trace.len(),
{
    if trace.len() == 0 {
        Seq::empty()
    } else {
        let before = parsers_of(trace.drop_last(), key);
        match detected::parser_of(trace.last().source) {
            Some(p) => if trace.last().key == key && !before.contains(p) {
                before.push(p)
            } else {
                before
            },
            None => before,
        }
    }
}

/// The last value observed under a name.
pub open spec fn last_value(trace: Seq<Observation>, key: Seq<char>) -> Seq<char>
    recommends
        exists|i: int| 0 <= i < trace.len() && (#[trigger] trace[i]).key == key,
    decreases trace.len(),
{
    if trace.len() == 0 || trace.last().key == key {
        trace.last().value
    } else {
        last_value(trace.drop_last(), key)
    }
}

/// The path the JSON parser last brought for a name, or none.
pub open spec fn last_path(trace: Seq<Observation>, key: Seq<char>) -> Option<Seq<Seq<char>>>
    decreases trace.len(),
{
    if trace.len() == 0 {
        None
    } else {
        match trace.last().source {
            SourceView::Json { path } if trace.last().key == key => path,
            _ => last_path(trace.drop_last(), key),
        }
    }
}

/// Whether a field has kept everything that was observed under its name.
pub open spec fn field_told<U: Fn(&str, Unit) -> bool>(
    reads: U,
    trace: Seq<Observation>,
    f: FieldView,
) -> bool {
    &&& f.values == detected::values_of(trace, f.label)
    &&& f.values.finite()
    &&& !f.frozen
    &&& f.parsers == parsers_of(trace, f.label)
    &&& f.json_path == last_path(trace, f.label)
    &&& detected::detects(reads, last_value(trace, f.label), f.field_type)
}

/// Whether the fields are those of the first names, in order, each with everything that
/// was observed under its name.
pub open spec fn fields_told<U: Fn(&str, Unit) -> bool>(
    reads: U,
    trace: Seq<Observation>,
    a: AccView,
) -> bool {
    let kept = kept_names(trace, a.field_limit);
    &&& a.fields.len() == kept.len()
    &&& forall|i: int|
        0 <= i < kept.len() ==> (#[trigger] a.fields[i]).label == kept[i] && field_told(
            reads,
            trace,
            a.fields[i],
        )
}

/// Whether a name was observed.
pub open spec fn was_observed(trace: Seq<Observation>, key: Seq<char>) -> bool {
    exists|i: int| 0 <= i < trace.len() && (#[trigger] trace[i]).key == key
}

/// The names observed are distinct, and they are those of the observations.
pub proof fn lemma_names(trace: Seq<Observation>)
    ensures
        names_of(trace).no_duplicates(),
        forall|key: Seq<char>|
            #![trigger names_of(trace).contains(key)]
            #![trigger was_observed(trace, key)]
            names_of(trace).contains(key) <==> !detected::is_error_label(key) && was_observed(
                trace,
                key,
            ),
    decreases trace.len(),
{
    if trace.len() > 0 {
        let front = trace.drop_last();
        let o = trace.last();
        let before = names_of(front);
        lemma_names(front);
        assert forall|key: Seq<char>| names_of(trace).contains(key) <==> !detected::is_error_label(
            key,
        ) && was_observed(trace, key) by {
            if was_observed(front, key) {
                let i = choose|i: int| 0 <= i < front.len() && (#[trigger] front[i]).key == key;
                assert(trace[i].key == key);
            }
            if was_observed(trace, key) && o.key != key {
                let i = choose|i: int| 0 <= i < trace.len() && (#[trigger] trace[i]).key == key;
                assert(front[i].key == key);
            }
            assert(trace[trace.len() - 1].key == o.key);
            if before.contains(key) {
                let i = choose|i: int| 0 <= i < before.len() && before[i] == key;
                assert(names_of(trace)[i] == key);
            }
            if names_of(trace).len() > before.len() {
                assert(names_of(trace)[before.len() as int] == o.key);
                if names_of(trace).contains(key) && key != o.key {
                    let i = choose|i: int|
                        0 <= i < names_of(trace).len() && names_of(trace)[i] == key;
                    assert(before[i] == key);
                }
            }
        }
    }
}

/// Nothing was observed under a name that was not observed.
proof fn lemma_unseen(trace: Seq<Observation>, key: Seq<char>)
    requires
        !was_observed(trace, key),
    ensures
        detected::values_of(trace, key) == Set::<Seq<char>>::empty(),
        parsers_of(trace, key) == Seq::<Seq<char>>::empty(),
        last_path(trace, key) is None,
    decreases trace.len(),
{
    assert(detected::values_of(trace, key) =~= Set::<Seq<char>>::empty());
    if trace.len() > 0 {
        let front = trace.drop_last();
        assert(trace[trace.len() - 1].key != key);
        if was_observed(front, key) {
            let i = choose|i: int| 0 <= i < front.len() && (#[trigger] front[i]).key == key;
            assert(trace[i].key == key);
        }
        lemma_unseen(front, key);
    }
}

/// A field that has kept everything keeps one more observation, of its name or of
/// another.
proof fn lemma_field_told_next<U: Fn(&str, Unit) -> bool>(
    reads: U,
    trace: Seq<Observation>,
    b: detected::RetentionBudget,
    f: FieldView,
    t: Seq<char>,
)
    requires
        trace.len() > 0,
        f.values == detected::values_of(trace.drop_last(), f.label),
        f.values.finite(),
        !f.frozen,
        f.parsers == parsers_of(trace.drop_last(), f.label),
        f.json_path == last_path(trace.drop_last(), f.label),
        trace.last().key == f.label,
        detected::detects(reads, trace.last().value, t),
        !detected::field_observed(b, f, trace.last().value, t, trace.last().source).0.capped,
    ensures
        field_told(
            reads,
            trace,
            detected::field_observed(b, f, trace.last().value, t, trace.last().source).1,
        ),
        detected::field_observed(b, f, trace.last().value, t, trace.last().source).1.label
            == f.label,
{
    let o = trace.last();
    detected::lemma_values_of_last(trace, f.label);
    if f.values.contains(o.value) {
        assert(f.values.insert(o.value) =~= f.values);
    }
}

proof fn lemma_field_told_other<U: Fn(&str, Unit) -> bool>(
    reads: U,
    trace: Seq<Observation>,
    f: FieldView,
)
    requires
        trace.len() > 0,
        field_told(reads, trace.drop_last(), f),
        trace.last().key != f.label,
    ensures
        field_told(reads, trace, f),
{
    detected::lemma_values_of_last(trace, f.label);
}

/// One more observation that the budget does not refuse.
proof fn lemma_told_next<U: Fn(&str, Unit) -> bool>(
    reads: U,
    trace: Seq<Observation>,
    a: AccView,
    b: AccView,
)
    requires
        trace.len() > 0,
        fields_told(reads, trace.drop_last(), a),
        detected::observes_one(reads, a, b, trace.last()),
        !b.budget.capped,
    ensures
        fields_told(reads, trace, b),
{
    let front = trace.drop_last();
    let o = trace.last();
    let limit = a.field_limit;
    let before = names_of(front);
    let old_kept = kept_names(front, limit);
    let kept = kept_names(trace, limit);
    lemma_names(front);
    let named = detected::with_name(a, o.key);
    if detected::has_field(a.fields, o.key) {
        let i = choose|i: int| detected::stands_at(a.fields, o.key, i);
        assert(old_kept[i] == o.key);
        assert(before[i] == o.key);
        assert(before.contains(o.key));
    } else if before.contains(o.key) {
        let i = choose|i: int| 0 <= i < before.len() && before[i] == o.key;
        if i < old_kept.len() {
            assert(detected::stands_at(a.fields, o.key, i));
        }
    }
    if detected::admitted(a, o.key) {
        let t = choose|t: Seq<char>| #[trigger]
            detected::detects(reads, o.value, t) && b == detected::observed(a, o, t);
        if !detected::has_field(a.fields, o.key) {
            assert(detected::stands_at(named.fields, o.key, a.fields.len() as int));
            lemma_unseen(front, o.key);
            assert(kept =~= old_kept.push(o.key));
        } else {
            assert(kept == old_kept);
        }
        let i = detected::field_at(named.fields, o.key);
        assert(detected::stands_at(named.fields, o.key, i));
        if i < a.fields.len() {
            assert(a.fields[i].label == old_kept[i]);
            assert(field_told(reads, front, a.fields[i]));
        }
        lemma_field_told_next(reads, trace, named.budget, named.fields[i], t);
        assert forall|j: int| 0 <= j < kept.len() implies (#[trigger] b.fields[j]).label == kept[j]
            && field_told(reads, trace, b.fields[j]) by {
            if j != i {
                assert(j < a.fields.len()) by {
                    if j == a.fields.len() {
                        assert(i < a.fields.len());
                        assert(detected::stands_at(a.fields, o.key, i));
                    }
                }
                assert(b.fields[j] == a.fields[j]);
                assert(a.fields[j].label == old_kept[j]);
                if a.fields[j].label == o.key {
                    if i < a.fields.len() {
                        assert(old_kept[i] == old_kept[j]);
                        assert(before[i] == before[j]);
                    } else {
                        assert(detected::stands_at(a.fields, o.key, j));
                    }
                }
                lemma_field_told_other(reads, trace, a.fields[j]);
            }
        }
    } else {
        assert(b.fields == a.fields);
        assert(kept =~= old_kept);
        assert forall|j: int| 0 <= j < kept.len() implies (#[trigger] b.fields[j]).label == kept[j]
            && field_told(reads, trace, b.fields[j]) by {
            assert(a.fields[j].label == old_kept[j]);
            if a.fields[j].label == o.key {
                assert(detected::stands_at(a.fields, o.key, j));
                assert(before[j] == o.key);
                assert(before.contains(o.key));
            }
            lemma_field_told_other(reads, trace, a.fields[j]);
        }
    }
}

/// While the budget refuses nothing, the fields are the first names seen, up to the
/// limit, and each has kept everything that was observed under its name.
pub proof fn law_fields_tell_what_was_observed<U: Fn(&str, Unit) -> bool>(
    reads: U,
    field_limit: u32,
    budget: u64,
    b: AccView,
    trace: Seq<Observation>,
)
    requires
        detected::observes(reads, detected::empty_acc(field_limit, budget), b, trace),
        !b.budget.capped,
    ensures
        b.field_limit == field_limit,
        fields_told(reads, trace, b),
    decreases trace.len(),
{
    let a = detected::empty_acc(field_limit, budget);
    if trace.len() > 0 {
        let mid = choose|mid: AccView|
            detected::observes(reads, a, mid, trace.drop_last()) && #[trigger]
            detected::observes_one(reads, mid, b, trace.last());
        detected::lemma_observed_keeps(reads, mid, b, trace.last());
        law_fields_tell_what_was_observed(reads, field_limit, budget, mid, trace.drop_last());
        lemma_told_next(reads, trace, mid, b);
    }
}

/// Whether an answered field tells what was observed under its name: how many distinct
/// values, the type of the last one, the parsers that found it, and the last path.
pub open spec fn out_told<U: Fn(&str, Unit) -> bool>(
    reads: U,
    trace: Seq<Observation>,
    out: FieldOutView,
) -> bool {
    &&& out.cardinality == detected::values_of(trace, out.label).len()
    &&& detected::values_of(trace, out.label).finite()
    &&& detected::detects(reads, last_value(trace, out.label), out.field_type)
    &&& out.parsers == parsers_of(trace, out.label)
    &&& out.json_path == last_path(trace, out.label)
}

/// While the budget refuses nothing, the answer stands strictly by label, its labels are
/// exactly the first names seen, up to the limit, and each field tells everything that
/// was observed under its name.
pub proof fn law_answer_tells_what_was_observed<U: Fn(&str, Unit) -> bool>(
    reads: U,
    field_limit: u32,
    budget: u64,
    b: AccView,
    trace: Seq<Observation>,
)
    requires
        detected::observes(reads, detected::empty_acc(field_limit, budget), b, trace),
        !b.budget.capped,
    ensures
        forall|i: int, j: int|
            0 <= i < j < detected::answer(b).len() ==> {
                &&& text::text_le(
                    (#[trigger] detected::answer(b)[i]).label,
                    (#[trigger] detected::answer(b)[j]).label,
                )
                &&& detected::answer(b)[i].label != detected::answer(b)[j].label
            },
        detected::answer(b).len() == kept_names(trace, field_limit).len(),
        forall|i: int|
            0 <= i < detected::answer(b).len() ==> kept_names(trace, field_limit).contains(
                (#[trigger] detected::answer(b)[i]).label,
            ) && out_told(reads, trace, detected::answer(b)[i]),
        forall|key: Seq<char>|
            kept_names(trace, field_limit).contains(key) ==> exists|i: int|
                0 <= i < detected::answer(b).len() && (#[trigger] detected::answer(b)[i]).label
                    == key,
{
    let shown = b.fields.map_values(|f: FieldView| detected::shown(f));
    let le = detected::label_le();
    let out = detected::answer(b);
    let kept = kept_names(trace, field_limit);
    let places = order::stable_order(shown, le);
    law_fields_tell_what_was_observed(reads, field_limit, budget, b, trace);
    lemma_names(trace);
    assert(kept.no_duplicates());
    detected::lemma_label_le_preorder();
    order::lemma_stable_order(shown, le);
    order::lemma_stable_sort_permutes(shown, le);
    order::lemma_stable_sort_ascends(shown, le);
    assert forall|i: int| 0 <= i < out.len() implies {
        &&& #[trigger] out[i] == shown[places[i] as int]
        &&& out[i].label == kept[places[i] as int]
        &&& out_told(reads, trace, out[i])
    } by {
        let k = places[i] as int;
        assert(0 <= k < b.fields.len());
        assert(b.fields[k].label == kept[k]);
    }
    assert forall|i: int, j: int| 0 <= i < j < out.len() implies text::text_le(
        (#[trigger] out[i]).label,
        (#[trigger] out[j]).label,
    ) && out[i].label != out[j].label by {
        assert(le(out[i], out[j]));
        assert(places[i] != places[j]);
    }
    assert forall|i: int| 0 <= i < out.len() implies kept.contains((#[trigger] out[i]).label) by {
        assert(kept[places[i] as int] == out[i].label);
    }
    assert forall|key: Seq<char>| kept.contains(key) implies exists|i: int|
        0 <= i < out.len() && (#[trigger] out[i]).label == key by {
        let k = choose|k: int| 0 <= k < kept.len() && kept[k] == key;
        assert(places.contains(k as usize));
        let i = choose|i: int| 0 <= i < places.len() && places[i] == k as usize;
        assert(out[i].label == key);
    }
}

} // verus!
