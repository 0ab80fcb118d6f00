//! What field detection satisfies: which pairs of a row are observed, what a text is taken
//! for, and what the budget lets in.
use vstd::prelude::*;
use crate::charge;
use crate::detected::{
    self, AccView, FieldView, Observation, ParserRun, RetentionBudget, SourceView, Unit,
};
use crate::detected_probe::{self, SampledRow, SurvivingRow};
use crate::error::{ErrorView, RowBudgetExceeded};
use crate::literal;
use crate::probe;
use crate::range_model;
use crate::text::{self, LabelSet, PairView};

verus! {

// ---------------------------------------------------------------------
// What a row adds.
// ---------------------------------------------------------------------

/// One more label is added to the observed ones, after them, where no base label has its
/// name, and passed over where one has.
pub proof fn law_a_label_is_added_by_its_name(
    labels: Seq<PairView>,
    p: PairView,
    base: Seq<PairView>,
)
    ensures
        detected_probe::added(Seq::empty(), base) == Seq::<PairView>::empty(),
        (forall|i: int| 0 <= i < base.len() ==> (#[trigger] base[i]).0 != p.0)
            ==> detected_probe::added(labels.push(p), base) == detected_probe::added(
            labels,
            base,
        ).push(p),
        (exists|i: int| 0 <= i < base.len() && (#[trigger] base[i]).0 == p.0)
            ==> detected_probe::added(labels.push(p), base) == detected_probe::added(labels, base),
{
    reveal_with_fuel(Seq::filter, 2);
    assert(labels.push(p).drop_last() =~= labels);
}

/// The labels a row adds are its own, have a name that no base label has, and are all of
/// those.
pub proof fn law_added_labels_have_new_names(labels: Seq<PairView>, base: Seq<PairView>)
    ensures
        forall|k: int, i: int|
            0 <= k < detected_probe::added(labels, base).len() && 0 <= i < base.len() ==> (
            #[trigger] detected_probe::added(labels, base)[k]).0 != (#[trigger] base[i]).0,
        forall|k: int|
            0 <= k < detected_probe::added(labels, base).len() ==> labels.contains(
                #[trigger] detected_probe::added(labels, base)[k],
            ),
        forall|j: int|
            0 <= j < labels.len() && (forall|i: int|
                0 <= i < base.len() ==> (#[trigger] base[i]).0 != labels[j].0)
                ==> detected_probe::added(labels, base).contains(#[trigger] labels[j]),
    decreases labels.len(),
{
    let all = detected_probe::added(labels, base);
    if labels.len() == 0 {
        law_a_label_is_added_by_its_name(labels, (Seq::empty(), Seq::empty()), base);
        assert(labels =~= Seq::empty());
    } else {
        let front = labels.drop_last();
        let before = detected_probe::added(front, base);
        law_a_label_is_added_by_its_name(front, labels.last(), base);
        assert(front.push(labels.last()) =~= labels);
        law_added_labels_have_new_names(front, base);
        assert forall|k: int| 0 <= k < all.len() implies labels.contains(#[trigger] all[k]) by {
            if k < before.len() {
                assert(all[k] == before[k]);
                let j = choose|j: int| 0 <= j < front.len() && front[j] == before[k];
                assert(labels[j] == all[k]);
            } else {
                assert(labels[labels.len() - 1] == all[k]);
            }
        }
        assert forall|k: int, i: int| 0 <= k < all.len() && 0 <= i < base.len() implies (
        #[trigger] all[k]).0 != (#[trigger] base[i]).0 by {
            if k < before.len() {
                assert(all[k] == before[k]);
            }
        }
        assert forall|j: int|
            0 <= j < labels.len() && (forall|i: int|
                0 <= i < base.len() ==> (#[trigger] base[i]).0
                    != labels[j].0) implies all.contains(#[trigger] labels[j]) by {
            if j < front.len() {
                assert(front[j] == labels[j]);
                let k = choose|k: int| 0 <= k < before.len() && before[k] == front[j];
                assert(all[k] == labels[j]);
            } else {
                assert(all[all.len() - 1] == labels[j]);
            }
        }
    }
}

/// Whether a stretch of observations is some pairs, one by one, from one source.
pub open spec fn tells_pairs(
    trace: Seq<Observation>,
    from: int,
    pairs: Seq<PairView>,
    source: SourceView,
) -> bool {
    forall|i: int|
        0 <= i < pairs.len() ==> {
            let o = #[trigger] trace[from + i];
            o.key == pairs[i].0 && o.value == pairs[i].1 && o.source == source
        }
}

/// A row of a known stream that the pipeline kept is observed in this order: its metadata,
/// then the labels its pipeline made whose names it did not start from, both without a
/// parser's name, then its pairs as JSON, each with its own path, where the JSON parser
/// takes the line, else as logfmt where that does. What the metadata named is not taken for
/// made by the pipeline.
pub proof fn law_rows_are_observed_in_order(
    row: SampledRow,
    live: SurvivingRow,
    streams: Map<u64, LabelSet>,
)
    requires
        streams.contains_key(row.fingerprint),
        row.run == Ok::<Option<SurvivingRow>, RowBudgetExceeded>(Some(live)),
    ensures
        ({
            let f = detected_probe::fed(row, streams);
            let made = text::labels_view(live.labels@);
            let meta = match row.metadata {
                Some(m) => text::labels_view(m.pairs@),
                None => Seq::empty(),
            };
            let fresh = match row.metadata {
                Some(m) => detected_probe::added(made, text::labels_view(m.labels@)),
                None => detected_probe::added(
                    made,
                    text::labels_view(streams[row.fingerprint]@),
                ),
            };
            let at = meta.len() + fresh.len();
            let json = live.json matches Ok(run) && run.kept && !run.has_err;
            let logfmt = live.logfmt matches Ok(run) && run.kept && !run.has_err;
            &&& tells_pairs(f.trace, 0, meta, SourceView::Unattributed)
            &&& tells_pairs(f.trace, meta.len() as int, fresh, SourceView::Unattributed)
            &&& live.json matches Err(e) ==> {
                &&& f.result == Err::<bool, ErrorView>(range_model::budget_error(e))
                &&& f.trace.len() == at
            }
            &&& json ==> {
                let run = live.json->Ok_0;
                &&& f.result == Ok::<bool, ErrorView>(true)
                &&& f.trace.len() == at + run.labels@.len()
                &&& forall|i: int|
                    0 <= i < run.labels@.len() ==> {
                        let o = #[trigger] f.trace[at + i];
                        &&& o.key == run.labels@[i].0@
                        &&& o.value == run.labels@[i].1@
                        &&& o.source is Json
                        &&& i < run.paths@.len() && run.paths@[i] is Some ==> {
                            let path = run.paths@[i]->0;
                            o.source->path == Some(path@.map_values(|part: String| part@))
                        }
                        &&& i >= run.paths@.len() || run.paths@[i] is None ==> o.source->path
                            is None
                    }
            }
            &&& live.json is Ok && !json && live.logfmt is Err ==> {
                &&& f.result == Err::<bool, ErrorView>(
                    range_model::budget_error(live.logfmt->Err_0),
                )
                &&& f.trace.len() == at
            }
            &&& live.json is Ok && !json && logfmt ==> {
                let pairs = text::labels_view((live.logfmt->Ok_0).labels@);
                &&& f.result == Ok::<bool, ErrorView>(true)
                &&& f.trace.len() == at + pairs.len()
                &&& tells_pairs(f.trace, at as int, pairs, SourceView::Logfmt)
            }
            &&& live.json is Ok && !json && live.logfmt is Ok && !logfmt ==> {
                &&& f.result == Ok::<bool, ErrorView>(true)
                &&& f.trace.len() == at
            }
        }),
{
    reveal_strlit("json");
    reveal_strlit("logfmt");
    assert("json"@.len() != "logfmt"@.len());
}

/// A line is JSON where the JSON parser keeps it without an error of its own, whatever
/// logfmt would say; only else logfmt is asked. A breached row budget of a parser that is
/// asked is the outcome.
pub proof fn law_json_goes_before_logfmt(
    json: Result<ParserRun, RowBudgetExceeded>,
    logfmt: Result<ParserRun, RowBudgetExceeded>,
    other: Result<ParserRun, RowBudgetExceeded>,
)
    ensures
        json is Err || (json matches Ok(run) && run.kept && !run.has_err)
            ==> detected::auto_parsed(json, logfmt) == detected::auto_parsed(json, other),
        json matches Err(e) ==> detected::auto_parsed(json, logfmt) == Err::<
            Option<(Seq<char>, ParserRun)>,
            RowBudgetExceeded,
        >(e),
        json matches Ok(run) ==> run.kept && !run.has_err ==> detected::auto_parsed(json, logfmt)
            == Ok::<Option<(Seq<char>, ParserRun)>, RowBudgetExceeded>(Some(("json"@, run))),
        json matches Ok(run) ==> (!run.kept || run.has_err) ==> match logfmt {
            Err(e) => detected::auto_parsed(json, logfmt) == Err::<
                Option<(Seq<char>, ParserRun)>,
                RowBudgetExceeded,
            >(e),
            Ok(line) => detected::auto_parsed(json, logfmt) == Ok::<
                Option<(Seq<char>, ParserRun)>,
                RowBudgetExceeded,
            >(
                if line.kept && !line.has_err {
                    Some(("logfmt"@, line))
                } else {
                    None
                },
            ),
        },
{
}

// ---------------------------------------------------------------------
// What a text is taken for.
// ---------------------------------------------------------------------

/// A letter in upper case.
pub open spec fn raised(c: char) -> char {
    if 'a' <= c <= 'z' {
        ((c as int) - 32) as char
    } else {
        c
    }
}

/// A word in upper case.
pub open spec fn upper_case(w: Seq<char>) -> Seq<char> {
    w.map_values(|c: char| raised(c))
}

/// A word with its first letter in upper case.
pub open spec fn capitalised(w: Seq<char>) -> Seq<char> {
    w.update(0, raised(w[0]))
}

/// Whether a text is a word as it is, in upper case, or capitalised.
pub open spec fn writes(v: Seq<char>, w: Seq<char>) -> bool {
    v == w || v == upper_case(w) || v == capitalised(w)
}

/// A truth value is the word `true` or `false`, or its first letter, in lower case, in upper
/// case, or capitalised; nothing else is one.
pub proof fn law_truth_values_are_written_in_three_cases(v: Seq<char>)
    ensures
        detected::spells_boolean(v) <==> writes(v, seq!['t', 'r', 'u', 'e']) || writes(
            v,
            seq!['f', 'a', 'l', 's', 'e'],
        ) || writes(v, seq!['t']) || writes(v, seq!['f']),
{
    reveal_strlit("t");
    reveal_strlit("T");
    reveal_strlit("TRUE");
    reveal_strlit("true");
    reveal_strlit("True");
    reveal_strlit("f");
    reveal_strlit("F");
    reveal_strlit("FALSE");
    reveal_strlit("false");
    reveal_strlit("False");
    let t = seq!['t', 'r', 'u', 'e'];
    let f = seq!['f', 'a', 'l', 's', 'e'];
    assert("t"@ =~= seq!['t']);
    assert("f"@ =~= seq!['f']);
    assert("true"@ =~= t);
    assert("false"@ =~= f);
    assert("TRUE"@ =~= upper_case(t));
    assert("FALSE"@ =~= upper_case(f));
    assert("True"@ =~= capitalised(t));
    assert("False"@ =~= capitalised(f));
    assert("T"@ =~= upper_case(seq!['t']));
    assert("F"@ =~= upper_case(seq!['f']));
    assert("T"@ =~= capitalised(seq!['t']));
    assert("F"@ =~= capitalised(seq!['f']));
}

/// What a text is taken for goes by the first that fits: an integer, then a floating-point
/// number, then a truth value, then what the readers of units say: a duration where that
/// reader takes it, bytes where only that one does, else a plain string.
pub proof fn law_types_are_tried_in_order<U: Fn(&str, Unit) -> bool>(
    reads: U,
    v: Seq<char>,
    t: Seq<char>,
    duration: bool,
    bytes: bool,
)
    requires
        detected::detects(reads, v, t),
        forall|s: &str, r: bool|
            s@ == v && #[trigger] call_ensures(reads, (s, Unit::Duration), r) ==> r == duration,
        forall|s: &str, r: bool|
            s@ == v && #[trigger] call_ensures(reads, (s, Unit::Bytes), r) ==> r == bytes,
    ensures
        ({
            let whole = literal::spells_integer(v);
            let float = !whole && literal::spells_float(v);
            let boolean = !whole && !float && detected::spells_boolean(v);
            let plain = !whole && !float && !boolean;
            &&& whole ==> t == "int"@
            &&& float ==> t == "float"@
            &&& boolean ==> t == "boolean"@
            &&& plain && duration ==> t == "duration"@
            &&& plain && !duration && bytes ==> t == "bytes"@
            &&& plain && !duration && !bytes ==> t == "string"@
        }),
{
}

// ---------------------------------------------------------------------
// Spelled numbers.
// ---------------------------------------------------------------------

/// A sign in front makes a spelled integer of digits that spell one, and of nothing that
/// has a sign already; one digit more spells one only of what was digits before.
pub proof fn law_integers_are_digits_with_a_sign(s: Seq<char>)
    requires
        s.len() > 0,
        s[0] != '+',
        s[0] != '-',
    ensures
        literal::spells_integer(seq!['+'] + s) == literal::spells_integer(s),
        literal::spells_integer(s) ==> literal::spells_integer(seq!['-'] + s),
        literal::spells_integer(s) ==> forall|i: int|
            0 <= i < s.len() ==> '0' <= #[trigger] s[i] <= '9',
        !literal::spells_integer(seq!['+', '+'] + s),
        !literal::spells_integer(seq!['-', '-'] + s),
        !literal::spells_integer(seq!['-', '+'] + s),
        !literal::spells_integer(seq!['+', '-'] + s),
        !literal::spells_integer(seq!['+']),
        !literal::spells_integer(seq!['-']),
        !literal::spells_integer(Seq::empty()),
{
    assert((seq!['+'] + s).skip(1) =~= s);
    assert((seq!['-'] + s).skip(1) =~= s);
    let a = (seq!['+', '+'] + s).skip(1);
    let b = (seq!['-', '-'] + s).skip(1);
    let c = (seq!['-', '+'] + s).skip(1);
    let d = (seq!['+', '-'] + s).skip(1);
    assert(a[0] == '+' && b[0] == '-' && c[0] == '+' && d[0] == '-');
    assert(!literal::is_digit(a[0]));
    assert(!literal::is_digit(b[0]));
    assert(!literal::is_digit(c[0]));
    assert(!literal::is_digit(d[0]));
}

/// Ten times what is written so far, and the digit: how far digits reach.
pub proof fn law_integers_are_bounded(s: Seq<char>, n: int)
    requires
        s.len() > 0,
        forall|i: int| 0 <= i < s.len() ==> '0' <= #[trigger] s[i] <= '9',
        n == s.fold_left(0int, |n: int, c: char| 10 * n + (c as int - '0' as int)),
    ensures
        literal::spells_integer(s) <==> n <= 9_223_372_036_854_775_807,
        literal::spells_integer(seq!['-'] + s) <==> n <= 9_223_372_036_854_775_808,
{
    assert((seq!['-'] + s).skip(1) =~= s);
    assert(s[0] != '-' && s[0] != '+');
    lemma_digits_fold(s);
    assert(literal::all_digits(s)) by {
        assert forall|i: int| 0 <= i < s.len() implies literal::is_digit(#[trigger] s[i]) by {}
    }
}

proof fn lemma_digits_fold(s: Seq<char>)
    ensures
        literal::digits_value(s) == s.fold_left(
            0int,
            |n: int, c: char| 10 * n + (c as int - '0' as int),
        ),
    decreases s.len(),
{
    if s.len() > 0 {
        lemma_digits_fold(s.drop_last());
    }
}

/// Every spelled integer spells a floating-point number too, and so does every run of
/// digits with a point before, among or behind them, with an exponent or without; a point
/// or an exponent alone does not.
pub proof fn law_floats_are_digits_with_a_point(a: Seq<char>, b: Seq<char>, e: Seq<char>)
    requires
        forall|i: int| 0 <= i < a.len() ==> '0' <= #[trigger] a[i] <= '9',
        forall|i: int| 0 <= i < b.len() ==> '0' <= #[trigger] b[i] <= '9',
        forall|i: int| 0 <= i < e.len() ==> '0' <= #[trigger] e[i] <= '9',
        a.len() + b.len() > 0,
        e.len() > 0,
    ensures
        a.len() > 0 ==> literal::spells_float(a),
        literal::spells_float(a + seq!['.'] + b),
        literal::spells_float(a + seq!['.'] + b + seq!['e'] + e),
        literal::spells_float(a + seq!['.'] + b + seq!['E'] + e),
        literal::spells_float(a + seq!['.'] + b + seq!['e', '-'] + e),
        literal::spells_float(a + seq!['.'] + b + seq!['e', '+'] + e),
{
    let m = a + seq!['.'] + b;
    assert(literal::is_mantissa(m)) by {
        assert(m[a.len() as int] == '.');
        assert(m.take(a.len() as int) =~= a);
        assert(m.skip(a.len() as int + 1) =~= b);
    }
    assert(m[0] != '+' && m[0] != '-') by {
        if a.len() > 0 {
            assert(m[0] == a[0]);
        }
    }
    if a.len() > 0 {
        assert(a[0] != '+' && a[0] != '-');
        assert(a.take(a.len() as int) =~= a);
        assert(literal::is_mantissa(a.take(a.len() as int)));
    }
    assert(m.take(m.len() as int) =~= m);
    assert(literal::is_mantissa(m.take(m.len() as int)));
    lemma_with_exponent(m, seq!['e'], e);
    lemma_with_exponent(m, seq!['E'], e);
    lemma_with_exponent(m, seq!['e', '-'], e);
    lemma_with_exponent(m, seq!['e', '+'], e);
}

proof fn lemma_with_exponent(m: Seq<char>, letter: Seq<char>, e: Seq<char>)
    requires
        literal::is_mantissa(m),
        m.len() > 0,
        m[0] != '+',
        m[0] != '-',
        e.len() > 0,
        literal::all_digits(e),
        letter =~= seq!['e'] || letter =~= seq!['E'] || letter =~= seq!['e', '-'] || letter
            =~= seq!['e', '+'],
    ensures
        literal::spells_float(m + letter + e),
{
    let s = m + letter + e;
    let k = m.len() as int;
    assert(s[0] == m[0]);
    assert(s.take(k) =~= m);
    let x = s.skip(k);
    assert(x =~= letter + e);
    if letter.len() == 1 {
        assert(x.skip(1) =~= e);
        assert(literal::is_digit(e[0]));
    } else {
        assert(x.skip(1)[0] == letter[1]);
        assert(x.skip(1).skip(1) =~= e);
    }
    assert(literal::is_mantissa(s.take(k)) && literal::is_exponent(s.skip(k)));
}

/// A sign in front changes nothing of what spells a floating-point number, and what does
/// begins with a digit, a point, a sign, or the letter of a word.
pub proof fn law_floats_take_a_sign(s: Seq<char>)
    requires
        s.len() > 0 ==> s[0] != '+' && s[0] != '-',
    ensures
        literal::spells_float(seq!['+'] + s) == literal::spells_float(s),
        literal::spells_float(seq!['-'] + s) == literal::spells_float(s),
        literal::spells_float(s) ==> s.len() > 0 && ('0' <= s[0] <= '9' || s[0] == '.' || s[0]
            == 'i' || s[0] == 'I' || s[0] == 'n' || s[0] == 'N'),
        literal::spells_integer(s) ==> literal::spells_float(s),
{
    assert((seq!['+'] + s).skip(1) =~= s);
    assert((seq!['-'] + s).skip(1) =~= s);
    if literal::spells_float(s) {
        if literal::is_word(s, seq!['i', 'n', 'f']) {
            assert(literal::lowered(s[0]) == 'i');
        } else if literal::is_word(s, seq!['i', 'n', 'f', 'i', 'n', 'i', 't', 'y']) {
            assert(literal::lowered(s[0]) == 'i');
        } else if literal::is_word(s, seq!['n', 'a', 'n']) {
            assert(literal::lowered(s[0]) == 'n');
        } else {
            let k = choose|k: int|
                0 <= k <= s.len() && #[trigger] literal::is_mantissa(s.take(k)) && (k == s.len()
                    || literal::is_exponent(s.skip(k)));
            let m = s.take(k);
            assert(m[0] == s[0]);
            if m.len() > 0 && literal::all_digits(m) {
                assert(literal::is_digit(m[0]));
            } else {
                let d = choose|d: int|
                    0 <= d < m.len() && #[trigger] m[d] == '.' && literal::all_digits(m.take(d))
                        && literal::all_digits(m.skip(d + 1));
                if d > 0 {
                    assert(literal::is_digit(m.take(d)[0]));
                }
            }
        }
    }
    if literal::spells_integer(s) {
        assert(s.take(s.len() as int) =~= s);
        assert(literal::is_mantissa(s.take(s.len() as int)));
    }
}

/// The words for what no digits spell are read in either case.
pub proof fn law_float_words_ignore_case(s: Seq<char>, t: Seq<char>)
    requires
        s.len() == t.len(),
        forall|i: int| 0 <= i < s.len() ==> (#[trigger] t[i] == s[i] || t[i] == raised(s[i])),
        s =~= seq!['i', 'n', 'f'] || s =~= seq!['n', 'a', 'n'] || s =~= seq![
            'i',
            'n',
            'f',
            'i',
            'n',
            'i',
            't',
            'y',
        ],
    ensures
        literal::spells_float(t),
{
    assert(t[0] == s[0] || t[0] == raised(s[0]));
    assert forall|i: int| 0 <= i < t.len() implies literal::lowered(#[trigger] t[i]) == s[i] by {
        assert(t[i] == s[i] || t[i] == raised(s[i]));
    }
    assert(literal::is_word(t, s));
}

// ---------------------------------------------------------------------
// What the budget lets in.
// ---------------------------------------------------------------------

/// A charge fits where it and what is charged already are within the budget. One that fits
/// is charged in full, and one that does not leaves the charges as they were.
pub proof fn law_charges_add_up(b: RetentionBudget, n: u64, m: u64)
    requires
        b.wf(),
        b.budget < u64::MAX,
    ensures
        b.fits(n) <==> b.charged + n <= b.budget,
        b.charged + n <= b.budget ==> {
            &&& b.after(n).charged == b.charged + n
            &&& b.after(n).peak == b.charged + n
            &&& b.after(n).capped == b.capped
        },
        b.charged + n > b.budget ==> b.after(n).charged == b.charged && b.after(n).capped,
        b.after(n).budget == b.budget,
        b.charged + n + m <= b.budget ==> b.after(n).after(m).charged == b.charged + n + m,
{
}

/// Keeping a text costs more than the text: its bytes and what holds it. A longer name,
/// value or path never costs less.
pub proof fn law_kept_texts_cost_their_bytes(s: Seq<char>, t: Seq<char>)
    requires
        text::byte_count(s) <= text::byte_count(t),
        12 * text::byte_count(t) <= u64::MAX,
        vstd::layout::size_of::<(String, detected::FieldState)>() <= 0x1_0000,
        vstd::layout::size_of::<String>() <= 0x1_0000,
        vstd::layout::size_of::<&'static str>() <= 0x1_0000,
    ensures
        detected::value_cost(s) >= 2 * text::byte_count(s),
        detected::value_cost(s) >= 32 + 8 * vstd::layout::size_of::<String>(),
        detected::value_cost(s) <= detected::value_cost(t),
        detected::name_cost(s) >= 6 * text::byte_count(s) || detected::name_cost(s) == u64::MAX,
        detected::name_cost(s) >= 3 * 32 + 32 + 8 * vstd::layout::size_of::<
            (String, detected::FieldState),
        >(),
        detected::name_cost(s) <= detected::name_cost(t),
{
}

/// A new value is kept and its type with it, at its cost; where the budget refuses it, the
/// value set stops growing there, and only the type moves. A value that is kept already, or
/// comes after that, costs nothing.
pub proof fn law_new_values_are_paid_for(
    b: RetentionBudget,
    f: FieldView,
    value: Seq<char>,
    t: Seq<char>,
    source: SourceView,
)
    requires
        b.wf(),
        b.budget < u64::MAX,
        !(source is Json),
    ensures
        ({
            let (after, g) = detected::field_observed(b, f, value, t, source);
            let cost = detected::value_cost(value);
            &&& g.field_type == t
            &&& g.label == f.label
            &&& f.frozen || f.values.contains(value) ==> {
                &&& after == b
                &&& g.values == f.values
                &&& g.frozen == f.frozen
            }
            &&& !f.frozen && !f.values.contains(value) && b.charged + cost <= b.budget ==> {
                &&& g.values == f.values.insert(value)
                &&& !g.frozen
                &&& after.charged == b.charged + cost
                &&& after.capped == b.capped
            }
            &&& !f.frozen && !f.values.contains(value) && b.charged + cost > b.budget ==> {
                &&& g.values == f.values
                &&& g.frozen
                &&& after.charged == b.charged
                &&& after.capped
            }
        }),
{
}

/// A path is paid for by what it costs more than the one it replaces. A cheaper one is
/// free, and a refused one leaves the path as it was.
pub proof fn law_paths_are_paid_for_by_the_difference(
    b: RetentionBudget,
    f: FieldView,
    p: Seq<Seq<char>>,
)
    requires
        b.wf(),
        b.budget < u64::MAX,
    ensures
        ({
            let (after, g) = detected::path_stored(b, f, Some(p));
            let held: int = match f.json_path {
                Some(q) => detected::path_cost(q) as int,
                None => 0,
            };
            let cost = detected::path_cost(p) as int;
            &&& g.values == f.values && g.label == f.label && g.field_type == f.field_type
                && g.parsers == f.parsers && g.frozen == f.frozen
            &&& cost <= held ==> g.json_path == Some(p) && after == b
            &&& f.json_path == Some(p) ==> g == f && after == b
            &&& cost > held && b.charged + (cost - held) <= b.budget ==> {
                &&& g.json_path == Some(p)
                &&& after.charged == b.charged + (cost - held)
                &&& after.capped == b.capped
            }
            &&& cost > held && b.charged + (cost - held) > b.budget ==> {
                &&& g == f
                &&& after.charged == b.charged
                &&& after.capped
            }
        }),
{
}

/// An observation moves no field but its own. A name that is no field yet becomes the last
/// one, where the limit and the budget let it in, at its cost; else nothing is kept of it,
/// and only the budget's refusal is marked.
pub proof fn law_an_observation_moves_one_field<U: Fn(&str, Unit) -> bool>(
    reads: U,
    a: AccView,
    b: AccView,
    o: Observation,
    i: int,
)
    requires
        detected::observes_one(reads, a, b, o),
        a.budget.wf(),
        a.budget.budget < u64::MAX,
        a.fields.len() <= a.field_limit,
        forall|i: int, j: int|
            0 <= i < j < a.fields.len() ==> (#[trigger] a.fields[i]).label != (
            #[trigger] a.fields[j]).label,
        0 <= i < a.fields.len(),
    ensures
        ({
            let known = exists|j: int|
                0 <= j < a.fields.len() && (#[trigger] a.fields[j]).label == o.key;
            let error = o.key == "__error__"@ || o.key == "__error_details__"@;
            let cost = detected::name_cost(o.key);
            let room = a.fields.len() < a.field_limit;
            &&& a.fields[i].label != o.key ==> b.fields[i] == a.fields[i]
            &&& b.fields[i].label == a.fields[i].label
            &&& error ==> b == a
            &&& !known && !room ==> b == a
            &&& !known && !error && room && a.budget.charged + cost > a.budget.budget ==> {
                &&& b.fields == a.fields
                &&& b.budget.charged == a.budget.charged
                &&& b.budget.capped
            }
            &&& !known && !error && room && a.budget.charged + cost <= a.budget.budget ==> {
                &&& b.fields.len() == a.fields.len() + 1
                &&& b.fields.last().label == o.key
                &&& b.budget.charged >= a.budget.charged + cost
            }
            &&& known ==> b.fields.len() == a.fields.len()
        }),
{
    let known = exists|j: int| 0 <= j < a.fields.len() && (#[trigger] a.fields[j]).label == o.key;
    if known {
        let j = choose|j: int| 0 <= j < a.fields.len() && (#[trigger] a.fields[j]).label == o.key;
        assert(detected::stands_at(a.fields, o.key, j));
        assert(detected::has_field(a.fields, o.key));
        let at = detected::field_at(a.fields, o.key);
        assert(detected::stands_at(a.fields, o.key, at));
    } else {
        if detected::has_field(a.fields, o.key) {
            let j = choose|j: int| detected::stands_at(a.fields, o.key, j);
            assert(a.fields[j].label == o.key);
        }
        let named = detected::with_name(a, o.key);
        if detected::admitted(a, o.key) {
            let last = a.fields.len() as int;
            assert(detected::stands_at(named.fields, o.key, last));
            let at = detected::field_at(named.fields, o.key);
            assert(detected::stands_at(named.fields, o.key, at));
            assert(at == last) by {
                if at < last {
                    assert(a.fields[at].label == o.key);
                }
            }
        }
    }
}

/// Where a breached row budget is taken for another format, the outcome is that of the
/// first parser that keeps the line without an error of its own, JSON before logfmt, with
/// its pairs; where no budget is breached it is what detection comes to.
pub proof fn law_breaches_are_taken_for_another_format(
    json: Result<ParserRun, RowBudgetExceeded>,
    logfmt: Result<ParserRun, RowBudgetExceeded>,
)
    ensures
        ({
            let r = detected::legacy_parsed(json, logfmt);
            let first = json matches Ok(run) && run.kept && !run.has_err;
            let second = logfmt matches Ok(run) && run.kept && !run.has_err;
            &&& first ==> r == Some(("json"@, (json->Ok_0).labels@))
            &&& !first && second ==> r == Some(("logfmt"@, (logfmt->Ok_0).labels@))
            &&& !first && !second ==> r is None
            &&& detected::auto_parsed(json, logfmt) matches Ok(found) ==> match found {
                Some((name, run)) => r == Some((name, run.labels@)),
                None => r is None,
            }
        }),
{
}

/// A row fed without paths is observed as its metadata, what its pipeline made, and the
/// pairs of the first parser that takes the line; a breached row budget in format detection
/// fails nothing.
pub proof fn law_rows_without_paths_pass_over_breaches(
    row: SampledRow,
    live: SurvivingRow,
    streams: Map<u64, LabelSet>,
)
    requires
        streams.contains_key(row.fingerprint),
        row.run == Ok::<Option<SurvivingRow>, RowBudgetExceeded>(Some(live)),
    ensures
        ({
            let f = detected_probe::fed_without_paths(row, streams);
            let made = text::labels_view(live.labels@);
            let meta = match row.metadata {
                Some(m) => text::labels_view(m.pairs@),
                None => Seq::empty(),
            };
            let fresh = match row.metadata {
                Some(m) => detected_probe::added(made, text::labels_view(m.labels@)),
                None => detected_probe::added(
                    made,
                    text::labels_view(streams[row.fingerprint]@),
                ),
            };
            let at = meta.len() + fresh.len();
            let json = live.json matches Ok(run) && run.kept && !run.has_err;
            let logfmt = live.logfmt matches Ok(run) && run.kept && !run.has_err;
            &&& f.result == Ok::<bool, ErrorView>(true)
            &&& tells_pairs(f.trace, 0, meta, SourceView::Unattributed)
            &&& tells_pairs(f.trace, meta.len() as int, fresh, SourceView::Unattributed)
            &&& json ==> {
                let pairs = text::labels_view((live.json->Ok_0).labels@);
                &&& f.trace.len() == at + pairs.len()
                &&& tells_pairs(f.trace, at as int, pairs, SourceView::Json { path: None })
            }
            &&& !json && logfmt ==> {
                let pairs = text::labels_view((live.logfmt->Ok_0).labels@);
                &&& f.trace.len() == at + pairs.len()
                &&& tells_pairs(f.trace, at as int, pairs, SourceView::Logfmt)
            }
            &&& !json && !logfmt ==> f.trace.len() == at
        }),
{
}

/// A row whose pipeline breached a budget fails the read with that budget, and is observed
/// in nothing, with paths or without.
pub proof fn law_breached_pipelines_fail_the_read(
    row: SampledRow,
    streams: Map<u64, LabelSet>,
    e: RowBudgetExceeded,
)
    requires
        streams.contains_key(row.fingerprint),
        row.run == Err::<Option<SurvivingRow>, RowBudgetExceeded>(e),
    ensures
        detected_probe::fed(row, streams).result == Err::<bool, ErrorView>(
            range_model::budget_error(e),
        ),
        detected_probe::fed(row, streams).trace.len() == 0,
        detected_probe::fed_without_paths(row, streams) == detected_probe::fed(row, streams),
{
    assert(detected_probe::fed_without_paths(row, streams).trace =~= detected_probe::fed(
        row,
        streams,
    ).trace);
}

/// A name costs its slot in the map of fields, itself while it grows, and room for the names
/// of two parsers; a value costs its slot in the set of values, and itself; a path costs its
/// list, and its parts one by one.
pub proof fn law_fields_cost_slot_and_text(s: Seq<char>, path: Seq<Seq<char>>)
    requires
        12 * text::byte_count(s) <= 0x7FFF_FFFF_FFFF_FFFF,
        vstd::layout::size_of::<(String, detected::FieldState)>() <= 0x1_0000,
        vstd::layout::size_of::<String>() <= 0x1_0000,
        vstd::layout::size_of::<&'static str>() <= 0x1_0000,
    ensures
        detected::name_cost(s) == 8 * vstd::layout::size_of::<(String, detected::FieldState)>()
            + 136 + 3 * charge::block_bytes(text::byte_count(s)) + charge::block_bytes(
            (2 * vstd::layout::size_of::<&'static str>()) as int,
        ),
        detected::value_cost(s) == 8 * vstd::layout::size_of::<String>() + 136
            + charge::block_bytes(text::byte_count(s)),
        detected::parts_cost(Seq::empty()) == 0,
        detected::parts_cost(path.push(s)) == detected::parts_cost(path) + charge::block_bytes(
            text::byte_count(s),
        ),
        ({
            let list = path.len() * vstd::layout::size_of::<String>();
            let whole = charge::block_bytes(list as int) + detected::parts_cost(path);
            list <= u64::MAX && 0 <= whole <= u64::MAX ==> detected::path_cost(path) == whole
        }),
{
    assert(path.push(s).drop_last() =~= path);
}

/// A pair that no parser found names none, and a parser's pair names the parser.
pub proof fn law_sources_name_their_parser(path: Option<Seq<Seq<char>>>)
    ensures
        detected::parser_of(SourceView::Unattributed) is None,
        detected::parser_of(SourceView::Logfmt) == Some("logfmt"@),
        detected::parser_of(SourceView::Json { path }) == Some("json"@),
{
}

/// Whether a text is digits throughout, or but for a point at one place.
spec fn digits_but_at(m: Seq<char>, d: int) -> bool {
    &&& -1 <= d < m.len()
    &&& forall|i: int| 0 <= i < m.len() && i != d ==> literal::is_digit(#[trigger] m[i])
    &&& d >= 0 ==> m[d] == '.' && m.len() > 1
    &&& m.len() > 0
}

proof fn lemma_mantissa_chars(m: Seq<char>)
    requires
        literal::is_mantissa(m),
    ensures
        exists|d: int| #[trigger] digits_but_at(m, d),
{
    if m.len() > 0 && literal::all_digits(m) {
        assert(digits_but_at(m, -1));
    } else {
        let d = choose|d: int|
            0 <= d < m.len() && #[trigger] m[d] == '.' && literal::all_digits(m.take(d))
                && literal::all_digits(m.skip(d + 1));
        assert forall|i: int| 0 <= i < m.len() && i != d implies literal::is_digit(
            #[trigger] m[i],
        ) by {
            if i < d {
                assert(m.take(d)[i] == m[i]);
            } else {
                assert(m.skip(d + 1)[i - d - 1] == m[i]);
            }
        }
        assert(digits_but_at(m, d));
    }
}

/// What spells a floating-point number without a word ends in a digit or in its point, and
/// has one point at most; a point alone spells none, and neither does nothing.
pub proof fn law_floats_end_in_digits(s: Seq<char>, i: int, j: int)
    requires
        literal::spells_float(s),
        s[0] != '+',
        s[0] != '-',
        '0' <= s[0] <= '9' || s[0] == '.',
        0 <= i < j < s.len(),
    ensures
        s.len() > 0,
        '0' <= s.last() <= '9' || s.last() == '.',
        !(s[i] == '.' && s[j] == '.'),
{
    assert(!literal::is_word(s, seq!['i', 'n', 'f'])) by {
        if literal::is_word(s, seq!['i', 'n', 'f']) {
            assert(literal::lowered(s[0]) == 'i');
        }
    }
    assert(!literal::is_word(s, seq!['i', 'n', 'f', 'i', 'n', 'i', 't', 'y'])) by {
        if literal::is_word(s, seq!['i', 'n', 'f', 'i', 'n', 'i', 't', 'y']) {
            assert(literal::lowered(s[0]) == 'i');
        }
    }
    assert(!literal::is_word(s, seq!['n', 'a', 'n'])) by {
        if literal::is_word(s, seq!['n', 'a', 'n']) {
            assert(literal::lowered(s[0]) == 'n');
        }
    }
    let k = choose|k: int|
        0 <= k <= s.len() && #[trigger] literal::is_mantissa(s.take(k)) && (k == s.len()
            || literal::is_exponent(s.skip(k)));
    let m = s.take(k);
    lemma_mantissa_chars(m);
    let d = choose|d: int| #[trigger] digits_but_at(m, d);
    assert(m.len() > 0);
    if k == s.len() {
        assert(m =~= s);
        assert(s.last() == m[k - 1]);
        if k - 1 != d {
            assert(literal::is_digit(m[k - 1]));
        }
        if s[i] == '.' && s[j] == '.' {
            assert(m[i] == '.' && m[j] == '.');
            assert(i == d && j == d);
        }
    } else {
        let x = s.skip(k);
        let y = x.skip(1);
        let body = literal::unsigned(y);
        assert(body.last() == s.last());
        assert(literal::is_digit(body[body.len() - 1]));
        if s[i] == '.' && s[j] == '.' {
            assert(j < k) by {
                if j >= k {
                    assert(s[j] == x[j - k]);
                    if j > k {
                        assert(s[j] == y[j - k - 1]);
                        if literal::is_signed(y) {
                            if j > k + 1 {
                                assert(body[j - k - 2] == s[j]);
                                assert(literal::is_digit(body[j - k - 2]));
                            }
                        } else {
                            assert(body[j - k - 1] == s[j]);
                            assert(literal::is_digit(body[j - k - 1]));
                        }
                    }
                }
            }
            assert(m[i] == '.' && m[j] == '.');
            assert(i == d && j == d);
        }
    }
}

/// Neither nothing nor a point alone spells a floating-point number.
pub proof fn law_a_point_alone_is_no_number()
    ensures
        !literal::spells_float(Seq::empty()),
        !literal::spells_float(seq!['.']),
        !literal::spells_float(seq!['+']),
        !literal::spells_float(seq!['-']),
{
    lemma_no_float_short(Seq::empty());
    lemma_no_float_short(seq!['.']);
    assert(seq!['+'].skip(1) =~= Seq::empty());
    assert(seq!['-'].skip(1) =~= Seq::empty());
}

proof fn lemma_no_float_short(s: Seq<char>)
    requires
        s.len() == 0 || s =~= seq!['.'],
    ensures
        !(exists|k: int|
            0 <= k <= s.len() && #[trigger] literal::is_mantissa(s.take(k)) && (k == s.len()
                || literal::is_exponent(s.skip(k)))),
        !literal::spells_float(s),
{
    assert forall|k: int| 0 <= k <= s.len() implies !(#[trigger] literal::is_mantissa(
        s.take(k),
    )) by {
        let m = s.take(k);
        if literal::is_mantissa(m) {
            assert(m.len() == 1);
            assert(m[0] == '.');
            assert(!literal::is_digit(m[0]));
        }
    }
}

/// A label is kept whatever its values look like where it names a cluster, a namespace, an
/// instance or a pod, and nowhere else.
pub proof fn law_static_labels_name_places(key: Seq<char>)
    ensures
        detected::static_label(key) <==> {
            ||| key == seq!['c', 'l', 'u', 's', 't', 'e', 'r']
            ||| key == seq!['n', 'a', 'm', 'e', 's', 'p', 'a', 'c', 'e']
            ||| key == seq!['i', 'n', 's', 't', 'a', 'n', 'c', 'e']
            ||| key == seq!['p', 'o', 'd']
        },
{
    reveal_strlit("cluster");
    reveal_strlit("namespace");
    reveal_strlit("instance");
    reveal_strlit("pod");
    assert("cluster"@ =~= seq!['c', 'l', 'u', 's', 't', 'e', 'r']);
    assert("namespace"@ =~= seq!['n', 'a', 'm', 'e', 's', 'p', 'a', 'c', 'e']);
    assert("instance"@ =~= seq!['i', 'n', 's', 't', 'a', 'n', 'c', 'e']);
    assert("pod"@ =~= seq!['p', 'o', 'd']);
}

/// A parser that is named is the source of a pair, and a pair without one has no source;
/// naming the source's parser leads back to it.
pub proof fn law_named_parsers_are_sources(source: SourceView)
    requires
        source matches SourceView::Json { path } ==> path is None,
    ensures
        probe::source_named(detected::parser_of(source)) == source,
{
    reveal_strlit("json");
    reveal_strlit("logfmt");
    assert("json"@.len() != "logfmt"@.len());
}

/// An unlimited budget refuses nothing.
pub proof fn law_unlimited_budgets_refuse_nothing(b: RetentionBudget, n: u64)
    requires
        b.budget == u64::MAX,
    ensures
        b.fits(n),
        b.after(n).capped == b.capped,
        b.charged + n <= u64::MAX ==> b.after(n).charged == b.charged + n,
        b.charged + n > u64::MAX ==> b.after(n).charged == u64::MAX,
        b.after(n).peak >= b.peak && b.after(n).peak >= b.after(n).charged,
{
}

/// A pair that the JSON parser found is kept and paid for as any other; on top of that its
/// path is stored, by what that costs.
pub proof fn law_json_pairs_also_bring_a_path(
    b: RetentionBudget,
    f: FieldView,
    value: Seq<char>,
    t: Seq<char>,
    path: Option<Seq<Seq<char>>>,
)
    ensures
        ({
            let (paid, plain) = detected::field_observed(
                b,
                f,
                value,
                t,
                SourceView::Unattributed,
            );
            let (after, g) = detected::field_observed(
                b,
                f,
                value,
                t,
                SourceView::Json { path },
            );
            &&& g.label == plain.label && g.field_type == plain.field_type && g.values
                == plain.values && g.frozen == plain.frozen
            &&& plain.parsers == f.parsers
            &&& (after, g) == detected::path_stored(
                paid,
                FieldView { parsers: g.parsers, ..plain },
                path,
            )
        }),
{
}

} // verus!
