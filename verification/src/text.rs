//! Text and label sets: byte lengths, byte order, and the canonical JSON form.
use vstd::prelude::*;
use vstd::utf8::*;
use crate::order::{self, stable_sorted, Ranked};

verus! {

/// Label pairs in the order they were produced.
pub type LabelSet = Vec<(String, String)>;

/// What a label pair says.
pub type PairView = (Seq<char>, Seq<char>);

/// What a label set says.
pub open spec fn labels_view(labels: Seq<(String, String)>) -> Seq<PairView> {
    labels.map_values(|p: (String, String)| (p.0@, p.1@))
}

/// A count held in 64 bits, pinned at the largest value when it does not fit.
pub open spec fn saturate(n: int) -> u64 {
    if n > u64::MAX {
        u64::MAX
    } else {
        n as u64
    }
}

/// The length of a text in UTF-8 bytes.
pub open spec fn byte_count(s: Seq<char>) -> int {
    encode_utf8(s).len() as int
}

/// The length of `s` in bytes.
pub fn byte_len(s: &str) -> (n: u64)
    ensures
        n == byte_count(s@),
{
    s.as_bytes().len() as u64
}

/// Multiplication pinned at the largest value on overflow.
pub fn saturating_product(a: u64, b: u64) -> (r: u64)
    ensures
        r == saturate(a * b),
{
    match a.checked_mul(b) {
        Some(r) => r,
        None => u64::MAX,
    }
}

// ---------------------------------------------------------------------
// Lexicographic order.
// ---------------------------------------------------------------------

/// The lexicographic order that `le` induces on sequences.
pub open spec fn lex_le<A>(a: Seq<A>, b: Seq<A>, le: spec_fn(A, A) -> bool) -> bool
    decreases a.len(),
{
    if a.len() == 0 {
        true
    } else if b.len() == 0 {
        false
    } else if le(a[0], b[0]) && le(b[0], a[0]) {
        lex_le(a.drop_first(), b.drop_first(), le)
    } else {
        le(a[0], b[0])
    }
}

pub proof fn lemma_lex_total<A>(a: Seq<A>, b: Seq<A>, le: spec_fn(A, A) -> bool)
    requires
        order::total_preorder(le),
    ensures
        lex_le(a, b, le) || lex_le(b, a, le),
    decreases a.len(),
{
    if a.len() > 0 && b.len() > 0 {
        assert(le(a[0], b[0]) || le(b[0], a[0]));
        lemma_lex_total(a.drop_first(), b.drop_first(), le);
    }
}

pub proof fn lemma_lex_chains<A>(a: Seq<A>, b: Seq<A>, c: Seq<A>, le: spec_fn(A, A) -> bool)
    requires
        order::total_preorder(le),
        lex_le(a, b, le),
        lex_le(b, c, le),
    ensures
        lex_le(a, c, le),
    decreases a.len(),
{
    if a.len() > 0 {
        let (x, y, z) = (a[0], b[0], c[0]);
        assert(le(x, y) && le(y, z) && le(x, z));
        if le(z, x) {
            assert(le(y, z) && le(z, x) ==> le(y, x));
            assert(le(z, x) && le(x, y) ==> le(z, y));
            lemma_lex_chains(a.drop_first(), b.drop_first(), c.drop_first(), le);
        }
    }
}

/// The order on bytes.
pub open spec fn byte_le() -> spec_fn(u8, u8) -> bool {
    |x: u8, y: u8| x <= y
}

/// The order on texts: lexicographic by UTF-8 bytes.
pub open spec fn text_le(a: Seq<char>, b: Seq<char>) -> bool {
    lex_le(encode_utf8(a), encode_utf8(b), byte_le())
}

pub proof fn lemma_text_le_total(a: Seq<char>, b: Seq<char>)
    ensures
        text_le(a, b) || text_le(b, a),
{
    lemma_lex_total(encode_utf8(a), encode_utf8(b), byte_le());
}

pub proof fn lemma_text_le_chains(a: Seq<char>, b: Seq<char>, c: Seq<char>)
    requires
        text_le(a, b),
        text_le(b, c),
    ensures
        text_le(a, c),
{
    lemma_lex_chains(encode_utf8(a), encode_utf8(b), encode_utf8(c), byte_le());
}

pub proof fn lemma_lex_antisymmetric<A>(a: Seq<A>, b: Seq<A>, le: spec_fn(A, A) -> bool)
    requires
        forall|x: A, y: A| #[trigger] le(x, y) && le(y, x) ==> x == y,
        lex_le(a, b, le),
        lex_le(b, a, le),
    ensures
        a == b,
    decreases a.len(),
{
    if a.len() > 0 && b.len() > 0 {
        assert(le(a[0], b[0]) && le(b[0], a[0]));
        lemma_lex_antisymmetric(a.drop_first(), b.drop_first(), le);
        assert(a =~= seq![a[0]] + a.drop_first());
        assert(b =~= seq![b[0]] + b.drop_first());
    } else {
        assert(a =~= b);
    }
}

/// Only equal texts compare both ways.
pub proof fn lemma_text_le_antisymmetric(a: Seq<char>, b: Seq<char>)
    requires
        text_le(a, b),
        text_le(b, a),
    ensures
        a == b,
{
    lemma_lex_antisymmetric(encode_utf8(a), encode_utf8(b), byte_le());
    vstd::utf8::encode_utf8_decode_utf8(a);
    vstd::utf8::encode_utf8_decode_utf8(b);
}

/// Whether `a` may stand before `b` in byte order.
pub fn str_le(a: &str, b: &str) -> (r: bool)
    ensures
        r == text_le(a@, b@),
{
    let x = a.as_bytes();
    let y = b.as_bytes();
    let mut i: usize = 0;
    proof {
        assert(x@.skip(0) =~= x@);
        assert(y@.skip(0) =~= y@);
    }
    while i < x.len() && i < y.len()
        invariant
            i <= x@.len(),
            i <= y@.len(),
            text_le(a@, b@) == lex_le(x@.skip(i as int), y@.skip(i as int), byte_le()),
        decreases x@.len() - i,
    {
        proof {
            assert(x@.skip(i as int).drop_first() =~= x@.skip(i as int + 1));
            assert(y@.skip(i as int).drop_first() =~= y@.skip(i as int + 1));
        }
        if x[i] != y[i] {
            return x[i] < y[i];
        }
        i = i + 1;
    }
    i >= x.len()
}

/// Whether two texts are the same.
pub fn str_eq(a: &str, b: &str) -> (r: bool)
    ensures
        r == (a@ == b@),
{
    let x = a.as_bytes();
    let y = b.as_bytes();
    proof {
        vstd::utf8::encode_utf8_decode_utf8(a@);
        vstd::utf8::encode_utf8_decode_utf8(b@);
    }
    if x.len() != y.len() {
        return false;
    }
    let mut i: usize = 0;
    while i < x.len()
        invariant
            i <= x@.len(),
            x@.len() == y@.len(),
            x@ == encode_utf8(a@),
            y@ == encode_utf8(b@),
            forall|j: int| 0 <= j < i ==> x@[j] == y@[j],
        decreases x@.len() - i,
    {
        if x[i] != y[i] {
            return false;
        }
        i = i + 1;
    }
    proof {
        assert(x@ =~= y@);
    }
    true
}

/// The order on label pairs: by name, then by value.
pub open spec fn pair_le() -> spec_fn(PairView, PairView) -> bool {
    |a: PairView, b: PairView| text_le(a.0, b.0) && (text_le(b.0, a.0) ==> text_le(a.1, b.1))
}

pub proof fn lemma_pair_le_preorder()
    ensures
        order::total_preorder(pair_le()),
{
    let le = pair_le();
    assert forall|x: PairView, y: PairView| #[trigger] le(x, y) || le(y, x) by {
        lemma_text_le_total(x.0, y.0);
        lemma_text_le_total(x.1, y.1);
    }
    assert forall|x: PairView, y: PairView, z: PairView| #[trigger] le(x, y) && #[trigger] le(
        y,
        z,
    ) implies le(x, z) by {
        lemma_text_le_chains(x.0, y.0, z.0);
        if text_le(z.0, x.0) {
            lemma_text_le_chains(y.0, z.0, x.0);
            lemma_text_le_chains(z.0, x.0, y.0);
            lemma_text_le_chains(x.1, y.1, z.1);
        }
    }
}

impl Ranked for (String, String) {
    open spec fn rank_le() -> spec_fn(Self, Self) -> bool {
        |a: (String, String), b: (String, String)| pair_le()((a.0@, a.1@), (b.0@, b.1@))
    }

    proof fn rank_is_preorder() {
        lemma_pair_le_preorder();
        let le = Self::rank_le();
        assert forall|a: Self, b: Self| #[trigger] le(a, b) || le(b, a) by {
            assert(pair_le()((a.0@, a.1@), (b.0@, b.1@)) || pair_le()((b.0@, b.1@), (a.0@, a.1@)));
        }
        assert forall|a: Self, b: Self, c: Self| #[trigger] le(a, b) && #[trigger] le(
            b,
            c,
        ) implies le(a, c) by {
            let (x, y, z) = ((a.0@, a.1@), (b.0@, b.1@), (c.0@, c.1@));
            assert(pair_le()(x, y) && pair_le()(y, z) ==> pair_le()(x, z));
        }
    }

    fn ranks_le(&self, other: &Self) -> (r: bool) {
        proof {
            let (x, y) = ((self.0@, self.1@), (other.0@, other.1@));
            assert(Self::rank_le()(*self, *other) == pair_le()(x, y));
        }
        let before: bool = str_le(self.0.as_str(), other.0.as_str());
        if !before {
            return false;
        }
        let after: bool = str_le(other.0.as_str(), self.0.as_str());
        if !after {
            return true;
        }
        str_le(self.1.as_str(), other.1.as_str())
    }
}

/// The order on label sets: lexicographic by pair.
pub open spec fn labels_le(a: Seq<PairView>, b: Seq<PairView>) -> bool {
    lex_le(a, b, pair_le())
}

/// Only equal label sets compare both ways.
pub proof fn lemma_labels_le_antisymmetric(a: Seq<PairView>, b: Seq<PairView>)
    requires
        labels_le(a, b),
        labels_le(b, a),
    ensures
        a == b,
{
    let le = pair_le();
    assert forall|x: PairView, y: PairView| #[trigger] le(x, y) && le(y, x) implies x == y by {
        lemma_text_le_antisymmetric(x.0, y.0);
        lemma_text_le_antisymmetric(x.1, y.1);
    }
    lemma_lex_antisymmetric(a, b, le);
}

/// Whether label set `a` may stand before `b`.
pub fn label_set_le(a: &LabelSet, b: &LabelSet) -> (r: bool)
    ensures
        r == labels_le(labels_view(a@), labels_view(b@)),
{
    let ghost x = labels_view(a@);
    let ghost y = labels_view(b@);
    let mut i: usize = 0;
    proof {
        assert(x.skip(0) =~= x);
        assert(y.skip(0) =~= y);
    }
    while i < a.len() && i < b.len()
        invariant
            x == labels_view(a@),
            y == labels_view(b@),
            i <= x.len(),
            i <= y.len(),
            labels_le(x, y) == lex_le(x.skip(i as int), y.skip(i as int), pair_le()),
        decreases x.len() - i,
    {
        proof {
            assert(x.skip(i as int).drop_first() =~= x.skip(i as int + 1));
            assert(y.skip(i as int).drop_first() =~= y.skip(i as int + 1));
            assert(x.skip(i as int)[0] == x[i as int]);
            assert(y.skip(i as int)[0] == y[i as int]);
        }
        let before: bool = a[i].ranks_le(&b[i]);
        let after: bool = b[i].ranks_le(&a[i]);
        if !before || !after {
            return before;
        }
        i = i + 1;
    }
    i >= a.len()
}

/// A copy of a label set.
pub fn copy_labels(labels: &LabelSet) -> (out: LabelSet)
    ensures
        out@ == labels@,
{
    let mut out: LabelSet = Vec::new();
    let mut i: usize = 0;
    while i < labels.len()
        invariant
            i <= labels@.len(),
            out@ == labels@.take(i as int),
        decreases labels@.len() - i,
    {
        let name = labels[i].0.clone();
        let value = labels[i].1.clone();
        out.push((name, value));
        proof {
            assert(out@ =~= labels@.take(i as int + 1));
        }
        i = i + 1;
    }
    proof {
        assert(labels@.take(labels@.len() as int) =~= labels@);
    }
    out
}

/// A sorted copy of a label set.
pub fn sorted_labels(labels: &LabelSet) -> (out: LabelSet)
    ensures
        labels_view(out@) == order::stable_sort(labels_view(labels@), pair_le()),
{
    let copy = copy_labels(labels);
    proof {
        assert(copy@.len() == copy.len());
        <(String, String) as Ranked>::rank_is_preorder();
        lemma_pair_le_preorder();
        order::lemma_stable_sort_mapped(
            copy@,
            |p: (String, String)| (p.0@, p.1@),
            <(String, String) as Ranked>::rank_le(),
            pair_le(),
        );
    }
    stable_sorted(copy)
}

// ---------------------------------------------------------------------
// Canonical JSON.
// ---------------------------------------------------------------------

/// Appends one character. This is `String::push`, which places the character at
/// the end of the text.
pub assume_specification[ std::string::String::push ](s: &mut std::string::String, c: char)
    ensures
        final(s)@ == old(s)@.push(c),
;

/// One lower-case hexadecimal digit.
pub open spec fn hex_digit_char(n: int) -> char {
    if n < 10 {
        ('0' as int + n) as char
    } else {
        ('a' as int + (n - 10)) as char
    }
}

/// How one character stands inside a JSON string.
pub open spec fn escaped_char(c: char) -> Seq<char> {
    if c == '"' {
        seq!['\\', '"']
    } else if c == '\\' {
        seq!['\\', '\\']
    } else if c == '\n' {
        seq!['\\', 'n']
    } else if c == '\r' {
        seq!['\\', 'r']
    } else if c == '\t' {
        seq!['\\', 't']
    } else if c == '\u{08}' {
        seq!['\\', 'b']
    } else if c == '\u{0C}' {
        seq!['\\', 'f']
    } else if (c as int) < 0x20 {
        seq!['\\', 'u', '0', '0', hex_digit_char(c as int / 16), hex_digit_char(c as int % 16)]
    } else {
        seq![c]
    }
}

/// A text with every character escaped.
pub open spec fn escaped_text(s: Seq<char>) -> Seq<char>
    decreases s.len(),
{
    if s.len() == 0 {
        Seq::empty()
    } else {
        escaped_text(s.drop_last()) + escaped_char(s.last())
    }
}

/// A text as a JSON string.
pub open spec fn json_string(s: Seq<char>) -> Seq<char> {
    seq!['"'] + escaped_text(s) + seq!['"']
}

/// The members of a JSON object, without its braces.
pub open spec fn json_members(labels: Seq<PairView>) -> Seq<char>
    decreases labels.len(),
{
    if labels.len() == 0 {
        Seq::empty()
    } else {
        let head = json_members(labels.drop_last());
        let (name, value) = labels.last();
        (if labels.len() > 1 {
            head.push(',')
        } else {
            head
        }) + json_string(name) + seq![':'] + json_string(value)
    }
}

/// A label set as a JSON object.
pub open spec fn json_object(labels: Seq<PairView>) -> Seq<char> {
    seq!['{'] + json_members(labels) + seq!['}']
}

proof fn lemma_escaped_first(s: Seq<char>)
    requires
        s.len() > 0,
    ensures
        escaped_text(s) == escaped_char(s[0]) + escaped_text(s.drop_first()),
    decreases s.len(),
{
    if s.len() == 1 {
        assert(s.drop_last() =~= Seq::empty());
        assert(s.drop_first() =~= Seq::empty());
        assert(escaped_text(s) =~= escaped_char(s[0]) + escaped_text(s.drop_first()));
    } else {
        lemma_escaped_first(s.drop_last());
        assert(s.drop_last().drop_first() =~= s.drop_first().drop_last());
        assert(s.drop_first().last() == s.last());
        assert(escaped_text(s) =~= escaped_char(s[0]) + escaped_text(s.drop_first()));
    }
}

/// How a character stands tells the character.
proof fn lemma_escaped_char_tells(c: char, d: char, x: Seq<char>, y: Seq<char>)
    requires
        escaped_char(c) + x == escaped_char(d) + y,
    ensures
        c == d,
        x == y,
{
    let (u, v) = (escaped_char(c) + x, escaped_char(d) + y);
    assert(u[0] == escaped_char(c)[0] && v[0] == escaped_char(d)[0]);
    if escaped_char(c).len() > 1 {
        assert(escaped_char(d).len() > 1);
        assert(u[1] == escaped_char(c)[1] && v[1] == escaped_char(d)[1]);
        if escaped_char(c).len() > 2 {
            assert(escaped_char(d).len() > 2);
            assert(u[4] == escaped_char(c)[4] && v[4] == escaped_char(d)[4]);
            assert(u[5] == escaped_char(c)[5] && v[5] == escaped_char(d)[5]);
            assert(c as int / 16 == d as int / 16);
            assert(c as int % 16 == d as int % 16);
        }
    }
    assert(c == d);
    let n = escaped_char(c).len() as int;
    assert(x =~= u.skip(n));
    assert(y =~= v.skip(n));
}

/// A text that is escaped and closed by a quote tells the text and what follows.
proof fn lemma_escaped_text_tells(a: Seq<char>, b: Seq<char>, x: Seq<char>, y: Seq<char>)
    requires
        escaped_text(a) + seq!['"'] + x == escaped_text(b) + seq!['"'] + y,
    ensures
        a == b,
        x == y,
    decreases a.len(),
{
    let (u, v) = (escaped_text(a) + seq!['"'] + x, escaped_text(b) + seq!['"'] + y);
    if a.len() == 0 || b.len() == 0 {
        if a.len() > 0 {
            lemma_escaped_first(a);
            assert(u[0] == escaped_char(a[0])[0]);
            assert(v[0] == '"');
        }
        if b.len() > 0 {
            lemma_escaped_first(b);
            assert(v[0] == escaped_char(b[0])[0]);
            assert(u[0] == '"');
        }
        assert(a =~= b);
        assert(x =~= u.skip(1));
        assert(y =~= v.skip(1));
    } else {
        lemma_escaped_first(a);
        lemma_escaped_first(b);
        let (p, q) = (
            escaped_text(a.drop_first()) + seq!['"'] + x,
            escaped_text(b.drop_first()) + seq!['"'] + y,
        );
        assert(u =~= escaped_char(a[0]) + p);
        assert(v =~= escaped_char(b[0]) + q);
        lemma_escaped_char_tells(a[0], b[0], p, q);
        lemma_escaped_text_tells(a.drop_first(), b.drop_first(), x, y);
        assert(a =~= seq![a[0]] + a.drop_first());
        assert(b =~= seq![b[0]] + b.drop_first());
    }
}

/// A JSON string tells its text and what follows.
proof fn lemma_json_string_tells(a: Seq<char>, b: Seq<char>, x: Seq<char>, y: Seq<char>)
    requires
        json_string(a) + x == json_string(b) + y,
    ensures
        a == b,
        x == y,
{
    let (u, v) = (json_string(a) + x, json_string(b) + y);
    assert(u.skip(1) =~= escaped_text(a) + seq!['"'] + x);
    assert(v.skip(1) =~= escaped_text(b) + seq!['"'] + y);
    lemma_escaped_text_tells(a, b, x, y);
}

/// What follows the first member of a JSON object.
spec fn members_after(labels: Seq<PairView>) -> Seq<char> {
    if labels.len() <= 1 {
        seq!['}']
    } else {
        seq![','] + json_members(labels.drop_first()) + seq!['}']
    }
}

/// One member of a JSON object.
spec fn member_text(p: PairView) -> Seq<char> {
    json_string(p.0) + seq![':'] + json_string(p.1)
}

proof fn lemma_members_cons(labels: Seq<PairView>)
    requires
        labels.len() > 0,
    ensures
        labels.len() == 1 ==> json_members(labels) == member_text(labels[0]),
        labels.len() > 1 ==> json_members(labels) == member_text(labels[0]) + seq![','] + json_members(
            labels.drop_first(),
        ),
    decreases labels.len(),
{
    let rest = labels.drop_last();
    let last = member_text(labels.last());
    let body = json_members(rest);
    assert(labels.last() == (labels.last().0, labels.last().1));
    lemma_members_end(labels);
    if labels.len() == 1 {
        assert(rest =~= Seq::empty());
        assert(body + last =~= last);
    } else {
        let tail = labels.drop_first();
        assert(tail.drop_last() =~= rest.drop_first());
        assert(tail.last() == labels.last());
        lemma_members_cons(rest);
        lemma_members_end(tail);
        let first = member_text(labels[0]);
        let inner = json_members(rest.drop_first());
        if labels.len() == 2 {
            assert(rest.drop_first() =~= Seq::empty());
            lemma_empty_members();
            assert(inner + last =~= last);
            assert(first.push(',') + last =~= first + seq![','] + last);
        } else {
            assert((first + seq![','] + inner).push(',') + last =~= first + seq![','] + (
            inner.push(',') + last));
        }
    }
}

proof fn lemma_empty_members()
    ensures
        json_members(Seq::empty()) == Seq::<char>::empty(),
{
}

proof fn lemma_members_end(labels: Seq<PairView>)
    requires
        labels.len() > 0,
    ensures
        json_members(labels) == (if labels.len() > 1 {
            json_members(labels.drop_last()).push(',')
        } else {
            json_members(labels.drop_last())
        }) + member_text(labels.last()),
{
    let head = if labels.len() > 1 {
        json_members(labels.drop_last()).push(',')
    } else {
        json_members(labels.drop_last())
    };
    let (a, b) = (json_string(labels.last().0), json_string(labels.last().1));
    assert(head + a + seq![':'] + b =~= head + (a + seq![':'] + b));
}

proof fn lemma_members_first(labels: Seq<PairView>)
    requires
        labels.len() > 0,
    ensures
        json_members(labels) + seq!['}'] == json_string(labels[0].0) + (seq![':'] + (json_string(
            labels[0].1,
        ) + members_after(labels))),
{
    lemma_members_cons(labels);
    let (a, b) = (json_string(labels[0].0), json_string(labels[0].1));
    if labels.len() == 1 {
        assert(a + seq![':'] + b + seq!['}'] =~= a + (seq![':'] + (b + seq!['}'])));
    } else {
        let m = json_members(labels.drop_first());
        assert(a + seq![':'] + b + seq![','] + m + seq!['}'] =~= a + (seq![':'] + (b + (seq![',']
            + m + seq!['}']))));
    }
}

proof fn lemma_members_tell(a: Seq<PairView>, b: Seq<PairView>)
    requires
        json_members(a) + seq!['}'] == json_members(b) + seq!['}'],
    ensures
        a == b,
    decreases a.len(),
{
    let (u, v) = (json_members(a) + seq!['}'], json_members(b) + seq!['}']);
    if a.len() > 0 {
        lemma_members_first(a);
        assert(u[0] == '"');
    } else {
        assert(u[0] == '}');
    }
    if b.len() > 0 {
        lemma_members_first(b);
        assert(v[0] == '"');
    } else {
        assert(v[0] == '}');
    }
    if a.len() > 0 {
        let (p, q) = (
            json_string(a[0].1) + members_after(a),
            json_string(b[0].1) + members_after(b),
        );
        lemma_json_string_tells(a[0].0, b[0].0, seq![':'] + p, seq![':'] + q);
        assert((seq![':'] + p).skip(1) =~= p);
        assert((seq![':'] + q).skip(1) =~= q);
        lemma_json_string_tells(a[0].1, b[0].1, members_after(a), members_after(b));
        assert(members_after(a)[0] == members_after(b)[0]);
        if a.len() > 1 {
            assert(b.len() > 1);
            assert(members_after(a).skip(1) =~= json_members(a.drop_first()) + seq!['}']);
            assert(members_after(b).skip(1) =~= json_members(b.drop_first()) + seq!['}']);
            lemma_members_tell(a.drop_first(), b.drop_first());
        } else {
            assert(b.len() <= 1);
            assert(a.drop_first() =~= b.drop_first());
        }
        assert(a =~= seq![a[0]] + a.drop_first());
        assert(b =~= seq![b[0]] + b.drop_first());
    } else {
        assert(a =~= b);
    }
}

/// Rendered labels tell the labels: no two label sets render to the same text.
pub proof fn law_rendered_labels_tell_the_labels(a: Seq<PairView>, b: Seq<PairView>)
    requires
        json_object(a) == json_object(b),
    ensures
        a == b,
{
    assert(json_object(a).skip(1) =~= json_members(a) + seq!['}']);
    assert(json_object(b).skip(1) =~= json_members(b) + seq!['}']);
    lemma_members_tell(a, b);
}

fn hex_digit(n: u32) -> (c: char)
    requires
        n < 16,
    ensures
        c == hex_digit_char(n as int),
{
    if n < 10 {
        (48u8 + n as u8) as char
    } else {
        (97u8 + (n - 10) as u8) as char
    }
}

/// Appends one character as it stands inside a JSON string.
fn push_escaped(out: &mut String, c: char)
    ensures
        final(out)@ == old(out)@ + escaped_char(c),
{
    let ghost before = out@;
    if c == '"' {
        out.push('\\');
        out.push('"');
    } else if c == '\\' {
        out.push('\\');
        out.push('\\');
    } else if c == '\n' {
        out.push('\\');
        out.push('n');
    } else if c == '\r' {
        out.push('\\');
        out.push('r');
    } else if c == '\t' {
        out.push('\\');
        out.push('t');
    } else if c == '\u{08}' {
        out.push('\\');
        out.push('b');
    } else if c == '\u{0C}' {
        out.push('\\');
        out.push('f');
    } else if (c as u32) < 0x20 {
        let code: u32 = c as u32;
        out.push('\\');
        out.push('u');
        out.push('0');
        out.push('0');
        out.push(hex_digit(code / 16));
        out.push(hex_digit(code % 16));
    } else {
        out.push(c);
    }
    proof {
        assert(out@ =~= before + escaped_char(c));
    }
}

/// Appends a JSON string.
fn push_json_string(out: &mut String, s: &str)
    ensures
        final(out)@ == old(out)@ + json_string(s@),
{
    let ghost start = out@;
    out.push('"');
    let ghost open = out@;
    for c in it: s.chars()
        invariant
            it.seq() == s@,
            out@ == open + escaped_text(s@.take(it.index())),
    {
        proof {
            let k = it.index();
            assert(s@.take(k + 1).drop_last() =~= s@.take(k));
            assert(s@.take(k + 1).last() == s@[k]);
            assert(c == s@[k]);
        }
        push_escaped(out, c);
        proof {
            assert(open + escaped_text(s@.take(it.index())) + escaped_char(c) =~= open + (
            escaped_text(s@.take(it.index())) + escaped_char(c)));
        }
    }
    out.push('"');
    proof {
        assert(s@.take(s@.len() as int) =~= s@);
        assert(out@ =~= start + json_string(s@));
    }
}

/// Renders a label set as a JSON object, members in the given order.
pub fn render_labels_json(labels: &LabelSet) -> (out: String)
    ensures
        out@ == json_object(labels_view(labels@)),
{
    let mut out = String::new();
    out.push('{');
    let ghost view = labels_view(labels@);
    let mut i: usize = 0;
    proof {
        assert(view.take(0) =~= Seq::<PairView>::empty());
        assert(out@ =~= seq!['{'] + json_members(view.take(0)));
    }
    while i < labels.len()
        invariant
            i <= labels@.len(),
            view == labels_view(labels@),
            out@ == seq!['{'] + json_members(view.take(i as int)),
        decreases labels@.len() - i,
    {
        proof {
            assert(view.take(i as int + 1).drop_last() =~= view.take(i as int));
            assert(view.take(i as int + 1).last() == view[i as int]);
            assert(view[i as int] == (labels@[i as int].0@, labels@[i as int].1@));
        }
        if i > 0 {
            out.push(',');
        }
        push_json_string(&mut out, labels[i].0.as_str());
        out.push(':');
        push_json_string(&mut out, labels[i].1.as_str());
        proof {
            assert(out@ =~= seq!['{'] + json_members(view.take(i as int + 1)));
        }
        i = i + 1;
    }
    out.push('}');
    proof {
        assert(view.take(view.len() as int) =~= view);
        assert(out@ =~= json_object(view));
    }
    out
}

// ---------------------------------------------------------------------
// Lengths without rendering.
// ---------------------------------------------------------------------

/// The bytes of joined texts are the joined bytes.
pub proof fn lemma_byte_count_join(a: Seq<char>, b: Seq<char>)
    ensures
        encode_utf8(a + b) == encode_utf8(a) + encode_utf8(b),
        byte_count(a + b) == byte_count(a) + byte_count(b),
    decreases a.len(),
{
    if a.len() == 0 {
        assert(a + b =~= b);
        assert(encode_utf8(a) + encode_utf8(b) =~= encode_utf8(b));
    } else {
        assert((a + b).drop_first() =~= a.drop_first() + b);
        assert((a + b)[0] == a[0]);
        lemma_byte_count_join(a.drop_first(), b);
        assert(encode_utf8(a + b) =~= encode_utf8(a) + encode_utf8(b));
    }
}

/// One character's bytes.
proof fn lemma_byte_count_one(c: char)
    ensures
        byte_count(seq![c]) == (if (c as u32) < 0x80 {
            1int
        } else if (c as u32) < 0x800 {
            2
        } else if (c as u32) < 0x10000 {
            3
        } else {
            4
        }),
{
    vstd::utf8::char_is_scalar(c);
    assert(seq![c].drop_first() =~= Seq::<char>::empty());
    assert(encode_utf8(seq![c].drop_first()).len() == 0);
    assert(encode_utf8(seq![c]) == encode_scalar(c as u32) + encode_utf8(seq![c].drop_first()));
}

proof fn lemma_byte_count_ascii(s: Seq<char>)
    requires
        forall|i: int| 0 <= i < s.len() ==> '\0' <= #[trigger] s[i] <= '\u{7f}',
    ensures
        byte_count(s) == s.len(),
{
    vstd::utf8::is_ascii_chars_encode_utf8(s);
}

/// How many bytes one character takes inside a JSON string.
fn escaped_width(c: char) -> (n: u64)
    ensures
        n == byte_count(escaped_char(c)),
        1 <= n <= 6,
{
    proof {
        if c != '"' && c != '\\' && (c as u32) >= 0x20 {
            lemma_byte_count_one(c);
        } else {
            lemma_byte_count_ascii(escaped_char(c));
        }
    }
    if c == '"' || c == '\\' || c == '\n' || c == '\r' || c == '\t' || c == '\u{08}' || c
        == '\u{0C}' {
        2
    } else {
        let code: u32 = c as u32;
        if code < 0x20 {
            6
        } else if code < 0x80 {
            1
        } else if code < 0x800 {
            2
        } else if code < 0x10000 {
            3
        } else {
            4
        }
    }
}

/// The byte length of `s` as a JSON string.
pub fn json_string_len(s: &str) -> (n: u64)
    ensures
        n == saturate(byte_count(json_string(s@))),
{
    let mut n: u64 = 2;
    for c in it: s.chars()
        invariant
            it.seq() == s@,
            n == saturate(2 + byte_count(escaped_text(s@.take(it.index())))),
    {
        proof {
            let k = it.index();
            assert(s@.take(k + 1).drop_last() =~= s@.take(k));
            assert(s@.take(k + 1).last() == s@[k]);
            assert(c == s@[k]);
            lemma_byte_count_join(escaped_text(s@.take(k)), escaped_char(c));
        }
        let w: u64 = escaped_width(c);
        n = n.saturating_add(w);
    }
    proof {
        assert(s@.take(s@.len() as int) =~= s@);
        lemma_byte_count_join(seq!['"'], escaped_text(s@));
        lemma_byte_count_join(seq!['"'] + escaped_text(s@), seq!['"']);
        lemma_byte_count_ascii(seq!['"']);
    }
    n
}

/// The byte length of a label set as a JSON object, without rendering it.
pub fn rendered_labels_json_len(labels: &LabelSet) -> (n: u64)
    ensures
        n == saturate(byte_count(json_object(labels_view(labels@)))),
{
    let ghost view = labels_view(labels@);
    let mut n: u64 = 2;
    let mut i: usize = 0;
    proof {
        assert(view.take(0) =~= Seq::<PairView>::empty());
        assert(byte_count(Seq::<char>::empty()) == 0);
    }
    while i < labels.len()
        invariant
            i <= labels@.len(),
            view == labels_view(labels@),
            n == saturate(2 + byte_count(json_members(view.take(i as int)))),
        decreases labels@.len() - i,
    {
        proof {
            let next = view.take(i as int + 1);
            let head = json_members(view.take(i as int));
            assert(next.drop_last() =~= view.take(i as int));
            assert(next.last() == view[i as int]);
            assert(view[i as int] == (labels@[i as int].0@, labels@[i as int].1@));
            let lead = if next.len() > 1 {
                head.push(',')
            } else {
                head
            };
            let (name, value) = next.last();
            lemma_byte_count_join(lead + json_string(name) + seq![':'], json_string(value));
            lemma_byte_count_join(lead + json_string(name), seq![':']);
            lemma_byte_count_join(lead, json_string(name));
            assert(head.push(',') =~= head + seq![',']);
            lemma_byte_count_join(head, seq![',']);
            lemma_byte_count_ascii(seq![',']);
            lemma_byte_count_ascii(seq![':']);
        }
        if i > 0 {
            n = n.saturating_add(1);
        }
        n = n.saturating_add(json_string_len(labels[i].0.as_str())).saturating_add(
            1,
        ).saturating_add(json_string_len(labels[i].1.as_str()));
        i = i + 1;
    }
    proof {
        assert(view.take(view.len() as int) =~= view);
        lemma_byte_count_join(seq!['{'], json_members(view));
        lemma_byte_count_join(seq!['{'] + json_members(view), seq!['}']);
        lemma_byte_count_ascii(seq!['{']);
        lemma_byte_count_ascii(seq!['}']);
    }
    n
}

} // verus!
