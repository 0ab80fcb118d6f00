//! Which texts spell a number.
use vstd::prelude::*;

verus! {

/// Whether a character is a decimal digit.
pub open spec fn is_digit(c: char) -> bool {
    '0' <= c <= '9'
}

/// Whether a text is decimal digits throughout.
pub open spec fn all_digits(s: Seq<char>) -> bool {
    forall|i: int| 0 <= i < s.len() ==> is_digit(#[trigger] s[i])
}

/// The number that decimal digits spell.
pub open spec fn digits_value(s: Seq<char>) -> int
    decreases s.len(),
{
    if s.len() == 0 {
        0
    } else {
        10 * digits_value(s.drop_last()) + (s.last() as int - '0' as int)
    }
}

/// Whether a text starts with a sign.
pub open spec fn is_signed(s: Seq<char>) -> bool {
    s.len() > 0 && (s[0] == '+' || s[0] == '-')
}

/// A text without its sign.
pub open spec fn unsigned(s: Seq<char>) -> Seq<char> {
    if is_signed(s) {
        s.skip(1)
    } else {
        s
    }
}

/// Whether a text spells a signed 64-bit integer in decimal: an optional sign and
/// at least one digit.
pub open spec fn spells_integer(s: Seq<char>) -> bool {
    let body = unsigned(s);
    let limit: int = if is_signed(s) && s[0] == '-' {
        0x8000_0000_0000_0000
    } else {
        0x7FFF_FFFF_FFFF_FFFF
    };
    body.len() > 0 && all_digits(body) && digits_value(body) <= limit
}

/// A letter in lower case.
pub open spec fn lowered(c: char) -> char {
    if 'A' <= c <= 'Z' {
        ((c as int) + 32) as char
    } else {
        c
    }
}

/// Whether a text is a lower-case word, in either case.
pub open spec fn is_word(s: Seq<char>, word: Seq<char>) -> bool {
    s.len() == word.len() && forall|i: int|
        0 <= i < s.len() ==> lowered(#[trigger] s[i]) == word[i]
}

/// Whether a text is digits with at most one point among them.
pub open spec fn is_mantissa(s: Seq<char>) -> bool {
    ||| s.len() > 0 && all_digits(s)
    ||| s.len() > 1 && exists|d: int|
        0 <= d < s.len() && #[trigger] s[d] == '.' && all_digits(s.take(d)) && all_digits(
            s.skip(d + 1),
        )
}

/// Whether a text is an exponent: a letter, an optional sign and digits.
pub open spec fn is_exponent(s: Seq<char>) -> bool {
    &&& s.len() > 0
    &&& s[0] == 'e' || s[0] == 'E'
    &&& unsigned(s.skip(1)).len() > 0
    &&& all_digits(unsigned(s.skip(1)))
}

/// Whether a text spells a floating-point number: an optional sign, then infinity,
/// not-a-number, or a mantissa with an optional exponent.
pub open spec fn spells_float(s: Seq<char>) -> bool {
    let body = unsigned(s);
    ||| is_word(body, seq!['i', 'n', 'f'])
    ||| is_word(body, seq!['i', 'n', 'f', 'i', 'n', 'i', 't', 'y'])
    ||| is_word(body, seq!['n', 'a', 'n'])
    ||| exists|k: int|
        0 <= k <= body.len() && #[trigger] is_mantissa(body.take(k)) && (k == body.len()
            || is_exponent(body.skip(k)))
}

/// The characters of a text.
pub fn char_list(s: &str) -> (out: Vec<char>)
    ensures
        out@ == s@,
{
    let mut out: Vec<char> = Vec::new();
    for c in it: s.chars()
        invariant
            it.seq() == s@,
            out@ == s@.take(it.index() as int),
    {
        out.push(c);
        proof {
            assert(out@ =~= s@.take(it.index() as int + 1));
        }
    }
    proof {
        assert(s@.take(s@.len() as int) =~= s@);
    }
    out
}

/// The first position from `from` on that holds no digit.
fn digits_end(s: &Vec<char>, from: usize) -> (end: usize)
    requires
        from <= s@.len(),
    ensures
        from <= end <= s@.len(),
        all_digits(s@.subrange(from as int, end as int)),
        end < s@.len() ==> !is_digit(s@[end as int]),
{
    let mut i: usize = from;
    while i < s.len() && '0' <= s[i] && s[i] <= '9'
        invariant
            from <= i <= s@.len(),
            forall|j: int| from <= j < i ==> is_digit(#[trigger] s@[j]),
        decreases s@.len() - i,
    {
        i = i + 1;
    }
    proof {
        let part = s@.subrange(from as int, i as int);
        assert forall|j: int| 0 <= j < part.len() implies is_digit(#[trigger] part[j]) by {
            assert(part[j] == s@[from + j]);
        }
    }
    i
}

/// Where the text after a sign starts.
fn sign_end(s: &Vec<char>, from: usize) -> (end: usize)
    requires
        from <= s@.len(),
    ensures
        from <= end <= s@.len(),
        s@.skip(end as int) == unsigned(s@.skip(from as int)),
        end == from || end == from + 1,
        end == from + 1 <==> is_signed(s@.skip(from as int)),
{
    if from < s.len() && (s[from] == '+' || s[from] == '-') {
        proof {
            assert(s@.skip(from as int).skip(1) =~= s@.skip(from + 1));
        }
        from + 1
    } else {
        from
    }
}

proof fn lemma_digits_value_grows(s: Seq<char>, k: int)
    requires
        all_digits(s),
        0 <= k <= s.len(),
    ensures
        0 <= digits_value(s.take(k)) <= digits_value(s),
    decreases s.len(),
{
    if k == s.len() {
        assert(s.take(k) =~= s);
        if s.len() > 0 {
            assert(all_digits(s.drop_last()));
            assert(is_digit(s.last()));
            lemma_digits_value_grows(s.drop_last(), s.len() - 1);
            assert(s.drop_last().take(s.len() - 1) =~= s.drop_last());
        }
    } else {
        assert(all_digits(s.drop_last()));
        assert(is_digit(s.last()));
        lemma_digits_value_grows(s.drop_last(), k);
        assert(s.drop_last().take(k) =~= s.take(k));
    }
}

/// Whether a text spells a signed 64-bit integer.
pub fn is_integer(value: &str) -> (r: bool)
    ensures
        r == spells_integer(value@),
{
    let s = char_list(value);
    proof {
        assert(s@.skip(0) =~= s@);
    }
    let start: usize = sign_end(&s, 0);
    let end: usize = digits_end(&s, start);
    let ghost body = unsigned(value@);
    proof {
        assert(body == s@.skip(start as int));
    }
    if end < s.len() || start == s.len() {
        proof {
            if end < s.len() {
                assert(body[end - start] == s@[end as int]);
                assert(!all_digits(body));
            }
        }
        return false;
    }
    proof {
        assert(s@.subrange(start as int, end as int) =~= body);
    }
    let limit: u64 = if start == 1 && s[0] == '-' {
        0x8000_0000_0000_0000
    } else {
        0x7FFF_FFFF_FFFF_FFFF
    };
    let mut n: u64 = 0;
    let mut i: usize = start;
    proof {
        assert(body.take(0) =~= Seq::<char>::empty());
    }
    while i < end
        invariant
            start <= i <= end == s@.len(),
            body == s@.skip(start as int),
            all_digits(body),
            n == digits_value(body.take(i - start)),
            n <= limit <= 0x8000_0000_0000_0000,
            !(spells_integer(value@)) || digits_value(body) <= limit,
        decreases end - i,
    {
        proof {
            let next = body.take(i + 1 - start);
            assert(next.drop_last() =~= body.take(i - start));
            assert(next.last() == s@[i as int]);
            assert(is_digit(body[i - start]));
            lemma_digits_value_grows(body, i + 1 - start);
        }
        let digit: u64 = (s[i] as u32 - '0' as u32) as u64;
        let wide: u128 = (n as u128) * 10 + digit as u128;
        if wide > limit as u128 {
            return false;
        }
        n = wide as u64;
        i = i + 1;
    }
    proof {
        assert(body.take(body.len() as int) =~= body);
    }
    true
}

/// Whether the characters from `from` on are a lower-case word, in either case.
fn word_at(s: &Vec<char>, from: usize, word: &[char]) -> (r: bool)
    requires
        from <= s@.len(),
    ensures
        r == is_word(s@.skip(from as int), word@),
{
    let ghost body = s@.skip(from as int);
    if s.len() - from != word.len() {
        return false;
    }
    let mut i: usize = 0;
    while i < word.len()
        invariant
            body == s@.skip(from as int),
            from <= s@.len(),
            body.len() == word@.len(),
            i <= word@.len(),
            forall|j: int| 0 <= j < i ==> lowered(#[trigger] body[j]) == word@[j],
        decreases word@.len() - i,
    {
        proof {
            assert(body.len() == s.len() - from);
        }
        let c: char = s[from + i];
        let low: char = if 'A' <= c && c <= 'Z' {
            (c as u8 + 32) as char
        } else {
            c
        };
        proof {
            assert(body[i as int] == c);
            assert(low == lowered(c));
        }
        if low != word[i] {
            return false;
        }
        i = i + 1;
    }
    true
}

/// What stops a mantissa: it can hold nothing but digits and a point.
proof fn lemma_mantissa_chars(s: Seq<char>)
    requires
        is_mantissa(s),
    ensures
        s.len() > 0,
        forall|i: int| 0 <= i < s.len() ==> is_digit(#[trigger] s[i]) || s[i] == '.',
        forall|i: int, j: int|
            0 <= i < j < s.len() && #[trigger] s[i] == '.' ==> #[trigger] s[j] != '.',
{
    if !(s.len() > 0 && all_digits(s)) {
        let d = choose|d: int|
            0 <= d < s.len() && #[trigger] s[d] == '.' && all_digits(s.take(d)) && all_digits(
                s.skip(d + 1),
            );
        assert forall|i: int| 0 <= i < s.len() && i != d implies is_digit(#[trigger] s[i]) by {
            if i < d {
                assert(s.take(d)[i] == s[i]);
            } else {
                assert(s.skip(d + 1)[i - d - 1] == s[i]);
            }
        }
    }
}

/// Where a mantissa can end at the latest: at the first character that is neither
/// a digit nor the first point.
fn mantissa_end(s: &Vec<char>, from: usize) -> (end: usize)
    requires
        from <= s@.len(),
    ensures
        from <= end <= s@.len(),
        forall|i: int| from <= i < end ==> is_digit(#[trigger] s@[i]) || s@[i] == '.',
        forall|i: int, j: int|
            from <= i < j < end && #[trigger] s@[i] == '.' ==> #[trigger] s@[j] != '.',
        end < s@.len() ==> !is_digit(s@[end as int]) && (s@[end as int] == '.' ==> exists|d: int|
            from <= d < end && #[trigger] s@[d] == '.'),
        is_mantissa(s@.subrange(from as int, end as int)) <==> (exists|i: int|
            from <= i < end && is_digit(#[trigger] s@[i])),
{
    let whole: usize = digits_end(s, from);
    proof {
        assert forall|i: int| from <= i < whole implies is_digit(#[trigger] s@[i]) by {
            assert(s@.subrange(from as int, whole as int)[i - from] == s@[i]);
        }
    }
    if whole < s.len() && s[whole] == '.' {
        let end: usize = digits_end(s, whole + 1);
        proof {
            assert forall|i: int| whole < i < end implies is_digit(#[trigger] s@[i]) by {
                assert(s@.subrange(whole + 1, end as int)[i - whole - 1] == s@[i]);
            }
            let part = s@.subrange(from as int, end as int);
            let d = whole - from;
            assert(part[d] == '.');
            assert(part.take(d) =~= s@.subrange(from as int, whole as int));
            assert(part.skip(d + 1) =~= s@.subrange(whole + 1, end as int));
            if part.len() > 1 {
                assert(is_mantissa(part));
                if whole > from {
                    assert(is_digit(s@[from as int]));
                } else {
                    assert(is_digit(s@[whole + 1]));
                }
            } else {
                assert(!all_digits(part)) by {
                    assert(!is_digit(part[0]));
                }
            }
        }
        end
    } else {
        proof {
            let part = s@.subrange(from as int, whole as int);
            assert(all_digits(part));
            if part.len() > 0 {
                assert(is_digit(s@[from as int]));
            }
        }
        whole
    }
}

/// Whether a text spells a floating-point number.
pub fn is_float(value: &str) -> (r: bool)
    ensures
        r == spells_float(value@),
{
    let s = char_list(value);
    proof {
        assert(s@.skip(0) =~= s@);
    }
    let start: usize = sign_end(&s, 0);
    let ghost body = unsigned(value@);
    proof {
        assert(body == s@.skip(start as int));
    }
    let inf: [char; 3] = ['i', 'n', 'f'];
    let infinity: [char; 8] = ['i', 'n', 'f', 'i', 'n', 'i', 't', 'y'];
    let nan: [char; 3] = ['n', 'a', 'n'];
    proof {
        assert(inf@ =~= seq!['i', 'n', 'f']);
        assert(infinity@ =~= seq!['i', 'n', 'f', 'i', 'n', 'i', 't', 'y']);
        assert(nan@ =~= seq!['n', 'a', 'n']);
    }
    if word_at(&s, start, &inf) || word_at(&s, start, &infinity) || word_at(&s, start, &nan) {
        return true;
    }
    is_number_from(&s, start)
}

/// Whether the characters from `start` on are a mantissa with an optional
/// exponent.
fn is_number_from(s: &Vec<char>, start: usize) -> (r: bool)
    requires
        start <= s@.len(),
    ensures
        r == exists|k: int|
            0 <= k <= s@.skip(start as int).len() && #[trigger] is_mantissa(
                s@.skip(start as int).take(k),
            ) && (k == s@.skip(start as int).len() || is_exponent(s@.skip(start as int).skip(k))),
{
    let ghost body = s@.skip(start as int);
    let end: usize = mantissa_end(s, start);
    let ghost m = end - start;
    let mut digits: bool = false;
    let mut i: usize = start;
    while i < end
        invariant
            start <= i <= end <= s@.len(),
            digits == exists|j: int| start <= j < i && is_digit(#[trigger] s@[j]),
        decreases end - i,
    {
        if '0' <= s[i] && s[i] <= '9' {
            digits = true;
            proof {
                assert(is_digit(s@[i as int]));
            }
        }
        i = i + 1;
    }
    proof {
        assert(s@.subrange(start as int, end as int) =~= body.take(m));
        assert(digits == is_mantissa(body.take(m)));
        assert forall|k: int|
            0 <= k <= body.len() && #[trigger] is_mantissa(body.take(k)) && (k == body.len()
                || is_exponent(body.skip(k))) implies k == m by {
            let t = body.take(k);
            lemma_mantissa_chars(t);
            if k > m {
                assert(t[m] == s@[end as int]);
                assert(is_digit(t[m]) || t[m] == '.');
                if s@[end as int] == '.' {
                    let d = choose|d: int| start <= d < end && #[trigger] s@[d] == '.';
                    assert(t[d - start] == '.');
                    assert(t[m] != '.');
                }
            }
            if k < m {
                assert(body.skip(k)[0] == s@[start + k]);
                assert(is_digit(s@[start + k]) || s@[start + k] == '.');
            }
        }
    }
    if !digits {
        return false;
    }
    if end == s.len() {
        return true;
    }
    let ghost tail = body.skip(m);
    proof {
        assert(tail =~= s@.skip(end as int));
        assert(tail[0] == s@[end as int]);
    }
    if s[end] != 'e' && s[end] != 'E' {
        return false;
    }
    let from: usize = sign_end(s, end + 1);
    let stop: usize = digits_end(s, from);
    proof {
        assert(tail.skip(1) =~= s@.skip(end + 1));
        let rest = unsigned(tail.skip(1));
        assert(rest == s@.skip(from as int));
        if stop < s@.len() {
            assert(rest[stop - from] == s@[stop as int]);
            assert(!all_digits(rest));
        } else {
            assert(rest =~= s@.subrange(from as int, stop as int));
        }
    }
    stop == s.len() && from < s.len()
}

} // verus!
