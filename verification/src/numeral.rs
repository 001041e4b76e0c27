//! The textual forms of numbers that the command line accepts: unsigned
//! decimal integers, and the `f32` literals `str::parse::<f32>` accepts.
use vstd::prelude::*;

verus! {

/// `c` is an ASCII decimal digit.
pub open spec fn is_digit(c: char) -> bool {
    48 <= (c as u32) <= 57
}

/// The value of the digit `c`.
pub open spec fn digit_value(c: char) -> nat {
    ((c as u32) - 48) as nat
}

/// Every character of `s` is an ASCII decimal digit.
pub open spec fn all_digits(s: Seq<char>) -> bool {
    forall|i: int| 0 <= i < s.len() ==> is_digit(s[i])
}

/// The value of the decimal numeral `s`.
pub open spec fn digits_value(s: Seq<char>) -> nat
    decreases s.len(),
{
    if s.len() == 0 {
        0
    } else {
        digits_value(s.drop_last()) * 10 + digit_value(s.last())
    }
}

/// `s` without a leading `+`.
pub open spec fn without_plus(s: Seq<char>) -> Seq<char> {
    if s.len() > 0 && s[0] == '+' {
        s.drop_first()
    } else {
        s
    }
}

/// What `str::parse` gives for an unsigned integer type whose largest value
/// is `max`: an optional `+` and then one or more ASCII digits, whose value
/// must not exceed `max`.
pub open spec fn unsigned_value(s: Seq<char>, max: nat) -> Option<nat> {
    let d = without_plus(s);
    if d.len() > 0 && all_digits(d) && digits_value(d) <= max {
        Some(digits_value(d))
    } else {
        None
    }
}

/// A numeral's value is at least that of each of its prefixes.
pub proof fn lemma_digits_value_prefix(s: Seq<char>, i: int)
    requires
        0 <= i <= s.len(),
    ensures
        digits_value(s.take(i)) <= digits_value(s),
    decreases s.len() - i,
{
    if i < s.len() {
        lemma_digits_value_prefix(s, i + 1);
        assert(s.take(i + 1).drop_last() == s.take(i));
    } else {
        assert(s.take(i) == s);
    }
}

/// Parses `s` as an unsigned integer no larger than `max`.
pub fn parse_unsigned(s: &Vec<char>, max: u64) -> (value: Option<u64>)
    ensures
        match unsigned_value(s@, max as nat) {
            Some(v) => value == Some(v as u64),
            None => value is None,
        },
{
    let len = s.len();
    let start: usize = if len > 0 && s[0] == '+' { 1 } else { 0 };
    let ghost d = without_plus(s@);
    assert(d == s@.subrange(start as int, len as int));
    if start == len {
        return None;
    }
    let mut acc: u128 = 0;
    let mut i = start;
    while i < len
        invariant
            start <= i <= len == s@.len(),
            d == s@.subrange(start as int, len as int),
            d == without_plus(s@),
            all_digits(d.take(i - start)),
            acc == digits_value(d.take(i - start)),
            acc <= max,
        decreases len - i,
    {
        let c = s[i];
        let code = c as u32;
        assert(d[i - start] == c);
        if code < 48 || code > 57 {
            assert(!is_digit(d[i - start]));
            return None;
        }
        let ghost prev = acc;
        proof {
            assert(d.take(i - start + 1).drop_last() == d.take(i - start));
            assert(d.take(i - start + 1).last() == c);
            assert(digit_value(c) == code - 48);
        }
        acc = acc * 10 + (code - 48) as u128;
        assert(acc == digits_value(d.take(i - start + 1)));
        if acc > max as u128 {
            proof {
                if all_digits(d) {
                    lemma_digits_value_prefix(d, i - start + 1);
                }
            }
            return None;
        }
        i = i + 1;
    }
    assert(d.take(len - start) == d);
    Some(acc as u64)
}

/// `c` in ASCII lower case.
pub open spec fn ascii_lower(c: char) -> char {
    if 65 <= (c as u32) <= 90 {
        ((c as u32) + 32) as char
    } else {
        c
    }
}

/// `s` equals the lower-case `word` up to ASCII case.
pub open spec fn eq_ignore_case(s: Seq<char>, word: Seq<char>) -> bool {
    s.len() == word.len() && forall|i: int| 0 <= i < s.len() ==> ascii_lower(s[i]) == word[i]
}

/// `s` without one leading `+` or `-`.
pub open spec fn without_sign(s: Seq<char>) -> Seq<char> {
    if s.len() > 0 && (s[0] == '+' || s[0] == '-') {
        s.drop_first()
    } else {
        s
    }
}

/// `Digit+ | Digit+ '.' Digit* | Digit* '.' Digit+`: digits with at most one
/// decimal point, and at least one digit.
pub open spec fn is_mantissa(m: Seq<char>) -> bool {
    &&& forall|i: int| 0 <= i < m.len() ==> is_digit(m[i]) || m[i] == '.'
    &&& forall|i: int, j: int| 0 <= i < m.len() && 0 <= j < m.len() && m[i] == '.' && m[j] == '.' ==> i == j
    &&& exists|i: int| 0 <= i < m.len() && is_digit(m[i])
}

/// `Sign? Digit+`.
pub open spec fn is_exponent_digits(e: Seq<char>) -> bool {
    let d = without_sign(e);
    d.len() > 0 && all_digits(d)
}

/// `Mantissa ('e' Sign? Digit+)?`, the exponent letter in either case.
pub open spec fn is_number(s: Seq<char>) -> bool {
    ||| is_mantissa(s)
    ||| exists|p: int|
        0 <= p < s.len() && (s[p] == 'e' || s[p] == 'E') && is_mantissa(s.take(p)) && is_exponent_digits(
            s.skip(p + 1),
        )
}

/// The grammar that `str::parse::<f32>` accepts (documented with `f32`'s
/// `FromStr` impl): an optional sign, then `inf`, `infinity`, `nan` (in any
/// ASCII case) or a decimal number with an optional exponent.
pub open spec fn is_float_literal(s: Seq<char>) -> bool {
    let u = without_sign(s);
    ||| eq_ignore_case(u, seq!['i', 'n', 'f'])
    ||| eq_ignore_case(u, seq!['i', 'n', 'f', 'i', 'n', 'i', 't', 'y'])
    ||| eq_ignore_case(u, seq!['n', 'a', 'n'])
    ||| is_number(u)
}

/// Computes `is_digit(c)`.
pub fn digit(c: char) -> (d: bool)
    ensures
        d == is_digit(c),
{
    let code = c as u32;
    48 <= code && code <= 57
}

/// Whether `t[lo..]` equals the lower-case `word` up to ASCII case.
fn word_at(t: &Vec<char>, lo: usize, word: &Vec<char>) -> (eq: bool)
    requires
        lo <= t@.len(),
    ensures
        eq == eq_ignore_case(t@.skip(lo as int), word@),
{
    let n = t.len();
    if n - lo != word.len() {
        return false;
    }
    let mut i: usize = 0;
    while i < word.len()
        invariant
            lo <= t@.len(),
            n == t@.len(),
            lo + word@.len() == t@.len(),
            i <= word@.len(),
            forall|k: int| 0 <= k < i ==> ascii_lower(t@.skip(lo as int)[k]) == word@[k],
        decreases word@.len() - i,
    {
        let c = t[lo + i];
        let code = c as u32;
        let lower = if 65 <= code && code <= 90 {
            char_from_code(code + 32)
        } else {
            c
        };
        assert(t@.skip(lo as int)[i as int] == c);
        if lower != word[i] {
            return false;
        }
        i = i + 1;
    }
    true
}

/// The ASCII letter with code `code`.
fn char_from_code(code: u32) -> (c: char)
    requires
        97 <= code <= 122,
    ensures
        c == code as char,
{
    (code as u8) as char
}

/// Whether `t[a..b]` is a mantissa.
fn mantissa_at(t: &Vec<char>, a: usize, b: usize) -> (ok: bool)
    requires
        a <= b <= t@.len(),
    ensures
        ok == is_mantissa(t@.subrange(a as int, b as int)),
{
    let ghost m = t@.subrange(a as int, b as int);
    let mut dot: Option<usize> = None;
    let mut seen_digit = false;
    let mut i = a;
    while i < b
        invariant
            a <= i <= b <= t@.len(),
            m == t@.subrange(a as int, b as int),
            forall|k: int| 0 <= k < i - a ==> is_digit(m[k]) || m[k] == '.',
            dot matches None ==> forall|k: int| 0 <= k < i - a ==> m[k] != '.',
            dot matches Some(p) ==> a <= p < i && m[p - a] == '.' && forall|k: int|
                0 <= k < i - a && m[k] == '.' ==> k == p - a,
            seen_digit <==> exists|k: int| 0 <= k < i - a && is_digit(m[k]),
        decreases b - i,
    {
        let c = t[i];
        assert(m[i - a] == c);
        if digit(c) {
            seen_digit = true;
        } else if c == '.' {
            match dot {
                Some(p) => {
                    assert(m[p - a] == '.' && m[i - a] == '.' && p - a != i - a);
                    return false;
                },
                None => {
                    dot = Some(i);
                },
            }
        } else {
            return false;
        }
        i = i + 1;
    }
    seen_digit
}

/// Whether `t[a..b]` is an optional sign followed by one or more digits.
fn exponent_at(t: &Vec<char>, a: usize, b: usize) -> (ok: bool)
    requires
        a <= b <= t@.len(),
    ensures
        ok == is_exponent_digits(t@.subrange(a as int, b as int)),
{
    let ghost e = t@.subrange(a as int, b as int);
    let start = if a < b && (t[a] == '+' || t[a] == '-') {
        a + 1
    } else {
        a
    };
    assert(without_sign(e) == t@.subrange(start as int, b as int));
    if start == b {
        return false;
    }
    let mut i = start;
    while i < b
        invariant
            start <= i <= b <= t@.len(),
            e == t@.subrange(a as int, b as int),
            without_sign(e) == t@.subrange(start as int, b as int),
            forall|k: int| start <= k < i ==> is_digit(t@[k]),
        decreases b - i,
    {
        if !digit(t[i]) {
            assert(t@.subrange(start as int, b as int)[i - start] == t@[i as int]);
            assert(!all_digits(without_sign(e)));
            return false;
        }
        i = i + 1;
    }
    assert forall|k: int| 0 <= k < b - start implies is_digit(
        #[trigger] t@.subrange(start as int, b as int)[k],
    ) by {
        assert(t@.subrange(start as int, b as int)[k] == t@[start + k]);
    }
    true
}

/// Whether `t[a..]` is a number.
fn number_at(t: &Vec<char>, a: usize) -> (ok: bool)
    requires
        a <= t@.len(),
    ensures
        ok == is_number(t@.skip(a as int)),
{
    let ghost u = t@.skip(a as int);
    let len = t.len();
    let mut p = a;
    while p < len && t[p] != 'e' && t[p] != 'E'
        invariant
            a <= p <= len == t@.len(),
            forall|k: int| a <= k < p ==> t@[k] != 'e' && t@[k] != 'E',
        decreases len - p,
    {
        p = p + 1;
    }
    assert(t@.subrange(a as int, len as int) == u);
    if p == len {
        let ok = mantissa_at(t, a, len);
        assert forall|q: int| 0 <= q < u.len() implies !(u[q] == 'e' || u[q] == 'E') by {
            assert(u[q] == t@[a + q]);
        }
        return ok;
    }
    let ok = mantissa_at(t, a, p) && exponent_at(t, p + 1, len);
    proof {
        let q0 = p - a;
        assert(u[q0] == t@[p as int]);
        assert(u.take(q0) == t@.subrange(a as int, p as int));
        assert(u.skip(q0 + 1) == t@.subrange(p + 1, len as int));
        if !ok {
            assert(!is_mantissa(u)) by {
                assert(!(is_digit(u[q0]) || u[q0] == '.'));
            }
            assert forall|q: int|
                0 <= q < u.len() && (u[q] == 'e' || u[q] == 'E') && is_mantissa(u.take(q)) implies !is_exponent_digits(
                u.skip(q + 1),
            ) by {
                if q < q0 {
                    assert(u[q] == t@[a + q]);
                } else if q > q0 {
                    assert(u.take(q)[q0] == u[q0]);
                }
            }
        }
    }
    ok
}

/// Whether `t` is a literal `str::parse::<f32>` accepts.
pub fn float_literal(t: &Vec<char>) -> (ok: bool)
    ensures
        ok == is_float_literal(t@),
{
    let start: usize = if t.len() > 0 && (t[0] == '+' || t[0] == '-') {
        1
    } else {
        0
    };
    assert(without_sign(t@) == t@.skip(start as int));
    let inf = vec!['i', 'n', 'f'];
    let infinity = vec!['i', 'n', 'f', 'i', 'n', 'i', 't', 'y'];
    let nan = vec!['n', 'a', 'n'];
    assert(inf@ == seq!['i', 'n', 'f']);
    assert(infinity@ == seq!['i', 'n', 'f', 'i', 'n', 'i', 't', 'y']);
    assert(nan@ == seq!['n', 'a', 'n']);
    word_at(t, start, &inf) || word_at(t, start, &infinity) || word_at(t, start, &nan) || number_at(
        t,
        start,
    )
}

} // verus!
