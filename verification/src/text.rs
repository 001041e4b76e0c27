//! Characters and strings: decimal text, splitting and trimming, and
//! collecting results the way `collect` into a `Result` does.
use vstd::prelude::*;

verus! {

/// The character of a decimal digit `d < 10`.
pub open spec fn digit_char(d: nat) -> char {
    ((d + 48) as u32) as char
}

/// The decimal representation of `n`, without sign or leading zeros.
pub open spec fn decimal(n: nat) -> Seq<char>
    decreases n,
{
    if n < 10 {
        seq![digit_char(n)]
    } else {
        decimal(n / 10).push(digit_char(n % 10))
    }
}

/// Appends `c` to `s` by std's `String::push`. Trusted: the contract claims
/// that afterwards `s` holds its former characters followed by `c`.
#[verifier::external_body]
fn push_char(s: &mut String, c: char)
    ensures
        final(s)@ == old(s)@.push(c),
{
    s.push(c);
}

/// Appends the decimal representation of `n` to `s`.
pub fn write_decimal(n: usize, s: &mut String)
    ensures
        final(s)@ == old(s)@ + decimal(n as nat),
    decreases n,
{
    if n >= 10 {
        write_decimal(n / 10, s);
    }
    let d: u8 = (n % 10) as u8;
    let c: char = (d + 48) as char;
    push_char(s, c);
    proof {
        assert(c == digit_char((n % 10) as nat));
    }
}

/// The characters of `s`, in order.
pub fn chars_of(s: &str) -> (v: Vec<char>)
    ensures
        v@ == s@,
{
    let mut v: Vec<char> = Vec::new();
    for c in it: s.chars()
        invariant
            v@ == it.seq().take(it.index() as int),
            it.seq() == s@,
    {
        v.push(c);
    }
    v
}

/// `c` has the Unicode `White_Space` property (what `char::is_whitespace`
/// tests): U+0009..=U+000D, U+0020, U+0085, U+00A0, U+1680, U+2000..=U+200A,
/// U+2028, U+2029, U+202F, U+205F and U+3000.
pub open spec fn is_white_space(c: char) -> bool {
    let u = c as u32;
    ||| 0x09 <= u <= 0x0d
    ||| u == 0x20
    ||| u == 0x85
    ||| u == 0xa0
    ||| u == 0x1680
    ||| 0x2000 <= u <= 0x200a
    ||| u == 0x2028
    ||| u == 0x2029
    ||| u == 0x202f
    ||| u == 0x205f
    ||| u == 0x3000
}

/// Computes `is_white_space(c)`.
pub fn white_space(c: char) -> (ws: bool)
    ensures
        ws == is_white_space(c),
{
    let u = c as u32;
    (0x09 <= u && u <= 0x0d) || u == 0x20 || u == 0x85 || u == 0xa0 || u == 0x1680 || (0x2000 <= u
        && u <= 0x200a) || u == 0x2028 || u == 0x2029 || u == 0x202f || u == 0x205f || u == 0x3000
}

/// `s` without its leading white space.
pub open spec fn trim_start(s: Seq<char>) -> Seq<char>
    decreases s.len(),
{
    if s.len() > 0 && is_white_space(s[0]) {
        trim_start(s.drop_first())
    } else {
        s
    }
}

/// `s` without its trailing white space.
pub open spec fn trim_end(s: Seq<char>) -> Seq<char>
    decreases s.len(),
{
    if s.len() > 0 && is_white_space(s.last()) {
        trim_end(s.drop_last())
    } else {
        s
    }
}

/// `s` without leading and trailing white space (what `str::trim` gives).
pub open spec fn trim(s: Seq<char>) -> Seq<char> {
    trim_end(trim_start(s))
}

/// The bounds, within `lo..hi`, of `v[lo..hi]` trimmed.
pub fn trim_bounds(v: &Vec<char>, lo: usize, hi: usize) -> (bounds: (usize, usize))
    requires
        lo <= hi <= v@.len(),
    ensures
        lo <= bounds.0 <= bounds.1 <= hi,
        v@.subrange(bounds.0 as int, bounds.1 as int) == trim(v@.subrange(lo as int, hi as int)),
{
    let mut a = lo;
    while a < hi && white_space(v[a])
        invariant
            lo <= a <= hi <= v@.len(),
            trim_start(v@.subrange(lo as int, hi as int)) == trim_start(v@.subrange(a as int, hi as int)),
        decreases hi - a,
    {
        assert(v@.subrange(a as int, hi as int).drop_first() == v@.subrange(a + 1, hi as int));
        a = a + 1;
    }
    let mut b = hi;
    while b > a && white_space(v[b - 1])
        invariant
            lo <= a <= b <= hi <= v@.len(),
            trim_end(v@.subrange(a as int, hi as int)) == trim_end(v@.subrange(a as int, b as int)),
        decreases b - a,
    {
        assert(v@.subrange(a as int, b as int).drop_last() == v@.subrange(a as int, b - 1));
        b = b - 1;
    }
    (a, b)
}

/// The pieces of `s` between occurrences of `sep` (what `str::split` with a
/// `char` pattern yields): one piece more than there are separators.
pub open spec fn split_on(s: Seq<char>, sep: char) -> Seq<Seq<char>>
    decreases s.len(),
{
    if s.len() == 0 {
        seq![Seq::empty()]
    } else {
        let pieces = split_on(s.drop_last(), sep);
        if s.last() == sep {
            pieces.push(Seq::empty())
        } else {
            pieces.update(pieces.len() - 1, pieces.last().push(s.last()))
        }
    }
}

/// There is always at least one piece.
pub proof fn lemma_split_on_nonempty(s: Seq<char>, sep: char)
    ensures
        split_on(s, sep).len() >= 1,
    decreases s.len(),
{
    if s.len() > 0 {
        lemma_split_on_nonempty(s.drop_last(), sep);
    }
}

/// The character sequences of `fields`.
pub open spec fn views_of(fields: Seq<Vec<char>>) -> Seq<Seq<char>> {
    Seq::new(fields.len(), |i: int| fields[i]@)
}

/// Splits `v` at every `sep`.
pub fn split_chars(v: &Vec<char>, sep: char) -> (fields: Vec<Vec<char>>)
    ensures
        views_of(fields@) == split_on(v@, sep),
{
    let mut fields: Vec<Vec<char>> = Vec::new();
    let mut current: Vec<char> = Vec::new();
    for i in 0..v.len()
        invariant
            views_of(fields@).push(current@) == split_on(v@.take(i as int), sep),
    {
        let ghost before = v@.take(i as int);
        proof {
            assert(v@.take(i + 1).drop_last() == before);
            lemma_split_on_nonempty(before, sep);
        }
        if v[i] == sep {
            let field = current;
            fields.push(field);
            current = Vec::new();
            assert(views_of(fields@).push(current@) == split_on(v@.take(i + 1), sep));
        } else {
            current.push(v[i]);
            assert(views_of(fields@).push(current@) == split_on(v@.take(i + 1), sep));
        }
    }
    fields.push(current);
    assert(v@.take(v.len() as int) == v@);
    assert(views_of(fields@) == split_on(v@, sep));
    fields
}

/// A `String` holding `v[lo..hi]`.
pub fn string_of_range(v: &Vec<char>, lo: usize, hi: usize) -> (s: String)
    requires
        lo <= hi <= v@.len(),
    ensures
        s@ == v@.subrange(lo as int, hi as int),
{
    let mut s = String::new();
    for i in lo..hi
        invariant
            hi <= v@.len(),
            s@ == v@.subrange(lo as int, i as int),
    {
        push_char(&mut s, v[i]);
        assert(v@.subrange(lo as int, i + 1) == v@.subrange(lo as int, i as int).push(v@[i as int]));
    }
    s
}

/// A vector holding `v[lo..hi]`.
pub fn chars_of_range(v: &Vec<char>, lo: usize, hi: usize) -> (w: Vec<char>)
    requires
        lo <= hi <= v@.len(),
    ensures
        w@ == v@.subrange(lo as int, hi as int),
{
    let mut w: Vec<char> = Vec::new();
    for i in lo..hi
        invariant
            hi <= v@.len(),
            w@ == v@.subrange(lo as int, i as int),
    {
        w.push(v[i]);
        assert(v@.subrange(lo as int, i + 1) == v@.subrange(lo as int, i as int).push(v@[i as int]));
    }
    w
}

/// The outcome of collecting a sequence of results: the first error, or
/// every value when there is none (what `collect` into a `Result` gives).
pub open spec fn collect_all<T>(results: Seq<Result<T, Seq<char>>>) -> Result<Seq<T>, Seq<char>>
    decreases results.len(),
{
    if results.len() == 0 {
        Ok(Seq::empty())
    } else {
        match collect_all(results.drop_last()) {
            Err(e) => Err(e),
            Ok(values) => match results.last() {
                Ok(v) => Ok(values.push(v)),
                Err(e) => Err(e),
            },
        }
    }
}

/// Once a prefix of the results holds an error, the whole does too.
pub proof fn lemma_collect_all_error<T>(results: Seq<Result<T, Seq<char>>>, j: int, e: Seq<char>)
    requires
        0 <= j <= results.len(),
        collect_all(results.take(j)) == Err::<Seq<T>, Seq<char>>(e),
    ensures
        collect_all(results) == Err::<Seq<T>, Seq<char>>(e),
    decreases results.len() - j,
{
    if j < results.len() {
        assert(results.take(j + 1).drop_last() == results.take(j));
        lemma_collect_all_error(results, j + 1, e);
    } else {
        assert(results.take(j) == results);
    }
}

/// Extending an error-free prefix by one result.
pub proof fn lemma_collect_all_step<T>(results: Seq<Result<T, Seq<char>>>, j: int)
    requires
        0 <= j < results.len(),
    ensures
        collect_all(results.take(j + 1)) == match collect_all(results.take(j)) {
            Err(e) => Err(e),
            Ok(values) => match results[j] {
                Ok(v) => Ok(values.push(v)),
                Err(e) => Err::<Seq<T>, Seq<char>>(e),
            },
        },
{
    assert(results.take(j + 1).drop_last() == results.take(j));
}

/// The whole sequence is its longest prefix.
pub proof fn lemma_collect_all_full<T>(results: Seq<Result<T, Seq<char>>>)
    ensures
        collect_all(results.take(results.len() as int)) == collect_all(results),
{
    assert(results.take(results.len() as int) == results);
}

} // verus!
