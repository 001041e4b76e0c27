//! Properties that relate several functions of the library.
use vstd::prelude::*;

use crate::numeral::{
    ascii_lower, eq_ignore_case, is_exponent_digits, is_float_literal, is_mantissa, is_number,
    without_sign, all_digits, digit_value, digits_value, is_digit, unsigned_value, without_plus};
use crate::ranking::{holds, is_top_k, no_nan, omits, ranks_before, search};
use crate::score::{
    is_nan, score_le, is_negative_zero, lemma_score_le_is_total_order, lemma_total_key_injective, total_key,
};
use crate::text::{decimal, digit_char, is_white_space};
use crate::vote::{count_of, votes_of, wins_vote};

verus! {

/// Decimal text read back: for every `n <= max`, parsing the decimal
/// representation of `n` as an unsigned integer no larger than `max` gives
/// `n` (what `KernelError::message` writes, `parse_usize` reads).
pub proof fn decimal_round_trip(n: nat, max: nat)
    requires
        n <= max,
    ensures
        unsigned_value(decimal(n), max) == Some(n),
{
    lemma_decimal_digits(n);
    assert(without_plus(decimal(n)) == decimal(n)) by {
        assert(is_digit(decimal(n)[0]));
    }
}

proof fn lemma_decimal_digits(n: nat)
    ensures
        decimal(n).len() > 0,
        all_digits(decimal(n)),
        digits_value(decimal(n)) == n,
    decreases n,
{
    let last = (n % 10) as nat;
    assert(digit_char(last) as u32 == last + 48);
    if n >= 10 {
        lemma_decimal_digits(n / 10);
        let d = decimal(n);
        assert(n == (n / 10) * 10 + last);
        assert(d.drop_last() == decimal(n / 10));
        assert(d.last() == digit_char(n % 10));
        assert(digit_value(d.last()) == last);
        assert(digits_value(d) == digits_value(d.drop_last()) * 10 + digit_value(d.last()));
        assert(digits_value(d.drop_last()) == n / 10);
        assert(digits_value(d) == n);
        assert forall|i: int| 0 <= i < d.len() implies is_digit(d[i]) by {
            if i < d.len() - 1 {
                assert(d[i] == decimal(n / 10)[i]);
            }
        }
    } else {
        let d = decimal(n);
        assert(d.drop_last() == Seq::<char>::empty());
        assert(digit_value(d.last()) == n);
        assert(digits_value(d.drop_last()) == 0);
        assert(digits_value(d) == digits_value(d.drop_last()) * 10 + digit_value(d.last()));
    }
}

/// The ranking is unique: two rankings of the first `k` candidates of the
/// same scores are equal.
pub proof fn top_k_is_unique(r1: Seq<(usize, u32)>, r2: Seq<(usize, u32)>, values: Seq<u32>, k: nat)
    requires
        is_top_k(r1, values, k),
        is_top_k(r2, values, k),
    ensures
        r1 == r2,
{
    assert forall|i: int| 0 <= i < k implies r1[i] == r2[i] by {
        lemma_top_k_agree_at(r1, r2, values, k, i);
    }
    assert(r1 =~= r2);
}

proof fn lemma_top_k_agree_at(r1: Seq<(usize, u32)>, r2: Seq<(usize, u32)>, values: Seq<u32>, k: nat, i: int)
    requires
        is_top_k(r1, values, k),
        is_top_k(r2, values, k),
        0 <= i < k,
    ensures
        r1[i] == r2[i],
    decreases i,
{
    assert forall|j: int| 0 <= j < i implies r1[j] == r2[j] by {
        lemma_top_k_agree_at(r1, r2, values, k, j);
    }
    let a = r1[i];
    let b = r2[i];
    if a != b {
        // `a` comes before `b`.
        assert(ranks_before(a, b)) by {
            if holds(r1, b.0) {
                let q = choose|q: int| 0 <= q < r1.len() && #[trigger] r1[q].0 == b.0;
                assert(r1[q] == b);
                if q < i {
                    assert(r2[q] == b);
                    assert(ranks_before(r2[q], r2[i]));
                }
                assert(q > i);
            } else {
                assert(omits(r1, b.0));
                assert(ranks_before(r1[i], (b.0, values[b.0 as int])));
            }
        }
        // `b` comes before `a`, by the same argument with the roles swapped.
        assert(ranks_before(b, a)) by {
            if holds(r2, a.0) {
                let q = choose|q: int| 0 <= q < r2.len() && #[trigger] r2[q].0 == a.0;
                assert(r2[q] == a);
                if q < i {
                    assert(r1[q] == a);
                    assert(ranks_before(r1[q], r1[i]));
                }
                assert(q > i);
            } else {
                assert(omits(r2, a.0));
                assert(ranks_before(r2[i], (a.0, values[a.0 as int])));
            }
        }
    }
}

/// The ranking of the first `k` candidates is the start of the ranking of
/// the first `k2 >= k`: asking `nearest_k_l2_sq` for more neighbours only
/// appends to the list.
pub proof fn top_k_prefix(ranked: Seq<(usize, u32)>, values: Seq<u32>, k: nat, k2: nat)
    requires
        is_top_k(ranked, values, k2),
        k <= k2,
    ensures
        is_top_k(ranked.take(k as int), values, k),
{
    let r = ranked.take(k as int);
    assert forall|x: usize, i: int|
        #![trigger omits(r, x), r[i]]
        x < values.len() && omits(r, x) && 0 <= i < r.len() implies ranks_before(
        r[i],
        (x, values[x as int]),
    ) by {
        if holds(ranked, x) {
            let q = choose|q: int| 0 <= q < ranked.len() && #[trigger] ranked[q].0 == x;
            if q < k {
                assert(r[q].0 == x);
            }
            assert(ranks_before(ranked[i], ranked[q]));
        } else {
            assert(omits(ranked, x));
            assert(ranked[i] == r[i]);
        }
    }
}

/// Away from NaN and `-0.0`, the single nearest candidate of the ranking is
/// the one the nearest-candidate search finds (`nearest_k_l2_sq` with
/// `k == 1` and `nearest_l2_sq` agree).
pub proof fn first_ranked_is_nearest(ranked: Seq<(usize, u32)>, values: Seq<u32>)
    requires
        is_top_k(ranked, values, 1),
        0 < values.len() <= usize::MAX,
        no_nan(values),
        forall|i: int| 0 <= i < values.len() ==> !is_negative_zero(values[i]),
    ensures
        ranked[0] == search(values, false),
{
    crate::ranking::lemma_search_finds_first_best(values, false);
    let (i, v) = search(values, false);
    let first = ranked[0];
    assert(first.1 == values[first.0 as int]);
    lemma_score_le_is_total_order(v, first.1);
    lemma_score_le_is_total_order(first.1, v);
    if first.0 != i {
        if first.0 < i {
            assert(!crate::score::score_le(values[first.0 as int], v));
        }
        assert(omits(ranked, i));
        assert(ranks_before(first, (i, values[i as int])));
        assert(crate::score::score_le(v, values[first.0 as int]));
    }
    lemma_total_key_injective(v, first.1);
}


/// Whatever the scores (NaN included), the best candidate a search reports
/// is one of the candidates with its own score: the pair `nearest_l2_sq`
/// returns is an entry of what `l2_sq_all` returns.
pub proof fn search_returns_an_entry(values: Seq<u32>, highest: bool)
    requires
        0 < values.len() <= usize::MAX,
    ensures
        search(values, highest).0 < values.len(),
        search(values, highest).1 == values[search(values, highest).0 as int],
    decreases values.len(),
{
    if values.len() > 1 {
        let prefix = values.drop_last();
        search_returns_an_entry(prefix, highest);
        assert(prefix[search(prefix, highest).0 as int] == values[search(prefix, highest).0 as int]);
    }
}


/// `f32::total_cmp` on bit patterns orders by value: among non-negative
/// patterns (sign bit clear) a larger pattern is a larger number, among
/// negative ones a larger pattern is a smaller number, and every negative
/// pattern comes before every non-negative one.
pub proof fn total_key_orders_by_value(a: u32, b: u32)
    ensures
        a < 0x8000_0000 && b < 0x8000_0000 ==> (total_key(a) < total_key(b) <==> a < b),
        a >= 0x8000_0000 && b >= 0x8000_0000 ==> (total_key(a) < total_key(b) <==> b < a),
        a >= 0x8000_0000 && b < 0x8000_0000 ==> total_key(a) < total_key(b),
{
    assert(a < 0x8000_0000u32 && b < 0x8000_0000u32 ==> ((if a & 0x8000_0000u32 != 0 { !a } else {
        a | 0x8000_0000u32
    }) < (if b & 0x8000_0000u32 != 0 { !b } else { b | 0x8000_0000u32 }) <==> a < b))
        by (bit_vector);
    assert(a >= 0x8000_0000u32 && b >= 0x8000_0000u32 ==> ((if a & 0x8000_0000u32 != 0 { !a } else {
        a | 0x8000_0000u32
    }) < (if b & 0x8000_0000u32 != 0 { !b } else { b | 0x8000_0000u32 }) <==> b < a))
        by (bit_vector);
    assert(a >= 0x8000_0000u32 && b < 0x8000_0000u32 ==> (if a & 0x8000_0000u32 != 0 { !a } else {
        a | 0x8000_0000u32
    }) < (if b & 0x8000_0000u32 != 0 { !b } else { b | 0x8000_0000u32 })) by (bit_vector);
}

/// IEEE `<=` on non-NaN bit patterns is the numeric order: two non-negative
/// numbers compare as their patterns, two negative ones the other way round,
/// a negative number is below every non-negative one, and a non-negative
/// number is below a negative one only when both are zeros.
pub proof fn score_le_is_numeric_order(a: u32, b: u32)
    requires
        !is_nan(a),
        !is_nan(b),
    ensures
        a < 0x8000_0000 && b < 0x8000_0000 ==> (score_le(a, b) <==> a <= b),
        a >= 0x8000_0000 && b >= 0x8000_0000 ==> (score_le(a, b) <==> b <= a),
        a >= 0x8000_0000 && b < 0x8000_0000 ==> score_le(a, b),
        a < 0x8000_0000 && b >= 0x8000_0000 ==> (score_le(a, b) <==> a == 0 && b == 0x8000_0000),
{
    total_key_orders_by_value(a, b);
    total_key_orders_by_value(b, a);
    assert((a & 0x7fff_ffffu32) == 0 && a < 0x8000_0000u32 ==> a == 0) by (bit_vector);
    assert((a & 0x7fff_ffffu32) == 0 && a >= 0x8000_0000u32 ==> a == 0x8000_0000u32) by (bit_vector);
    assert((b & 0x7fff_ffffu32) == 0 && b < 0x8000_0000u32 ==> b == 0) by (bit_vector);
    assert((b & 0x7fff_ffffu32) == 0 && b >= 0x8000_0000u32 ==> b == 0x8000_0000u32) by (bit_vector);
    assert(a == 0 ==> (a & 0x7fff_ffffu32) == 0) by (bit_vector);
    assert(a == 0x8000_0000u32 ==> (a & 0x7fff_ffffu32) == 0) by (bit_vector);
    assert(b == 0 ==> (b & 0x7fff_ffffu32) == 0) by (bit_vector);
    assert(b == 0x8000_0000u32 ==> (b & 0x7fff_ffffu32) == 0) by (bit_vector);
}


/// Every score is a non-negative number (not NaN, sign bit clear), as squared
/// distances are.
pub open spec fn non_negative_scores(values: Seq<u32>) -> bool {
    forall|i: int| 0 <= i < values.len() ==> !is_nan(values[i]) && values[i] < 0x8000_0000u32
}

/// Over non-negative scores, the nearest candidate the search reports has
/// the numerically smallest score, and every candidate before it a larger
/// one (`nearest_l2_sq` returns the first closest candidate).
pub proof fn nearest_has_least_score(values: Seq<u32>)
    requires
        0 < values.len() <= usize::MAX,
        non_negative_scores(values),
    ensures
        search(values, false).0 < values.len(),
        search(values, false).1 == values[search(values, false).0 as int],
        forall|j: int| 0 <= j < values.len() ==> search(values, false).1 <= values[j],
        forall|j: int| 0 <= j < search(values, false).0 ==> search(values, false).1 < values[j],
{
    crate::ranking::lemma_search_finds_first_best(values, false);
    let best = search(values, false).1;
    assert forall|j: int| 0 <= j < values.len() implies best <= values[j] && (j < search(
        values,
        false,
    ).0 ==> best < values[j]) by {
        score_le_is_numeric_order(best, values[j]);
        score_le_is_numeric_order(values[j], best);
    }
}

/// Over non-negative scores, the most similar candidate the search reports
/// has the numerically largest score, and every candidate before it a
/// smaller one (`nearest_cosine_similarity` returns the first most similar).
pub proof fn most_similar_has_greatest_score(values: Seq<u32>)
    requires
        0 < values.len() <= usize::MAX,
        non_negative_scores(values),
    ensures
        search(values, true).0 < values.len(),
        search(values, true).1 == values[search(values, true).0 as int],
        forall|j: int| 0 <= j < values.len() ==> values[j] <= search(values, true).1,
        forall|j: int| 0 <= j < search(values, true).0 ==> values[j] < search(values, true).1,
{
    crate::ranking::lemma_search_finds_first_best(values, true);
    let best = search(values, true).1;
    assert forall|j: int| 0 <= j < values.len() implies values[j] <= best && (j < search(
        values,
        true,
    ).0 ==> values[j] < best) by {
        score_le_is_numeric_order(best, values[j]);
        score_le_is_numeric_order(values[j], best);
    }
}

/// Over non-negative scores, the ranking lists the `k` numerically smallest
/// scores in increasing order, equal scores by position, and every candidate
/// left out has a score at least as large as every listed one
/// (`nearest_k_l2_sq` returns the `k` closest candidates, closest first).
pub proof fn ranking_orders_by_score(ranked: Seq<(usize, u32)>, values: Seq<u32>, k: nat)
    requires
        is_top_k(ranked, values, k),
        non_negative_scores(values),
    ensures
        forall|i: int, j: int|
            0 <= i < j < ranked.len() ==> ranked[i].1 < ranked[j].1 || (ranked[i].1 == ranked[j].1
                && ranked[i].0 < ranked[j].0),
        forall|x: usize, i: int|
            #![trigger omits(ranked, x), ranked[i]]
            x < values.len() && omits(ranked, x) && 0 <= i < ranked.len() ==> ranked[i].1
                <= values[x as int],
{
    assert forall|i: int, j: int| 0 <= i < j < ranked.len() implies ranked[i].1 < ranked[j].1 || (
    ranked[i].1 == ranked[j].1 && ranked[i].0 < ranked[j].0) by {
        assert(ranked[i].1 == values[ranked[i].0 as int]);
        assert(ranked[j].1 == values[ranked[j].0 as int]);
        assert(ranked[i].1 < 0x8000_0000u32 && ranked[j].1 < 0x8000_0000u32);
        assert(ranks_before(ranked[i], ranked[j]));
        total_key_orders_by_value(ranked[i].1, ranked[j].1);
        total_key_orders_by_value(ranked[j].1, ranked[i].1);
        lemma_total_key_injective(ranked[i].1, ranked[j].1);
    }
    assert forall|x: usize, i: int|
        #![trigger omits(ranked, x), ranked[i]]
        x < values.len() && omits(ranked, x) && 0 <= i < ranked.len() implies ranked[i].1
        <= values[x as int] by {
        assert(ranked[i].1 == values[ranked[i].0 as int]);
        total_key_orders_by_value(ranked[i].1, values[x as int]);
        total_key_orders_by_value(values[x as int], ranked[i].1);
    }
}


/// `count_of` counts as a multiset does.
proof fn lemma_count_of_is_multiplicity(votes: Seq<u32>, label: u32)
    ensures
        count_of(votes, label) == votes.to_multiset().count(label),
    decreases votes.len(),
{
    broadcast use vstd::seq_lib::group_to_multiset_ensures;
    broadcast use vstd::multiset::group_multiset_axioms;

    if votes.len() == 0 {
        assert(!votes.contains(label));
    } else {
        let init = votes.drop_last();
        lemma_count_of_is_multiplicity(init, label);
        assert(init.push(votes.last()) == votes);
    }
}

/// The kNN prediction is a majority label among the `k` nearest samples:
/// given the ranking of the `k` samples nearest to the query, the predicted
/// label is the label of one of them, no label is carried by more of them,
/// and of the labels carried equally often it is the one of the nearest such
/// sample. Which samples count is decided by their distances alone, so
/// listing samples and labels in another order changes nothing but ties.
pub proof fn prediction_is_majority_of_nearest(
    ranked: Seq<(usize, u32)>,
    values: Seq<u32>,
    labels: Seq<u32>,
    k: nat,
    label: u32,
)
    requires
        is_top_k(ranked, values, k),
        labels.len() == values.len(),
        wins_vote(votes_of(labels, ranked), label),
    ensures
        ({
            let nearest_labels = Seq::new(k, |i: int| labels[ranked[i].0 as int]);
            exists|p: int|
                0 <= p < k && labels[ranked[p].0 as int] == label && (forall|j: int|
                    0 <= j < k ==> nearest_labels.to_multiset().count(labels[ranked[j].0 as int])
                        <= nearest_labels.to_multiset().count(label)) && (forall|j: int|
                    0 <= j < p ==> nearest_labels.to_multiset().count(labels[ranked[j].0 as int])
                        < nearest_labels.to_multiset().count(label))
        }),
{
    let nearest_labels = Seq::new(k, |i: int| labels[ranked[i].0 as int]);
    let votes = votes_of(labels, ranked);
    assert(votes =~= nearest_labels);
    let p = choose|p: int|
        0 <= p < votes.len() && votes[p] == label && (forall|j: int|
            0 <= j < votes.len() ==> count_of(votes, #[trigger] votes[j]) <= count_of(votes, label))
            && (forall|j: int| 0 <= j < p ==> count_of(votes, #[trigger] votes[j]) < count_of(votes, label));
    lemma_count_of_is_multiplicity(votes, label);
    assert forall|j: int| 0 <= j < k implies nearest_labels.to_multiset().count(
        labels[ranked[j].0 as int],
    ) <= nearest_labels.to_multiset().count(label) && (j < p ==> nearest_labels.to_multiset().count(
        labels[ranked[j].0 as int],
    ) < nearest_labels.to_multiset().count(label)) by {
        assert(votes[j] == labels[ranked[j].0 as int]);
        lemma_count_of_is_multiplicity(votes, votes[j]);
    }
    assert(labels[ranked[p].0 as int] == label);
}


/// A nonempty run of digits, or digits around one decimal point with at
/// least one digit, is a mantissa.
proof fn lemma_mantissa_shapes(int_part: Seq<char>, frac: Seq<char>)
    requires
        all_digits(int_part),
        all_digits(frac),
    ensures
        int_part.len() > 0 ==> is_mantissa(int_part),
        int_part.len() + frac.len() > 0 ==> is_mantissa(int_part + seq!['.'] + frac),
{
    if int_part.len() > 0 {
        assert(is_digit(int_part[0]));
        assert forall|i: int, j: int|
            0 <= i < int_part.len() && 0 <= j < int_part.len() && int_part[i] == '.'
                && int_part[j] == '.' implies i == j by {
            assert(is_digit(int_part[i]));
        }
    }
    let m = int_part + seq!['.'] + frac;
    let n = int_part.len() as int;
    assert forall|i: int| 0 <= i < m.len() implies is_digit(m[i]) || m[i] == '.' by {
        if i < n {
            assert(m[i] == int_part[i]);
        } else if i > n {
            assert(m[i] == frac[i - n - 1]);
        }
    }
    assert forall|i: int, j: int| 0 <= i < m.len() && 0 <= j < m.len() && m[i] == '.' && m[j] == '.' implies i == j by {
        if i < n {
            assert(m[i] == int_part[i] && is_digit(int_part[i]));
        } else if i > n {
            assert(m[i] == frac[i - n - 1] && is_digit(frac[i - n - 1]));
        }
        if j < n {
            assert(m[j] == int_part[j] && is_digit(int_part[j]));
        } else if j > n {
            assert(m[j] == frac[j - n - 1] && is_digit(frac[j - n - 1]));
        }
    }
    if int_part.len() > 0 {
        assert(m[0] == int_part[0]);
    } else if frac.len() > 0 {
        assert(m[n + 1] == frac[0]);
        assert(is_digit(frac[0]));
    }
}

/// A mantissa, possibly followed by an exponent, is a number.
proof fn lemma_number_shapes(m: Seq<char>, e: char, exp_sign: Seq<char>, exp: Seq<char>)
    requires
        is_mantissa(m),
        e == 'e' || e == 'E',
        exp_sign == Seq::<char>::empty() || exp_sign == seq!['+'] || exp_sign == seq!['-'],
        exp.len() > 0,
        all_digits(exp),
    ensures
        is_number(m),
        is_number(m + seq![e] + exp_sign + exp),
{
    let s = m + seq![e] + exp_sign + exp;
    let p = m.len() as int;
    assert(s.take(p) == m);
    assert(s.skip(p + 1) == exp_sign + exp);
    assert(is_digit(exp[0]));
    assert(without_sign(exp_sign + exp) == exp);
    assert(s[p] == e);
}

/// `sign` followed by the number `u` is an `f32` literal.
proof fn lemma_signed_number(sign: Seq<char>, u: Seq<char>)
    requires
        sign == Seq::<char>::empty() || sign == seq!['+'] || sign == seq!['-'],
        is_number(u),
    ensures
        is_float_literal(sign + u),
{
    if is_mantissa(u) {
        let i = choose|i: int| 0 <= i < u.len() && is_digit(u[i]);
        assert(is_digit(u[0]) || u[0] == '.');
    } else {
        let p = choose|p: int|
            0 <= p < u.len() && (u[p] == 'e' || u[p] == 'E') && is_mantissa(u.take(p))
                && is_exponent_digits(u.skip(p + 1));
        assert(u.take(p)[0] == u[0]);
        assert(is_digit(u.take(p)[0]) || u.take(p)[0] == '.');
    }
    assert(without_sign(sign + u) == u);
}

/// Decimal numbers are `f32` literals, as `str::parse::<f32>` accepts them:
/// an optional sign, then either a nonempty run of digits or digits around
/// one decimal point with at least one digit, then optionally `e` or `E`,
/// an optional sign and one or more digits. In particular `"10"`, `"-2.5"`,
/// `".5"`, `"1."` and `"3e-2"` are literals.
pub proof fn decimal_numbers_are_float_literals(
    sign: Seq<char>,
    int_part: Seq<char>,
    frac: Seq<char>,
    e: char,
    exp_sign: Seq<char>,
    exp: Seq<char>,
)
    requires
        sign == Seq::<char>::empty() || sign == seq!['+'] || sign == seq!['-'],
        all_digits(int_part),
        all_digits(frac),
        e == 'e' || e == 'E',
        exp_sign == Seq::<char>::empty() || exp_sign == seq!['+'] || exp_sign == seq!['-'],
        all_digits(exp),
        exp.len() > 0,
    ensures
        int_part.len() > 0 ==> is_float_literal(sign + int_part),
        int_part.len() > 0 ==> is_float_literal(sign + int_part + seq![e] + exp_sign + exp),
        int_part.len() + frac.len() > 0 ==> is_float_literal(sign + int_part + seq!['.'] + frac),
        int_part.len() + frac.len() > 0 ==> is_float_literal(
            sign + int_part + seq!['.'] + frac + seq![e] + exp_sign + exp,
        ),
{
    if int_part.len() > 0 {
        lemma_mantissa_shapes(int_part, frac);
        lemma_literal_with_optional_exponent(sign, int_part, e, exp_sign, exp);
    }
    if int_part.len() + frac.len() > 0 {
        lemma_mantissa_shapes(int_part, frac);
        let m = int_part + seq!['.'] + frac;
        lemma_literal_with_optional_exponent(sign, m, e, exp_sign, exp);
        lemma_concat_regroup3(sign, int_part, seq!['.'], frac);
    }
}

/// A signed mantissa, with or without an exponent, is an `f32` literal.
proof fn lemma_literal_with_optional_exponent(
    sign: Seq<char>,
    m: Seq<char>,
    e: char,
    exp_sign: Seq<char>,
    exp: Seq<char>,
)
    requires
        sign == Seq::<char>::empty() || sign == seq!['+'] || sign == seq!['-'],
        is_mantissa(m),
        e == 'e' || e == 'E',
        exp_sign == Seq::<char>::empty() || exp_sign == seq!['+'] || exp_sign == seq!['-'],
        all_digits(exp),
        exp.len() > 0,
    ensures
        is_float_literal(sign + m),
        is_float_literal(sign + m + seq![e] + exp_sign + exp),
{
    lemma_number_shapes(m, e, exp_sign, exp);
    lemma_signed_number(sign, m);
    let u = m + seq![e] + exp_sign + exp;
    lemma_signed_number(sign, u);
    lemma_concat_regroup(sign, m, seq![e], exp_sign, exp);
}

proof fn lemma_concat_regroup3(a: Seq<char>, b: Seq<char>, c: Seq<char>, d: Seq<char>)
    ensures
        a + b + c + d == a + (b + c + d),
{
    assert(a + b + c + d =~= a + (b + c + d));
}

proof fn lemma_concat_regroup(a: Seq<char>, b: Seq<char>, c: Seq<char>, d: Seq<char>, f: Seq<char>)
    ensures
        a + b + c + d + f == a + (b + c + d + f),
{
    assert(a + b + c + d + f =~= a + (b + c + d + f));
}

/// Neither the empty text, nor a lone decimal point, nor a lone sign is an
/// `f32` literal.
pub proof fn degenerate_texts_are_not_float_literals()
    ensures
        !is_float_literal(Seq::<char>::empty()),
        !is_float_literal(seq!['.']),
        !is_float_literal(seq!['+']),
        !is_float_literal(seq!['-']),
        !is_float_literal(seq!['e']),
{
    assert(without_sign(seq!['+']) == Seq::<char>::empty());
    assert(without_sign(seq!['-']) == Seq::<char>::empty());
    assert(!is_number(seq!['.'])) by {
        assert(!is_mantissa(seq!['.']));
    }
    assert(!is_number(seq!['e'])) by {
        assert(!is_mantissa(seq!['e'])) by {
            assert(!(is_digit(seq!['e'][0]) || seq!['e'][0] == '.'));
        }
        assert forall|p: int| 0 <= p < 1 implies !is_mantissa(seq!['e'].take(p)) by {
            assert(seq!['e'].take(p).len() == 0);
        }
    }
    assert(!eq_ignore_case(seq!['e'], seq!['i', 'n', 'f']));
    assert(!eq_ignore_case(seq!['e'], seq!['n', 'a', 'n']));
    assert(!eq_ignore_case(seq!['.'], seq!['i', 'n', 'f']));
    assert(!eq_ignore_case(seq!['.'], seq!['n', 'a', 'n']));
}


/// A character that can occur in an `f32` literal: a digit, a sign, a
/// decimal point or an ASCII letter.
spec fn literal_char(c: char) -> bool {
    ||| is_digit(c)
    ||| c == '+' || c == '-' || c == '.'
    ||| 65 <= (c as u32) <= 90
    ||| 97 <= (c as u32) <= 122
}

proof fn lemma_word_chars(u: Seq<char>, word: Seq<char>)
    requires
        eq_ignore_case(u, word),
        forall|i: int| 0 <= i < word.len() ==> 97 <= #[trigger] (word[i] as u32) <= 122,
    ensures
        forall|i: int| 0 <= i < u.len() ==> literal_char(#[trigger] u[i]),
{
    assert forall|i: int| 0 <= i < u.len() implies literal_char(#[trigger] u[i]) by {
        assert(ascii_lower(u[i]) == word[i]);
        assert(97 <= (word[i] as u32) <= 122);
    }
}

proof fn lemma_number_chars(u: Seq<char>)
    requires
        is_number(u),
    ensures
        forall|i: int| 0 <= i < u.len() ==> literal_char(#[trigger] u[i]),
{
    if !is_mantissa(u) {
        let p = choose|p: int|
            0 <= p < u.len() && (u[p] == 'e' || u[p] == 'E') && is_mantissa(u.take(p))
                && is_exponent_digits(u.skip(p + 1));
        let rest = u.skip(p + 1);
        assert forall|i: int| 0 <= i < u.len() implies literal_char(#[trigger] u[i]) by {
            if i < p {
                assert(u.take(p)[i] == u[i]);
            } else if i > p {
                assert(rest[i - p - 1] == u[i]);
                if i - p - 1 > 0 || !(rest[0] == '+' || rest[0] == '-') {
                    let d = without_sign(rest);
                    if rest.len() > 0 && (rest[0] == '+' || rest[0] == '-') {
                        assert(d[i - p - 2] == rest[i - p - 1]);
                    } else {
                        assert(d[i - p - 1] == rest[i - p - 1]);
                    }
                }
            }
        }
    }
}

/// An `f32` literal holds no white space, comma or semicolon, so splitting
/// a vector at commas, a candidate set at semicolons, and trimming fields
/// never cuts into a literal.
pub proof fn float_literals_hold_no_separator(s: Seq<char>)
    requires
        is_float_literal(s),
    ensures
        forall|i: int|
            0 <= i < s.len() ==> !is_white_space(#[trigger] s[i]) && s[i] != ',' && s[i] != ';',
{
    let u = without_sign(s);
    let inf = seq!['i', 'n', 'f'];
    let infinity = seq!['i', 'n', 'f', 'i', 'n', 'i', 't', 'y'];
    let nan = seq!['n', 'a', 'n'];
    assert forall|i: int| 0 <= i < inf.len() implies 97 <= #[trigger] (inf[i] as u32) <= 122 by {}
    assert forall|i: int| 0 <= i < infinity.len() implies 97 <= #[trigger] (infinity[i] as u32)
        <= 122 by {}
    assert forall|i: int| 0 <= i < nan.len() implies 97 <= #[trigger] (nan[i] as u32) <= 122 by {}
    if eq_ignore_case(u, inf) {
        lemma_word_chars(u, inf);
    } else if eq_ignore_case(u, infinity) {
        lemma_word_chars(u, infinity);
    } else if eq_ignore_case(u, nan) {
        lemma_word_chars(u, nan);
    } else {
        lemma_number_chars(u);
    }
    assert forall|i: int| 0 <= i < s.len() implies literal_char(#[trigger] s[i]) by {
        if s.len() > 0 && (s[0] == '+' || s[0] == '-') {
            if i > 0 {
                assert(u[i - 1] == s[i]);
            }
        } else {
            assert(u[i] == s[i]);
        }
    }
}

} // verus!
