//! Which texts are numbers, said by how they are put together, and which of them are
//! finite, said by their value.

use vstd::prelude::*;
use vstd::arithmetic::power::pow;
use crate::number::{
    digit_at, exponent_text, fraction_end, fraction_less, fraction_start, is_decimal,
    is_digit, is_finite_number, is_number, is_sign, is_word, lower, mantissa, numeral_value,
    rounds_finite, run_end, run_end_bounds, scale, significant, unsigned,
    OVERFLOW_DIGITS, OVERFLOW_PLACES,
};

verus! {

broadcast use vstd::string::group_string_axioms;

// ---------------------------------------------------------------------------
// How a number is put together
// ---------------------------------------------------------------------------

/// The pieces of a decimal number.
pub struct Literal {
    pub sign: Seq<char>,
    pub whole: Seq<char>,
    pub point: bool,
    pub fraction: Seq<char>,
    pub marked: bool,
    pub mark: char,
    pub power_sign: Seq<char>,
    pub power: Seq<char>,
}

/// Digits only.
pub open spec fn digits_only(s: Seq<char>) -> bool {
    forall|i: int| 0 <= i < s.len() ==> '0' <= #[trigger] s[i] <= '9'
}

/// Nothing, a plus or a minus.
pub open spec fn sign_only(s: Seq<char>) -> bool {
    s == Seq::<char>::empty() || s == seq!['+'] || s == seq!['-']
}

impl Literal {
    /// The pieces are what they should be: there is a digit before or behind the point, and
    /// one in the exponent, where there is one.
    pub open spec fn is_proper(self) -> bool {
        &&& sign_only(self.sign)
        &&& digits_only(self.whole)
        &&& digits_only(self.fraction)
        &&& self.whole.len() + self.fraction.len() > 0
        &&& !self.point ==> self.fraction.len() == 0
        &&& self.marked ==> {
            &&& self.mark == 'e' || self.mark == 'E'
            &&& sign_only(self.power_sign)
            &&& digits_only(self.power)
            &&& self.power.len() > 0
        }
    }

    /// The pieces without the sign, one after the other.
    pub open spec fn body(self) -> Seq<char> {
        self.whole + (if self.point {
            seq!['.']
        } else {
            Seq::empty()
        }) + self.fraction + (if self.marked {
            seq![self.mark] + self.power_sign + self.power
        } else {
            Seq::empty()
        })
    }

    /// The pieces, one after the other.
    pub open spec fn text(self) -> Seq<char> {
        self.sign + self.body()
    }

    /// The power of ten that belongs to the digits, read as one whole number.
    pub open spec fn exponent(self) -> int {
        let size = self.power.fold_left(0int, |v: int, c: char| v * 10 + (c as int - '0' as int));
        (if !self.marked {
            0
        } else if self.power_sign == seq!['-'] {
            -size
        } else {
            size
        }) - self.fraction.len()
    }
}

/// A run of digits ends where the digits end.
proof fn run_ends_at(s: Seq<char>, from: int, to: int)
    requires
        0 <= from <= to <= s.len(),
        forall|i: int| from <= i < to ==> is_digit(#[trigger] s[i]),
        to < s.len() ==> !is_digit(s[to]),
    ensures
        run_end(s, from) == to,
    decreases to - from,
{
    if from < to {
        assert(is_digit(s[from]));
        run_ends_at(s, from + 1, to);
    }
}

/// Where the pieces stand in the body, and what they make of it.
proof fn literal_parts(l: Literal)
    requires
        l.is_proper(),
    ensures
        unsigned(l.text()) == l.body(),
        is_decimal(l.body()),
        mantissa(l.body()) == l.whole + l.fraction,
        fraction_end(l.body()) - fraction_start(l.body()) == l.fraction.len(),
        fraction_end(l.body()) == l.body().len() <==> !l.marked,
        l.marked ==> exponent_text(l.body()) == l.power_sign + l.power && unsigned(
            exponent_text(l.body()),
        ) == l.power,
{
    let b = l.body();
    let w = l.whole.len() as int;
    let p: int = if l.point {
        1
    } else {
        0
    };
    let f = l.fraction.len() as int;
    let end = w + p + f;
    assert forall|i: int| 0 <= i < w implies is_digit(#[trigger] b[i]) by {
        assert(b[i] == l.whole[i]);
    }
    assert forall|i: int| w + p <= i < end implies is_digit(#[trigger] b[i]) by {
        assert(b[i] == l.fraction[i - w - p]);
    }
    if l.marked {
        assert(b[end] == l.mark);
    } else {
        assert(b.len() == end);
    }
    if l.point {
        assert(b[w] == '.');
    }
    run_ends_at(b, 0, w);
    assert(fraction_start(b) == w + p);
    run_ends_at(b, w + p, end);
    assert(fraction_end(b) == end);
    assert(b.subrange(0, w) == l.whole);
    assert(b.subrange(w + p, end) == l.fraction);
    // The sign.
    assert(!is_sign(b[0])) by {
        if w > 0 {
            assert(is_digit(b[0]));
        } else {
            assert(l.point);
        }
    }
    if l.sign.len() == 0 {
        assert(l.text() == b);
    } else {
        assert(l.text()[0] == l.sign[0]);
        assert(l.text().skip(1) == b);
    }
    if l.marked {
        let x = l.power_sign + l.power;
        assert(exponent_text(b) == x);
        assert(!is_sign(l.power[0])) by {
            assert('0' <= l.power[0] <= '9');
        }
        if l.power_sign.len() == 0 {
            assert(x == l.power);
        } else {
            assert(x[0] == l.power_sign[0]);
            assert(x.skip(1) == l.power);
        }
        assert forall|i: int| 0 <= i < l.power.len() implies is_digit(#[trigger] l.power[i]) by {}
        run_ends_at(l.power, 0, l.power.len() as int);
    }
}

/// The pieces of a text that reads as a decimal number.
proof fn pieces_of(s: Seq<char>) -> (l: Literal)
    requires
        is_decimal(unsigned(s)),
    ensures
        l.is_proper(),
        l.text() == s,
{
    let b = unsigned(s);
    run_end_bounds(b, 0);
    run_end_bounds(b, fraction_start(b));
    let w = run_end(b, 0);
    let start = fraction_start(b);
    let end = fraction_end(b);
    let marked = end < b.len();
    let x = exponent_text(b);
    let u = unsigned(x);
    let signed = s.len() > 0 && is_sign(s[0]);
    let sign = if signed {
        s.take(1)
    } else {
        Seq::empty()
    };
    let power_sign = if x.len() > 0 && is_sign(x[0]) {
        x.take(1)
    } else {
        Seq::empty()
    };
    let l = Literal {
        sign,
        whole: b.subrange(0, w),
        point: start > w,
        fraction: b.subrange(start, end),
        marked,
        mark: b[end],
        power_sign,
        power: u,
    };
    assert(signed ==> sign == seq![s[0]]);
    assert(digits_only(l.whole)) by {
        assert forall|i: int| 0 <= i < w implies '0' <= #[trigger] l.whole[i] <= '9' by {
            assert(is_digit(b[i]));
        }
    }
    assert(digits_only(l.fraction)) by {
        assert forall|i: int| 0 <= i < l.fraction.len() implies '0' <= #[trigger] l.fraction[i]
            <= '9' by {
            assert(is_digit(b[start + i]));
        }
    }
    assert(mantissa(b).len() == l.whole.len() + l.fraction.len());
    if !l.point {
        assert(start == w);
        if w < b.len() {
            assert(!is_digit(b[w]));
        }
        assert(end == w);
    }
    if marked {
        run_end_bounds(u, 0);
        assert(digits_only(u)) by {
            assert forall|i: int| 0 <= i < u.len() implies '0' <= #[trigger] u[i] <= '9' by {
                assert(is_digit(u[i]));
            }
        }
        assert(x.len() > 0 && is_sign(x[0]) ==> power_sign == seq![x[0]]);
        assert(power_sign + u == x);
        assert(seq![l.mark] + l.power_sign + l.power == seq![b[end]] + x);
        assert(seq![b[end]] + x == b.skip(end));
    } else {
        assert(b.skip(end) == Seq::<char>::empty());
    }
    let dot = if l.point {
        seq!['.']
    } else {
        Seq::empty()
    };
    assert(l.whole + dot == b.take(start));
    assert(l.whole + dot + l.fraction == b.take(end));
    assert(b.take(end) + b.skip(end) == b);
    assert(l.body() == b);
    assert(sign + b == s);
    l
}

/// `w` is the lower case word `x`, in any case.
pub open spec fn same_word(w: Seq<char>, x: Seq<char>) -> bool {
    w.len() == x.len() && forall|i: int|
        0 <= i < w.len() ==> #[trigger] w[i] == x[i] || w[i] as int + 32 == x[i] as int
}

/// A word is compared letter by letter.
proof fn word_letters(w: Seq<char>, x: Seq<char>)
    requires
        forall|i: int| 0 <= i < x.len() ==> 'a' <= #[trigger] x[i] <= 'z',
    ensures
        is_word(w, x) <==> same_word(w, x),
{
    let low = w.map_values(|c: char| lower(c));
    if is_word(w, x) {
        assert forall|i: int| 0 <= i < w.len() implies #[trigger] w[i] == x[i] || w[i] as int + 32
            == x[i] as int by {
            assert(low[i] == lower(w[i]));
            assert(low[i] == x[i]);
        }
    }
    if same_word(w, x) {
        assert forall|i: int| 0 <= i < w.len() implies low[i] == x[i] by {
            assert(w[i] == x[i] || w[i] as int + 32 == x[i] as int);
            assert('a' <= x[i] <= 'z');
        }
        assert(low == x);
    }
}

/// Law: a text is a number if and only if it is put together as one: a sign or none, and then
/// the word `inf`, `infinity` or `nan` in any case; or digits, a point or none, digits behind it,
/// and an exponent or none.
pub proof fn number_grammar(s: Seq<char>)
    ensures
        is_number(s) <==> {
            ||| exists|l: Literal| #[trigger] l.is_proper() && l.text() == s
            ||| exists|sign: Seq<char>, w: Seq<char>|
                {
                    &&& sign_only(sign)
                    &&& s == #[trigger] (sign + w)
                    &&& (same_word(w, "inf"@) || same_word(w, "infinity"@) || same_word(w, "nan"@))
                }
        },
{
    reveal_strlit("inf");
    reveal_strlit("infinity");
    reveal_strlit("nan");
    let b = unsigned(s);
    word_letters(b, "inf"@);
    word_letters(b, "infinity"@);
    word_letters(b, "nan"@);
    if is_number(s) {
        if is_decimal(b) {
            let l = pieces_of(s);
            assert(l.is_proper() && l.text() == s);
        } else {
            let sign = if s.len() > 0 && is_sign(s[0]) {
                seq![s[0]]
            } else {
                Seq::empty()
            };
            assert(s == sign + b);
            assert(sign_only(sign));
        }
    }
    if exists|l: Literal| #[trigger] l.is_proper() && l.text() == s {
        let l = choose|l: Literal| #[trigger] l.is_proper() && l.text() == s;
        literal_parts(l);
    }
    assert forall|sign: Seq<char>, w: Seq<char>|
        {
            &&& sign_only(sign)
            &&& s == #[trigger] (sign + w)
            &&& (same_word(w, "inf"@) || same_word(w, "infinity"@) || same_word(w, "nan"@))
        } implies b == w by {
        assert(w[0] == 'i' || w[0] == 'n' || w[0] as int + 32 == 'i' as int || w[0] as int + 32
            == 'n' as int);
        if sign.len() == 0 {
            assert(s == w);
        } else {
            assert(s[0] == sign[0]);
            assert(s.skip(1) == w);
        }
    }
}

/// Law: a sign does not matter for whether a text is a number, nor for whether it is
/// a finite one.
pub proof fn sign_does_not_matter(s: Seq<char>)
    requires
        s.len() == 0 || (s[0] != '+' && s[0] != '-'),
    ensures
        is_number(seq!['-'] + s) == is_number(s),
        is_number(seq!['+'] + s) == is_number(s),
        is_finite_number(seq!['-'] + s) == is_finite_number(s),
        is_finite_number(seq!['+'] + s) == is_finite_number(s),
{
    let m = seq!['-'] + s;
    let p = seq!['+'] + s;
    assert(m.skip(1) == s);
    assert(p.skip(1) == s);
    assert(unsigned(m) == s && unsigned(p) == s && unsigned(s) == s);
    assert(is_number(m) == is_number(s));
    assert(is_number(p) == is_number(s));
}

/// Law: a finite number is a number, and is put together of digits.
pub proof fn finite_numbers_are_numbers(s: Seq<char>)
    requires
        is_finite_number(s),
    ensures
        is_number(s),
        exists|l: Literal| #[trigger] l.is_proper() && l.text() == s,
{
    let l = pieces_of(s);
    assert(l.is_proper() && l.text() == s);
}

// ---------------------------------------------------------------------------
// The value of a number
// ---------------------------------------------------------------------------

/// The value of digits, digit by digit.
proof fn value_is_fold(s: Seq<char>)
    ensures
        numeral_value(s) == s.fold_left(0int, |v: int, c: char| v * 10 + (c as int - '0' as int)),
    decreases s.len(),
{
    if s.len() > 0 {
        value_is_fold(s.drop_last());
    }
}

/// The value of two runs of digits, one behind the other.
proof fn value_concat(a: Seq<char>, b: Seq<char>)
    ensures
        numeral_value(a + b) == numeral_value(a) * pow(10, b.len()) + numeral_value(b),
    decreases b.len(),
{
    if b.len() == 0 {
        assert(a + b == a);
        vstd::arithmetic::power::lemma_pow0(10);
    } else {
        let c = b.drop_last();
        assert((a + b).drop_last() == a + c);
        value_concat(a, c);
        let x = numeral_value(a);
        let p = pow(10, c.len());
        vstd::arithmetic::power::lemma_pow_adds(10, c.len(), 1);
        vstd::arithmetic::power::lemma_pow1(10);
        assert(pow(10, b.len()) == p * 10);
        assert((x * p) * 10 == x * (p * 10)) by (nonlinear_arith);
    }
}

/// Digits have a value with as many places.
proof fn value_bounds(s: Seq<char>)
    requires
        digits_only(s),
    ensures
        0 <= numeral_value(s) < pow(10, s.len()),
        s.len() > 0 && s[0] != '0' ==> numeral_value(s) >= pow(10, (s.len() - 1) as nat),
    decreases s.len(),
{
    vstd::arithmetic::power::lemma_pow0(10);
    if s.len() > 0 {
        let c = s.drop_last();
        assert forall|i: int| 0 <= i < c.len() implies '0' <= #[trigger] c[i] <= '9' by {
            assert(c[i] == s[i]);
        }
        value_bounds(c);
        vstd::arithmetic::power::lemma_pow_adds(10, c.len(), 1);
        vstd::arithmetic::power::lemma_pow1(10);
        assert(pow(10, s.len()) == pow(10, c.len()) * 10);
        assert('0' <= s[s.len() - 1] <= '9');
        if c.len() > 0 {
            assert(c[0] == s[0]);
            vstd::arithmetic::power::lemma_pow_adds(10, (c.len() - 1) as nat, 1);
        }
    }
}

/// Zeros are worth nothing.
proof fn value_of_zeros(s: Seq<char>)
    requires
        forall|i: int| 0 <= i < s.len() ==> #[trigger] s[i] == '0',
    ensures
        numeral_value(s) == 0,
    decreases s.len(),
{
    if s.len() > 0 {
        let c = s.drop_last();
        assert forall|i: int| 0 <= i < c.len() implies #[trigger] c[i] == '0' by {
            assert(c[i] == s[i]);
        }
        value_of_zeros(c);
        assert(s[s.len() - 1] == '0');
    }
}

/// Leading zeros do not matter.
proof fn value_of_significant(s: Seq<char>)
    requires
        digits_only(s),
    ensures
        digits_only(significant(s)),
        numeral_value(significant(s)) == numeral_value(s),
        significant(s).len() > 0 ==> significant(s)[0] != '0',
    decreases s.len(),
{
    if s.len() > 0 && s[0] == '0' {
        let t = s.skip(1);
        assert forall|i: int| 0 <= i < t.len() implies '0' <= #[trigger] t[i] <= '9' by {
            assert(t[i] == s[i + 1]);
        }
        value_of_significant(t);
        let z = seq!['0'];
        assert(s == z + t);
        value_concat(z, t);
        value_of_zeros(z);
    }
}

/// Of two runs of digits of one length, which agree before place `i`, the one with the smaller
/// digit there has the smaller value.
proof fn value_by_first_difference(a: Seq<char>, b: Seq<char>, i: int)
    requires
        digits_only(a),
        digits_only(b),
        a.len() == b.len(),
        0 <= i < a.len(),
        a.take(i) == b.take(i),
        a[i] < b[i],
    ensures
        numeral_value(a) < numeral_value(b),
{
    let p = a.take(i);
    let x = seq![a[i]];
    let y = seq![b[i]];
    let r = a.skip(i + 1);
    let q = b.skip(i + 1);
    assert(a == p + x + r);
    assert(b == p + y + q);
    assert(digits_only(r)) by {
        assert forall|k: int| 0 <= k < r.len() implies '0' <= #[trigger] r[k] <= '9' by {
            assert(r[k] == a[i + 1 + k]);
        }
    }
    assert(digits_only(q)) by {
        assert forall|k: int| 0 <= k < q.len() implies '0' <= #[trigger] q[k] <= '9' by {
            assert(q[k] == b[i + 1 + k]);
        }
    }
    value_concat(p + x, r);
    value_concat(p + y, q);
    value_bounds(r);
    value_bounds(q);
    assert((p + x).drop_last() == p);
    assert((p + y).drop_last() == p);
    let u = numeral_value(p + x);
    let v = numeral_value(p + y);
    let k = pow(10, r.len());
    assert(u + 1 <= v);
    assert(u * k + k <= v * k) by (nonlinear_arith)
        requires
            u + 1 <= v,
            k >= 0,
    ;
}

/// The first place, from `i` on, at which two runs of digits differ; their length where there is none.
proof fn first_difference(a: Seq<char>, b: Seq<char>, i: int) -> (k: int)
    requires
        a.len() == b.len(),
        0 <= i <= a.len(),
        a.take(i) == b.take(i),
    ensures
        i <= k <= a.len(),
        a.take(k) == b.take(k),
        k < a.len() ==> a[k] != b[k],
    decreases a.len() - i,
{
    if i == a.len() || a[i] != b[i] {
        i
    } else {
        assert(a.take(i + 1) == a.take(i).push(a[i]));
        assert(b.take(i + 1) == b.take(i).push(b[i]));
        first_difference(a, b, i + 1)
    }
}

/// Of two runs of digits of one length the smaller fraction has the smaller value.
proof fn fraction_by_value(a: Seq<char>, b: Seq<char>)
    requires
        digits_only(a),
        digits_only(b),
        a.len() == b.len(),
    ensures
        fraction_less(a, b) <==> numeral_value(a) < numeral_value(b),
{
    assert(a.take(0) == b.take(0));
    let k = first_difference(a, b, 0);
    assert forall|j: int| 0 <= j < k implies #[trigger] digit_at(a, j) == digit_at(b, j) by {
        assert(a.take(k)[j] == b.take(k)[j]);
    }
    if k == a.len() {
        assert(a.take(k) == a && b.take(k) == b);
        assert forall|j: int| 0 <= j implies #[trigger] digit_at(a, j) == digit_at(b, j) by {}
    } else if a[k] < b[k] {
        value_by_first_difference(a, b, k);
        assert(digit_at(a, k) < digit_at(b, k));
    } else {
        value_by_first_difference(b, a, k);
        assert forall|i: int| 0 <= i && #[trigger] digit_at(a, i) < digit_at(b, i) implies exists|
            j: int,
        | 0 <= j < i && #[trigger] digit_at(a, j) != digit_at(b, j) by {
            if i > k {
                assert(digit_at(a, k) != digit_at(b, k));
            }
        }
    }
}

/// Zeros behind digits: the value grows by the power of ten, the fraction stays.
proof fn padded(d: Seq<char>, n: int) -> (e: Seq<char>)
    requires
        digits_only(d),
        d.len() <= n,
    ensures
        digits_only(e),
        e.len() == n,
        numeral_value(e) == numeral_value(d) * pow(10, (n - d.len()) as nat),
        forall|i: int| 0 <= i ==> #[trigger] digit_at(e, i) == digit_at(d, i),
{
    let z = Seq::new((n - d.len()) as nat, |i: int| '0');
    value_concat(d, z);
    value_of_zeros(z);
    let e = d + z;
    assert forall|i: int| 0 <= i < e.len() implies '0' <= #[trigger] e[i] <= '9' by {
        if i < d.len() {
            assert(e[i] == d[i]);
        }
    }
    e
}

/// Fractions whose digits are the same, place by place, compare alike.
proof fn fraction_less_padded(a: Seq<char>, b: Seq<char>, c: Seq<char>, d: Seq<char>)
    requires
        forall|i: int| 0 <= i ==> #[trigger] digit_at(a, i) == digit_at(c, i),
        forall|i: int| 0 <= i ==> #[trigger] digit_at(b, i) == digit_at(d, i),
        fraction_less(a, b),
    ensures
        fraction_less(c, d),
{
    let i = choose|i: int|
        {
            &&& 0 <= i
            &&& #[trigger] digit_at(a, i) < digit_at(b, i)
            &&& forall|j: int| 0 <= j < i ==> #[trigger] digit_at(a, j) == digit_at(b, j)
        };
    assert(digit_at(a, i) == digit_at(c, i));
    assert(digit_at(b, i) == digit_at(d, i));
    assert forall|j: int| 0 <= j < i implies #[trigger] digit_at(c, j) == digit_at(d, j) by {
        assert(digit_at(a, j) == digit_at(c, j));
        assert(digit_at(b, j) == digit_at(d, j));
        assert(digit_at(a, j) == digit_at(b, j));
    }
}

/// `v`, times ten to the power `e`, is less than `bound`.
pub open spec fn scaled_below(v: int, e: int, bound: int) -> bool {
    if e >= 0 {
        v * pow(10, e as nat) < bound
    } else {
        v < bound * pow(10, (-e) as nat)
    }
}

/// The bound has its number of digits, of which the first is not zero.
proof fn bound_is_numeral()
    ensures
        digits_only(OVERFLOW_DIGITS@),
        OVERFLOW_DIGITS@.len() == OVERFLOW_PLACES,
        OVERFLOW_DIGITS@[0] != '0',
        numeral_value(OVERFLOW_DIGITS@) > 0,
        pow(10, 308) <= numeral_value(OVERFLOW_DIGITS@) < pow(10, 309),
{
    reveal_strlit(
        "179769313486231580793728971405303415079934132710037826936173778980444968292764750946649017977587207096330286416692887910946555547851940402630657488671505820681908902000708383676273854845817711531764475730270069855571366959622842914819860834936475292719074168444365510704342711559699508093042880177904174497792",
    );
    value_bounds(OVERFLOW_DIGITS@);
    vstd::arithmetic::power::lemma_pow_positive(10, 308);
}

/// Digits, scaled by a power of ten, round to a finite double where they are below the bound.
proof fn rounds_by_value(digits: Seq<char>, e: int)
    requires
        digits_only(digits),
    ensures
        rounds_finite(digits, e) <==> scaled_below(
            numeral_value(digits),
            e,
            numeral_value(OVERFLOW_DIGITS@),
        ),
{
    let d = significant(digits);
    let n = d.len() as int;
    let v = numeral_value(d);
    let limit = OVERFLOW_DIGITS@;
    let bound = numeral_value(limit);
    value_of_significant(digits);
    value_bounds(d);
    bound_is_numeral();
    let p = pow(
        10,
        (if e >= 0 {
            e
        } else {
            -e
        }) as nat,
    );
    vstd::arithmetic::power::lemma_pow_positive(
        10,
        (if e >= 0 {
            e
        } else {
            -e
        }) as nat,
    );
    if n == 0 {
        assert(v == 0);
        assert(v * p == 0) by (nonlinear_arith)
            requires
                v == 0,
        ;
        assert(bound * p > 0) by (nonlinear_arith)
            requires
                bound > 0,
                p > 0,
        ;
    } else if n + e < 309 {
        below_by_places(v, n, e, bound);
    } else if n + e > 309 {
        above_by_places(v, n, e, bound);
    } else {
        let m = if n > 309 {
            n
        } else {
            309int
        };
        let a = padded(d, m);
        let b = padded(limit, m);
        fraction_by_value(a, b);
        if fraction_less(d, limit) {
            fraction_less_padded(d, limit, a, b);
        }
        if fraction_less(a, b) {
            fraction_less_padded(a, b, d, limit);
        }
        vstd::arithmetic::power::lemma_pow0(10);
        if e >= 0 {
            assert(m == 309);
            assert(numeral_value(b) == bound * 1);
        } else {
            assert(m == n);
            assert(numeral_value(a) == v * 1);
        }
    }
}

/// A number with too few places is below the bound.
proof fn below_by_places(v: int, n: int, e: int, bound: int)
    requires
        n > 0,
        0 <= v < pow(10, n as nat),
        n + e < 309,
        bound >= pow(10, 308),
    ensures
        scaled_below(v, e, bound),
{
    if e >= 0 {
        let p = pow(10, e as nat);
        vstd::arithmetic::power::lemma_pow_positive(10, e as nat);
        vstd::arithmetic::power::lemma_pow_adds(10, n as nat, e as nat);
        vstd::arithmetic::power::lemma_pow_increases(10, (n + e) as nat, 308);
        let t = pow(10, n as nat);
        assert(v * p < t * p) by (nonlinear_arith)
            requires
                v < t,
                p > 0,
        ;
    } else {
        let p = pow(10, (-e) as nat);
        vstd::arithmetic::power::lemma_pow_positive(10, (-e) as nat);
        vstd::arithmetic::power::lemma_pow_adds(10, 308, (-e) as nat);
        vstd::arithmetic::power::lemma_pow_increases(10, n as nat, (308 - e) as nat);
        let q = pow(10, 308);
        assert(q * p <= bound * p) by (nonlinear_arith)
            requires
                q <= bound,
                p > 0,
        ;
    }
}

/// A number with too many places is not below the bound.
proof fn above_by_places(v: int, n: int, e: int, bound: int)
    requires
        n > 0,
        v >= pow(10, (n - 1) as nat),
        n + e > 309,
        0 < bound < pow(10, 309),
    ensures
        !scaled_below(v, e, bound),
{
    if e >= 0 {
        let p = pow(10, e as nat);
        vstd::arithmetic::power::lemma_pow_positive(10, e as nat);
        vstd::arithmetic::power::lemma_pow_adds(10, (n - 1) as nat, e as nat);
        vstd::arithmetic::power::lemma_pow_increases(10, 309, (n - 1 + e) as nat);
        let t = pow(10, (n - 1) as nat);
        assert(v * p >= t * p) by (nonlinear_arith)
            requires
                v >= t,
                p > 0,
        ;
    } else {
        let p = pow(10, (-e) as nat);
        vstd::arithmetic::power::lemma_pow_positive(10, (-e) as nat);
        vstd::arithmetic::power::lemma_pow_adds(10, 309, (-e) as nat);
        vstd::arithmetic::power::lemma_pow_increases(10, (309 - e) as nat, (n - 1) as nat);
        let q = pow(10, 309);
        assert(bound * p <= q * p) by (nonlinear_arith)
            requires
                bound <= q,
                p > 0,
        ;
    }
}

/// Law: a decimal number is finite if and only if its value, the digits times the power of
/// ten, is below the bound; the sign does not matter.
pub proof fn finite_by_value(l: Literal)
    requires
        l.is_proper(),
    ensures
        is_finite_number(l.text()) <==> scaled_below(
            (l.whole + l.fraction).fold_left(
                0int,
                |v: int, c: char| v * 10 + (c as int - '0' as int),
            ),
            l.exponent(),
            OVERFLOW_DIGITS@.fold_left(0int, |v: int, c: char| v * 10 + (c as int - '0' as int)),
        ),
{
    let b = l.body();
    let m = l.whole + l.fraction;
    literal_parts(l);
    assert(digits_only(m)) by {
        assert forall|i: int| 0 <= i < m.len() implies '0' <= #[trigger] m[i] <= '9' by {
            if i < l.whole.len() {
                assert(m[i] == l.whole[i]);
            } else {
                assert(m[i] == l.fraction[i - l.whole.len()]);
            }
        }
    }
    value_is_fold(m);
    value_is_fold(l.power);
    value_is_fold(OVERFLOW_DIGITS@);
    if l.marked {
        let x = exponent_text(b);
        assert(x == l.power_sign + l.power);
        assert((x[0] == '-') == (l.power_sign == seq!['-'])) by {
            if l.power_sign.len() == 0 {
                assert(x[0] == l.power[0]);
                assert('0' <= l.power[0] <= '9');
                assert(l.power_sign.len() != seq!['-'].len());
            } else {
                assert(x[0] == l.power_sign[0]);
            }
        }
    }
    assert(scale(b) == l.exponent());
    rounds_by_value(m, l.exponent());
}

} // verus!
