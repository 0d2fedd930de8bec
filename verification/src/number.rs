//! Which texts read as numbers, and which of those are finite.
//!
//! A number is an optional sign followed by `inf`, `infinity` or `nan` (in any
//! case), or by a decimal literal: digits with at most one point and at least one
//! digit, then an optional exponent. It is finite when the double nearest to its
//! value is.

use vstd::prelude::*;
use crate::text::{chars_of, copy_range};

verus! {

broadcast use vstd::string::group_string_axioms;

/// The decimal digits of 2^1024 - 2^970, the smallest value that rounds to an
/// infinite double.
pub const OVERFLOW_DIGITS: &'static str = "179769313486231580793728971405303415079934132710037826936173778980444968292764750946649017977587207096330286416692887910946555547851940402630657488671505820681908902000708383676273854845817711531764475730270069855571366959622842914819860834936475292719074168444365510704342711559699508093042880177904174497792";

/// The number of digits in `OVERFLOW_DIGITS`.
pub const OVERFLOW_PLACES: usize = 309;

/// A decimal digit.
pub open spec fn is_digit(c: char) -> bool {
    '0' <= c <= '9'
}

/// The value of a decimal digit.
pub open spec fn digit_value(c: char) -> int {
    c as int - '0' as int
}

/// The lower case of an ASCII letter; any other character stays as it is.
pub open spec fn lower(c: char) -> char {
    if 'A' <= c <= 'Z' {
        (c as int + 32) as char
    } else {
        c
    }
}

/// `s` is the word `w`, in any case.
pub open spec fn is_word(s: Seq<char>, w: Seq<char>) -> bool {
    s.map_values(|c: char| lower(c)) == w
}

/// A plus or minus sign.
pub open spec fn is_sign(c: char) -> bool {
    c == '+' || c == '-'
}

/// `s` without a sign at its front.
pub open spec fn unsigned(s: Seq<char>) -> Seq<char> {
    if s.len() > 0 && is_sign(s[0]) {
        s.skip(1)
    } else {
        s
    }
}

/// Where the run of digits that starts at `from` ends.
pub open spec fn run_end(s: Seq<char>, from: int) -> int
    decreases s.len() - from,
{
    if 0 <= from < s.len() && is_digit(s[from]) {
        run_end(s, from + 1)
    } else {
        from
    }
}

/// Where the digits after the point start: behind the point, or, without one, at
/// the end of the digits before it.
pub open spec fn fraction_start(s: Seq<char>) -> int {
    let i = run_end(s, 0);
    if i < s.len() && s[i] == '.' {
        i + 1
    } else {
        i
    }
}

/// Where the digits after the point end.
pub open spec fn fraction_end(s: Seq<char>) -> int {
    run_end(s, fraction_start(s))
}

/// All digits before the exponent, in order.
pub open spec fn mantissa(s: Seq<char>) -> Seq<char> {
    s.subrange(0, run_end(s, 0)) + s.subrange(fraction_start(s), fraction_end(s))
}

/// An exponent marker.
pub open spec fn is_exponent_mark(c: char) -> bool {
    c == 'e' || c == 'E'
}

/// What stands behind the exponent marker.
pub open spec fn exponent_text(s: Seq<char>) -> Seq<char> {
    s.skip(fraction_end(s) + 1)
}

/// One or more digits and nothing else.
pub open spec fn is_numeral(s: Seq<char>) -> bool {
    s.len() > 0 && run_end(s, 0) == s.len()
}

/// A decimal literal without a sign in front.
pub open spec fn is_decimal(s: Seq<char>) -> bool {
    let end = fraction_end(s);
    &&& mantissa(s).len() > 0
    &&& end == s.len() || (is_exponent_mark(s[end]) && is_numeral(unsigned(exponent_text(s))))
}

/// The value of a string of digits.
pub open spec fn numeral_value(s: Seq<char>) -> int
    decreases s.len(),
{
    if s.len() == 0 {
        0
    } else {
        numeral_value(s.drop_last()) * 10 + digit_value(s.last())
    }
}

/// The power of ten by which the mantissa, read as a whole number, is scaled.
pub open spec fn scale(s: Seq<char>) -> int {
    let places = fraction_end(s) - fraction_start(s);
    if fraction_end(s) == s.len() {
        -places
    } else {
        let x = exponent_text(s);
        let size = numeral_value(unsigned(x));
        if x[0] == '-' {
            -size - places
        } else {
            size - places
        }
    }
}

/// `s` without leading zeros.
pub open spec fn significant(s: Seq<char>) -> Seq<char>
    decreases s.len(),
{
    if s.len() > 0 && s[0] == '0' {
        significant(s.skip(1))
    } else {
        s
    }
}

/// The digit at place `i`, where zeros follow the last digit of `s`.
pub open spec fn digit_at(s: Seq<char>, i: int) -> int {
    if i < s.len() {
        digit_value(s[i])
    } else {
        0
    }
}

/// The fraction `0.a` is less than the fraction `0.b`: they differ, and `a` has the
/// smaller digit at the first place at which they do.
pub open spec fn fraction_less(a: Seq<char>, b: Seq<char>) -> bool {
    exists|i: int|
        {
            &&& 0 <= i
            &&& #[trigger] digit_at(a, i) < digit_at(b, i)
            &&& forall|j: int| 0 <= j < i ==> #[trigger] digit_at(a, j) == digit_at(b, j)
        }
}

/// The whole number `digits`, times ten to the power `scale`, rounds to a finite
/// double: without leading zeros it is the fraction `0.digits` times ten to the
/// power `digits.len() + scale`, which is held against the smallest value that does not.
pub open spec fn rounds_finite(digits: Seq<char>, scale: int) -> bool {
    let d = significant(digits);
    ||| d.len() == 0
    ||| d.len() + scale < OVERFLOW_PLACES
    ||| d.len() + scale == OVERFLOW_PLACES && fraction_less(d, OVERFLOW_DIGITS@)
}

/// `s` reads as a number.
pub open spec fn is_number(s: Seq<char>) -> bool {
    let b = unsigned(s);
    ||| is_word(b, "inf"@)
    ||| is_word(b, "infinity"@)
    ||| is_word(b, "nan"@)
    ||| is_decimal(b)
}

/// `s` reads as a number, and that number is finite.
pub open spec fn is_finite_number(s: Seq<char>) -> bool {
    let b = unsigned(s);
    is_decimal(b) && rounds_finite(mantissa(b), scale(b))
}

/// A run of digits ends at or behind its start, inside the text, and holds digits only.
pub proof fn run_end_bounds(s: Seq<char>, from: int)
    requires
        0 <= from <= s.len(),
    ensures
        from <= run_end(s, from) <= s.len(),
        forall|j: int| from <= j < run_end(s, from) ==> is_digit(#[trigger] s[j]),
        run_end(s, from) < s.len() ==> !is_digit(s[run_end(s, from)]),
    decreases s.len() - from,
{
    if from < s.len() && is_digit(s[from]) {
        run_end_bounds(s, from + 1);
    }
}

/// Whether a character is a decimal digit.
fn digit(c: char) -> (r: bool)
    ensures
        r == is_digit(c),
{
    '0' <= c && c <= '9'
}

/// Where the run of digits that starts at `from` ends.
fn digits_end(s: &Vec<char>, from: usize) -> (r: usize)
    requires
        from <= s@.len(),
    ensures
        from <= r <= s@.len(),
        r == run_end(s@, from as int),
{
    let mut i: usize = from;
    while i < s.len() && digit(s[i])
        invariant
            from <= i <= s@.len(),
            run_end(s@, from as int) == run_end(s@, i as int),
        decreases s@.len() - i,
    {
        i = i + 1;
    }
    i
}

/// Whether `s` is the word `w`, in any case.
fn word(s: &Vec<char>, w: &str) -> (r: bool)
    ensures
        r == is_word(s@, w@),
{
    let letters = chars_of(w);
    let ghost low = s@.map_values(|c: char| lower(c));
    if s.len() != letters.len() {
        assert(low.len() != w@.len());
        return false;
    }
    for i in 0..s.len()
        invariant
            letters@ == w@,
            s@.len() == w@.len(),
            low == s@.map_values(|c: char| lower(c)),
            forall|j: int| 0 <= j < i ==> low[j] == w@[j],
    {
        let c = s[i];
        let l: char = if 'A' <= c && c <= 'Z' {
            ((c as u8) + 32) as char
        } else {
            c
        };
        assert(low[i as int] == l);
        if l != letters[i] {
            return false;
        }
    }
    assert(low == w@);
    true
}

/// `s` without a sign at its front.
fn without_sign(s: &Vec<char>) -> (r: Vec<char>)
    ensures
        r@ == unsigned(s@),
{
    if s.len() > 0 && (s[0] == '+' || s[0] == '-') {
        assert(s@.skip(1) == s@.subrange(1, s@.len() as int));
        copy_range(s, 1, s.len())
    } else {
        assert(s@ == s@.subrange(0, s@.len() as int));
        copy_range(s, 0, s.len())
    }
}

/// Where the parts of a decimal literal stand.
struct Layout {
    /// The end of the digits before the point.
    whole_end: usize,
    /// The start of the digits after the point.
    fraction_start: usize,
    /// The end of the digits after the point.
    fraction_end: usize,
}

impl Layout {
    /// These are the positions of the parts of `s`.
    spec fn describes(self, s: Seq<char>) -> bool {
        &&& self.whole_end == run_end(s, 0)
        &&& self.fraction_start == fraction_start(s)
        &&& self.fraction_end == fraction_end(s)
        &&& self.whole_end <= self.fraction_start <= self.fraction_end <= s.len()
    }
}

/// Finds the parts of a text that may be a decimal literal.
fn layout(s: &Vec<char>) -> (r: Layout)
    ensures
        r.describes(s@),
{
    let whole_end = digits_end(s, 0);
    let fraction_start = if whole_end < s.len() && s[whole_end] == '.' {
        whole_end + 1
    } else {
        whole_end
    };
    let fraction_end = digits_end(s, fraction_start);
    Layout { whole_end, fraction_start, fraction_end }
}

/// Whether an unsigned text with the given layout is a decimal literal.
fn decimal_literal(s: &Vec<char>, at: &Layout) -> (r: bool)
    requires
        at.describes(s@),
    ensures
        r == is_decimal(s@),
{
    if at.whole_end == 0 && at.fraction_start == at.fraction_end {
        return false;
    }
    assert(mantissa(s@).len() > 0);
    if at.fraction_end == s.len() {
        return true;
    }
    let mark = s[at.fraction_end];
    if mark != 'e' && mark != 'E' {
        return false;
    }
    let x = copy_range(s, at.fraction_end + 1, s.len());
    assert(x@ == exponent_text(s@));
    let digits = without_sign(&x);
    digits.len() > 0 && digits_end(&digits, 0) == digits.len()
}

/// Whether a text reads as a number.
pub fn reads_as_number(s: &Vec<char>) -> (r: bool)
    ensures
        r == is_number(s@),
{
    let b = without_sign(s);
    if word(&b, "inf") || word(&b, "infinity") || word(&b, "nan") {
        return true;
    }
    let at = layout(&b);
    decimal_literal(&b, &at)
}

/// A bound above which the exact size of an exponent no longer matters.
const EXPONENT_CAP: u128 = 0x10_0000_0000_0000_0000_0000_0000;

/// Digits have a value, and more digits never have a smaller one.
proof fn numeral_value_step(s: Seq<char>, i: int)
    requires
        0 <= i < s.len(),
        run_end(s, 0) == s.len(),
    ensures
        numeral_value(s.take(i + 1)) == numeral_value(s.take(i)) * 10 + digit_value(s[i]),
        0 <= digit_value(s[i]) <= 9,
{
    run_end_bounds(s, 0);
    assert(s.take(i + 1).drop_last() == s.take(i));
    assert(is_digit(s[i]));
}

/// The value of a numeral, or, where that is above the cap, some number above the cap.
fn capped_value(s: &Vec<char>) -> (r: u128)
    requires
        run_end(s@, 0) == s@.len(),
    ensures
        r <= EXPONENT_CAP ==> r == numeral_value(s@),
        r > EXPONENT_CAP ==> numeral_value(s@) > EXPONENT_CAP,
        r <= 10 * EXPONENT_CAP + 9,
{
    let mut r: u128 = 0;
    for i in 0..s.len()
        invariant
            run_end(s@, 0) == s@.len(),
            r <= EXPONENT_CAP ==> r == numeral_value(s@.take(i as int)),
            r > EXPONENT_CAP ==> numeral_value(s@.take(i as int)) > EXPONENT_CAP,
            r <= 10 * EXPONENT_CAP + 9,
    {
        proof {
            numeral_value_step(s@, i as int);
        }
        if r <= EXPONENT_CAP {
            let d: u32 = s[i] as u32 - 48;
            r = r * 10 + d as u128;
        }
    }
    assert(s@.take(s@.len() as int) == s@);
    r
}

/// Without its leading zeros a text is one of its own tails.
proof fn significant_tail(s: Seq<char>, z: int)
    requires
        0 <= z <= s.len(),
        forall|j: int| 0 <= j < z ==> s[j] == '0',
        z < s.len() ==> s[z] != '0',
    ensures
        significant(s) == s.skip(z),
    decreases z,
{
    if z > 0 {
        assert(s.skip(1).skip(z - 1) == s.skip(z));
        significant_tail(s.skip(1), z - 1);
    } else {
        assert(s.skip(0) == s);
    }
}

/// Whether the fraction made of `digits` from place `z` on is less than the
/// fraction made of the overflow bound's digits.
fn below_bound(digits: &Vec<char>, z: usize) -> (r: bool)
    requires
        z <= digits@.len(),
        forall|j: int| 0 <= j < digits@.len() ==> is_digit(#[trigger] digits@[j]),
    ensures
        r == fraction_less(digits@.skip(z as int), OVERFLOW_DIGITS@),
{
    let bound = chars_of(OVERFLOW_DIGITS);
    let ghost a = digits@.skip(z as int);
    let n = digits.len() - z;
    for i in 0..bound.len()
        invariant
            z <= digits@.len(),
            n == digits.len() - z,
            a == digits@.skip(z as int),
            bound@ == OVERFLOW_DIGITS@,
            forall|j: int| 0 <= j < i ==> #[trigger] digit_at(a, j) == digit_at(bound@, j),
    {
        let x: char = if i < n {
            digits[z + i]
        } else {
            '0'
        };
        let y = bound[i];
        assert(digit_value(x) == digit_at(a, i as int));
        assert(digit_value(y) == digit_at(bound@, i as int));
        if x < y {
            assert(digit_at(a, i as int) < digit_at(bound@, i as int));
            return true;
        }
        if x > y {
            assert forall|k: int| 0 <= k && #[trigger] digit_at(a, k) < digit_at(bound@, k) implies exists|
                j: int,
            | 0 <= j < k && #[trigger] digit_at(a, j) != digit_at(bound@, j) by {
                if k <= i {
                    assert(k == i || digit_at(a, k) == digit_at(bound@, k));
                } else {
                    assert(digit_at(a, i as int) != digit_at(bound@, i as int));
                }
            }
            return false;
        }
    }
    assert forall|k: int| 0 <= k implies #[trigger] digit_at(a, k) >= digit_at(bound@, k) by {
        if k < a.len() {
            assert(is_digit(digits@[z + k]));
        }
    }
    false
}

/// Whether a text reads as a finite number.
pub fn reads_as_finite_number(s: &Vec<char>) -> (r: bool)
    ensures
        r == is_finite_number(s@),
{
    let b = without_sign(s);
    let at = layout(&b);
    if !decimal_literal(&b, &at) {
        return false;
    }
    proof {
        run_end_bounds(b@, 0);
        run_end_bounds(b@, fraction_start(b@));
    }
    let mut digits = copy_range(&b, 0, at.whole_end);
    let mut fraction = copy_range(&b, at.fraction_start, at.fraction_end);
    digits.append(&mut fraction);
    assert(digits@ == mantissa(b@));
    assert(forall|j: int| 0 <= j < digits@.len() ==> is_digit(#[trigger] digits@[j]));

    let mut z: usize = 0;
    while z < digits.len() && digits[z] == '0'
        invariant
            z <= digits@.len(),
            forall|j: int| 0 <= j < z ==> digits@[j] == '0',
        decreases digits@.len() - z,
    {
        z = z + 1;
    }
    proof {
        significant_tail(digits@, z as int);
    }
    if z == digits.len() {
        return true;
    }
    let places: usize = at.fraction_end - at.fraction_start;
    let shift: i128 = if at.fraction_end == b.len() {
        0
    } else {
        let x = copy_range(&b, at.fraction_end + 1, b.len());
        assert(x@ == exponent_text(b@));
        let size: i128 = capped_value(&without_sign(&x)) as i128;
        if x[0] == '-' {
            -size
        } else {
            size
        }
    };
    let top: i128 = (digits.len() - z) as i128 - places as i128 + shift;
    if top < OVERFLOW_PLACES as i128 {
        true
    } else if top > OVERFLOW_PLACES as i128 {
        false
    } else {
        below_bound(&digits, z)
    }
}

/// A character that a finite number may hold.
pub open spec fn is_number_char(c: char) -> bool {
    is_digit(c) || c == '.' || is_exponent_mark(c) || is_sign(c)
}

/// A finite number is made of digits, signs, a point and an exponent marker.
pub proof fn finite_number_chars(s: Seq<char>)
    requires
        is_finite_number(s),
    ensures
        forall|i: int| 0 <= i < s.len() ==> is_number_char(#[trigger] s[i]),
{
    let b = unsigned(s);
    run_end_bounds(b, 0);
    run_end_bounds(b, fraction_start(b));
    let end = fraction_end(b);
    assert forall|i: int| 0 <= i < b.len() implies is_number_char(#[trigger] b[i]) by {
        if i > end {
            let x = exponent_text(b);
            let u = unsigned(x);
            run_end_bounds(u, 0);
            assert(b[i] == x[i - end - 1]);
            if is_sign(x[0]) {
                if i - end - 1 > 0 {
                    assert(x[i - end - 1] == u[i - end - 2]);
                    assert(is_digit(u[i - end - 2]));
                }
            } else {
                assert(is_digit(u[i - end - 1]));
            }
        }
    }
    assert forall|i: int| 0 <= i < s.len() implies is_number_char(#[trigger] s[i]) by {
        if s.len() > 0 && is_sign(s[0]) {
            if i > 0 {
                assert(s[i] == b[i - 1]);
            }
        } else {
            assert(s[i] == b[i]);
        }
    }
}

} // verus!
