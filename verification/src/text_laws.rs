//! What the functions on texts do, said without them.

use vstd::prelude::*;
use vstd::utf8::{encode_utf8, valid_utf8};
use crate::text::{
    decimal, find_from, is_white, occurs_at, replace_all, text_of,
    trim, trim_end, trim_start,
};

verus! {

broadcast use vstd::string::group_string_axioms;

/// Law: bytes that are UTF-8 are read as the text that they encode, so that encoding it
/// gives them back; other bytes are read as nothing.
pub proof fn text_of_bytes(bytes: Seq<u8>)
    ensures
        valid_utf8(bytes) ==> encode_utf8(text_of(bytes)) == bytes,
        !valid_utf8(bytes) ==> text_of(bytes).len() == 0,
{
    if valid_utf8(bytes) {
        vstd::utf8::decode_utf8_encode_utf8(bytes);
    }
}

/// Law: the bytes of a text are read as that text.
pub proof fn bytes_of_text(text: Seq<char>)
    ensures
        text_of(encode_utf8(text)) == text,
{
    vstd::utf8::encode_utf8_valid_utf8(text);
    vstd::utf8::encode_utf8_decode_utf8(text);
}

proof fn trim_start_range(s: Seq<char>) -> (a: int)
    ensures
        0 <= a <= s.len(),
        trim_start(s) == s.skip(a),
        forall|i: int| 0 <= i < a ==> is_white(#[trigger] s[i]),
        a < s.len() ==> !is_white(s[a]),
    decreases s.len(),
{
    if s.len() > 0 && is_white(s.first()) {
        let t = s.drop_first();
        let b = trim_start_range(t);
        assert(t.skip(b) == s.skip(b + 1));
        assert forall|i: int| 0 <= i < b + 1 implies is_white(#[trigger] s[i]) by {
            if i > 0 {
                assert(s[i] == t[i - 1]);
            }
        }
        if b < t.len() {
            assert(t[b] == s[b + 1]);
        }
        b + 1
    } else {
        assert(s == s.skip(0));
        0
    }
}

proof fn trim_end_range(s: Seq<char>) -> (b: int)
    ensures
        0 <= b <= s.len(),
        trim_end(s) == s.take(b),
        forall|i: int| b <= i < s.len() ==> is_white(#[trigger] s[i]),
        b > 0 ==> !is_white(s[b - 1]),
    decreases s.len(),
{
    if s.len() > 0 && is_white(s.last()) {
        let t = s.drop_last();
        let b = trim_end_range(t);
        assert(t.take(b) == s.take(b));
        assert forall|i: int| b <= i < s.len() implies is_white(#[trigger] s[i]) by {
            if i < t.len() {
                assert(s[i] == t[i]);
            }
        }
        b
    } else {
        assert(s == s.take(s.len() as int));
        s.len() as int
    }
}

/// Law: trimming cuts white space, and nothing else, off both ends, and all of it: what
/// stands before and behind the rest is white space, and the rest neither starts nor ends with any.
pub proof fn trim_cuts_white_space(s: Seq<char>)
    ensures
        exists|a: int, b: int|
            {
                &&& 0 <= a <= b <= s.len()
                &&& trim(s) == #[trigger] s.subrange(a, b)
                &&& forall|i: int| 0 <= i < a || b <= i < s.len() ==> is_white(#[trigger] s[i])
            },
        trim(s).len() > 0 ==> !is_white(trim(s).first()) && !is_white(trim(s).last()),
{
    let a = trim_start_range(s);
    let t = s.skip(a);
    let n = trim_end_range(t);
    let b = a + n;
    assert(t.take(n) == s.subrange(a, b));
    assert forall|i: int| 0 <= i < a || b <= i < s.len() implies is_white(#[trigger] s[i]) by {
        if i >= b {
            assert(s[i] == t[i - a]);
        }
    }
    if n > 0 {
        assert(t[n - 1] == s[b - 1]);
    }
}

/// Law: white space around a text does not matter when it is trimmed.
pub proof fn trim_ignores_surroundings(before: Seq<char>, s: Seq<char>, behind: Seq<char>)
    requires
        forall|i: int| 0 <= i < before.len() ==> is_white(#[trigger] before[i]),
        forall|i: int| 0 <= i < behind.len() ==> is_white(#[trigger] behind[i]),
    ensures
        trim(before + s + behind) == trim(s),
{
    let u = before + s + behind;
    let a = trim_start_range(s);
    let c = trim_start_range(u);
    if c < before.len() {
        assert(u[c] == before[c]);
    }
    if a < s.len() {
        assert(u[before.len() + a] == s[a]);
        if c < before.len() + a {
            assert(u[c] == s[c - before.len()]);
        }
        assert(c == before.len() + a);
        let x = s.skip(a);
        let y = u.skip(c);
        assert(y == x + behind);
        let m = trim_end_range(x);
        let n = trim_end_range(y);
        assert(m > 0) by {
            if m == 0 {
                assert(is_white(x[0]));
            }
        }
        assert(y[m - 1] == x[m - 1]);
        if n > m {
            assert(is_white(y[n - 1])) by {
                if n - 1 < x.len() {
                    assert(y[n - 1] == x[n - 1]);
                } else {
                    assert(y[n - 1] == behind[n - 1 - x.len()]);
                }
            }
        }
        if n < m {
            assert(is_white(y[m - 1]));
        }
        assert(x.take(m) == y.take(n));
    } else {
        assert(c == u.len()) by {
            if c < u.len() {
                if c < before.len() + s.len() {
                    assert(u[c] == s[c - before.len()]);
                } else {
                    assert(u[c] == behind[c - before.len() - s.len()]);
                }
            }
        }
        assert(u.skip(c) == s.skip(a));
    }
}

/// Law: a pattern occurs where the part of the text from there on, as long as the pattern, is
/// the pattern.
pub proof fn occurrence_is_part(s: Seq<char>, pat: Seq<char>, i: int)
    ensures
        occurs_at(s, pat, i) <==> 0 <= i && i + pat.len() <= s.len() && s.subrange(
            i,
            i + pat.len(),
        ) == pat,
{
    if 0 <= i && i + pat.len() <= s.len() {
        let part = s.subrange(i, i + pat.len());
        if occurs_at(s, pat, i) {
            assert forall|k: int| 0 <= k < pat.len() implies part[k] == pat[k] by {
                assert(s[i + k] == pat[k]);
            }
            assert(part == pat);
        } else if part == pat {
            assert forall|k: int| 0 <= k < pat.len() implies s[i + k] == #[trigger] pat[k] by {
                assert(part[k] == pat[k]);
            }
        }
    }
}

/// Law: a search finds the first occurrence at or behind its start, and nothing only where
/// there is none.
pub proof fn search_finds_first(s: Seq<char>, pat: Seq<char>, from: int)
    requires
        0 <= from,
    ensures
        match find_from(s, pat, from) {
            Some(i) => {
                &&& from <= i && i + pat.len() <= s.len()
                &&& s.subrange(i, i + pat.len()) == pat
                &&& forall|j: int| from <= j < i ==> #[trigger] s.subrange(j, j + pat.len()) != pat
            },
            None => forall|j: int|
                from <= j && j + pat.len() <= s.len() ==> #[trigger] s.subrange(j, j + pat.len())
                    != pat,
        },
    decreases s.len() - from,
{
    occurrence_is_part(s, pat, from);
    if from + pat.len() <= s.len() && !occurs_at(s, pat, from) {
        search_finds_first(s, pat, from + 1);
        match find_from(s, pat, from) {
            Some(i) => {
                assert forall|j: int| from <= j < i implies #[trigger] s.subrange(
                    j,
                    j + pat.len(),
                ) != pat by {
                    if j > from {
                        assert(from + 1 <= j < i);
                    }
                }
            },
            None => {
                assert forall|j: int|
                    from <= j && j + pat.len() <= s.len() implies #[trigger] s.subrange(
                    j,
                    j + pat.len(),
                ) != pat by {
                    if j > from {
                        assert(from + 1 <= j);
                    }
                }
            },
        }
    }
}

/// Law: replacing replaces the first occurrence, and goes on behind it; what stands before
/// it stays.
pub proof fn replacing_goes_on(s: Seq<char>, pat: Seq<char>, to: Seq<char>, i: int)
    requires
        pat.len() > 0,
        0 <= i,
        i + pat.len() <= s.len(),
        s.subrange(i, i + pat.len()) == pat,
        forall|j: int| 0 <= j < i ==> #[trigger] s.subrange(j, j + pat.len()) != pat,
    ensures
        replace_all(s, pat, to) == s.take(i) + to + replace_all(s.skip(i + pat.len()), pat, to),
    decreases i,
{
    occurrence_is_part(s, pat, 0);
    if i == 0 {
        assert(s.take(0) + to == to);
    } else {
        assert(s.subrange(0, 0int + pat.len()) != pat);
        let t = s.skip(1);
        assert(t.subrange(i - 1, i - 1 + pat.len()) == s.subrange(i, i + pat.len()));
        assert forall|j: int| 0 <= j < i - 1 implies #[trigger] t.subrange(j, j + pat.len())
            != pat by {
            assert(t.subrange(j, j + pat.len()) == s.subrange(j + 1, j + 1 + pat.len()));
        }
        replacing_goes_on(t, pat, to, i - 1);
        assert(t.skip(i - 1 + pat.len()) == s.skip(i + pat.len()));
        assert(seq![s[0]] + t.take(i - 1) == s.take(i));
        let tail = replace_all(s.skip(i + pat.len()), pat, to);
        assert(seq![s[0]] + (t.take(i - 1) + to + tail) == s.take(i) + to + tail);
    }
}

/// Law: without an occurrence nothing is replaced.
pub proof fn replacing_leaves_others(s: Seq<char>, pat: Seq<char>, to: Seq<char>)
    requires
        forall|j: int|
            0 <= j && j + pat.len() <= s.len() ==> #[trigger] s.subrange(j, j + pat.len()) != pat,
    ensures
        replace_all(s, pat, to) == s,
    decreases s.len(),
{
    if s.len() > 0 && pat.len() > 0 {
        occurrence_is_part(s, pat, 0);
        if pat.len() <= s.len() {
            assert(s.subrange(0, 0int + pat.len()) != pat);
        }
        let t = s.skip(1);
        assert forall|j: int| 0 <= j && j + pat.len() <= t.len() implies #[trigger] t.subrange(
            j,
            j + pat.len(),
        ) != pat by {
            assert(t.subrange(j, j + pat.len()) == s.subrange(j + 1, j + 1 + pat.len()));
        }
        replacing_leaves_others(t, pat, to);
        assert(seq![s[0]] + t == s);
    }
}

/// Law: a decimal numeral is made of digits, has the value of its number, and has no
/// leading zero.
pub proof fn decimal_has_value(n: nat)
    ensures
        decimal(n).len() > 0,
        forall|i: int| 0 <= i < decimal(n).len() ==> '0' <= #[trigger] decimal(n)[i] <= '9',
        decimal(n).fold_left(0int, |v: int, c: char| v * 10 + (c as int - '0' as int)) == n,
        decimal(n).len() > 1 ==> decimal(n)[0] != '0',
    decreases n,
{
    let f = |v: int, c: char| v * 10 + (c as int - '0' as int);
    let d = decimal(n);
    if n < 10 {
        assert(d.drop_last() == Seq::<char>::empty());
        assert(d.drop_last().fold_left(0int, f) == 0);
        assert(d.fold_left(0int, f) == f(0, d.last()));
    } else {
        let front = decimal(n / 10);
        decimal_has_value(n / 10);
        assert(d.drop_last() == front);
        assert(d.fold_left(0int, f) == f(front.fold_left(0int, f), d.last()));
        assert(d[0] == front[0]);
        assert forall|i: int| 0 <= i < d.len() implies '0' <= #[trigger] d[i] <= '9' by {
            if i < front.len() {
                assert(d[i] == front[i]);
            }
        }
        if front.len() == 1 && front[0] == '0' {
            assert(front.drop_last() == Seq::<char>::empty());
            assert(front.drop_last().fold_left(0int, f) == 0);
            assert(front.fold_left(0int, f) == f(0, front.last()));
        }
    }
}

} // verus!
