//! Character sequences: conversion, trimming, searching, replacing, decimal numerals.

use vstd::prelude::*;
use vstd::string::*;
use vstd::utf8::*;

verus! {

broadcast use vstd::string::group_string_axioms;

/// The error of `std::str::from_utf8`. Nothing inside it is read.
#[verifier::external_type_specification]
#[verifier::external_body]
pub struct ExUtf8Error(std::str::Utf8Error);

/// `String::push` appends the given character to the end of the string.
pub assume_specification[ String::push ](s: &mut String, c: char)
    ensures
        final(s)@ == old(s)@.push(c),
;

/// `String::into_bytes` gives the bytes of the string's UTF-8 encoding.
pub assume_specification[ String::into_bytes ](s: String) -> (bytes: Vec<u8>)
    ensures
        bytes@ == encode_utf8(s@),
;

/// `std::str::from_utf8` succeeds exactly on valid UTF-8, and then hands back the
/// string that these bytes encode.
pub assume_specification[ std::str::from_utf8 ](v: &[u8]) -> (res: Result<&str, std::str::Utf8Error>)
    ensures
        res is Ok <==> valid_utf8(v@),
        res matches Ok(s) ==> s@ == decode_utf8(v@),
;

/// The text that a byte field stands for: its decoding, or nothing where it is not UTF-8.
pub open spec fn text_of(bytes: Seq<u8>) -> Seq<char> {
    if valid_utf8(bytes) {
        decode_utf8(bytes)
    } else {
        Seq::empty()
    }
}

/// Encoding works character by character.
pub proof fn encode_concat(a: Seq<char>, b: Seq<char>)
    ensures
        encode_utf8(a + b) == encode_utf8(a) + encode_utf8(b),
    decreases a.len(),
{
    if a.len() == 0 {
        assert(a + b == b);
        assert(encode_utf8(a) + encode_utf8(b) == encode_utf8(b));
    } else {
        assert((a + b).drop_first() == a.drop_first() + b);
        encode_concat(a.drop_first(), b);
        assert(encode_utf8(a + b) == encode_utf8(a) + encode_utf8(b));
    }
}

/// Decodes a byte field; one that is not UTF-8 reads as the empty text.
pub fn decode_field(bytes: &[u8]) -> (s: &str)
    ensures
        s@ == text_of(bytes@),
{
    match std::str::from_utf8(bytes) {
        Ok(s) => s,
        Err(_) => {
            proof {
                reveal_strlit("");
            }
            ""
        },
    }
}

/// The characters of a string, in order.
pub fn chars_of(s: &str) -> (v: Vec<char>)
    ensures
        v@ == s@,
{
    let mut v: Vec<char> = Vec::new();
    for c in it: s.chars()
        invariant
            it.seq() == s@,
            v@ == s@.take(it.index()),
    {
        v.push(c);
    }
    v
}

/// A string made of the given characters.
pub fn string_of(chars: &Vec<char>) -> (s: String)
    ensures
        s@ == chars@,
{
    let mut s = String::new();
    for i in 0..chars.len()
        invariant
            s@ == chars@.take(i as int),
    {
        s.push(chars[i]);
        assert(chars@.take(i + 1) == chars@.take(i as int).push(chars@[i as int]));
    }
    assert(chars@.take(chars@.len() as int) == chars@);
    s
}

/// Whether two strings hold the same characters.
pub fn same_text(a: &str, b: &str) -> (r: bool)
    ensures
        r == (a@ == b@),
{
    a.to_owned() == b.to_owned()
}

// ---------------------------------------------------------------------------
// Trimming
// ---------------------------------------------------------------------------

/// The characters with the Unicode property `White_Space`.
pub open spec fn is_white(c: char) -> bool {
    ||| '\u{9}' <= c <= '\u{d}'
    ||| c == ' '
    ||| c == '\u{85}'
    ||| c == '\u{a0}'
    ||| c == '\u{1680}'
    ||| '\u{2000}' <= c <= '\u{200a}'
    ||| c == '\u{2028}'
    ||| c == '\u{2029}'
    ||| c == '\u{202f}'
    ||| c == '\u{205f}'
    ||| c == '\u{3000}'
}

/// Whether a character is white space.
pub fn is_white_space(c: char) -> (r: bool)
    ensures
        r == is_white(c),
{
    ('\u{9}' <= c && c <= '\u{d}') || c == ' ' || c == '\u{85}' || c == '\u{a0}' || c == '\u{1680}'
        || ('\u{2000}' <= c && c <= '\u{200a}') || c == '\u{2028}' || c == '\u{2029}' || c
        == '\u{202f}' || c == '\u{205f}' || c == '\u{3000}'
}

/// `s` without its leading white space.
pub open spec fn trim_start(s: Seq<char>) -> Seq<char>
    decreases s.len(),
{
    if s.len() > 0 && is_white(s.first()) {
        trim_start(s.drop_first())
    } else {
        s
    }
}

/// `s` without its trailing white space.
pub open spec fn trim_end(s: Seq<char>) -> Seq<char>
    decreases s.len(),
{
    if s.len() > 0 && is_white(s.last()) {
        trim_end(s.drop_last())
    } else {
        s
    }
}

/// `s` without its leading and trailing white space.
pub open spec fn trim(s: Seq<char>) -> Seq<char> {
    trim_end(trim_start(s))
}

/// Trimming takes nothing but white space away.
pub proof fn trim_keeps(s: Seq<char>)
    ensures
        forall|i: int|
            0 <= i < s.len() ==> is_white(#[trigger] s[i]) || trim(s).contains(s[i]),
{
    let t = trim_start(s);
    trim_start_keeps(s);
    trim_end_keeps(t);
    assert forall|i: int| 0 <= i < s.len() implies is_white(#[trigger] s[i]) || trim(s).contains(
        s[i],
    ) by {
        if t.contains(s[i]) {
            let j = choose|j: int| 0 <= j < t.len() && t[j] == s[i];
            assert(is_white(t[j]) || trim(s).contains(t[j]));
        }
    }
}

proof fn trim_start_keeps(s: Seq<char>)
    ensures
        forall|i: int|
            0 <= i < s.len() ==> is_white(#[trigger] s[i]) || trim_start(s).contains(s[i]),
    decreases s.len(),
{
    if s.len() > 0 && is_white(s.first()) {
        let t = s.drop_first();
        trim_start_keeps(t);
        assert forall|i: int| 0 <= i < s.len() implies is_white(#[trigger] s[i]) || trim_start(
            s,
        ).contains(s[i]) by {
            if i > 0 {
                assert(s[i] == t[i - 1]);
            }
        }
    }
}

proof fn trim_end_keeps(s: Seq<char>)
    ensures
        forall|i: int|
            0 <= i < s.len() ==> is_white(#[trigger] s[i]) || trim_end(s).contains(s[i]),
    decreases s.len(),
{
    if s.len() > 0 && is_white(s.last()) {
        let t = s.drop_last();
        trim_end_keeps(t);
        assert forall|i: int| 0 <= i < s.len() implies is_white(#[trigger] s[i]) || trim_end(
            s,
        ).contains(s[i]) by {
            if i < t.len() {
                assert(s[i] == t[i]);
            }
        }
    }
}

/// The characters of a string without leading and trailing white space.
pub fn trim_chars(s: &str) -> (v: Vec<char>)
    ensures
        v@ == trim(s@),
{
    let all = chars_of(s);
    let n: usize = all.len();
    let mut start: usize = 0;
    assert(all@.skip(0) == all@);
    while start < n && is_white_space(all[start])
        invariant
            n == all@.len(),
            start <= n,
            trim_start(all@) == trim_start(all@.skip(start as int)),
        decreases n - start,
    {
        assert(all@.skip(start as int).drop_first() == all@.skip(start + 1));
        start = start + 1;
    }
    let ghost rest = all@.skip(start as int);
    assert(trim_start(all@) == rest);
    let mut end: usize = n;
    assert(rest.take(n - start) == rest);
    while start < end && is_white_space(all[end - 1])
        invariant
            n == all@.len(),
            start <= end <= n,
            rest == all@.skip(start as int),
            trim_end(rest) == trim_end(rest.take(end - start)),
        decreases end,
    {
        assert(rest.take(end - start).drop_last() == rest.take(end - 1 - start));
        end = end - 1;
    }
    assert(trim_end(rest) == rest.take(end - start));
    let mut v: Vec<char> = Vec::new();
    for i in start..end
        invariant
            start <= end <= n == all@.len(),
            v@ == all@.subrange(start as int, i as int),
    {
        v.push(all[i]);
        assert(all@.subrange(start as int, i + 1) == all@.subrange(start as int, i as int).push(
            all@[i as int],
        ));
    }
    assert(all@.subrange(start as int, end as int) == rest.take(end - start));
    v
}

/// A string without its leading and trailing white space.
pub fn trim_text(s: &str) -> (r: String)
    ensures
        r@ == trim(s@),
{
    string_of(&trim_chars(s))
}

// ---------------------------------------------------------------------------
// Searching
// ---------------------------------------------------------------------------

/// `pat` stands in `s` at position `i`.
pub open spec fn occurs_at(s: Seq<char>, pat: Seq<char>, i: int) -> bool {
    &&& 0 <= i
    &&& i + pat.len() <= s.len()
    &&& forall|k: int| 0 <= k < pat.len() ==> s[i + k] == #[trigger] pat[k]
}

/// `pat` stands somewhere in `s`.
pub open spec fn contains_text(s: Seq<char>, pat: Seq<char>) -> bool {
    exists|i: int| occurs_at(s, pat, i)
}

/// The first position in `s`, at or after `from`, at which `pat` stands.
pub open spec fn find_from(s: Seq<char>, pat: Seq<char>, from: int) -> Option<int>
    decreases s.len() - from,
{
    if from < 0 || from + pat.len() > s.len() {
        None
    } else if occurs_at(s, pat, from) {
        Some(from)
    } else {
        find_from(s, pat, from + 1)
    }
}

/// What `find_from` finds is the first occurrence; where it finds none, there is none.
pub proof fn find_from_first(s: Seq<char>, pat: Seq<char>, from: int)
    requires
        0 <= from,
    ensures
        match find_from(s, pat, from) {
            Some(i) => {
                &&& from <= i
                &&& occurs_at(s, pat, i)
                &&& forall|j: int| from <= j < i ==> !occurs_at(s, pat, j)
            },
            None => forall|j: int| from <= j ==> !occurs_at(s, pat, j),
        },
    decreases s.len() - from,
{
    if from + pat.len() > s.len() {
    } else if occurs_at(s, pat, from) {
    } else {
        find_from_first(s, pat, from + 1);
    }
}

/// The first occurrence is what `find_from` finds.
pub proof fn find_from_at(s: Seq<char>, pat: Seq<char>, from: int, i: int)
    requires
        0 <= from <= i,
        occurs_at(s, pat, i),
        forall|j: int| from <= j < i ==> !occurs_at(s, pat, j),
    ensures
        find_from(s, pat, from) == Some(i),
{
    find_from_first(s, pat, from);
}

/// Where there is no occurrence, `find_from` finds none.
pub proof fn find_from_none(s: Seq<char>, pat: Seq<char>, from: int)
    requires
        0 <= from,
        forall|j: int| from <= j ==> !occurs_at(s, pat, j),
    ensures
        find_from(s, pat, from) is None,
{
    find_from_first(s, pat, from);
}

/// Whether `pat` stands in `s` at position `i`.
pub fn stands_at(s: &Vec<char>, pat: &Vec<char>, i: usize) -> (r: bool)
    ensures
        r == occurs_at(s@, pat@, i as int),
{
    if pat.len() > s.len() || i > s.len() - pat.len() {
        return false;
    }
    for k in 0..pat.len()
        invariant
            i + pat.len() <= s.len(),
            forall|m: int| 0 <= m < k ==> s@[i + m] == #[trigger] pat@[m],
    {
        if s[i + k] != pat[k] {
            return false;
        }
    }
    true
}

/// The first position in `s`, at or after `from`, at which `pat` stands.
pub fn find(s: &Vec<char>, pat: &Vec<char>, from: usize) -> (r: Option<usize>)
    ensures
        r is Some <==> find_from(s@, pat@, from as int) is Some,
        r matches Some(i) ==> find_from(s@, pat@, from as int) == Some(i as int),
        r matches Some(i) ==> from <= i && i + pat@.len() <= s.len(),
{
    let mut i: usize = from;
    while i <= s.len() && pat.len() <= s.len() - i
        invariant
            from <= i,
            find_from(s@, pat@, from as int) == find_from(s@, pat@, i as int),
        decreases s@.len() + 1 - i,
    {
        if stands_at(s, pat, i) {
            return Some(i);
        }
        if i == s.len() {
            return None;
        }
        i = i + 1;
    }
    None
}

/// A copy of the characters from `a` up to `b`.
pub fn copy_range(s: &Vec<char>, a: usize, b: usize) -> (v: Vec<char>)
    requires
        a <= b <= s@.len(),
    ensures
        v@ == s@.subrange(a as int, b as int),
{
    let mut v: Vec<char> = Vec::new();
    for i in a..b
        invariant
            a <= b <= s@.len(),
            v@ == s@.subrange(a as int, i as int),
    {
        v.push(s[i]);
        assert(s@.subrange(a as int, i + 1) == s@.subrange(a as int, i as int).push(s@[i as int]));
    }
    v
}

// ---------------------------------------------------------------------------
// Replacing
// ---------------------------------------------------------------------------

/// `s` with every occurrence of `pat` replaced by `to`, from left to right and
/// without overlap.
pub open spec fn replace_all(s: Seq<char>, pat: Seq<char>, to: Seq<char>) -> Seq<char>
    decreases s.len(),
{
    if s.len() == 0 || pat.len() == 0 {
        s
    } else if occurs_at(s, pat, 0) {
        to + replace_all(s.skip(pat.len() as int), pat, to)
    } else {
        seq![s[0]] + replace_all(s.skip(1), pat, to)
    }
}

/// Replaces every occurrence of a non-empty `pat` by `to`, from left to right.
pub fn replace(s: &Vec<char>, pat: &str, to: &str) -> (r: Vec<char>)
    requires
        pat@.len() > 0,
    ensures
        r@ == replace_all(s@, pat@, to@),
{
    let pat_chars = chars_of(pat);
    let to_chars = chars_of(to);
    let mut r: Vec<char> = Vec::new();
    let mut i: usize = 0;
    assert(s@.skip(0) == s@);
    while i < s.len()
        invariant
            pat_chars@ == pat@,
            to_chars@ == to@,
            pat@.len() > 0,
            i <= s@.len(),
            replace_all(s@, pat@, to@) == r@ + replace_all(s@.skip(i as int), pat@, to@),
        decreases s@.len() - i,
    {
        let ghost rest = s@.skip(i as int);
        let hit = stands_at(s, &pat_chars, i);
        assert(hit == occurs_at(rest, pat@, 0)) by {
            if hit {
                assert forall|k: int| 0 <= k < pat@.len() implies rest[0 + k] == #[trigger] pat@[k] by {
                    assert(s@[i + k] == pat@[k]);
                }
            }
            if occurs_at(rest, pat@, 0) {
                assert forall|k: int| 0 <= k < pat@.len() implies s@[i + k] == #[trigger] pat@[k] by {
                    assert(rest[0 + k] == pat@[k]);
                }
            }
        }
        if hit {
            let ghost before = r@;
            for k in 0..to_chars.len()
                invariant
                    to_chars@ == to@,
                    r@ == before + to@.take(k as int),
            {
                r.push(to_chars[k]);
                assert(to@.take(k + 1) == to@.take(k as int).push(to@[k as int]));
            }
            assert(to@.take(to@.len() as int) == to@);
            assert(rest.skip(pat@.len() as int) == s@.skip(i + pat@.len()));
            assert(replace_all(s@, pat@, to@) == before + (to@ + replace_all(
                s@.skip(i + pat@.len()),
                pat@,
                to@,
            )));
            i = i + pat_chars.len();
        } else {
            let ghost before = r@;
            r.push(s[i]);
            assert(rest.skip(1) == s@.skip(i + 1));
            assert(replace_all(s@, pat@, to@) == before + (seq![s@[i as int]] + replace_all(
                s@.skip(i + 1),
                pat@,
                to@,
            )));
            i = i + 1;
        }
    }
    assert(replace_all(s@.skip(s@.len() as int), pat@, to@) == Seq::<char>::empty());
    r
}

// ---------------------------------------------------------------------------
// Decimal numerals
// ---------------------------------------------------------------------------

/// The character of a decimal digit.
pub open spec fn digit_char(d: nat) -> char {
    (48 + d) as char
}

/// The decimal numeral of `n`, without leading zeros.
pub open spec fn decimal(n: nat) -> Seq<char>
    decreases n,
{
    if n < 10 {
        seq![digit_char(n)]
    } else {
        decimal(n / 10).push(digit_char(n % 10))
    }
}

/// Appends the decimal numeral of `n`.
pub fn push_decimal(out: &mut String, n: usize)
    ensures
        final(out)@ == old(out)@ + decimal(n as nat),
    decreases n,
{
    if n >= 10 {
        push_decimal(out, n / 10);
    }
    let d: u8 = (n % 10) as u8;
    out.push((48 + d) as char);
}

} // verus!
