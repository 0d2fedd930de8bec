//! What escaping guarantees, and what reading an escaped text gives back.

use vstd::prelude::*;
use crate::text::{contains_text, occurs_at, replace_all};
use crate::xml::{escaped, escaped_char, is_illegal, unescaped};

verus! {

broadcast use vstd::string::group_string_axioms;

/// `s` without the characters that XML does not allow.
pub open spec fn stripped(s: Seq<char>) -> Seq<char>
    decreases s.len(),
{
    if s.len() == 0 {
        Seq::empty()
    } else if is_illegal(s.first()) {
        stripped(s.drop_first())
    } else {
        seq![s.first()] + stripped(s.drop_first())
    }
}

/// `s` with what looks like an entity for `<`, `>` or `"` replaced, in this order.
pub open spec fn collapsed(s: Seq<char>) -> Seq<char> {
    replace_all(
        replace_all(replace_all(s, "&lt;"@, "<"@), "&gt;"@, ">"@),
        "&quot;"@,
        "\""@,
    )
}

/// What reading a written text gives back.
pub open spec fn restored(s: Seq<char>) -> Seq<char> {
    collapsed(stripped(s))
}

/// `s` holds what looks like an entity for `<`, `>` or `"`.
pub open spec fn has_entity(s: Seq<char>) -> bool {
    contains_text(s, "&lt;"@) || contains_text(s, "&gt;"@) || contains_text(s, "&quot;"@)
}

/// Law: an escaped text holds no character that XML does not allow, and neither `<`,
/// `>` nor `"`.
pub proof fn escaped_is_safe(s: Seq<char>)
    ensures
        forall|i: int|
            0 <= i < escaped(s).len() ==> {
                let c = #[trigger] escaped(s)[i];
                !is_illegal(c) && c != '<' && c != '>' && c != '"'
            },
    decreases s.len(),
{
    reveal_strlit("&amp;");
    reveal_strlit("&lt;");
    reveal_strlit("&gt;");
    reveal_strlit("&quot;");
    if s.len() > 0 {
        let head = escaped_char(s.first());
        let tail = escaped(s.drop_first());
        escaped_is_safe(s.drop_first());
        assert forall|i: int| 0 <= i < escaped(s).len() implies {
            let c = #[trigger] escaped(s)[i];
            !is_illegal(c) && c != '<' && c != '>' && c != '"'
        } by {
            if i < head.len() {
                assert(escaped(s)[i] == head[i]);
            } else {
                assert(escaped(s)[i] == tail[i - head.len()]);
            }
        }
    }
}

// ---------------------------------------------------------------------------
// Partial escaping
// ---------------------------------------------------------------------------

/// A character of which only some are escaped: at level 0 `&`, `<`, `>` and `"`, and
/// at each further level one less, in this order.
spec fn level_char(k: nat, c: char) -> Seq<char> {
    if c == '&' && k < 1 {
        "&amp;"@
    } else if c == '<' && k < 2 {
        "&lt;"@
    } else if c == '>' && k < 3 {
        "&gt;"@
    } else if c == '"' && k < 4 {
        "&quot;"@
    } else {
        seq![c]
    }
}

/// A text escaped at the given level.
spec fn level(k: nat, s: Seq<char>) -> Seq<char>
    decreases s.len(),
{
    if s.len() == 0 {
        Seq::empty()
    } else {
        level_char(k, s.first()) + level(k, s.drop_first())
    }
}

/// The entity that is replaced between a level and the next.
spec fn entity(k: nat) -> Seq<char> {
    if k == 0 {
        "&amp;"@
    } else if k == 1 {
        "&lt;"@
    } else if k == 2 {
        "&gt;"@
    } else {
        "&quot;"@
    }
}

/// What the entity of a level stands for.
spec fn meant(k: nat) -> char {
    if k == 0 {
        '&'
    } else if k == 1 {
        '<'
    } else if k == 2 {
        '>'
    } else {
        '"'
    }
}

/// An escaped text is its legal part, escaped at level 0.
proof fn escaped_is_level_0(s: Seq<char>)
    ensures
        escaped(s) == level(0, stripped(s)),
    decreases s.len(),
{
    if s.len() > 0 {
        let c = s.first();
        let rest = stripped(s.drop_first());
        escaped_is_level_0(s.drop_first());
        if is_illegal(c) {
            assert(escaped(s) == escaped(s.drop_first()));
        } else {
            let t = seq![c] + rest;
            assert(t.drop_first() == rest);
            assert(t.first() == c);
            assert(escaped_char(c) == level_char(0, c));
        }
    }
}

/// At level 4 nothing is escaped.
proof fn level_4_is_plain(s: Seq<char>)
    ensures
        level(4, s) == s,
    decreases s.len(),
{
    if s.len() > 0 {
        level_4_is_plain(s.drop_first());
        assert(s == seq![s.first()] + s.drop_first());
    }
}

/// Replacing steps over a part in which nothing matches.
proof fn replace_steps_over(w: Seq<char>, rest: Seq<char>, pat: Seq<char>, to: Seq<char>)
    requires
        pat.len() > 0,
        forall|i: int| 0 <= i < w.len() ==> !occurs_at(w + rest, pat, i),
    ensures
        replace_all(w + rest, pat, to) == w + replace_all(rest, pat, to),
    decreases w.len(),
{
    let s = w + rest;
    if w.len() == 0 {
        assert(s == rest);
        assert(w + replace_all(rest, pat, to) == replace_all(rest, pat, to));
    } else {
        let w1 = w.skip(1);
        assert(s.skip(1) == w1 + rest);
        assert forall|i: int| 0 <= i < w1.len() implies !occurs_at(w1 + rest, pat, i) by {
            if occurs_at(w1 + rest, pat, i) {
                assert forall|k: int| 0 <= k < pat.len() implies s[i + 1 + k] == #[trigger] pat[k] by {
                    assert((w1 + rest)[i + k] == pat[k]);
                }
                assert(occurs_at(s, pat, i + 1));
            }
        }
        replace_steps_over(w1, rest, pat, to);
        assert(!occurs_at(s, pat, 0));
        assert(seq![s[0]] + (w1 + replace_all(rest, pat, to)) == w + replace_all(rest, pat, to));
    }
}

/// Replacing a match at the front.
proof fn replace_front(rest: Seq<char>, pat: Seq<char>, to: Seq<char>)
    requires
        pat.len() > 0,
    ensures
        replace_all(pat + rest, pat, to) == to + replace_all(rest, pat, to),
{
    let s = pat + rest;
    assert(occurs_at(s, pat, 0));
    assert(s.skip(pat.len() as int) == rest);
}

/// Replacing `&amp;` takes a text from level 0 to level 1.
proof fn level_0_to_1(s: Seq<char>)
    ensures
        replace_all(level(0, s), "&amp;"@, "&"@) == level(1, s),
    decreases s.len(),
{
    reveal_strlit("&amp;");
    reveal_strlit("&lt;");
    reveal_strlit("&gt;");
    reveal_strlit("&quot;");
    reveal_strlit("&");
    if s.len() > 0 {
        let c = s.first();
        let rest = level(0, s.drop_first());
        let w = level_char(0, c);
        level_0_to_1(s.drop_first());
        if c == '&' {
            replace_front(rest, "&amp;"@, "&"@);
            assert("&"@ == seq![c]);
        } else {
            assert forall|i: int| 0 <= i < w.len() implies !occurs_at(w + rest, "&amp;"@, i) by {
                if occurs_at(w + rest, "&amp;"@, i) {
                    assert((w + rest)[i + 0] == "&amp;"@[0]);
                    assert((w + rest)[i + 1] == "&amp;"@[1]);
                }
            }
            replace_steps_over(w, rest, "&amp;"@, "&"@);
        }
    }
}

/// Escaping works character by character.
proof fn level_concat(k: nat, a: Seq<char>, b: Seq<char>)
    ensures
        level(k, a + b) == level(k, a) + level(k, b),
    decreases a.len(),
{
    if a.len() == 0 {
        assert(a + b == b);
        assert(level(k, a) + level(k, b) == level(k, b));
    } else {
        assert((a + b).drop_first() == a.drop_first() + b);
        level_concat(k, a.drop_first(), b);
        assert(level(k, a + b) == level(k, a) + level(k, b));
    }
}

/// A text of characters that a level leaves alone is left alone.
proof fn level_leaves(k: nat, s: Seq<char>)
    requires
        forall|i: int| 0 <= i < s.len() ==> level_char(k, #[trigger] s[i]) == seq![s[i]],
    ensures
        level(k, s) == s,
    decreases s.len(),
{
    if s.len() > 0 {
        let t = s.drop_first();
        assert forall|i: int| 0 <= i < t.len() implies level_char(k, #[trigger] t[i]) == seq![t[i]] by {
            assert(t[i] == s[i + 1]);
        }
        level_leaves(k, t);
        assert(level_char(k, s[0]) == seq![s[0]]);
        assert(s == seq![s[0]] + t);
    }
}

/// Where an escaped text starts with characters other than `&`, the text starts with them too.
proof fn level_prefix(k: nat, s: Seq<char>, p: Seq<char>)
    requires
        occurs_at(level(k, s), p, 0),
        forall|i: int| 0 <= i < p.len() ==> #[trigger] p[i] != '&',
    ensures
        occurs_at(s, p, 0),
    decreases p.len(),
{
    reveal_strlit("&amp;");
    reveal_strlit("&lt;");
    reveal_strlit("&gt;");
    reveal_strlit("&quot;");
    if p.len() > 0 {
        let l = level(k, s);
        let p1 = p.skip(1);
        assert(l[0] == p[0]);
        assert(s.len() > 0);
        let w = level_char(k, s.first());
        let rest = level(k, s.drop_first());
        assert(l[0] == w[0]);
        assert(w == seq![s.first()]);
        assert forall|i: int| 0 <= i < p1.len() implies rest[0 + i] == #[trigger] p1[i] by {
            assert(l[0 + (i + 1)] == p[i + 1]);
        }
        assert forall|i: int| 0 <= i < p1.len() implies #[trigger] p1[i] != '&' by {
            assert(p[i + 1] != '&');
        }
        level_prefix(k, s.drop_first(), p1);
        assert forall|i: int| 0 <= i < p.len() implies s[0 + i] == #[trigger] p[i] by {
            if i > 0 {
                assert(s.drop_first()[0 + (i - 1)] == p1[i - 1]);
            }
        }
    }
}

/// Replacing the entity of a level takes a text to the next level, where what looked
/// like that entity in the text itself is replaced too.
proof fn level_step(k: nat, s: Seq<char>)
    requires
        1 <= k <= 3,
    ensures
        replace_all(level(k, s), entity(k), seq![meant(k)]) == level(
            k + 1,
            replace_all(s, entity(k), seq![meant(k)]),
        ),
    decreases s.len(),
{
    reveal_strlit("&lt;");
    reveal_strlit("&gt;");
    reveal_strlit("&quot;");
    let pat = entity(k);
    let m = meant(k);
    let to = seq![m];
    if s.len() == 0 {
    } else if occurs_at(s, pat, 0) {
        let n = pat.len() as int;
        let after = s.skip(n);
        assert(s == pat + after) by {
            assert forall|i: int| 0 <= i < n implies s[i] == pat[i] by {
                assert(s[0 + i] == pat[i]);
            }
        }
        level_step(k, after);
        level_concat(k, pat, after);
        level_leaves(k, pat);
        replace_front(level(k, after), pat, to);
        let r = replace_all(after, pat, to);
        level_concat(k + 1, to, r);
        level_leaves(k + 1, to);
    } else {
        let c = s.first();
        let after = s.drop_first();
        let rest = level(k, after);
        let w = level_char(k, c);
        let r = replace_all(after, pat, to);
        assert(s.skip(1) == after);
        level_step(k, after);
        level_concat(k + 1, seq![c], r);
        assert(seq![c].drop_first() == Seq::<char>::empty());
        assert(level(k + 1, seq![c].drop_first()) == Seq::<char>::empty());
        assert(level(k + 1, seq![c]) == level_char(k + 1, c));
        if c == m {
            replace_front(rest, pat, to);
        } else {
            assert forall|i: int| 0 <= i < w.len() implies !occurs_at(w + rest, pat, i) by {
                if occurs_at(w + rest, pat, i) {
                    assert((w + rest)[i + 0] == pat[0]);
                    assert((w + rest)[i + 1] == pat[1]);
                    if c == '&' {
                        let p = pat.skip(1);
                        assert forall|j: int| 0 <= j < p.len() implies rest[0 + j] == #[trigger] p[j] by {
                            assert((w + rest)[i + (j + 1)] == pat[j + 1]);
                        }
                        level_prefix(k, after, p);
                        assert forall|j: int| 0 <= j < pat.len() implies s[0 + j] == #[trigger] pat[j] by {
                            if j > 0 {
                                assert(after[0 + (j - 1)] == p[j - 1]);
                            }
                        }
                        assert(occurs_at(s, pat, 0));
                    }
                }
            }
            replace_steps_over(w, rest, pat, to);
        }
    }
}

/// Law: reading a written text gives back its legal part, in which what looks like an
/// entity for `<`, `>` or `"` has been replaced.
pub proof fn unescaped_escaped(s: Seq<char>)
    ensures
        unescaped(escaped(s)) == restored(s),
{
    reveal_strlit("<");
    reveal_strlit(">");
    reveal_strlit("\"");
    assert("<"@ == seq!['<']);
    assert(">"@ == seq!['>']);
    assert("\""@ == seq!['"']);
    let t = stripped(s);
    let t1 = replace_all(t, "&lt;"@, "<"@);
    let t2 = replace_all(t1, "&gt;"@, ">"@);
    let t3 = replace_all(t2, "&quot;"@, "\""@);
    escaped_is_level_0(s);
    level_0_to_1(t);
    level_step(1, t);
    level_step(2, t1);
    level_step(3, t2);
    level_4_is_plain(t3);
}

/// Without an occurrence nothing is replaced.
pub proof fn replace_nothing(s: Seq<char>, pat: Seq<char>, to: Seq<char>)
    requires
        !contains_text(s, pat),
    ensures
        replace_all(s, pat, to) == s,
    decreases s.len(),
{
    if s.len() > 0 && pat.len() > 0 {
        assert(!occurs_at(s, pat, 0));
        let t = s.skip(1);
        if contains_text(t, pat) {
            let i = choose|i: int| occurs_at(t, pat, i);
            assert forall|k: int| 0 <= k < pat.len() implies s[i + 1 + k] == #[trigger] pat[k] by {
                assert(t[i + k] == pat[k]);
            }
            assert(occurs_at(s, pat, i + 1));
        }
        replace_nothing(t, pat, to);
        assert(s == seq![s[0]] + t);
    }
}

/// Law: a text without what looks like an entity for `<`, `>` or `"` is read back as its
/// legal part.
pub proof fn restored_without_entity(s: Seq<char>)
    requires
        !has_entity(stripped(s)),
    ensures
        restored(s) == stripped(s),
{
    let t = stripped(s);
    replace_nothing(t, "&lt;"@, "<"@);
    replace_nothing(t, "&gt;"@, ">"@);
    replace_nothing(t, "&quot;"@, "\""@);
}

/// Law: a text of legal characters only is its own legal part.
pub proof fn stripped_legal(s: Seq<char>)
    requires
        forall|i: int| 0 <= i < s.len() ==> !is_illegal(#[trigger] s[i]),
    ensures
        stripped(s) == s,
    decreases s.len(),
{
    if s.len() > 0 {
        let t = s.drop_first();
        assert forall|i: int| 0 <= i < t.len() implies !is_illegal(#[trigger] t[i]) by {
            assert(t[i] == s[i + 1]);
        }
        stripped_legal(t);
        assert(s == seq![s[0]] + t);
    }
}

} // verus!
