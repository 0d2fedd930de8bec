//! What is read of rows and cells, said in the characters that stand there.

use vstd::prelude::*;
use crate::escape_laws::{stripped_legal, unescaped_escaped};
use crate::text::{contains_text, find_from, occurs_at, replace_all};
use crate::text_laws::{occurrence_is_part, replacing_leaves_others, search_finds_first};
use crate::xml::{
    cell_value, cells_from, escaped, in_order_from, is_in_order, is_inline, is_self_closing,
    next_cell, next_row, rows_from, unescaped,
};

verus! {

broadcast use vstd::string::group_string_axioms;

/// `pat` stands at `i`, and nowhere between `from` and `i`.
pub open spec fn first_at(s: Seq<char>, pat: Seq<char>, from: int, i: int) -> bool {
    &&& from <= i && i + pat.len() <= s.len()
    &&& s.subrange(i, i + pat.len()) == pat
    &&& forall|j: int| from <= j < i ==> #[trigger] s.subrange(j, j + pat.len()) != pat
}

/// `pat` stands nowhere at or behind `from`.
pub open spec fn nowhere(s: Seq<char>, pat: Seq<char>, from: int) -> bool {
    forall|j: int|
        from <= j && j + pat.len() <= s.len() ==> #[trigger] s.subrange(j, j + pat.len()) != pat
}

/// The first occurrence is found.
proof fn found(s: Seq<char>, pat: Seq<char>, from: int, i: int)
    requires
        0 <= from,
        first_at(s, pat, from, i),
    ensures
        find_from(s, pat, from) == Some(i),
{
    search_finds_first(s, pat, from);
    match find_from(s, pat, from) {
        Some(k) => {
            if k < i {
                assert(s.subrange(k, k + pat.len()) != pat);
            }
            if i < k {
                assert(s.subrange(i, i + pat.len()) != pat);
            }
        },
        None => {
            assert(s.subrange(i, i + pat.len()) != pat);
        },
    }
}

/// What is nowhere is not found.
proof fn not_found(s: Seq<char>, pat: Seq<char>, from: int)
    requires
        0 <= from,
        nowhere(s, pat, from),
    ensures
        find_from(s, pat, from) is None,
{
    search_finds_first(s, pat, from);
    if let Some(k) = find_from(s, pat, from) {
        assert(s.subrange(k, k + pat.len()) != pat);
    }
}

// ---------------------------------------------------------------------------
// Rows
// ---------------------------------------------------------------------------

/// Law: the next row of a sheet goes from the first `<row>` to the first `</row>` behind it, and
/// reading goes on behind that.
pub proof fn next_row_is_read(sheet: Seq<char>, pos: int, start: int, close: int)
    requires
        0 <= pos,
        first_at(sheet, "<row>"@, pos, start),
        first_at(sheet, "</row>"@, start, close),
    ensures
        rows_from(sheet, pos) == seq![sheet.subrange(start, close + 6)] + rows_from(
            sheet,
            close + 6,
        ),
{
    found(sheet, "<row>"@, pos, start);
    found(sheet, "</row>"@, start, close);
    assert(next_row(sheet, pos) == Some((start, close + 6)));
}

/// Law: no row is read where no `<row>` follows, or no `</row>` behind it.
pub proof fn no_row_is_read(sheet: Seq<char>, pos: int, start: int)
    requires
        0 <= pos,
        nowhere(sheet, "<row>"@, pos) || (first_at(sheet, "<row>"@, pos, start) && nowhere(
            sheet,
            "</row>"@,
            start,
        )),
    ensures
        rows_from(sheet, pos) == Seq::<Seq<char>>::empty(),
{
    if nowhere(sheet, "<row>"@, pos) {
        not_found(sheet, "<row>"@, pos);
    } else {
        found(sheet, "<row>"@, pos, start);
        not_found(sheet, "</row>"@, start);
    }
}

// ---------------------------------------------------------------------------
// Cells
// ---------------------------------------------------------------------------

/// Law: the next cell of a row starts at the first `<c`, and ends behind the first `</c>`, or
/// behind the first `/>` if that comes before it; reading goes on behind it.
pub proof fn next_cell_is_read(row: Seq<char>, pos: int, start: int, slash: int, close: int)
    requires
        0 <= pos,
        first_at(row, "<c"@, pos, start),
        first_at(row, "/>"@, start, slash) || (nowhere(row, "/>"@, start) && slash == row.len()),
        first_at(row, "</c>"@, start, close) || (nowhere(row, "</c>"@, start) && close == row.len()),
        slash < row.len() || close < row.len(),
    ensures
        ({
            let end = if slash < close {
                slash + 2
            } else {
                close + 4
            };
            &&& start < end <= row.len()
            &&& cells_from(row, pos) == seq![cell_value(row.subrange(start, end))] + cells_from(
                row,
                end,
            )
            &&& in_order_from(row, pos) == (is_in_order(row.subrange(start, end)) && in_order_from(
                row,
                end,
            ))
        }),
{
    reveal_strlit("<c");
    reveal_strlit("/>");
    reveal_strlit("</c>");
    found(row, "<c"@, pos, start);
    if slash < row.len() {
        found(row, "/>"@, start, slash);
    } else {
        if nowhere(row, "/>"@, start) {
            not_found(row, "/>"@, start);
        }
    }
    if close < row.len() {
        found(row, "</c>"@, start, close);
    } else {
        if nowhere(row, "</c>"@, start) {
            not_found(row, "</c>"@, start);
        }
    }
    if slash == close {
        assert(row.subrange(slash, slash + 2)[0] == row.subrange(close, close + 4)[0]);
    }
    let end = if slash < close {
        slash + 2
    } else {
        close + 4
    };
    assert(next_cell(row, pos) == Some((start, end)));
}

/// Law: no cell is read where no `<c` follows, or neither `/>` nor `</c>` behind it.
pub proof fn no_cell_is_read(row: Seq<char>, pos: int, start: int)
    requires
        0 <= pos,
        nowhere(row, "<c"@, pos) || (first_at(row, "<c"@, pos, start) && nowhere(
            row,
            "/>"@,
            start,
        ) && nowhere(row, "</c>"@, start)),
    ensures
        cells_from(row, pos) == Seq::<Seq<char>>::empty(),
        in_order_from(row, pos),
{
    if nowhere(row, "<c"@, pos) {
        not_found(row, "<c"@, pos);
    } else {
        found(row, "<c"@, pos, start);
        not_found(row, "/>"@, start);
        not_found(row, "</c>"@, start);
    }
}

/// Whether a cell holds the mark of inline text, and whether it closes itself.
proof fn cell_marks(cell: Seq<char>)
    ensures
        is_inline(cell) <==> !nowhere(cell, "t=\"inlineStr\""@, 0),
        is_self_closing(cell) <==> cell.len() >= 2 && cell.subrange(
            cell.len() - 2,
            cell.len() as int,
        ) == "/>"@,
{
    reveal_strlit("/>");
    occurrence_is_part(cell, "/>"@, cell.len() - 2);
    let pat = "t=\"inlineStr\""@;
    if is_inline(cell) {
        let i = choose|i: int| occurs_at(cell, pat, i);
        occurrence_is_part(cell, pat, i);
        assert(cell.subrange(i, i + pat.len()) == pat);
    }
    if !nowhere(cell, pat, 0) {
        let j = choose|j: int|
            0 <= j && j + pat.len() <= cell.len() && #[trigger] cell.subrange(j, j + pat.len())
                == pat;
        occurrence_is_part(cell, pat, j);
        assert(contains_text(cell, pat));
    }
}

/// Law: a cell that closes itself holds nothing.
pub proof fn closed_cell_is_empty(cell: Seq<char>)
    requires
        cell.len() >= 2,
        cell.subrange(cell.len() - 2, cell.len() as int) == "/>"@,
    ensures
        cell_value(cell) == Seq::<char>::empty(),
        is_in_order(cell),
{
    cell_marks(cell);
}

/// Law: any other cell with the mark of inline text holds what stands between its first `<t>`
/// and its first `</t>`, unescaped; and nothing where one of them is missing. It cannot be read
/// where the first `</t>` comes before the end of the first `<t>`.
pub proof fn inline_cell_holds_text(cell: Seq<char>, a: int, b: int)
    requires
        cell.len() < 2 || cell.subrange(cell.len() - 2, cell.len() as int) != "/>"@,
        !nowhere(cell, "t=\"inlineStr\""@, 0),
    ensures
        first_at(cell, "<t>"@, 0, a) && first_at(cell, "</t>"@, 0, b) ==> {
            &&& cell_value(cell) == unescaped(cell.subrange(a + 3, b))
            &&& is_in_order(cell) <==> a + 3 <= b
        },
        nowhere(cell, "<t>"@, 0) || nowhere(cell, "</t>"@, 0) ==> {
            &&& cell_value(cell) == Seq::<char>::empty()
            &&& is_in_order(cell)
        },
{
    reveal_strlit("<t>");
    cell_marks(cell);
    if first_at(cell, "<t>"@, 0, a) && first_at(cell, "</t>"@, 0, b) {
        found(cell, "<t>"@, 0, a);
        found(cell, "</t>"@, 0, b);
    }
    if nowhere(cell, "<t>"@, 0) {
        not_found(cell, "<t>"@, 0);
    }
    if nowhere(cell, "</t>"@, 0) {
        not_found(cell, "</t>"@, 0);
    }
}

/// Law: any other cell without that mark holds what stands between its first `<v>` and its
/// first `</v>`, as it stands; and nothing where one of them is missing. It cannot be read where
/// the first `</v>` comes before the end of the first `<v>`.
pub proof fn plain_cell_holds_value(cell: Seq<char>, a: int, b: int)
    requires
        cell.len() < 2 || cell.subrange(cell.len() - 2, cell.len() as int) != "/>"@,
        nowhere(cell, "t=\"inlineStr\""@, 0),
    ensures
        first_at(cell, "<v>"@, 0, a) && first_at(cell, "</v>"@, 0, b) ==> {
            &&& cell_value(cell) == cell.subrange(a + 3, b)
            &&& is_in_order(cell) <==> a + 3 <= b
        },
        nowhere(cell, "<v>"@, 0) || nowhere(cell, "</v>"@, 0) ==> {
            &&& cell_value(cell) == Seq::<char>::empty()
            &&& is_in_order(cell)
        },
{
    reveal_strlit("<v>");
    cell_marks(cell);
    if first_at(cell, "<v>"@, 0, a) && first_at(cell, "</v>"@, 0, b) {
        found(cell, "<v>"@, 0, a);
        found(cell, "</v>"@, 0, b);
    }
    if nowhere(cell, "<v>"@, 0) {
        not_found(cell, "<v>"@, 0);
    }
    if nowhere(cell, "</v>"@, 0) {
        not_found(cell, "</v>"@, 0);
    }
}

// ---------------------------------------------------------------------------
// Entities
// ---------------------------------------------------------------------------

/// Law: a text of characters that XML allows is read back as it was written, save that what
/// looked like an entity for `<`, `>` or `"` in it has become that character.
pub proof fn written_text_is_read_back(s: Seq<char>)
    requires
        forall|i: int|
            0 <= i < s.len() ==> (#[trigger] s[i]) as int >= 32 || s[i] as int == 9 || s[i] as int
                == 10 || s[i] as int == 13,
    ensures
        unescaped(escaped(s)) == replace_all(
            replace_all(replace_all(s, "&lt;"@, "<"@), "&gt;"@, ">"@),
            "&quot;"@,
            "\""@,
        ),
        nowhere(s, "&lt;"@, 0) && nowhere(s, "&gt;"@, 0) && nowhere(s, "&quot;"@, 0) ==> unescaped(
            escaped(s),
        ) == s,
{
    unescaped_escaped(s);
    stripped_legal(s);
    if nowhere(s, "&lt;"@, 0) && nowhere(s, "&gt;"@, 0) && nowhere(s, "&quot;"@, 0) {
        replacing_leaves_others(s, "&lt;"@, "<"@);
        replacing_leaves_others(s, "&gt;"@, ">"@);
        replacing_leaves_others(s, "&quot;"@, "\""@);
    }
}

/// Law: of any text the entities are replaced one kind after the other: first `&amp;`, then
/// `&lt;`, `&gt;` and `&quot;` in what has come of it.
pub proof fn entities_are_replaced_in_turn(
    s: Seq<char>,
    a: Seq<char>,
    b: Seq<char>,
    c: Seq<char>,
)
    requires
        a == replace_all(s, "&amp;"@, "&"@),
        b == replace_all(a, "&lt;"@, "<"@),
        c == replace_all(b, "&gt;"@, ">"@),
    ensures
        unescaped(s) == replace_all(c, "&quot;"@, "\""@),
{
}

/// Law: a text without `&` holds no entity, and is read as it stands.
pub proof fn text_without_entities(s: Seq<char>)
    requires
        forall|i: int| 0 <= i < s.len() ==> #[trigger] s[i] != '&',
    ensures
        unescaped(s) == s,
{
    reveal_strlit("&amp;");
    reveal_strlit("&lt;");
    reveal_strlit("&gt;");
    reveal_strlit("&quot;");
    no_entity(s, "&amp;"@);
    no_entity(s, "&lt;"@);
    no_entity(s, "&gt;"@);
    no_entity(s, "&quot;"@);
    replacing_leaves_others(s, "&amp;"@, "&"@);
    replacing_leaves_others(s, "&lt;"@, "<"@);
    replacing_leaves_others(s, "&gt;"@, ">"@);
    replacing_leaves_others(s, "&quot;"@, "\""@);
}

proof fn no_entity(s: Seq<char>, pat: Seq<char>)
    requires
        forall|i: int| 0 <= i < s.len() ==> #[trigger] s[i] != '&',
        pat.len() > 0,
        pat[0] == '&',
    ensures
        nowhere(s, pat, 0),
{
    assert forall|j: int| 0 <= j && j + pat.len() <= s.len() implies #[trigger] s.subrange(
        j,
        j + pat.len(),
    ) != pat by {
        assert(s.subrange(j, j + pat.len())[0] == s[j]);
    }
}

} // verus!
