//! What streams, merges and workbooks are made of, said in what comes in and what is
//! written.

use vstd::prelude::*;
use vstd::utf8::encode_utf8;
use crate::columns::{col_names, ColType};
use crate::column_laws::numeric_columns;
use crate::merge::{
    chunk_ending, completed_chunks, completed_chunks_hold, completes_chunk, merge_chunks, merge_keeps_every_row,
    rows_in_sheet, waiting, MergeChunk,
};
use crate::merge_writer::{
    merge_sheets, merged_archive, merged_workbook_holds_rows, rows_of_sheet, sheets_for,
    MergeColumns,
};
use crate::number::is_number;
use crate::pipe::{
    all_but_headers_are_kept, header_bytes, stream_chunks, stream_data, stream_groups, stream_keeps_every_row,
    stream_types,
};
use crate::pipe_writer::{
    chunks_of, data_in, finished_archive, rows_in, sheet_groups, sheet_with, sheets_keep_chunks,
    sheets_of, stream_head, streamed_workbook_holds_records, ChunkData,
};
use crate::render::{fits, merge_rows, pipe_rows, row_fits, row_ref};
use crate::row_laws::pipe_sheet;
use crate::text::{decimal, text_of, trim};
use crate::workbook::{
    applied, applied_all, content_type_entry, content_types, content_types_open, leading_parts,
    listing_parts, sheet_entry, sheet_head, sheet_part, sheet_rel, styles_rel, workbook,
    workbook_open, workbook_rels, workbook_rels_open, Archive, ZipAction,
};

verus! {

broadcast use vstd::string::group_string_axioms;

// ---------------------------------------------------------------------------
// The types of a stream
// ---------------------------------------------------------------------------

/// Law: declared types are taken as they are. Without them a column is numeric if and only if,
/// among the first 300 records, some have more than white space in it and all those are numbers.
pub proof fn first_records_show_types(
    declared: Seq<ColType>,
    kept: Seq<Seq<Seq<u8>>>,
    n: nat,
    c: int,
)
    requires
        0 <= c < n,
    ensures
        stream_types(Some(declared), kept, n) == declared,
        stream_types(None, kept, n).len() == n,
        stream_types(None, kept, n)[c] == ColType::Numeric <==> {
            &&& exists|r: int|
                0 <= r < kept.len() && r < 300 && c < kept[r].len() && (#[trigger] trim(
                    text_of(kept[r][c]),
                )).len() > 0
            &&& forall|r: int|
                0 <= r < kept.len() && r < 300 && c < kept[r].len() && (#[trigger] trim(
                    text_of(kept[r][c]),
                )).len() > 0 ==> is_number(trim(text_of(kept[r][c])))
        },
{
    let sample = if kept.len() < 300 {
        kept
    } else {
        kept.take(300)
    };
    let rows = crate::columns::texts_of(sample);
    numeric_columns(rows, n, c);
    let types = stream_types(None, kept, n);
    assert(types == crate::columns::sampled_types(rows, n));
    assert(sample.len() == rows.len());
    assert forall|r: int| 0 <= r < rows.len() implies sample[r] == kept[r] && (#[trigger] rows[r]).len()
        == kept[r].len() by {}
    assert forall|r: int| 0 <= r < rows.len() && c < rows[r].len() implies #[trigger] rows[r][c]
        == text_of(kept[r][c]) by {}
    if types[c] == ColType::Numeric {
        let r = choose|r: int|
            0 <= r < rows.len() && c < rows[r].len() && (#[trigger] trim(rows[r][c])).len() > 0;
        assert(trim(text_of(kept[r][c])).len() > 0);
        assert forall|r: int|
            0 <= r < kept.len() && r < 300 && c < kept[r].len() && (#[trigger] trim(
                text_of(kept[r][c]),
            )).len() > 0 implies is_number(trim(text_of(kept[r][c]))) by {
            assert(trim(rows[r][c]).len() > 0);
        }
    } else {
        if exists|r: int|
            0 <= r < kept.len() && r < 300 && c < kept[r].len() && (#[trigger] trim(
                text_of(kept[r][c]),
            )).len() > 0 {
            let r = choose|r: int|
                0 <= r < kept.len() && r < 300 && c < kept[r].len() && (#[trigger] trim(
                    text_of(kept[r][c]),
                )).len() > 0;
            assert(trim(rows[r][c]).len() > 0);
            let q = choose|q: int|
                0 <= q < rows.len() && c < rows[q].len() && (#[trigger] trim(rows[q][c])).len() > 0
                    && !is_number(trim(rows[q][c]));
            assert(trim(text_of(kept[q][c])).len() > 0);
            assert(!is_number(trim(text_of(kept[q][c]))));
        }
    }
}

/// Law: a repeated header is recognised by the bytes of the names.
pub proof fn header_is_its_names(names: Seq<Seq<char>>)
    ensures
        header_bytes(names).len() == names.len(),
        forall|i: int|
            0 <= i < names.len() ==> #[trigger] header_bytes(names)[i] == encode_utf8(names[i]),
{
}

/// Law: a merged row fits the columns if and only if every field behind the last column holds
/// white space only.
pub proof fn fitting_rows(row: Seq<Seq<char>>, n: nat)
    ensures
        row_fits(row, n) <==> forall|c: int|
            n <= c < row.len() ==> trim(#[trigger] row[c]) == Seq::<char>::empty(),
        row.len() <= n ==> row_fits(row, n),
{
    if row_fits(row, n) {
        assert forall|c: int| n <= c < row.len() implies trim(#[trigger] row[c]) == Seq::<
            char,
        >::empty() by {
            assert(trim(row[c]).len() == 0);
        }
    }
}

/// Law: a record fits the columns if and only if every field behind the last column is empty.
pub proof fn fitting_records(record: Seq<Seq<u8>>, n: nat)
    ensures
        fits(record, n) <==> forall|c: int|
            n <= c < record.len() ==> #[trigger] record[c] == Seq::<u8>::empty(),
{
    if fits(record, n) {
        assert forall|c: int| n <= c < record.len() implies #[trigger] record[c] == Seq::<
            u8,
        >::empty() by {
            assert(record[c].len() == 0);
        }
    }
}

// ---------------------------------------------------------------------------
// The chunks of a stream
// ---------------------------------------------------------------------------

/// Groups that hold 25000 records each, save the last, are the consecutive pieces of all records.
proof fn groups_are_pieces(groups: Seq<Seq<Seq<Seq<u8>>>>)
    requires
        forall|i: int|
            0 <= i < groups.len() ==> 0 < (#[trigger] groups[i]).len() <= 25000 && (i < groups.len()
                - 1 ==> groups[i].len() == 25000),
    ensures
        ({
            let all = groups.flatten();
            &&& groups.len() == (all.len() + 24999) / 25000
            &&& forall|i: int|
                0 <= i < groups.len() ==> #[trigger] groups[i] == all.subrange(
                    i * 25000,
                    if (i + 1) * 25000 < all.len() {
                        (i + 1) * 25000
                    } else {
                        all.len() as int
                    },
                )
        }),
    decreases groups.len(),
{
    let all = groups.flatten();
    if groups.len() == 0 {
        assert(all == Seq::<Seq<Seq<u8>>>::empty());
    } else {
        let rest = groups.drop_first();
        let tail = rest.flatten();
        let g = groups.first();
        assert(all == g + tail);
        assert(groups[0] == g);
        assert forall|i: int| 0 <= i < rest.len() implies 0 < (#[trigger] rest[i]).len() <= 25000 && (
        i < rest.len() - 1 ==> rest[i].len() == 25000) by {
            assert(rest[i] == groups[i + 1]);
        }
        groups_are_pieces(rest);
        if rest.len() == 0 {
            assert(tail == Seq::<Seq<Seq<u8>>>::empty());
        }
        assert forall|i: int| 0 <= i < groups.len() implies #[trigger] groups[i] == all.subrange(
            i * 25000,
            if (i + 1) * 25000 < all.len() {
                (i + 1) * 25000
            } else {
                all.len() as int
            },
        ) by {
            if i == 0 {
                if rest.len() > 0 {
                    assert(g.len() == 25000);
                    assert(tail.len() > 0);
                }
                assert(g == all.subrange(0, g.len() as int));
            } else {
                let j = i - 1;
                assert(groups[i] == rest[j]);
                assert(g.len() == 25000);
                let end = if (j + 1) * 25000 < tail.len() {
                    (j + 1) * 25000
                } else {
                    tail.len() as int
                };
                assert(rest[j] == tail.subrange(j * 25000, end));
                assert(tail.subrange(j * 25000, end) == all.subrange(
                    j * 25000 + 25000,
                    end + 25000,
                ));
            }
        }
    }
}

/// Law: a stream is handed out in chunks of 25000 rows, the last of which may hold fewer. Every
/// record that does not equal the header is in one of them, in order, and each chunk says how many
/// rows it holds.
pub proof fn stream_comes_in_chunks(
    header: Seq<Seq<u8>>,
    declared: Option<Seq<ColType>>,
    records: Seq<Seq<Seq<u8>>>,
)
    ensures
        ({
            let kept = records.filter(|r: Seq<Seq<u8>>| r != header);
            let types = stream_types(declared, kept, header.len());
            let data = stream_data(header, declared, records);
            &&& data.len() == (kept.len() + 24999) / 25000
            &&& forall|i: int|
                0 <= i < data.len() ==> {
                    let end = if (i + 1) * 25000 < kept.len() {
                        (i + 1) * 25000
                    } else {
                        kept.len() as int
                    };
                    &&& (#[trigger] data[i]).0 == end - i * 25000
                    &&& data[i].1 == encode_utf8(
                        pipe_rows(kept.subrange(i * 25000, end), types),
                    )
                }
        }),
{
    let kept = records.filter(|r: Seq<Seq<u8>>| r != header);
    let types = stream_types(declared, kept, header.len());
    let groups = stream_groups(header, records);
    let data = stream_data(header, declared, records);
    all_but_headers_are_kept(header, records);
    stream_keeps_every_row(header, declared, records);
    groups_are_pieces(groups);
    let texts = stream_chunks(header, declared, records);
    assert(data.len() == groups.len());
    assert forall|i: int| 0 <= i < data.len() implies {
        let end = if (i + 1) * 25000 < kept.len() {
            (i + 1) * 25000
        } else {
            kept.len() as int
        };
        &&& (#[trigger] data[i]).0 == end - i * 25000
        &&& data[i].1 == encode_utf8(pipe_rows(kept.subrange(i * 25000, end), types))
    } by {
        assert(texts[i] == (groups[i].len(), pipe_rows(groups[i], types)));
        assert(data[i] == (texts[i].0, encode_utf8(texts[i].1)));
    }
}

// ---------------------------------------------------------------------------
// The sheets of a stream
// ---------------------------------------------------------------------------

/// Law: the rows of chunks are those of each, together.
pub proof fn rows_are_summed(chunks: Seq<ChunkData>)
    ensures
        rows_in(chunks) == chunks.fold_left(0int, |v: int, c: ChunkData| v + c.0),
    decreases chunks.len(),
{
    if chunks.len() > 0 {
        rows_are_summed(chunks.drop_last());
    }
}

/// Law: the bytes of chunks are those of each, one after the other.
pub proof fn data_is_joined(chunks: Seq<ChunkData>)
    ensures
        data_in(chunks) == chunks.map_values(|c: ChunkData| c.1).flatten(),
    decreases chunks.len(),
{
    let f = |c: ChunkData| c.1;
    if chunks.len() == 0 {
        assert(chunks.map_values(f) == Seq::<Seq<u8>>::empty());
    } else {
        let front = chunks.drop_last();
        data_is_joined(front);
        assert(chunks.map_values(f) == front.map_values(f).push(chunks.last().1));
        front.map_values(f).lemma_flatten_push(chunks.last().1);
    }
}

/// How sheets are filled.
proof fn filled_sheets(chunks: Seq<ChunkData>)
    ensures
        ({
            let sheets = sheets_of(chunks);
            &&& sheets.len() > 0
            &&& forall|i: int|
                0 < i < sheets.len() ==> (#[trigger] sheets[i]).len() > 0 && rows_in(sheets[i - 1])
                    + sheets[i][0].0 > 1048575
            &&& forall|i: int|
                0 <= i < sheets.len() ==> rows_in(#[trigger] sheets[i]) <= 1048575 || (i > 0
                    && sheets[i].len() == 1)
        }),
    decreases chunks.len(),
{
    if chunks.len() == 0 {
        assert(rows_in(sheets_of(chunks)[0]) == 0);
    } else {
        let front = chunks.drop_last();
        let s = sheets_of(front);
        let t = sheets_of(chunks);
        let chunk = chunks.last();
        filled_sheets(front);
        assert(s.last() == s[s.len() - 1]);
        let one = seq![chunk];
        let grown = s.last().push(chunk);
        assert(grown.drop_last() == s.last());
        assert(rows_in(grown) == rows_in(s.last()) + chunk.0);
        if rows_in(s.last()) + chunk.0 > 1048575 {
            assert(t == s.push(one));
            assert forall|i: int| 0 < i < t.len() implies (#[trigger] t[i]).len() > 0 && rows_in(
                t[i - 1],
            ) + t[i][0].0 > 1048575 by {
                assert(t[i - 1] == s[i - 1]);
                if i < s.len() {
                    assert(t[i] == s[i]);
                }
            }
            assert forall|i: int| 0 <= i < t.len() implies rows_in(#[trigger] t[i]) <= 1048575
                || (i > 0 && t[i].len() == 1) by {
                if i < s.len() {
                    assert(t[i] == s[i]);
                }
            }
        } else {
            assert(t == s.drop_last().push(grown));
            assert forall|i: int| 0 < i < t.len() implies (#[trigger] t[i]).len() > 0 && rows_in(
                t[i - 1],
            ) + t[i][0].0 > 1048575 by {
                assert(t[i - 1] == s[i - 1]);
                assert(s[i].len() > 0);
                if i < s.len() - 1 {
                    assert(t[i] == s[i]);
                } else {
                    assert(t[i][0] == s[i][0]);
                }
            }
            assert forall|i: int| 0 <= i < t.len() implies rows_in(#[trigger] t[i]) <= 1048575
                || (i > 0 && t[i].len() == 1) by {
                if i < s.len() - 1 {
                    assert(t[i] == s[i]);
                }
            }
        }
    }
}

/// Law: the chunks of a stream fill sheet after sheet. All of them are in the sheets, in order;
/// a sheet ends only where its next chunk would take it over 1048575 rows; and none holds more,
/// unless it is a single chunk that does, behind the first sheet.
pub proof fn sheets_are_filled(chunks: Seq<ChunkData>)
    ensures
        ({
            let sheets = sheets_of(chunks);
            let rows = |s: Seq<ChunkData>| s.fold_left(0int, |v: int, c: ChunkData| v + c.0);
            &&& sheets.len() > 0
            &&& sheets.flatten() == chunks
            &&& forall|i: int|
                0 < i < sheets.len() ==> (#[trigger] sheets[i]).len() > 0 && rows(sheets[i - 1])
                    + sheets[i][0].0 > 1048575
            &&& forall|i: int|
                0 <= i < sheets.len() ==> rows(#[trigger] sheets[i]) <= 1048575 || (i > 0
                    && sheets[i].len() == 1)
        }),
{
    let sheets = sheets_of(chunks);
    let rows = |s: Seq<ChunkData>| s.fold_left(0int, |v: int, c: ChunkData| v + c.0);
    filled_sheets(chunks);
    sheets_keep_chunks(chunks);
    assert forall|i: int| 0 < i < sheets.len() implies (#[trigger] sheets[i]).len() > 0 && rows(
        sheets[i - 1],
    ) + sheets[i][0].0 > 1048575 by {
        rows_are_summed(sheets[i - 1]);
    }
    assert forall|i: int| 0 <= i < sheets.len() implies rows(#[trigger] sheets[i]) <= 1048575
        || (i > 0 && sheets[i].len() == 1) by {
        rows_are_summed(sheets[i]);
    }
}

/// Law: the parts of a streamed workbook, from first to last: the relationships and the styles;
/// each sheet, under its number, with the header, the bytes of its chunks, and its end; and the
/// three parts that list as many sheets.
pub proof fn streamed_archive_is(names: Seq<Seq<char>>, chunks: Seq<ChunkData>)
    ensures
        ({
            let sheets = sheets_of(chunks);
            let n = sheets.len() as int;
            let archive = finished_archive(names, chunks);
            &&& archive.len() == n + 5
            &&& archive[0] == leading_parts()[0]
            &&& archive[1] == leading_parts()[1]
            &&& forall|i: int|
                0 <= i < n ==> (#[trigger] archive[2 + i]).0 == "xl/worksheets/sheet"@ + decimal(
                    (i + 1) as nat,
                ) + ".xml"@ && archive[2 + i].1 == encode_utf8(sheet_head(Seq::empty(), names))
                    + sheets[i].map_values(|c: ChunkData| c.1).flatten() + encode_utf8(
                    "</sheetData></worksheet>"@,
                )
            &&& archive[n + 2] == ("[Content_Types].xml"@, encode_utf8(content_types(n as nat, "\n"@)))
            &&& archive[n + 3] == ("xl/workbook.xml"@, encode_utf8(workbook(n as nat, "\n"@)))
            &&& archive[n + 4] == (
                "xl/_rels/workbook.xml.rels"@,
                encode_utf8(workbook_rels(n as nat, "\n"@)),
            )
        }),
{
    let sheets = sheets_of(chunks);
    let n = sheets.len() as int;
    let archive = finished_archive(names, chunks);
    assert forall|i: int| 0 <= i < n implies (#[trigger] archive[2 + i]).0 == "xl/worksheets/sheet"@
        + decimal((i + 1) as nat) + ".xml"@ && archive[2 + i].1 == encode_utf8(
        sheet_head(Seq::empty(), names),
    ) + sheets[i].map_values(|c: ChunkData| c.1).flatten() + encode_utf8(
        "</sheetData></worksheet>"@,
    ) by {
        data_is_joined(sheets[i]);
        assert(archive[2 + i] == sheet_with(stream_head(names), sheets, i, true));
    }
}

/// Law: the records of a stream in its workbook. Each sheet is the start of a sheet, the rows of
/// its records and the end of a sheet; the records of all sheets, in order, are those that came in
/// and do not equal the header.
pub proof fn workbook_holds_the_stream(
    names: Seq<Seq<char>>,
    header: Seq<Seq<u8>>,
    declared: Option<Seq<ColType>>,
    records: Seq<Seq<Seq<u8>>>,
)
    ensures
        ({
            let kept = records.filter(|r: Seq<Seq<u8>>| r != header);
            let types = stream_types(declared, kept, header.len());
            let archive = finished_archive(names, stream_data(header, declared, records));
            exists|sheets: Seq<Seq<Seq<Seq<u8>>>>|
                {
                    &&& #[trigger] sheets.flatten() == kept
                    &&& sheets.len() > 0
                    &&& archive.len() == sheets.len() + 5
                    &&& forall|i: int|
                        0 <= i < sheets.len() ==> (#[trigger] archive[2 + i]).0
                            == "xl/worksheets/sheet"@ + decimal((i + 1) as nat) + ".xml"@
                            && archive[2 + i].1 == encode_utf8(
                            sheet_head(Seq::empty(), names) + pipe_rows(sheets[i], types)
                                + "</sheetData></worksheet>"@,
                        )
                }
        }),
{
    let kept = records.filter(|r: Seq<Seq<u8>>| r != header);
    let types = stream_types(declared, kept, header.len());
    let groups = stream_groups(header, records);
    let data = stream_data(header, declared, records);
    let layout = sheet_groups(groups);
    let sheets = layout.map_values(|s: Seq<Seq<Seq<Seq<u8>>>>| s.flatten());
    let archive = finished_archive(names, data);
    all_but_headers_are_kept(header, records);
    stream_keeps_every_row(header, declared, records);
    assert(data == chunks_of(groups, types)) by {
        let texts = stream_chunks(header, declared, records);
        assert forall|i: int| 0 <= i < data.len() implies data[i] == chunks_of(groups, types)[i] by {
            assert(texts[i] == (groups[i].len(), pipe_rows(groups[i], types)));
        }
    }
    streamed_workbook_holds_records(names, groups, types);
    flatten_twice(layout);
    assert(sheets.flatten() == kept);
    filled_sheets(data);
    assert(archive.len() == layout.len() + 5);
    assert(archive.len() == sheets_of(data).len() + 5);
    assert forall|i: int| 0 <= i < sheets.len() implies (#[trigger] archive[2 + i]).0
        == "xl/worksheets/sheet"@ + decimal((i + 1) as nat) + ".xml"@ && archive[2 + i].1
        == encode_utf8(
        sheet_head(Seq::empty(), names) + pipe_rows(sheets[i], types)
            + "</sheetData></worksheet>"@,
    ) by {
        assert(archive[2 + i] == (
            sheet_part((i + 1) as nat),
            encode_utf8(pipe_sheet(names, layout[i].flatten(), types)),
        ));
        assert(sheets[i] == layout[i].flatten());
    }
}

/// Joining lists of lists in either order gives the same.
proof fn flatten_twice(layout: Seq<Seq<Seq<Seq<Seq<u8>>>>>)
    ensures
        layout.map_values(|s: Seq<Seq<Seq<Seq<u8>>>>| s.flatten()).flatten()
            == layout.flatten().flatten(),
    decreases layout.len(),
{
    let f = |s: Seq<Seq<Seq<Seq<u8>>>>| s.flatten();
    if layout.len() == 0 {
        assert(layout.map_values(f) == Seq::<Seq<Seq<Seq<u8>>>>::empty());
        assert(layout.flatten() == Seq::<Seq<Seq<Seq<u8>>>>::empty());
    } else {
        let front = layout.drop_last();
        let s = layout.last();
        flatten_twice(front);
        assert(layout == front.push(s));
        front.lemma_flatten_push(s);
        vstd::seq_lib::lemma_flatten_concat(front.flatten(), s);
        assert(layout.map_values(f) == front.map_values(f).push(f(s)));
        front.map_values(f).lemma_flatten_push(f(s));
    }
}

// ---------------------------------------------------------------------------
// The parts around the sheets
// ---------------------------------------------------------------------------

/// Law: the parts before the sheets, character by character.
pub proof fn leading_parts_are()
    ensures
        leading_parts() == seq![
            (
                "_rels/.rels"@,
                encode_utf8(
                    "<?xml version=\"1.0\" encoding=\"UTF-8\" standalone=\"yes\"?><Relationships xmlns=\"http://schemas.openxmlformats.org/package/2006/relationships\"><Relationship Id=\"rId1\" Type=\"http://schemas.openxmlformats.org/officeDocument/2006/relationships/officeDocument\" Target=\"xl/workbook.xml\"/></Relationships>"@,
                ),
            ),
            (
                "xl/styles.xml"@,
                encode_utf8(
                    "<?xml version=\"1.0\" encoding=\"UTF-8\" standalone=\"yes\"?><styleSheet xmlns=\"http://schemas.openxmlformats.org/spreadsheetml/2006/main\"><fonts count=\"1\"><font><sz val=\"11\"/><color theme=\"1\"/><name val=\"Calibri\"/><family val=\"2\"/></font></fonts><fills count=\"2\"><fill><patternFill patternType=\"none\"/></fill><fill><patternFill patternType=\"gray125\"/></fill></fills><borders count=\"1\"><border><left/><right/><top/><bottom/><diagonal/></border></borders><cellStyleXfs count=\"1\"><xf numFmtId=\"0\" fontId=\"0\" fillId=\"0\" borderId=\"0\"/></cellStyleXfs><cellXfs count=\"1\"><xf numFmtId=\"0\" fontId=\"0\" fillId=\"0\" borderId=\"0\" xfId=\"0\"/></cellXfs></styleSheet>"@,
                ),
            ),
        ],
{
}

/// One more entry.
proof fn entries_grow(f: spec_fn(int) -> Seq<char>, n: nat)
    ensures
        Seq::new(n + 1, f).flatten() == Seq::new(n, f).flatten() + f(n as int),
{
    assert(Seq::new(n + 1, f) == Seq::new(n, f).push(f(n as int)));
    Seq::new(n, f).lemma_flatten_push(f(n as int));
}

/// Law: the content types name every sheet by the name of its part: one more sheet is one more
/// entry in front of the end.
pub proof fn content_types_name_sheets(n: nat, eol: Seq<char>)
    ensures
        content_types(0, eol)
            == "<?xml version=\"1.0\" encoding=\"UTF-8\" standalone=\"yes\"?>"@ + eol
            + "<Types xmlns=\"http://schemas.openxmlformats.org/package/2006/content-types\">"@ + eol
            + "<Default Extension=\"rels\" ContentType=\"application/vnd.openxmlformats-package.relationships+xml\"/>"@
            + eol + "<Default Extension=\"xml\" ContentType=\"application/xml\"/>"@ + eol
            + "<Override PartName=\"/xl/workbook.xml\" ContentType=\"application/vnd.openxmlformats-officedocument.spreadsheetml.sheet.main+xml\"/>"@
            + eol
            + "<Override PartName=\"/xl/styles.xml\" ContentType=\"application/vnd.openxmlformats-officedocument.spreadsheetml.styles+xml\"/>"@
            + eol + "</Types>"@,
        content_types(n, eol).len() >= 8,
        content_types(n + 1, eol) == content_types(n, eol).take(content_types(n, eol).len() - 8)
            + "<Override PartName=\"/"@ + sheet_part(n + 1)
            + "\" ContentType=\"application/vnd.openxmlformats-officedocument.spreadsheetml.worksheet+xml\"/>"@
            + eol + "</Types>"@,
{
    let f = |i: int| content_type_entry((i + 1) as nat, eol);
    entries_grow(f, n);
    reveal_strlit("</Types>");
    reveal_strlit("<Override PartName=\"/");
    reveal_strlit("xl/worksheets/sheet");
    reveal_strlit("<Override PartName=\"/xl/worksheets/sheet");
    reveal_strlit(".xml");
    reveal_strlit(
        "\" ContentType=\"application/vnd.openxmlformats-officedocument.spreadsheetml.worksheet+xml\"/>",
    );
    reveal_strlit(
        ".xml\" ContentType=\"application/vnd.openxmlformats-officedocument.spreadsheetml.worksheet+xml\"/>",
    );
    let open = content_types_open(eol);
    assert(Seq::new(0, f).flatten() == Seq::<char>::empty());
    assert(open + Seq::<char>::empty() + "</Types>"@ == open + "</Types>"@);
    let a = open + Seq::new(n, f).flatten();
    assert((a + "</Types>"@).take((a + "</Types>"@).len() - 8) == a);
    let entry = content_type_entry(n + 1, eol);
    let named = "<Override PartName=\"/"@ + sheet_part(n + 1)
        + "\" ContentType=\"application/vnd.openxmlformats-officedocument.spreadsheetml.worksheet+xml\"/>"@
        + eol;
    assert("<Override PartName=\"/"@ + "xl/worksheets/sheet"@
        == "<Override PartName=\"/xl/worksheets/sheet"@);
    assert(".xml"@
        + "\" ContentType=\"application/vnd.openxmlformats-officedocument.spreadsheetml.worksheet+xml\"/>"@
        == ".xml\" ContentType=\"application/vnd.openxmlformats-officedocument.spreadsheetml.worksheet+xml\"/>"@);
    assert(entry == named);
    assert(f(n as int) == entry);
    assert(content_types(n + 1, eol) == a + named + "</Types>"@);
    assert(a + named + "</Types>"@ == a + "<Override PartName=\"/"@ + sheet_part(n + 1)
        + "\" ContentType=\"application/vnd.openxmlformats-officedocument.spreadsheetml.worksheet+xml\"/>"@
        + eol + "</Types>"@);
}

/// Law: the workbook lists every sheet, in order, as `Sheet` and its number, with its number as
/// its id and in its relationship: one more sheet is one more entry in front of the end.
pub proof fn workbook_lists_sheets(n: nat, eol: Seq<char>)
    ensures
        workbook(0, eol) == "<?xml version=\"1.0\" encoding=\"UTF-8\" standalone=\"yes\"?>"@ + eol
            + "<workbook xmlns=\"http://schemas.openxmlformats.org/spreadsheetml/2006/main\" xmlns:r=\"http://schemas.openxmlformats.org/officeDocument/2006/relationships\">"@
            + eol + "<sheets>"@ + eol + "</sheets>"@ + eol + "</workbook>"@,
        workbook(n, eol).len() >= 20 + eol.len(),
        workbook(n + 1, eol) == workbook(n, eol).take(workbook(n, eol).len() - 20 - eol.len())
            + "<sheet name=\"Sheet "@ + decimal(n + 1) + "\" sheetId=\""@ + decimal(n + 1)
            + "\" r:id=\"rId"@ + decimal(n + 1) + "\"/>"@ + eol + "</sheets>"@ + eol
            + "</workbook>"@,
{
    let f = |i: int| sheet_entry((i + 1) as nat, eol);
    entries_grow(f, n);
    reveal_strlit("</sheets>");
    reveal_strlit("</workbook>");
    let open = workbook_open(eol);
    let end = "</sheets>"@ + eol + "</workbook>"@;
    assert(Seq::new(0, f).flatten() == Seq::<char>::empty());
    assert(open + Seq::<char>::empty() == open);
    let a = open + Seq::new(n, f).flatten();
    assert(workbook(n, eol) == a + end);
    assert((a + end).take((a + end).len() - 20 - eol.len()) == a);
    let entry = sheet_entry(n + 1, eol);
    assert(f(n as int) == entry);
    assert(workbook(n + 1, eol) == a + entry + end);
    assert(a + entry + end == a + "<sheet name=\"Sheet "@ + decimal(n + 1) + "\" sheetId=\""@
        + decimal(n + 1) + "\" r:id=\"rId"@ + decimal(n + 1) + "\"/>"@ + eol + "</sheets>"@ + eol
        + "</workbook>"@);
}

/// Law: the relationships lead from the id of every sheet to its part, and from the id behind
/// the last to the styles.
pub proof fn relationships_lead_to_sheets(n: nat, eol: Seq<char>)
    ensures
        exists|before: Seq<char>|
            {
                &&& n == 0 ==> before
                    == "<?xml version=\"1.0\" encoding=\"UTF-8\" standalone=\"yes\"?>"@ + eol
                    + "<Relationships xmlns=\"http://schemas.openxmlformats.org/package/2006/relationships\">"@
                    + eol
                &&& workbook_rels(n, eol) == #[trigger] (before + "<Relationship Id=\"rId"@) + decimal(
                    n + 1,
                )
                    + "\" Type=\"http://schemas.openxmlformats.org/officeDocument/2006/relationships/styles\" Target=\"styles.xml\"/>"@
                    + eol + "</Relationships>"@
                &&& workbook_rels(n + 1, eol) == before + "<Relationship Id=\"rId"@ + decimal(n + 1)
                    + "\" Type=\"http://schemas.openxmlformats.org/officeDocument/2006/relationships/worksheet\" Target=\"worksheets/sheet"@
                    + decimal(n + 1) + ".xml\"/>"@ + eol + "<Relationship Id=\"rId"@ + decimal(n + 2)
                    + "\" Type=\"http://schemas.openxmlformats.org/officeDocument/2006/relationships/styles\" Target=\"styles.xml\"/>"@
                    + eol + "</Relationships>"@
            },
{
    let f = |i: int| sheet_rel((i + 1) as nat, eol);
    entries_grow(f, n);
    let open = workbook_rels_open(eol);
    assert(Seq::new(0, f).flatten() == Seq::<char>::empty());
    assert(open + Seq::<char>::empty() == open);
    let a = open + Seq::new(n, f).flatten();
    assert(workbook_rels(n, eol) == a + styles_rel(n + 1, eol) + "</Relationships>"@);
    let rel = sheet_rel(n + 1, eol);
    assert(f(n as int) == rel);
    assert(workbook_rels(n + 1, eol) == a + rel + styles_rel(n + 2, eol) + "</Relationships>"@);
    assert(a + styles_rel(n + 1, eol) + "</Relationships>"@ == (a + "<Relationship Id=\"rId"@) + decimal(
        n + 1,
    )
        + "\" Type=\"http://schemas.openxmlformats.org/officeDocument/2006/relationships/styles\" Target=\"styles.xml\"/>"@
        + eol + "</Relationships>"@);
    assert(a + rel + styles_rel(n + 2, eol) + "</Relationships>"@ == a + "<Relationship Id=\"rId"@
        + decimal(n + 1)
        + "\" Type=\"http://schemas.openxmlformats.org/officeDocument/2006/relationships/worksheet\" Target=\"worksheets/sheet"@
        + decimal(n + 1) + ".xml\"/>"@ + eol + "<Relationship Id=\"rId"@ + decimal(n + 2)
        + "\" Type=\"http://schemas.openxmlformats.org/officeDocument/2006/relationships/styles\" Target=\"styles.xml\"/>"@
        + eol + "</Relationships>"@);
}

/// Law: an action either starts an empty part, behind all others, or appends to the last part;
/// actions are carried out one after the other.
pub proof fn actions_change_the_last_part(
    archive: Archive,
    name: Seq<char>,
    data: Seq<u8>,
    action: ZipAction,
    actions: Seq<ZipAction>,
)
    ensures
        action matches ZipAction::StartFile(part) ==> applied(archive, action) == archive.push(
            (part@, Seq::<u8>::empty()),
        ),
        action matches ZipAction::WriteAll(more) ==> applied(archive.push((name, data)), action)
            == archive.push((name, data + more@)),
        applied_all(archive, Seq::empty()) == archive,
        applied_all(archive, actions.push(action)) == applied(
            applied_all(archive, actions),
            action,
        ),
{
    assert(archive.push((name, data)).drop_last() == archive);
    assert(actions.push(action).drop_last() == actions);
}

// ---------------------------------------------------------------------------
// Merges
// ---------------------------------------------------------------------------

/// Law: a chunk of a merge holds the last of the rows that came in, at most 40000 of them, all
/// of one sheet; it names that sheet, counted from 1, of which each holds 1048575 rows, and the
/// number of its first row, where row 1 is the header.
pub proof fn merge_chunk_is_placed(rows: Seq<Seq<Seq<char>>>, last: bool)
    requires
        rows.len() > 0,
    ensures
        ({
            let chunk = chunk_ending(rows, last);
            let first = rows.len() - chunk.records.len();
            &&& 0 < chunk.records.len() <= 40000
            &&& chunk.records == rows.subrange(first, rows.len() as int)
            &&& chunk.sheet == first / 1048575 + 1
            &&& chunk.sheet == (rows.len() - 1) / 1048575 + 1
            &&& chunk.start == first % 1048575 + 2
            &&& first % 1048575 % 40000 == 0
            &&& chunk.last == last
        }),
{
    assert(rows.skip(rows.len() - chunk_ending(rows, last).records.len())
        == chunk_ending(rows, last).records);
}

/// Law: the workbook of a merge. Sheet after sheet it holds all rows, 1048575 in each but the
/// last, numbered from 2 on in each; every sheet starts with the header in row 1 and has its end;
/// without rows there is one sheet; and the last parts list these sheets.
#[verifier::spinoff_prover]
#[verifier::rlimit(40)]
pub proof fn merged_archive_is(
    names: Seq<Seq<char>>,
    types: Seq<ColType>,
    rows: Seq<Seq<Seq<char>>>,
)
    ensures
        ({
            let archive = merged_archive(MergeColumns { names, types }, merge_chunks(rows));
            let n: int = if rows.len() == 0 {
                1
            } else {
                (rows.len() as int + 1048574) / 1048575
            };
            &&& archive.len() == n + 5
            &&& archive[0] == leading_parts()[0]
            &&& archive[1] == leading_parts()[1]
            &&& forall|i: int|
                0 <= i < n ==> (#[trigger] archive[2 + i]).0 == "xl/worksheets/sheet"@ + decimal(
                    (i + 1) as nat,
                ) + ".xml"@ && archive[2 + i].1 == encode_utf8(
                    sheet_head(" r=\""@ + decimal(1) + "\""@, names),
                ) + encode_utf8(
                    merge_rows(
                        rows.subrange(
                            i * 1048575,
                            if (i + 1) * 1048575 < rows.len() {
                                (i + 1) * 1048575
                            } else {
                                rows.len() as int
                            },
                        ),
                        col_names(names.len()),
                        types,
                        2,
                    ),
                ) + encode_utf8("</sheetData></worksheet>"@)
            &&& archive[n + 2] == ("[Content_Types].xml"@, encode_utf8(content_types(n as nat, ""@)))
            &&& archive[n + 3] == ("xl/workbook.xml"@, encode_utf8(workbook(n as nat, ""@)))
            &&& archive[n + 4] == (
                "xl/_rels/workbook.xml.rels"@,
                encode_utf8(workbook_rels(n as nat, ""@)),
            )
        }),
{
    let columns = MergeColumns { names, types };
    let archive = merged_archive(columns, merge_chunks(rows));
    merged_workbook_holds_rows(columns, rows);
    assert(leading_parts().len() == 2);
    let n: int = if rows.len() == 0 {
        1
    } else {
        (rows.len() as int + 1048574) / 1048575
    };
    assert(rows.len() > 0 ==> sheets_for(rows.len()) == n);
    assert(listing_parts(n as nat, ""@).len() == 3);
    assert forall|i: int| 0 <= i < n implies (#[trigger] archive[2 + i]).0 == "xl/worksheets/sheet"@
        + decimal((i + 1) as nat) + ".xml"@ && archive[2 + i].1 == encode_utf8(
        sheet_head(" r=\""@ + decimal(1) + "\""@, names),
    ) + encode_utf8(
        merge_rows(
            rows.subrange(
                i * 1048575,
                if (i + 1) * 1048575 < rows.len() {
                    (i + 1) * 1048575
                } else {
                    rows.len() as int
                },
            ),
            col_names(names.len()),
            types,
            2,
        ),
    ) + encode_utf8("</sheetData></worksheet>"@) by {
        assert(row_ref(1) == " r=\""@ + decimal(1) + "\""@);
        assert(rows_of_sheet(rows, rows.len() as int, i) == rows.subrange(
            i * 1048575,
            if (i + 1) * 1048575 < rows.len() {
                (i + 1) * 1048575
            } else {
                rows.len() as int
            },
        ));
    }
}

/// Law: a chunk of rows in a merge goes to the last sheet, or to a new one, with the header in
/// front, where it names a sheet that is not there yet; the last chunk of a sheet ends it. The
/// other sheets stay as they are.
pub proof fn chunk_goes_to_its_sheet(
    names: Seq<Seq<char>>,
    types: Seq<ColType>,
    chunks: Seq<MergeChunk>,
    chunk: MergeChunk,
)
    ensures
        ({
            let columns = MergeColumns { names, types };
            let before = merge_sheets(columns, chunks);
            let after = merge_sheets(columns, chunks.push(chunk));
            let rows = encode_utf8(
                merge_rows(chunk.records, col_names(names.len()), types, chunk.start),
            );
            let end = if chunk.last {
                encode_utf8("</sheetData></worksheet>"@)
            } else {
                Seq::empty()
            };
            &&& merge_sheets(columns, Seq::empty()) == Seq::<(Seq<char>, Seq<u8>)>::empty()
            &&& chunk.sheet > before.len() ==> after == before.push(
                (
                    "xl/worksheets/sheet"@ + decimal(chunk.sheet) + ".xml"@,
                    encode_utf8(sheet_head(" r=\""@ + decimal(1) + "\""@, names)) + rows + end,
                ),
            )
            &&& chunk.sheet <= before.len() && before.len() > 0 ==> after
                == before.drop_last().push(
                (before.last().0, before.last().1 + rows + end),
            )
        }),
{
    let columns = MergeColumns { names, types };
    let before = merge_sheets(columns, chunks);
    let more = chunks.push(chunk);
    let after = merge_sheets(columns, more);
    let head = columns.head();
    let rows = columns.rows(chunk.records, chunk.start);
    assert(more.drop_last() == chunks);
    assert(row_ref(1) == " r=\""@ + decimal(1) + "\""@);
    if chunk.sheet > before.len() {
        let started = before.push((sheet_part(chunk.sheet), head));
        assert(started.drop_last() == before);
        let filled = before.push((sheet_part(chunk.sheet), head + rows));
        assert(filled.drop_last() == before);
        assert(head + rows + Seq::<u8>::empty() == head + rows);
    } else if before.len() > 0 {
        let filled = before.drop_last().push((before.last().0, before.last().1 + rows));
        assert(filled.drop_last() == before.drop_last());
        assert(before.last().1 + rows + Seq::<u8>::empty() == before.last().1 + rows);
    }
}

/// The number of rows in the first `i` chunks.
pub open spec fn rows_before(chunks: Seq<MergeChunk>, i: int) -> int {
    chunks.take(i).map_values(|x: MergeChunk| x.records).flatten().len() as int
}

/// Chunk `i` of a merge holds the rows that follow those of the chunks before it, and says where
/// they stand.
pub open spec fn chunk_is_exact(
    rows: Seq<Seq<Seq<char>>>,
    chunks: Seq<MergeChunk>,
    i: int,
) -> bool {
    let c = chunks[i];
    let first = rows_before(chunks, i);
    let end = rows_before(chunks, i + 1);
    &&& 0 < c.records.len() <= 40000
    &&& end == first + c.records.len() <= rows.len()
    &&& c.records == rows.subrange(first, end)
    &&& c.sheet == first / 1048575 + 1
    &&& c.start == first % 1048575 + 2
    &&& first % 1048575 % 40000 == 0
}

/// One more chunk, and what is before it.
proof fn rows_before_step(chunks: Seq<MergeChunk>, i: int)
    requires
        0 <= i < chunks.len(),
    ensures
        rows_before(chunks, i + 1) == rows_before(chunks, i) + chunks[i].records.len(),
{
    let f = |x: MergeChunk| x.records;
    let a = chunks.take(i).map_values(f);
    assert(chunks.take(i + 1).map_values(f) == a.push(chunks[i].records));
    a.lemma_flatten_push(chunks[i].records);
}

/// Chunk `i` is exact, fills up to 40000 rows or its sheet, and is the last of its sheet in the
/// second case.
spec fn chunk_is_full(rows: Seq<Seq<Seq<char>>>, chunks: Seq<MergeChunk>, i: int) -> bool {
    let end = rows_before(chunks, i + 1);
    &&& chunk_is_exact(rows, chunks, i)
    &&& chunks[i].last <==> end % 1048575 == 0
    &&& end % 1048575 == 0 || end % 1048575 % 40000 == 0
}

/// Further rows and chunks do not change what a chunk is.
proof fn chunk_stays_full(
    front: Seq<Seq<Seq<char>>>,
    rows: Seq<Seq<Seq<char>>>,
    earlier: Seq<MergeChunk>,
    chunks: Seq<MergeChunk>,
    i: int,
)
    requires
        0 <= i < earlier.len() <= chunks.len(),
        earlier == chunks.take(earlier.len() as int),
        front.len() <= rows.len(),
        front == rows.take(front.len() as int),
        chunk_is_full(front, earlier, i),
    ensures
        chunk_is_full(rows, chunks, i),
{
    assert(earlier[i] == chunks[i]);
    assert(chunks.take(i) == earlier.take(i));
    assert(chunks.take(i + 1) == earlier.take(i + 1));
    rows_before_step(chunks, i);
    let first = rows_before(chunks, i);
    let end = rows_before(chunks, i + 1);
    assert(front.subrange(first, end) == rows.subrange(first, end));
}

/// When the last of `n` rows completes a chunk, and when with it a sheet.
proof fn completing_rows(n: nat)
    requires
        n > 0,
    ensures
        completes_chunk(n) <==> n as int % 1048575 == 0 || n as int % 1048575 % 40000 == 0,
        rows_in_sheet(n) == 1048575 <==> n as int % 1048575 == 0,
{
    let m = n as int % 1048575;
    if m == 0 {
        assert((n - 1) % 1048575 == 1048574);
    } else {
        assert((n - 1) % 1048575 == m - 1);
    }
}

/// The chunk that a row completes is full.
proof fn completed_chunk_is_full(rows: Seq<Seq<Seq<char>>>)
    requires
        rows.len() > 0,
        completes_chunk(rows.len()),
    ensures
        completed_chunks(rows).len() > 0,
        chunk_is_full(rows, completed_chunks(rows), completed_chunks(rows).len() - 1),
{
    let chunks = completed_chunks(rows);
    let i = chunks.len() - 1;
    let n = rows.len() as int;
    completed_chunks_hold(rows);
    assert(chunks.take(i + 1) == chunks);
    assert(rows_before(chunks, i + 1) == n);
    rows_before_step(chunks, i);
    let last = rows_in_sheet(rows.len()) == 1048575;
    assert(chunks[i] == chunk_ending(rows, last));
    merge_chunk_is_placed(rows, last);
    completing_rows(rows.len());
}

/// The chunks that are handed out while rows come in are full.
proof fn completed_chunks_are_exact(rows: Seq<Seq<Seq<char>>>)
    ensures
        forall|i: int|
            0 <= i < completed_chunks(rows).len() ==> #[trigger] chunk_is_full(
                rows,
                completed_chunks(rows),
                i,
            ),
    decreases rows.len(),
{
    let chunks = completed_chunks(rows);
    if rows.len() > 0 {
        let front = rows.drop_last();
        let earlier = completed_chunks(front);
        completed_chunks_are_exact(front);
        assert(front == rows.take(front.len() as int));
        assert(earlier == chunks.take(earlier.len() as int));
        assert forall|i: int| 0 <= i < chunks.len() implies #[trigger] chunk_is_full(
            rows,
            chunks,
            i,
        ) by {
            if i < earlier.len() {
                assert(chunk_is_full(front, earlier, i));
                chunk_stays_full(front, rows, earlier, chunks, i);
            } else {
                completed_chunk_is_full(rows);
            }
        }
    }
}

/// The chunk that is left over at the end.
proof fn left_over_chunk_is_exact(rows: Seq<Seq<Seq<char>>>)
    requires
        waiting(rows.len()) > 0,
    ensures
        ({
            let chunks = merge_chunks(rows);
            let i = chunks.len() - 1;
            let end = rows_before(chunks, i + 1);
            &&& i == completed_chunks(rows).len()
            &&& chunk_is_exact(rows, chunks, i)
            &&& chunks[i].last
            &&& end % 1048575 % 40000 != 0
        }),
{
    let chunks = merge_chunks(rows);
    let i = chunks.len() - 1;
    merge_keeps_every_row(rows);
    assert(chunks.take(i + 1) == chunks);
    assert(rows_before(chunks, i + 1) == rows.len());
    rows_before_step(chunks, i);
    assert(chunks[i] == chunk_ending(rows, true));
    merge_chunk_is_placed(rows, true);
    completing_rows(rows.len());
}

/// Law: a merge is handed out in chunks, one behind the other, which hold all rows. Each holds
/// up to 40000 rows of one sheet, of which each has 1048575, and is the last of its sheet where it
/// fills the sheet; the chunk that is left over at the end, not full, is the last of its sheet too.
/// Each names its sheet, and the number of its first row.
pub proof fn merge_comes_in_chunks(rows: Seq<Seq<Seq<char>>>)
    ensures
        merge_chunks(rows).map_values(|x: MergeChunk| x.records).flatten() == rows,
        forall|i: int|
            #![trigger merge_chunks(rows)[i]]
            0 <= i < merge_chunks(rows).len() ==> {
                let end = rows_before(merge_chunks(rows), i + 1);
                &&& chunk_is_exact(rows, merge_chunks(rows), i)
                &&& merge_chunks(rows)[i].last <==> end % 1048575 == 0 || end % 1048575 % 40000 != 0
                &&& i < merge_chunks(rows).len() - 1 ==> end % 1048575 == 0 || end % 1048575 % 40000
                    == 0
            },
{
    let full = completed_chunks(rows);
    let chunks = merge_chunks(rows);
    merge_keeps_every_row(rows);
    completed_chunks_are_exact(rows);
    assert forall|i: int|
        #![trigger chunks[i]]
        0 <= i < chunks.len() implies {
        let end = rows_before(chunks, i + 1);
        &&& chunk_is_exact(rows, chunks, i)
        &&& chunks[i].last <==> end % 1048575 == 0 || end % 1048575 % 40000 != 0
        &&& i < chunks.len() - 1 ==> end % 1048575 == 0 || end % 1048575 % 40000 == 0
    } by {
        if i < full.len() {
            assert(chunk_is_full(rows, full, i));
            assert(full == chunks.take(full.len() as int));
            assert(rows == rows.take(rows.len() as int));
            chunk_stays_full(rows, rows, full, chunks, i);
        } else {
            left_over_chunk_is_exact(rows);
        }
    }
}

} // verus!
