//! Verified core of a converter from CSV to XLSX.
//!
//! - `text`, `number`: characters, trimming, searching, decimal numerals, number syntax.
//! - `columns`: letters, types and headers of columns, and rows aligned to them.
//! - `xml`, `render`, `workbook`: cells, rows, sheets and the parts around them, written and read.
//! - `pipe`, `pipe_writer`: a stream of records, chunk by chunk, into a workbook.
//! - `merge`, `merge_writer`: the rows of several files, chunk by chunk, into a workbook.
//! - `roundtrip`: a workbook compared with the records that it was made of.
//! - `args`: the arguments of the programs.
//! - `escape_laws`, `row_laws`, `legal_laws`, `roundtrip_laws`: what holds of all of these together.
//! - `text_laws`, `number_laws`, `column_laws`, `cell_laws`, `book_laws`, `read_laws`, `check_laws`,
//!   `args_laws`: what each of them does, said without it.

pub mod text;
pub mod number;
pub mod columns;
pub mod xml;
pub mod render;
pub mod escape_laws;
pub mod row_laws;
pub mod workbook;
pub mod pipe;
pub mod pipe_writer;
pub mod merge;
pub mod merge_writer;
pub mod legal_laws;
pub mod roundtrip;
pub mod roundtrip_laws;
pub mod args;
pub mod text_laws;
pub mod number_laws;
pub mod column_laws;
pub mod cell_laws;
pub mod book_laws;
pub mod read_laws;
pub mod check_laws;
pub mod args_laws;
