//! Drawing a table as an aligned grid of text.
//!
//! The grid is a `prettytable::Table`. This module fills one from a
//! [`CsvTable`]: the header becomes the title row, each data row a row below
//! it, each field a cell. What the grid holds is stated over a few
//! uninterpreted functions of the grid, its rows and its cells; the text that
//! it is drawn as is a function of those.

use crate::table::{data_rows, CsvTable};
use vstd::prelude::*;
use vstd::utf8::encode_utf8;

verus! {

/// The byte that opens a terminal escape sequence.
pub const ESCAPE: u8 = 0x1B;

/// A text that can be put in a cell: its UTF-8 form holds no escape byte.
///
/// The grid measures a cell by subtracting the characters of escape sequences
/// from the width of its text, and stops the program where that would go below
/// zero. Without an escape byte there is nothing to subtract.
pub open spec fn is_drawable(text: Seq<char>) -> bool {
    forall|i: int| 0 <= i < encode_utf8(text).len() ==> encode_utf8(text)[i] != ESCAPE
}

/// A text of one line: it holds no line feed and no carriage return.
pub open spec fn is_single_line(text: Seq<char>) -> bool {
    forall|i: int| 0 <= i < text.len() ==> text[i] != '\n' && text[i] != '\r'
}

/// Every field of the record can be put in a cell.
pub open spec fn record_is_drawable(record: Seq<Seq<char>>) -> bool {
    forall|f: int| 0 <= f < record.len() ==> is_drawable(#[trigger] record[f])
}

/// Every field of every record can be put in a cell.
pub open spec fn table_is_drawable(records: Seq<Seq<Seq<char>>>) -> bool {
    forall|r: int| 0 <= r < records.len() ==> record_is_drawable(#[trigger] records[r])
}

/// `prettytable::Table`, the grid. Nothing inside it is seen here: what it
/// holds is told by `grid_titles`, `grid_rows` and `grid_is_plain`.
#[verifier::external_type_specification]
#[verifier::external_body]
pub struct ExGrid(prettytable::Table);

/// `prettytable::Row`, a row of cells. What it holds is told by `row_texts`
/// and `row_is_plain`.
#[verifier::external_type_specification]
#[verifier::external_body]
pub struct ExRow(prettytable::Row);

/// `prettytable::Cell`, one cell. What it holds is told by `cell_text` and
/// `cell_is_plain`.
#[verifier::external_type_specification]
#[verifier::external_body]
pub struct ExCell(prettytable::Cell);

/// The text that a cell holds, as `prettytable::Cell::get_content` returns it:
/// the lines of the cell, joined by line feeds.
pub uninterp spec fn cell_text(cell: prettytable::Cell) -> Seq<char>;

/// Whether a cell has the layout that `prettytable::Cell::new` gives: aligned
/// to the left, one column wide, no style attribute.
pub uninterp spec fn cell_is_plain(cell: prettytable::Cell) -> bool;

/// The texts of the cells of a row, from left to right.
pub uninterp spec fn row_texts(row: prettytable::Row) -> Seq<Seq<char>>;

/// Whether every cell of a row is plain.
pub uninterp spec fn row_is_plain(row: prettytable::Row) -> bool;

/// The texts of the title row of a grid, where it has one.
pub uninterp spec fn grid_titles(grid: prettytable::Table) -> Option<Seq<Seq<char>>>;

/// The texts of the rows of a grid below its titles, from top to bottom.
pub uninterp spec fn grid_rows(grid: prettytable::Table) -> Seq<Seq<Seq<char>>>;

/// Whether a grid has the format that `prettytable::Table::new` gives, and
/// plain cells only.
pub uninterp spec fn grid_is_plain(grid: prettytable::Table) -> bool;

/// The text of the cell that `prettytable::Cell::new` makes of `text`: `text`
/// cut into lines as `str::lines` cuts it, the lines joined by line feeds.
pub uninterp spec fn shown_text(text: Seq<char>) -> Seq<char>;

/// The text that a plain grid with these titles and rows is drawn as.
pub uninterp spec fn grid_text(
    titles: Option<Seq<Seq<char>>>,
    rows: Seq<Seq<Seq<char>>>,
) -> Seq<char>;

/// `prettytable::Cell::new`: a left-aligned cell of one column that holds the
/// lines of `text`. A text of one line is its own single line, so the cell
/// holds it as it is. The call measures each line and stops the program where
/// the characters of escape sequences outnumber the width of the line, so a
/// text with an escape byte is left out.
#[verifier::external_body]
fn new_cell(text: &str) -> (cell: prettytable::Cell)
    requires
        is_drawable(text@),
    ensures
        cell_text(cell) == shown_text(text@),
        is_single_line(text@) ==> cell_text(cell) == text@,
        cell_is_plain(cell),
{
    prettytable::Cell::new(text)
}

/// `prettytable::Row::new`: the row that holds `cells`, in their order.
#[verifier::external_body]
fn new_row(cells: Vec<prettytable::Cell>) -> (row: prettytable::Row)
    ensures
        row_texts(row) == Seq::new(cells@.len(), |c: int| cell_text(cells@[c])),
        (forall|c: int| 0 <= c < cells@.len() ==> cell_is_plain(cells@[c])) ==> row_is_plain(row),
{
    prettytable::Row::new(cells)
}

/// `prettytable::Table::new`: a grid in the default format, without titles
/// and without rows.
#[verifier::external_body]
fn new_grid() -> (grid: prettytable::Table)
    ensures
        grid_titles(grid) is None,
        grid_rows(grid) == Seq::<Seq<Seq<char>>>::empty(),
        grid_is_plain(grid),
{
    prettytable::Table::new()
}

/// `prettytable::Table::set_titles`: `titles` becomes the title row; the rows
/// and the format stay.
#[verifier::external_body]
fn set_titles(grid: &mut prettytable::Table, titles: prettytable::Row)
    ensures
        grid_titles(*final(grid)) == Some(row_texts(titles)),
        grid_rows(*final(grid)) == grid_rows(*old(grid)),
        grid_is_plain(*old(grid)) && row_is_plain(titles) ==> grid_is_plain(*final(grid)),
{
    grid.set_titles(titles);
}

/// `prettytable::Table::add_row`: `row` is appended below the rows; the titles
/// and the format stay.
#[verifier::external_body]
fn add_row(grid: &mut prettytable::Table, row: prettytable::Row)
    ensures
        grid_titles(*final(grid)) == grid_titles(*old(grid)),
        grid_rows(*final(grid)) == grid_rows(*old(grid)).push(row_texts(row)),
        grid_is_plain(*old(grid)) && row_is_plain(row) ==> grid_is_plain(*final(grid)),
{
    grid.add_row(row);
}

/// `ToString::to_string` of a `prettytable::Table`: the grid drawn with
/// borders, the titles set off from the rows, each column as wide as its
/// widest cell. For a plain grid the text depends on the cell texts alone.
#[verifier::external_body]
fn grid_to_string(grid: &prettytable::Table) -> (text: String)
    requires
        grid_is_plain(*grid),
    ensures
        text@ == grid_text(grid_titles(*grid), grid_rows(*grid)),
{
    grid.to_string()
}

/// What the cells of a row made of `record` show.
pub open spec fn shown_record(record: Seq<Seq<char>>) -> Seq<Seq<char>> {
    Seq::new(record.len(), |f: int| shown_text(record[f]))
}

/// The titles of the grid made of `records`: the header, where there is one.
pub open spec fn shown_titles(records: Seq<Seq<Seq<char>>>) -> Option<Seq<Seq<char>>> {
    if records.len() > 0 {
        Some(shown_record(records[0]))
    } else {
        None
    }
}

/// The rows of the grid made of `records`: the data rows, in their order.
pub open spec fn shown_rows(records: Seq<Seq<Seq<char>>>) -> Seq<Seq<Seq<char>>> {
    Seq::new(data_rows(records).len(), |r: int| shown_record(data_rows(records)[r]))
}

/// Whether `text` holds no escape byte.
pub fn text_is_drawable(text: &str) -> (drawable: bool)
    ensures
        drawable == is_drawable(text@),
{
    let bytes = text.as_bytes();
    let mut i: usize = 0;
    while i < bytes.len()
        invariant
            i <= bytes.len(),
            bytes@ == encode_utf8(text@),
            forall|j: int| 0 <= j < i ==> bytes@[j] != ESCAPE,
        decreases bytes.len() - i,
    {
        if bytes[i] == ESCAPE {
            return false;
        }
        i += 1;
    }
    true
}

/// `texts` has a text for each field of `record`, and for a field of one
/// line the field itself.
pub open spec fn keeps_single_lines(record: Seq<Seq<char>>, texts: Seq<Seq<char>>) -> bool {
    &&& texts.len() == record.len()
    &&& forall|f: int|
        0 <= f < record.len() && is_single_line(#[trigger] record[f]) ==> texts[f] == record[f]
}

/// The row that shows the fields of `record`, one cell for each.
fn row_of(record: &Vec<String>) -> (row: prettytable::Row)
    requires
        record_is_drawable(record.deep_view()),
    ensures
        row_texts(row) == shown_record(record.deep_view()),
        row_is_plain(row),
        keeps_single_lines(record.deep_view(), row_texts(row)),
{
    let mut cells: Vec<prettytable::Cell> = Vec::new();
    let mut f: usize = 0;
    while f < record.len()
        invariant
            f <= record.len(),
            cells@.len() == f,
            record_is_drawable(record.deep_view()),
            forall|c: int| 0 <= c < f ==> cell_text(#[trigger] cells@[c]) == shown_text(record@[c]@),
            forall|c: int| 0 <= c < f ==> cell_is_plain(#[trigger] cells@[c]),
            forall|c: int|
                0 <= c < f && is_single_line(#[trigger] record.deep_view()[c]) ==> cell_text(
                    cells@[c],
                ) == record.deep_view()[c],
        decreases record.len() - f,
    {
        assert(is_drawable(record.deep_view()[f as int]));
        let cell = new_cell(record[f].as_str());
        cells.push(cell);
        f += 1;
    }
    let row = new_row(cells);
    assert(row_texts(row) =~= shown_record(record.deep_view()));
    row
}

/// Fills a grid from `table`: the header as its titles, each data row as a
/// row, each field as a cell, all in their order. A field of one line is
/// shown as it is; one of several lines is shown line by line. A table
/// without records gives a grid without titles.
pub fn create_table_from_csv(table: &CsvTable) -> (grid: prettytable::Table)
    requires
        table_is_drawable(table@),
    ensures
        grid_titles(grid) == shown_titles(table@),
        grid_rows(grid) == shown_rows(table@),
        grid_is_plain(grid),
        grid_titles(grid) matches Some(titles) ==> keeps_single_lines(table@[0], titles),
        forall|r: int|
            0 <= r < grid_rows(grid).len() ==> keeps_single_lines(
                table@[r + 1],
                #[trigger] grid_rows(grid)[r],
            ),
{
    let mut grid = new_grid();
    if table.records.len() > 0 {
        assert(record_is_drawable(table@[0]));
        let titles = row_of(&table.records[0]);
        set_titles(&mut grid, titles);
        let mut r: usize = 1;
        while r < table.records.len()
            invariant
                1 <= r <= table.records.len(),
                table_is_drawable(table@),
                grid_titles(grid) == shown_titles(table@),
                grid_rows(grid) == Seq::new((r - 1) as nat, |i: int| shown_record(table@[i + 1])),
                grid_is_plain(grid),
                keeps_single_lines(table@[0], grid_titles(grid).unwrap()),
                forall|i: int|
                    0 <= i < r - 1 ==> keeps_single_lines(
                        table@[i + 1],
                        #[trigger] grid_rows(grid)[i],
                    ),
            decreases table.records.len() - r,
        {
            assert(record_is_drawable(table@[r as int]));
            let row = row_of(&table.records[r]);
            add_row(&mut grid, row);
            r += 1;
            assert(grid_rows(grid) =~= Seq::new(
                (r - 1) as nat,
                |i: int| shown_record(table@[i + 1]),
            ));
        }
        assert(grid_rows(grid) =~= shown_rows(table@));
    } else {
        assert(grid_rows(grid) =~= shown_rows(table@));
    }
    grid
}

/// Whether every field of `record` can be put in a cell.
fn fields_are_drawable(record: &Vec<String>) -> (drawable: bool)
    ensures
        drawable == record_is_drawable(record.deep_view()),
{
    let mut f: usize = 0;
    while f < record.len()
        invariant
            f <= record.len(),
            forall|c: int| 0 <= c < f ==> is_drawable(#[trigger] record.deep_view()[c]),
        decreases record.len() - f,
    {
        if !text_is_drawable(record[f].as_str()) {
            assert(!is_drawable(record.deep_view()[f as int]));
            return false;
        }
        f += 1;
    }
    true
}

impl CsvTable {
    /// Whether the table can be drawn: no field holds an escape byte.
    pub fn is_drawable(&self) -> (drawable: bool)
        ensures
            drawable == table_is_drawable(self@),
    {
        let mut r: usize = 0;
        while r < self.records.len()
            invariant
                r <= self.records.len(),
                forall|i: int| 0 <= i < r ==> record_is_drawable(#[trigger] self@[i]),
            decreases self.records.len() - r,
        {
            if !fields_are_drawable(&self.records[r]) {
                assert(!record_is_drawable(self@[r as int]));
                return false;
            }
            r += 1;
        }
        true
    }
}

/// The text that `records` are drawn as: that of the plain grid with the
/// header as its titles and the data rows as its rows.
pub open spec fn drawn_text(records: Seq<Seq<Seq<char>>>) -> Seq<char> {
    grid_text(shown_titles(records), shown_rows(records))
}

/// Draws `table` as a grid of text: a border around it, the header set off
/// from the data rows, every column as wide as its widest field. A table with
/// a header alone is drawn with no row below it, a table without records as a
/// grid without titles. The text is fixed by the fields of the table.
///
/// A table with an escape byte in a field is not drawn, and `None` comes
/// back.
pub fn render(table: &CsvTable) -> (text: Option<String>)
    ensures
        text is Some <==> table_is_drawable(table@),
        text matches Some(drawn) ==> drawn@ == drawn_text(table@),
{
    if table.is_drawable() {
        let grid = create_table_from_csv(table);
        Some(grid_to_string(&grid))
    } else {
        None
    }
}

/// The grid shows every field in its own place: the fields of the header as
/// the titles, the fields of the data row `r` in the row `r - 1`, each in the
/// column that it stands in.
pub proof fn law_every_field_is_shown_in_its_place(records: Seq<Seq<Seq<char>>>)
    ensures
        records.len() == 0 ==> shown_titles(records) is None && shown_rows(records).len() == 0,
        records.len() > 0 ==> shown_titles(records) is Some && shown_rows(records).len()
            == records.len() - 1,
        forall|f: int|
            0 <= f < records[0].len() && records.len() > 0 ==> #[trigger] shown_titles(
                records,
            ).unwrap()[f] == shown_text(records[0][f]),
        records.len() > 0 ==> shown_titles(records).unwrap().len() == records[0].len(),
        forall|r: int|
            1 <= r < records.len() ==> (#[trigger] shown_rows(records)[r - 1]).len()
                == records[r].len(),
        forall|r: int, f: int|
            1 <= r < records.len() && 0 <= f < records[r].len() ==> #[trigger] shown_rows(
                records,
            )[r - 1][f] == shown_text(records[r][f]),
{
}

} // verus!
