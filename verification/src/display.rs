//! What the shell prints of a result.

use comfy_table::{ContentArrangement, Table};

use vstd::prelude::*;
use vstd::string::*;

use crate::filter;
use crate::result::{QueryMode, QueryResult};
use crate::rows::Row;
use crate::text;
use crate::text::{cat2, cat3, cat5, decimal_i64, decimal_usize, own, text_equal};
use crate::value::{Val, Value};

verus! {

/// What stands in a cell. Numbers with a fraction are written out by the caller.
#[derive(Debug)]
pub enum Cell {
    Text(String),
    /// The bits of a double.
    Double(u64),
    /// The bits of a single, to be written with four decimals.
    Score(u32),
}

/// The model of a [`Cell`].
pub enum CellView {
    Text(Seq<char>),
    Double(u64),
    Score(u32),
}

impl View for Cell {
    type V = CellView;

    open spec fn view(&self) -> CellView {
        match *self {
            Cell::Text(s) => CellView::Text(s@),
            Cell::Double(b) => CellView::Double(b),
            Cell::Score(b) => CellView::Score(b),
        }
    }
}

/// The views of a sequence of cells.
pub open spec fn cell_views(s: Seq<Cell>) -> Seq<CellView> {
    s.map_values(|c: Cell| c@)
}

/// The cell of a value.
pub open spec fn value_cell(v: Val) -> CellView {
    match v {
        Val::Str(s) => CellView::Text(s),
        Val::Int(n) => CellView::Text(text::dec_int(n as int)),
        Val::Float(b) => CellView::Double(b),
        Val::Bool(b) => CellView::Text(
            if b {
                "true"@
            } else {
                "false"@
            },
        ),
        Val::Null => CellView::Text("NULL"@),
    }
}

/// The cell of a value.
pub fn format_value(v: &Value) -> (c: Cell)
    ensures
        c@ == value_cell(v@),
{
    match v {
        Value::String(s) => Cell::Text(s.clone()),
        Value::Int(n) => Cell::Text(decimal_i64(*n)),
        Value::Float(b) => Cell::Double(*b),
        Value::Bool(b) => {
            if *b {
                Cell::Text(own("true"))
            } else {
                Cell::Text(own("false"))
            }
        },
        Value::Null => Cell::Text(own("NULL")),
    }
}

/// The column that shows scores.
pub open spec fn score_column() -> Seq<char> {
    "_score"@
}

/// The cell of a row in a column: the score, or the value of the field, or nothing.
pub open spec fn cell_of(row: Row, column: Seq<char>) -> CellView {
    if column == score_column() {
        match row.score {
            Some(s) => CellView::Score(s),
            None => CellView::Text(Seq::empty()),
        }
    } else {
        match filter::field_of(row.values@, column) {
            Some(v) => value_cell(v),
            None => CellView::Text(Seq::empty()),
        }
    }
}

fn build_cell(row: &Row, column: &str) -> (c: Cell)
    ensures
        c@ == cell_of(*row, column@),
{
    if text_equal(column, "_score") {
        match row.score {
            Some(s) => Cell::Score(s),
            None => {
                let empty = String::new();
                assert(empty@ =~= Seq::<char>::empty());
                Cell::Text(empty)
            },
        }
    } else {
        match row.values.get(column) {
            Some(v) => format_value(v),
            None => {
                let empty = String::new();
                assert(empty@ =~= Seq::<char>::empty());
                Cell::Text(empty)
            },
        }
    }
}

/// The cells of a row, one for each column.
pub fn row_cells(columns: &Vec<String>, row: &Row) -> (r: Vec<Cell>)
    ensures
        cell_views(r@) == text::views(columns@).map_values(|c: Seq<char>| cell_of(*row, c)),
{
    let ghost want = text::views(columns@).map_values(|c: Seq<char>| cell_of(*row, c));
    let mut r: Vec<Cell> = Vec::new();
    let mut i: usize = 0;
    while i < columns.len()
        invariant
            i <= columns.len(),
            r@.len() == i,
            forall|j: int| 0 <= j < i ==> (#[trigger] r@[j])@ == cell_of(*row, columns@[j]@),
        decreases columns.len() - i,
    {
        r.push(build_cell(row, columns[i].as_str()));
        i += 1;
    }
    assert(cell_views(r@) =~= want);
    r
}

/// The name of a mode.
pub open spec fn mode_name(m: QueryMode) -> Seq<char> {
    match m {
        QueryMode::Deterministic => "deterministic"@,
        QueryMode::Probabilistic => "probabilistic"@,
    }
}

/// The line below the table of a result.
pub open spec fn stats_text(r: QueryResult, millis: Seq<char>) -> Seq<char> {
    text::dec(r.rows@.len()) + " row(s) | "@ + text::dec(r.entities_scanned as nat) + " scanned | "@ + (mode_name(
        r.mode,
    ) + " | "@ + r.tier@ + " | "@ + (millis + "ms"@))
}

/// The line below the table of a result. The milliseconds are written out, with two
/// decimals, by the caller.
pub fn stats_line(r: &QueryResult, millis: &str) -> (s: String)
    ensures
        s@ == stats_text(*r, millis@),
{
    let n = decimal_usize(r.rows.len());
    let scanned = decimal_usize(r.entities_scanned);
    let mode = match r.mode {
        QueryMode::Deterministic => "deterministic",
        QueryMode::Probabilistic => "probabilistic",
    };
    let time = cat2(millis, "ms");
    let tail = cat5(mode, " | ", r.tier.as_str(), " | ", time.as_str());
    cat5(n.as_str(), " row(s) | ", scanned.as_str(), " scanned | ", tail.as_str())
}

/// A result as the shell prints it, given its table.
pub fn printed(table: &str, r: &QueryResult, millis: &str) -> (s: String)
    ensures
        s@ == table@ + "\n"@ + stats_text(*r, millis@),
{
    let line = stats_line(r, millis);
    cat3(table, "\n", line.as_str())
}

/// The statistics of a remote result; the milliseconds as they are written out.
#[derive(Debug)]
pub struct RemoteStats {
    pub entities_scanned: u64,
    pub millis: String,
}

/// What is printed of a remote result without columns and rows.
pub open spec fn remote_done(stats: Option<RemoteStats>) -> Seq<char> {
    match stats {
        Some(s) => "OK | "@ + s.millis@ + "ms"@,
        None => "OK"@,
    }
}

/// What is printed below the table of a remote result of so many rows.
pub open spec fn remote_line(stats: Option<RemoteStats>, rows: nat) -> Seq<char> {
    match stats {
        Some(s) => text::dec(rows) + " row(s) | "@ + text::dec(s.entities_scanned as nat) + " scanned | "@ + (
        s.millis@ + "ms"@),
        None => Seq::empty(),
    }
}

/// A remote result as the shell prints it, given its table; one without columns and
/// rows, as of a statement that only writes, has none.
pub open spec fn remote_text(table: Seq<char>, columns: nat, rows: nat, stats: Option<RemoteStats>) -> Seq<char> {
    if columns == 0 && rows == 0 {
        remote_done(stats)
    } else {
        table + "\n"@ + remote_line(stats, rows)
    }
}

/// A remote result as the shell prints it, given its table.
pub fn printed_remote(table: &str, columns: usize, rows: usize, stats: &Option<RemoteStats>) -> (s: String)
    ensures
        s@ == remote_text(table@, columns as nat, rows as nat, *stats),
{
    if columns == 0 && rows == 0 {
        return match stats {
            Some(s) => cat3("OK | ", s.millis.as_str(), "ms"),
            None => own("OK"),
        };
    }
    let line = match stats {
        Some(s) => {
            let n = decimal_usize(rows);
            let scanned = text::decimal(s.entities_scanned);
            let time = cat2(s.millis.as_str(), "ms");
            cat5(n.as_str(), " row(s) | ", scanned.as_str(), " scanned | ", time.as_str())
        },
        None => {
            let empty = String::new();
            assert(empty@ =~= Seq::<char>::empty());
            empty
        },
    };
    cat3(table, "\n", line.as_str())
}

/// What a cell shows, given what is written of its number where it holds one.
pub open spec fn cell_text(c: CellView, number: Seq<char>) -> Seq<char> {
    match c {
        CellView::Text(s) => s,
        _ => number,
    }
}

/// The texts of the cells of rows, given what is written of the numbers in them.
pub open spec fn table_cells(columns: Seq<String>, rows: Seq<Row>, numbers: Seq<Vec<String>>) -> Seq<Seq<Seq<char>>> {
    Seq::new(
        rows.len(),
        |i: int|
            Seq::new(columns.len(), |j: int| cell_text(cell_of(rows[i], columns[j]@), numbers[i]@[j]@)),
    )
}

/// Whether there is a text for every cell.
pub open spec fn covers(columns: Seq<String>, rows: Seq<Row>, numbers: Seq<Vec<String>>) -> bool {
    &&& numbers.len() == rows.len()
    &&& forall|i: int| 0 <= i < numbers.len() ==> (#[trigger] numbers[i])@.len() == columns.len()
}

/// The views of rows of texts.
pub open spec fn grid(rows: Seq<Vec<String>>) -> Seq<Seq<Seq<char>>> {
    rows.map_values(|row: Vec<String>| text::views(row@))
}

fn row_texts(columns: &Vec<String>, row: &Row, numbers: &Vec<String>) -> (r: Vec<String>)
    requires
        numbers@.len() == columns@.len(),
    ensures
        text::views(r@) == Seq::new(
            columns@.len(),
            |j: int| cell_text(cell_of(*row, columns@[j]@), numbers@[j]@),
        ),
{
    let mut r: Vec<String> = Vec::new();
    let mut j: usize = 0;
    while j < columns.len()
        invariant
            j <= columns.len(),
            numbers@.len() == columns@.len(),
            r@.len() == j,
            forall|k: int|
                0 <= k < j ==> (#[trigger] r@[k])@ == cell_text(cell_of(*row, columns@[k]@), numbers@[k]@),
        decreases columns.len() - j,
    {
        let t = match build_cell(row, columns[j].as_str()) {
            Cell::Text(s) => s,
            _ => numbers[j].clone(),
        };
        r.push(t);
        j += 1;
    }
    assert(text::views(r@) =~= Seq::new(
        columns@.len(),
        |j: int| cell_text(cell_of(*row, columns@[j]@), numbers@[j]@),
    ));
    r
}

fn cell_grid(columns: &Vec<String>, rows: &Vec<Row>, numbers: &Vec<Vec<String>>) -> (r: Vec<Vec<String>>)
    requires
        covers(columns@, rows@, numbers@),
    ensures
        grid(r@) == table_cells(columns@, rows@, numbers@),
{
    let ghost want = table_cells(columns@, rows@, numbers@);
    let mut r: Vec<Vec<String>> = Vec::new();
    let mut i: usize = 0;
    while i < rows.len()
        invariant
            i <= rows.len(),
            covers(columns@, rows@, numbers@),
            want == table_cells(columns@, rows@, numbers@),
            r@.len() == i,
            forall|k: int| 0 <= k < i ==> text::views((#[trigger] r@[k])@) == want[k],
        decreases rows.len() - i,
    {
        let texts = row_texts(columns, &rows[i], &numbers[i]);
        assert(text::views(texts@) =~= want[i as int]);
        r.push(texts);
        i += 1;
    }
    assert(grid(r@) =~= want);
    r
}

/// What the table crate writes for a header and rows in a terminal so many columns wide,
/// or where there is no terminal.
pub uninterp spec fn table_text(header: Seq<Seq<char>>, rows: Seq<Seq<Seq<char>>>, width: Option<u16>) -> Seq<char>;

/// Calls the `comfy_table` crate: `Table::new`, `set_content_arrangement` with the dynamic
/// arrangement, `set_header`, `add_rows` and the table's `Display`. The text depends on
/// the header, the rows and the width of the terminal, if there is one; what that width
/// is is not known here.
#[verifier::external_body]
fn rendered(header: &Vec<String>, rows: &Vec<Vec<String>>) -> (table: String)
    ensures
        exists|width: Option<u16>| table@ == #[trigger] table_text(text::views(header@), grid(rows@), width),
{
    let mut table = Table::new();
    table.set_content_arrangement(ContentArrangement::Dynamic);
    table.set_header(header);
    table.add_rows(rows.clone());
    table.to_string()
}

/// A result as the shell prints it: a table with the columns of the result above the
/// cells of its rows, and a line below. The numbers in the cells, which are the doubles
/// and scores that [`row_cells`] hands out, are written by the caller.
pub fn format_result(r: &QueryResult, numbers: &Vec<Vec<String>>, millis: &str) -> (s: String)
    requires
        covers(r.columns@, r.rows@, numbers@),
    ensures
        exists|width: Option<u16>|
            s@ == #[trigger] table_text(
                text::views(r.columns@),
                table_cells(r.columns@, r.rows@, numbers@),
                width,
            ) + "\n"@ + stats_text(*r, millis@),
{
    let cells = cell_grid(&r.columns, &r.rows, numbers);
    let table = rendered(&r.columns, &cells);
    printed(table.as_str(), r, millis)
}

/// A remote result as the shell prints it: one without columns and rows by its time alone,
/// another as a table with a line below. The numbers in the cells are written by the
/// caller.
pub fn format_grpc_response(
    columns: &Vec<String>,
    rows: &Vec<Row>,
    numbers: &Vec<Vec<String>>,
    stats: &Option<RemoteStats>,
) -> (s: String)
    requires
        covers(columns@, rows@, numbers@),
    ensures
        exists|width: Option<u16>|
            s@ == remote_text(
                #[trigger] table_text(text::views(columns@), table_cells(columns@, rows@, numbers@), width),
                columns@.len(),
                rows@.len(),
                *stats,
            ),
{
    let cells = cell_grid(columns, rows, numbers);
    let table = rendered(columns, &cells);
    printed_remote(table.as_str(), columns.len(), rows.len(), stats)
}

} // verus!
