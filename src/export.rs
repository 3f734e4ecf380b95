use vstd::prelude::*;
use vstd::string::*;
use crate::entry::Entry;

verus! {

/// Why an export produced no file.
#[derive(Debug, Clone, Copy, PartialEq, Eq, Structural)]
pub enum ExportError {
    /// The table is empty; an empty sheet is not written.
    NoData,
    /// The workbook could not be written.
    WriteFailure,
}

impl ExportError {
    /// The message that an error shows.
    pub open spec fn text(self) -> Seq<char> {
        match self {
            ExportError::NoData => "No data to export!"@,
            ExportError::WriteFailure => "Write error: the workbook could not be written"@,
        }
    }

    /// A message for the operator.
    pub fn message(&self) -> (r: String)
        ensures
            r@ == self.text(),
    {
        match self {
            ExportError::NoData => {
                proof { reveal_strlit("No data to export!"); }
                String::from_str("No data to export!")
            },
            ExportError::WriteFailure => {
                proof { reveal_strlit("Write error: the workbook could not be written"); }
                String::from_str("Write error: the workbook could not be written")
            },
        }
    }
}

/// The character of a decimal digit `d`, for `0 <= d < 10`.
pub open spec fn digit_char(d: int) -> char {
    if d == 0 {
        '0'
    } else if d == 1 {
        '1'
    } else if d == 2 {
        '2'
    } else if d == 3 {
        '3'
    } else if d == 4 {
        '4'
    } else if d == 5 {
        '5'
    } else if d == 6 {
        '6'
    } else if d == 7 {
        '7'
    } else if d == 8 {
        '8'
    } else {
        '9'
    }
}

/// The decimal digits of `n`, without leading zeros.
pub open spec fn natural_text(n: nat) -> Seq<char>
    decreases n,
{
    if n < 10 {
        seq![digit_char(n as int)]
    } else {
        natural_text((n / 10) as nat).push(digit_char((n % 10) as int))
    }
}

/// `n` written in decimal, with a leading `-` when it is negative.
pub open spec fn decimal(n: int) -> Seq<char> {
    if n < 0 {
        seq!['-'] + natural_text((-n) as nat)
    } else {
        natural_text(n as nat)
    }
}

/// Relies on std's `Display` for `i128` through `ToString::to_string`: the
/// number in decimal, with a `-` before a negative one.
#[verifier::external_body]
fn decimal_text(n: i128) -> (r: String)
    ensures
        r@ == decimal(n as int),
{
    n.to_string()
}

/// The bytes of an `.xlsx` workbook with one sheet, named `sheet_name`, that
/// holds `rows` as text cells, as simple_excel_writer writes it.
pub uninterp spec fn xlsx_of(sheet_name: Seq<char>, rows: Seq<Seq<Seq<char>>>) -> Seq<u8>;

/// Whether simple_excel_writer can write that workbook. In memory the writer
/// fails only where an archive member outgrows what zip can record, so the
/// answer depends on the name and the cells alone.
pub uninterp spec fn xlsx_fits(sheet_name: Seq<char>, rows: Seq<Seq<Seq<char>>>) -> bool;

/// Relies on simple_excel_writer's in-memory `Workbook`: `create_sheet`,
/// `write_sheet` with `append_row` for each row, then `close`, which hands back
/// the file's bytes. Whether it succeeds, and the bytes, depend on the name and
/// the cells alone.
#[verifier::external_body]
fn workbook_bytes(sheet_name: &str, rows: &Vec<Vec<String>>) -> (r: Option<Vec<u8>>)
    ensures
        r is Some <==> xlsx_fits(sheet_name@, rows.deep_view()),
        r matches Some(b) ==> b@ == xlsx_of(sheet_name@, rows.deep_view()),
{
    let mut book = simple_excel_writer::Workbook::create_in_memory();
    let mut sheet = book.create_sheet(sheet_name);
    let written = book.write_sheet(&mut sheet, |w| {
        for row in rows.iter() {
            w.append_row(simple_excel_writer::Row::from_iter(row.iter().cloned()))?;
        }
        Ok(())
    });
    match (written, book.close()) {
        (Ok(()), Ok(Some(bytes))) => Some(bytes),
        _ => None,
    }
}

/// The name of the exported sheet.
pub open spec fn sheet_name() -> Seq<char> {
    "Registrations"@
}

/// The header row of an export.
pub open spec fn header_row() -> Seq<Seq<char>> {
    seq!["ID"@, "First Name"@, "Surname"@, "Email"@, "Number"@, "Winner"@]
}

/// How an entry reads in the Winner column.
pub open spec fn winner_text(w: bool) -> Seq<char> {
    if w {
        "YES"@
    } else {
        "NO"@
    }
}

/// The row of an export that shows `e`.
pub open spec fn entry_row(e: Entry) -> Seq<Seq<char>> {
    seq![
        decimal(e.id as int),
        e.first_name@,
        e.surname@,
        e.email@,
        decimal(e.number as int),
        winner_text(e.winner),
    ]
}

/// The cells of an export of `entries`: the header, then one row for each
/// entry in the order given.
pub open spec fn table_of(entries: Seq<Entry>) -> Seq<Seq<Seq<char>>> {
    seq![header_row()] + entries.map_values(|e: Entry| entry_row(e))
}

fn header_cells() -> (r: Vec<String>)
    ensures
        r.deep_view() == header_row(),
{
    let r = vec![
        String::from_str("ID"),
        String::from_str("First Name"),
        String::from_str("Surname"),
        String::from_str("Email"),
        String::from_str("Number"),
        String::from_str("Winner"),
    ];
    assert(r.deep_view() =~= header_row());
    r
}

/// The cells of the row that shows `e`.
pub fn entry_cells(e: &Entry) -> (r: Vec<String>)
    ensures
        r.deep_view() == entry_row(*e),
{
    let winner = if e.winner {
        String::from_str("YES")
    } else {
        String::from_str("NO")
    };
    let r = vec![
        decimal_text(e.id as i128),
        e.first_name.clone(),
        e.surname.clone(),
        e.email.clone(),
        decimal_text(e.number as i128),
        winner,
    ];
    assert(r.deep_view() =~= entry_row(*e));
    r
}

/// The cells of an export: the header and a row for each entry, in the
/// order given; an empty table is refused.
pub fn export_table(entries: &Vec<Entry>) -> (r: Result<Vec<Vec<String>>, ExportError>)
    ensures
        match r {
            Ok(t) => entries@.len() > 0 && t.deep_view() == table_of(entries@),
            Err(e) => entries@.len() == 0 && e == ExportError::NoData,
        },
{
    if entries.len() == 0 {
        return Err(ExportError::NoData);
    }
    let mut rows: Vec<Vec<String>> = Vec::new();
    rows.push(header_cells());
    let mut i: usize = 0;
    while i < entries.len()
        invariant
            i <= entries@.len(),
            rows.deep_view() == table_of(entries@.subrange(0, i as int)),
        decreases entries@.len() - i,
    {
        let row = entry_cells(&entries[i]);
        let ghost before = rows.deep_view();
        rows.push(row);
        proof {
            let next = entries@.subrange(0, i + 1);
            assert(next =~= entries@.subrange(0, i as int).push(entries@[i as int]));
            assert(next.map_values(|e: Entry| entry_row(e)) =~= entries@.subrange(
                0,
                i as int,
            ).map_values(|e: Entry| entry_row(e)).push(entry_row(entries@[i as int])));
            assert(rows.deep_view() =~= before.push(entry_row(entries@[i as int])));
            assert(rows.deep_view() =~= table_of(next));
        }
        i = i + 1;
    }
    assert(entries@.subrange(0, i as int) =~= entries@);
    Ok(rows)
}

/// The bytes of a workbook whose one sheet, "Registrations", shows the header
/// and one row for each entry, in the order given.
pub fn export(entries: &Vec<Entry>) -> (r: Result<Vec<u8>, ExportError>)
    ensures
        entries@.len() == 0 <==> r == Err::<Vec<u8>, ExportError>(ExportError::NoData),
        entries@.len() > 0 ==> (r is Ok <==> xlsx_fits(sheet_name(), table_of(entries@))),
        match r {
            Ok(b) => b@ == xlsx_of(sheet_name(), table_of(entries@)),
            Err(e) => e == ExportError::NoData || (e == ExportError::WriteFailure && !xlsx_fits(
                sheet_name(),
                table_of(entries@),
            )),
        },
{
    let rows = match export_table(entries) {
        Ok(rows) => rows,
        Err(e) => return Err(e),
    };
    match workbook_bytes("Registrations", &rows) {
        Some(b) => Ok(b),
        None => Err(ExportError::WriteFailure),
    }
}

/// The name of the file that an export made at `seconds` past the epoch is
/// written to.
pub fn export_file_name(seconds: u64) -> (r: String)
    ensures
        r@ == "registrations_"@ + decimal(seconds as int) + ".xlsx"@,
{
    let mut name = String::from_str("registrations_");
    let digits = decimal_text(seconds as i128);
    name.append(digits.as_str());
    name.append(".xlsx");
    name
}

} // verus!
