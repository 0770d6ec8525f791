//! The value of one output cell and its text.
use vstd::prelude::*;
use crate::desktop::model::{TransformOp, transform};
use crate::numbers::{int_text, padded, padded_chars};
use crate::text::{string_of, push_all, push_str, owned};

verus! {

/// One cell of a merged row.
#[derive(Clone, Debug)]
pub enum CellValue {
    Empty,
    Text(String),
    Integer(i64),
    /// A floating-point number, held as the text that Rust's `Display` writes for it.
    Number(String),
    Boolean(bool),
    /// A spreadsheet date and time.
    DateTime { year: u16, month: u8, day: u8, hour: u8, minute: u8, second: u8 },
}

/// What a cell holds, with texts as character sequences.
pub enum CellView {
    Empty,
    Text(Seq<char>),
    Integer(i64),
    Number(Seq<char>),
    Boolean(bool),
    DateTime(u16, u8, u8, u8, u8, u8),
}

impl View for CellValue {
    type V = CellView;

    open spec fn view(&self) -> CellView {
        match self {
            CellValue::Empty => CellView::Empty,
            CellValue::Text(v) => CellView::Text(v@),
            CellValue::Integer(v) => CellView::Integer(*v),
            CellValue::Number(v) => CellView::Number(v@),
            CellValue::Boolean(v) => CellView::Boolean(*v),
            CellValue::DateTime { year, month, day, hour, minute, second } => CellView::DateTime(
                *year,
                *month,
                *day,
                *hour,
                *minute,
                *second,
            ),
        }
    }
}

/// The cells of a row.
pub open spec fn row_view(row: Seq<CellValue>) -> Seq<CellView> {
    row.map_values(|c: CellValue| c@)
}

/// Whether a cell counts as empty: no value, or an empty text.
pub open spec fn cell_empty(c: CellView) -> bool {
    match c {
        CellView::Empty => true,
        CellView::Text(v) => v.len() == 0,
        _ => false,
    }
}

/// A date as `yyyy-mm-dd`, followed by ` hh:mm:ss` unless the time is midnight.
pub open spec fn date_text(year: u16, month: u8, day: u8, hour: u8, minute: u8, second: u8) -> Seq<
    char,
> {
    let date = padded(year as nat, 4) + seq!['-'] + padded(month as nat, 2) + seq!['-'] + padded(
        day as nat,
        2,
    );
    if hour == 0 && minute == 0 && second == 0 {
        date
    } else {
        date + seq![' '] + padded(hour as nat, 2) + seq![':'] + padded(minute as nat, 2) + seq![':']
            + padded(second as nat, 2)
    }
}

/// The text of a cell.
pub open spec fn cell_text(c: CellView) -> Seq<char> {
    match c {
        CellView::Empty => Seq::empty(),
        CellView::Text(v) => v,
        CellView::Integer(v) => int_text(v as int),
        CellView::Number(t) => t,
        CellView::Boolean(b) => if b {
            "true"@
        } else {
            "false"@
        },
        CellView::DateTime(y, mo, d, h, mi, s) => date_text(y, mo, d, h, mi, s),
    }
}

/// The cell after a cleaning step: unchanged for no step, else the cleaned text.
pub open spec fn transformed_cell(c: CellView, op: TransformOp) -> CellView {
    if op == TransformOp::Unchanged {
        c
    } else {
        CellView::Text(transform(op, cell_text(c)))
    }
}

impl CellValue {
    /// Whether the cell is empty: no value, or an empty text.
    pub fn is_empty(&self) -> (r: bool)
        ensures
            r == cell_empty(self@),
    {
        match self {
            CellValue::Empty => true,
            CellValue::Text(v) => v.as_str().is_empty(),
            _ => false,
        }
    }

    /// The text of the cell: numbers in decimal, dates as `yyyy-mm-dd` with the time where it
    /// is not midnight.
    pub fn as_text(&self) -> (r: String)
        ensures
            r@ == cell_text(self@),
    {
        match self {
            CellValue::Empty => String::new(),
            CellValue::Text(v) => v.clone(),
            CellValue::Integer(v) => {
                let t = crate::numbers::i128_text(*v as i128);
                string_of(t.as_slice())
            },
            CellValue::Number(v) => v.clone(),
            CellValue::Boolean(b) => if *b {
                owned("true")
            } else {
                owned("false")
            },
            CellValue::DateTime { year, month, day, hour, minute, second } => {
                let mut out = padded_chars(*year as u64, 4);
                out.push('-');
                push_all(&mut out, padded_chars(*month as u64, 2).as_slice());
                out.push('-');
                push_all(&mut out, padded_chars(*day as u64, 2).as_slice());
                if !(*hour == 0 && *minute == 0 && *second == 0) {
                    out.push(' ');
                    push_all(&mut out, padded_chars(*hour as u64, 2).as_slice());
                    out.push(':');
                    push_all(&mut out, padded_chars(*minute as u64, 2).as_slice());
                    out.push(':');
                    push_all(&mut out, padded_chars(*second as u64, 2).as_slice());
                }
                string_of(out.as_slice())
            },
        }
    }

    /// A cell equal to this one.
    pub fn copied(&self) -> (r: Self)
        ensures
            r@ == self@,
    {
        match self {
            CellValue::Empty => CellValue::Empty,
            CellValue::Text(v) => CellValue::Text(v.clone()),
            CellValue::Integer(v) => CellValue::Integer(*v),
            CellValue::Number(v) => CellValue::Number(v.clone()),
            CellValue::Boolean(v) => CellValue::Boolean(*v),
            CellValue::DateTime { year, month, day, hour, minute, second } => CellValue::DateTime {
                year: *year,
                month: *month,
                day: *day,
                hour: *hour,
                minute: *minute,
                second: *second,
            },
        }
    }

    /// The cell after the cleaning step `operation`.
    pub fn transformed(&self, operation: TransformOp) -> (r: Self)
        ensures
            r@ == transformed_cell(self@, operation),
    {
        if operation == TransformOp::Unchanged {
            self.copied()
        } else {
            let t = self.as_text();
            CellValue::Text(operation.apply(t.as_str()))
        }
    }
}

/// The value that a cell gives a database column: NULL for no value, and for an empty text
/// where empty texts are loaded as NULL; else its text.
pub open spec fn copy_value(c: CellView, empty_as_null: bool) -> Option<Seq<char>> {
    match c {
        CellView::Empty => None,
        CellView::Text(t) => if empty_as_null && t.len() == 0 {
            None
        } else {
            Some(t)
        },
        _ => Some(cell_text(c)),
    }
}

/// The database values of a row.
pub open spec fn copy_values(row: Seq<CellView>, empty_as_null: bool) -> Seq<Option<Seq<char>>> {
    row.map_values(|c: CellView| copy_value(c, empty_as_null))
}

impl CellValue {
    /// The value the cell gives a database column.
    pub fn copy_text(&self, empty_as_null: bool) -> (r: Option<String>)
        ensures
            match copy_value(self@, empty_as_null) {
                Some(t) => r matches Some(s) && s@ == t,
                None => r is None,
            },
    {
        match self {
            CellValue::Empty => None,
            CellValue::Text(t) => if empty_as_null && t.as_str().is_empty() {
                None
            } else {
                Some(t.clone())
            },
            _ => Some(self.as_text()),
        }
    }
}

/// The database values of `values`, as the row stream hands them to a database sink.
pub fn database_row(values: &[CellValue], empty_as_null: bool) -> (r: Vec<Option<String>>)
    ensures
        crate::pg::copy_text::opt_texts(r@) == copy_values(values@.map_values(|c: CellValue| c@), empty_as_null),
{
    let ghost cells = values@.map_values(|c: CellValue| c@);
    let mut out: Vec<Option<String>> = Vec::new();
    let mut i: usize = 0;
    while i < values.len()
        invariant
            i <= values@.len(),
            cells == values@.map_values(|c: CellValue| c@),
            out@.len() == i,
            forall|q: int| 0 <= q < i ==> #[trigger] crate::pg::copy_text::opt_texts(out@)[q] == copy_value(cells[q], empty_as_null),
        decreases values@.len() - i,
    {
        let ghost prev = out@;
        out.push(values[i].copy_text(empty_as_null));
        proof {
            assert forall|q: int| 0 <= q < i + 1 implies #[trigger] crate::pg::copy_text::opt_texts(out@)[q]
                == copy_value(cells[q], empty_as_null) by {
                if q < i {
                    assert(out@[q] == prev[q]);
                    assert(crate::pg::copy_text::opt_texts(prev)[q] == copy_value(cells[q], empty_as_null));
                }
            }
        }
        i = i + 1;
    }
    proof {
        assert(crate::pg::copy_text::opt_texts(out@) =~= copy_values(cells, empty_as_null));
    }
    out
}

} // verus!
