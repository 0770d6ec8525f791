//! Splitting the merged rows over XLSX sheets: row limits, sheet names and column widths.
use vstd::prelude::*;
use crate::numbers::{padded, padded_chars};
use crate::text::{string_of, push_all, chars_of, owned};

verus! {

/// The rows of an XLSX sheet.
pub const XLSX_MAX_ROWS: u32 = 1_048_576;

/// The data rows of an XLSX sheet: every row but the header row.
pub const XLSX_MAX_DATA_ROWS: u32 = XLSX_MAX_ROWS - 1;

/// The name of the sheet at `index`: `合并结果_` and its number, counted from one, in at
/// least three digits.
pub open spec fn sheet_name_text(index: nat) -> Seq<char> {
    "合并结果_"@ + padded(index + 1, 3)
}

/// The name of the sheet at `index`.
pub fn sheet_name(index: usize) -> (r: String)
    requires
        index < usize::MAX,
    ensures
        r@ == sheet_name_text(index as nat),
{
    let mut out = chars_of("合并结果_");
    push_all(&mut out, padded_chars((index + 1) as u64, 3).as_slice());
    string_of(out.as_slice())
}

/// Where the next data row of the output goes.
pub struct SheetCursor {
    /// The sheet being written, counted from zero.
    pub current_sheet: usize,
    /// The data rows already in it.
    pub row_in_sheet: u32,
    /// The data rows a sheet takes before the next one begins.
    pub max_data_rows: u32,
    /// The data rows written over all sheets.
    pub total_rows: u64,
}

/// Whether `c` stands where `c.total_rows` data rows put it: before any row at the start of
/// the first sheet; after `t` rows in sheet `(t - 1) / m`, at row `(t - 1) % m + 1`, where `m`
/// is its limit.
pub open spec fn rows_placed(c: SheetCursor) -> bool {
    let m = c.max_data_rows as int;
    let t = c.total_rows as int;
    &&& m > 0
    &&& t == 0 ==> c.current_sheet == 0 && c.row_in_sheet == 0
    &&& t > 0 ==> c.current_sheet == (t - 1) / m && c.row_in_sheet == (t - 1) % m + 1
}

/// One more row moves a placed cursor to the next row of its sheet or, after a full sheet,
/// to the first row of the next.
proof fn lemma_next_placement(t: int, m: int)
    requires
        t >= 1,
        m > 0,
    ensures
        (t - 1) % m + 1 == m ==> t / m == (t - 1) / m + 1 && t % m == 0,
        (t - 1) % m + 1 < m ==> t / m == (t - 1) / m && t % m == (t - 1) % m + 1,
        0 <= (t - 1) % m < m,
{
    vstd::arithmetic::div_mod::lemma_fundamental_div_mod(t - 1, m);
    let q = (t - 1) / m;
    let r = (t - 1) % m;
    assert(t - 1 == m * q + r);
    assert(0 <= r < m) by {
        vstd::arithmetic::div_mod::lemma_mod_bound(t - 1, m);
    }
    if r + 1 == m {
        assert(t == (q + 1) * m + 0) by (nonlinear_arith)
            requires
                t - 1 == m * q + r,
                r + 1 == m,
        ;
        vstd::arithmetic::div_mod::lemma_fundamental_div_mod_converse(t, m, q + 1, 0);
    } else {
        assert(t == q * m + (r + 1)) by (nonlinear_arith)
            requires
                t - 1 == m * q + r,
        ;
        vstd::arithmetic::div_mod::lemma_fundamental_div_mod_converse(t, m, q, r + 1);
    }
}

/// After `t >= 1` rows a placed cursor has begun `ceil(t / m)` sheets, and its sheet holds
/// at most `m` rows: the rows fill sheets of `m` data rows each, in order.
pub proof fn lemma_sheets_for_rows(c: SheetCursor)
    requires
        rows_placed(c),
        c.total_rows >= 1,
    ensures
        c.current_sheet + 1 == (c.total_rows + c.max_data_rows - 1) / (c.max_data_rows as int),
        1 <= c.row_in_sheet <= c.max_data_rows,
{
    let m = c.max_data_rows as int;
    let t = c.total_rows as int;
    vstd::arithmetic::div_mod::lemma_fundamental_div_mod(t - 1, m);
    let q = (t - 1) / m;
    let r = (t - 1) % m;
    assert(0 <= r < m) by {
        vstd::arithmetic::div_mod::lemma_mod_bound(t - 1, m);
    }
    assert(t + m - 1 == (q + 1) * m + r) by (nonlinear_arith)
        requires
            t - 1 == m * q + r,
    ;
    vstd::arithmetic::div_mod::lemma_fundamental_div_mod_converse(t + m - 1, m, q + 1, r);
}

impl SheetCursor {
    /// A cursor at the start of the first sheet; a limit of zero or above the XLSX data rows
    /// is refused.
    pub fn new_with_limit(max_data_rows: u32) -> (r: Result<SheetCursor, String>)
        ensures
            max_data_rows == 0 || max_data_rows > XLSX_MAX_DATA_ROWS ==> (r matches Err(m) && m@
                == "无效的 Sheet 行数限制"@),
            0 < max_data_rows <= XLSX_MAX_DATA_ROWS ==> (r matches Ok(c) && c.current_sheet == 0
                && c.row_in_sheet == 0 && c.max_data_rows == max_data_rows && c.total_rows == 0
                && rows_placed(c)),
    {
        if max_data_rows == 0 || max_data_rows > XLSX_MAX_DATA_ROWS {
            return Err(owned("无效的 Sheet 行数限制"));
        }
        Ok(SheetCursor { current_sheet: 0, row_in_sheet: 0, max_data_rows, total_rows: 0 })
    }

    /// A cursor with the full XLSX limit.
    pub fn new() -> (r: SheetCursor)
        ensures
            r.current_sheet == 0,
            r.row_in_sheet == 0,
            r.max_data_rows == XLSX_MAX_DATA_ROWS,
            r.total_rows == 0,
            rows_placed(r),
    {
        SheetCursor { current_sheet: 0, row_in_sheet: 0, max_data_rows: XLSX_MAX_DATA_ROWS, total_rows: 0 }
    }

    /// Places the next data row: a full sheet is followed by a new one. Gives whether a new
    /// sheet begins and the row's number in its sheet, the header row being zero.
    pub fn next_row(&mut self) -> (r: (bool, u32))
        requires
            old(self).row_in_sheet <= old(self).max_data_rows <= XLSX_MAX_DATA_ROWS,
            old(self).total_rows < u64::MAX,
            old(self).current_sheet < usize::MAX,
        ensures
            final(self).max_data_rows == old(self).max_data_rows,
            final(self).total_rows == old(self).total_rows + 1,
            r.0 == (old(self).row_in_sheet >= old(self).max_data_rows),
            r.0 ==> final(self).current_sheet == old(self).current_sheet + 1 && r.1 == 1
                && final(self).row_in_sheet == 1,
            !r.0 ==> final(self).current_sheet == old(self).current_sheet && r.1 == old(self).row_in_sheet
                + 1 && final(self).row_in_sheet == old(self).row_in_sheet + 1,
            rows_placed(*old(self)) ==> rows_placed(*final(self)),
    {
        proof {
            if rows_placed(*self) && self.total_rows > 0 {
                lemma_next_placement(self.total_rows as int, self.max_data_rows as int);
            }
            if rows_placed(*self) && self.total_rows == 0 {
                vstd::arithmetic::div_mod::lemma_fundamental_div_mod_converse(0, self.max_data_rows as int, 0, 0);
            }
        }
        let mut new_sheet = false;
        if self.row_in_sheet >= self.max_data_rows {
            self.current_sheet = self.current_sheet + 1;
            self.row_in_sheet = 0;
            new_sheet = true;
        }
        let excel_row = self.row_in_sheet + 1;
        self.row_in_sheet = self.row_in_sheet + 1;
        self.total_rows = self.total_rows + 1;
        (new_sheet, excel_row)
    }

    /// The number of sheets begun.
    pub fn sheet_count(&self) -> (r: usize)
        requires
            self.current_sheet < usize::MAX,
        ensures
            r == self.current_sheet + 1,
    {
        self.current_sheet + 1
    }
}

/// The width units of a header: one per ASCII character, two per other character.
pub open spec fn width_units(s: Seq<char>) -> nat
    decreases s.len(),
{
    if s.len() == 0 {
        0
    } else {
        width_units(s.drop_last()) + if s.last() <= '\u{7f}' {
            1nat
        } else {
            2nat
        }
    }
}

/// The suggested width of a column with `header`: four more than its width units, kept
/// between 12 and 32.
pub open spec fn column_width(header: Seq<char>) -> nat {
    let w = width_units(header) + 4;
    if w < 12 {
        12
    } else if w > 32 {
        32
    } else {
        w
    }
}

/// The suggested width of a column with `header`.
pub fn column_width_units(header: &str) -> (r: u64)
    ensures
        r == column_width(header@),
{
    let chars = chars_of(header);
    let mut units: u64 = 0;
    let mut i: usize = 0;
    while i < chars.len()
        invariant
            i <= chars@.len(),
            chars@ == header@,
            width_units(chars@.take(i as int)) <= 100 ==> units == width_units(chars@.take(i as int)),
            width_units(chars@.take(i as int)) > 100 ==> units == 100,
        decreases chars@.len() - i,
    {
        proof {
            assert(chars@.take(i + 1).drop_last() =~= chars@.take(i as int));
            assert(chars@.take(i + 1).last() == chars@[i as int]);
        }
        let add: u64 = if chars[i] <= '\u{7f}' { 1 } else { 2 };
        if units + add > 100 {
            units = 100;
        } else {
            units = units + add;
        }
        i = i + 1;
    }
    proof {
        assert(chars@.take(chars@.len() as int) =~= chars@);
    }
    let w = units + 4;
    if w < 12 {
        12
    } else if w > 32 {
        32
    } else {
        w
    }
}

} // verus!
