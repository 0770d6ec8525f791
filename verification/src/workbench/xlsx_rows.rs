//! Reading an XLSX worksheet one row at a time from its stream of cells, without building the
//! whole range: the decisions taken on each cell.
use vstd::prelude::*;
use crate::workbench::scan::XlsxStreamBounds;

verus! {

/// The state of a worksheet read cell by cell. Cells come in the order of the file; only the
/// non-empty ones count. Rows are numbered from the first row that has a non-empty cell, and
/// the rows from `row_offset` on are handed out, at most `max_rows` of them. A row's cells are
/// placed by column, counted from the column of the first non-empty cell; the places that no
/// cell fills stay `None`.
pub struct XlsxRowStream<V> {
    pub row_offset: usize,
    pub max_rows: usize,
    pub actual_start: Option<(u32, u32)>,
    pub actual_end: Option<(u32, u32)>,
    pub actual_columns: Option<(u32, u32)>,
    pub target_row: Option<u32>,
    pub next_row: u32,
    pub current: Vec<Option<V>>,
    pub emitted: usize,
    pub collecting: bool,
}

/// `a + b`, or `u32::MAX` where the sum does not fit.
pub open spec fn saturating_sum(a: u32, b: u32) -> u32 {
    if a + b > u32::MAX {
        u32::MAX
    } else {
        (a + b) as u32
    }
}

/// `a - b`, or zero where `b` is larger.
pub open spec fn saturating_difference(a: u32, b: u32) -> u32 {
    if a < b {
        0
    } else {
        (a - b) as u32
    }
}

/// The smaller of two numbers.
pub open spec fn min_nat(a: nat, b: nat) -> nat {
    if a <= b {
        a
    } else {
        b
    }
}

/// How many rows are handed out before a cell of row `row` is placed, with `next_row` the row
/// being filled: the rows from it up to `row`, no more than are still wanted.
pub open spec fn catch_up_count(next_row: u32, row: u32, emitted: nat, max_rows: nat) -> nat {
    if row <= next_row {
        0
    } else {
        min_nat((row - next_row) as nat, (max_rows - emitted) as nat)
    }
}

/// `row` with `value` in place `at`, padded with `None` up to it.
pub open spec fn placed<V>(row: Seq<Option<V>>, at: nat, value: V) -> Seq<Option<V>> {
    let padded = if row.len() <= at {
        row + Seq::new((at + 1 - row.len()) as nat, |i: int| None::<V>)
    } else {
        row
    };
    padded.update(at as int, Some(value))
}

/// The column range widened by `column`.
pub open spec fn widened(columns: Option<(u32, u32)>, column: u32) -> (u32, u32) {
    match columns {
        Some((first, last)) => (
            if column < first {
                column
            } else {
                first
            },
            if column > last {
                column
            } else {
                last
            },
        ),
        None => (column, column),
    }
}

/// The rows handed out while catching up: the row being filled first, then empty rows.
pub open spec fn caught_up_rows<V>(rows: Seq<Seq<Option<V>>>, current: Seq<Option<V>>, count: nat) -> bool {
    &&& rows.len() == count
    &&& count > 0 ==> rows[0] == current
    &&& forall|i: int| 1 <= i < count ==> (#[trigger] rows[i]).len() == 0
}

impl<V> XlsxRowStream<V> {
    /// The state is consistent: the rows handed out stay within the limit, and before the
    /// first non-empty cell nothing is known.
    pub open spec fn inv(&self) -> bool {
        &&& self.max_rows > 0
        &&& self.emitted <= self.max_rows
        &&& self.collecting ==> self.emitted < self.max_rows
        &&& !self.collecting ==> self.current@.len() == 0
        &&& self.actual_start is None ==> {
            &&& self.target_row is None
            &&& self.actual_end is None
            &&& self.actual_columns is None
            &&& self.current@.len() == 0
            &&& self.emitted == 0
            &&& self.collecting
        }
        &&& self.actual_start is Some ==> self.target_row is Some && self.actual_columns is Some
        &&& self.actual_columns matches Some((first, last)) ==> first <= last
    }

    /// The row a sheet's data starts at: that of its first non-empty cell, moved by the offset.
    pub open spec fn first_target(&self, row: u32) -> u32 {
        match self.target_row {
            Some(t) => t,
            None => saturating_sum(row, self.row_offset as u32),
        }
    }

    /// A stream that hands out at most `max_rows` rows (all where none is given), from
    /// `row_offset` rows after the first one with content; none where no row is wanted.
    pub fn open(row_offset: usize, max_rows: Option<usize>) -> (r: Option<XlsxRowStream<V>>)
        ensures
            match r {
                None => max_rows == Some(0usize),
                Some(s) => {
                    &&& max_rows != Some(0usize)
                    &&& s.inv()
                    &&& s.row_offset == row_offset
                    &&& s.max_rows == match max_rows {
                        Some(m) => m,
                        None => usize::MAX,
                    }
                    &&& s.actual_start is None
                    &&& s.next_row == 0
                },
            },
    {
        let max_rows = match max_rows {
            Some(m) => m,
            None => usize::MAX,
        };
        if max_rows == 0 {
            return None;
        }
        Some(
            XlsxRowStream {
                row_offset,
                max_rows,
                actual_start: None,
                actual_end: None,
                actual_columns: None,
                target_row: None,
                next_row: 0,
                current: Vec::new(),
                emitted: 0,
                collecting: true,
            },
        )
    }

    /// Takes the next cell, at `row` and `column`, with `empty` telling whether its value
    /// counts as empty. Returns the rows to hand out, in order: the row being filled once the
    /// cell belongs to a later row, then an empty row for each row in between, as long as
    /// rows are still wanted.
    pub fn push_cell(&mut self, row: u32, column: u32, value: V, empty: bool) -> (r: Vec<Vec<Option<V>>>)
        requires
            old(self).inv(),
        ensures
            final(self).inv(),
            final(self).row_offset == old(self).row_offset,
            final(self).max_rows == old(self).max_rows,
            final(self).emitted == old(self).emitted + r@.len(),
            empty ==> *final(self) == *old(self) && r@.len() == 0,
            !empty ==> {
                let target = old(self).first_target(row);
                let next = match old(self).target_row {
                    Some(_) => old(self).next_row,
                    None => target,
                };
                let start = match old(self).actual_start {
                    Some(s) => s,
                    None => (row, column),
                };
                &&& final(self).actual_start == Some(start)
                &&& final(self).actual_end == Some((row, column))
                &&& final(self).actual_columns == Some(widened(old(self).actual_columns, column))
                &&& final(self).target_row == Some(target)
                &&& (row < target || !old(self).collecting) ==> {
                    &&& r@.len() == 0
                    &&& final(self).next_row == next
                    &&& final(self).current@ == old(self).current@
                    &&& final(self).collecting == old(self).collecting
                }
                &&& (row >= target && old(self).collecting) ==> {
                    let count = catch_up_count(next, row, old(self).emitted as nat, old(self).max_rows as nat);
                    let rows = r@.map_values(|v: Vec<Option<V>>| v@);
                    &&& caught_up_rows(rows, old(self).current@, count)
                    &&& (old(self).emitted + count >= old(self).max_rows) ==> {
                        &&& !final(self).collecting
                        &&& final(self).current@.len() == 0
                        &&& final(self).next_row == next + count - 1
                    }
                    &&& (old(self).emitted + count < old(self).max_rows) ==> {
                        &&& final(self).collecting
                        &&& final(self).next_row == (if row > next {
                            row
                        } else {
                            next
                        })
                        &&& final(self).current@ == placed(
                            if count > 0 {
                                Seq::empty()
                            } else {
                                old(self).current@
                            },
                            saturating_difference(column, start.1) as nat,
                            value,
                        )
                    }
                }
            },
    {
        let mut out: Vec<Vec<Option<V>>> = Vec::new();
        if empty {
            return out;
        }
        if self.actual_start.is_none() {
            self.actual_start = Some((row, column));
            let t = row.saturating_add(#[verifier::truncate] (self.row_offset as u32));
            self.target_row = Some(t);
            self.next_row = t;
        }
        self.actual_end = Some((row, column));
        self.actual_columns = Some(
            match self.actual_columns {
                Some((first, last)) => (
                    if column < first {
                        column
                    } else {
                        first
                    },
                    if column > last {
                        column
                    } else {
                        last
                    },
                ),
                None => (column, column),
            },
        );
        let target = match self.target_row {
            Some(t) => t,
            None => row,
        };
        if row < target || !self.collecting {
            return out;
        }
        let max_rows = self.max_rows;
        let e0 = self.emitted;
        let next = self.next_row;
        let mut next_row = self.next_row;
        let mut emitted = self.emitted;
        let mut collecting = true;
        let mut current: Vec<Option<V>> = Vec::new();
        std::mem::swap(&mut current, &mut self.current);
        let ghost first = current@;
        while next_row < row
            invariant_except_break
                emitted < max_rows,
                collecting,
                next < row ==> next_row <= row,
                next >= row ==> next_row == next,
                out@.len() == next_row - next,
                emitted == e0 + out@.len(),
            invariant
                max_rows > 0,
                e0 < max_rows,
                next <= next_row,
                emitted <= max_rows,
                caught_up_rows(out@.map_values(|v: Vec<Option<V>>| v@), first, out@.len()),
                out@.len() > 0 ==> current@.len() == 0,
                out@.len() == 0 ==> current@ == first,
            ensures
                emitted == e0 + out@.len(),
                emitted <= max_rows,
                caught_up_rows(out@.map_values(|v: Vec<Option<V>>| v@), first, out@.len()),
                out@.len() == catch_up_count(next, row, e0 as nat, max_rows as nat),
                collecting ==> {
                    &&& emitted < max_rows
                    &&& next_row == (if row > next { row } else { next })
                    &&& out@.len() > 0 ==> current@.len() == 0
                    &&& out@.len() == 0 ==> current@ == first
                },
                !collecting ==> {
                    &&& emitted == max_rows
                    &&& current@.len() == 0
                    &&& next_row == next + out@.len() - 1
                },
            decreases row - next_row,
        {
            let ghost prev = out@;
            let mut row_out: Vec<Option<V>> = Vec::new();
            std::mem::swap(&mut row_out, &mut current);
            out.push(row_out);
            proof {
                assert(out@.map_values(|v: Vec<Option<V>>| v@) =~= prev.map_values(|v: Vec<Option<V>>| v@).push(
                    out@[prev.len() as int]@,
                ));
            }
            emitted = emitted + 1;
            if emitted >= max_rows {
                collecting = false;
                current.clear();
                break;
            }
            next_row = next_row + 1;
        }
        self.next_row = next_row;
        self.emitted = emitted;
        self.collecting = collecting;
        if !collecting {
            self.current = current;
            return out;
        }
        let base = match self.actual_start {
            Some((_, c)) => c,
            None => column,
        };
        let rel = column.saturating_sub(base) as usize;
        let ghost before = current@;
        if current.len() <= rel {
            while current.len() <= rel
                invariant
                    before.len() <= current@.len() <= rel + 1,
                    current@ == before + Seq::new((current@.len() - before.len()) as nat, |i: int| None::<V>),
                decreases rel + 1 - current@.len(),
            {
                current.push(None);
            }
        }
        current.set(rel, Some(value));
        proof {
            assert(current@ =~= placed(before, rel as nat, value));
        }
        self.current = current;
        out
    }

    /// Ends the stream: the last row where it is still being filled and holds a cell, and the
    /// bounds of the non-empty cells seen.
    pub fn finish(self) -> (r: (Option<Vec<Option<V>>>, XlsxStreamBounds))
        requires
            self.inv(),
        ensures
            r.1.actual_start == self.actual_start,
            r.1.actual_end == self.actual_end,
            r.1.actual_columns == self.actual_columns,
            match r.0 {
                Some(last) => {
                    &&& self.collecting
                    &&& self.actual_start is Some
                    &&& self.current@.len() > 0
                    &&& last@ == self.current@
                },
                None => !(self.collecting && self.actual_start is Some && self.current@.len() > 0),
            },
    {
        let bounds = XlsxStreamBounds {
            actual_start: self.actual_start,
            actual_end: self.actual_end,
            actual_columns: self.actual_columns,
        };
        if self.collecting && self.actual_start.is_some() && self.current.len() > 0 {
            (Some(self.current), bounds)
        } else {
            (None, bounds)
        }
    }
}

} // verus!
