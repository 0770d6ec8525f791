//! Consolidating rows that share a key: how each column combines the values of two rows.
use vstd::prelude::*;
use crate::desktop::model::{AggregateOp, ColumnMapping, OutputPlan, SourceTable, enabled_tables, key, key_fn, header_key};
use crate::engine::cell::{CellValue, CellView, cell_empty, cell_text, row_view};
use crate::headers::texts;
use crate::numbers::{signed_value, int_text, parse_i128, i128_text};
use crate::text::{trim, joined, chars_of, trim_str, string_of, join_strings, split_char};
use crate::version::lemma_split_char_nonempty;

verus! {

broadcast use vstd::seq_lib::group_seq_properties;

/// The operation of the first mapping in `ms` whose target has key `k`.
pub open spec fn mapping_op(ms: Seq<ColumnMapping>, k: Seq<char>) -> Option<AggregateOp>
    decreases ms.len(),
{
    if ms.len() == 0 {
        None
    } else if key(ms[0].target_name@) == k {
        Some(ms[0].aggregate)
    } else {
        mapping_op(ms.drop_first(), k)
    }
}

/// The operation of the first mapping, over the tables in order, whose target has key `k`;
/// `First` where there is none.
pub open spec fn column_op(ts: Seq<SourceTable>, k: Seq<char>) -> AggregateOp
    decreases ts.len(),
{
    if ts.len() == 0 {
        AggregateOp::First
    } else {
        match mapping_op(ts[0].mappings@, k) {
            Some(op) => op,
            None => column_op(ts.drop_first(), k),
        }
    }
}

/// The operation of the first mapping of `ms`, from position `i` on, whose target has key
/// `k`.
fn find_mapping_op(ms: &Vec<ColumnMapping>, k: &String) -> (r: Option<AggregateOp>)
    ensures
        r == mapping_op(ms@, k@),
{
    let mut i: usize = 0;
    while i < ms.len()
        invariant
            i <= ms@.len(),
            mapping_op(ms@, k@) == mapping_op(ms@.skip(i as int), k@),
        decreases ms@.len() - i,
    {
        let t = header_key(ms[i].target_name.as_str());
        proof {
            assert(ms@.skip(i as int)[0] == ms@[i as int]);
            assert(ms@.skip(i as int).drop_first() =~= ms@.skip(i + 1));
        }
        if t == *k {
            return Some(ms[i].aggregate);
        }
        i = i + 1;
    }
    proof {
        assert(ms@.skip(ms@.len() as int) =~= Seq::<ColumnMapping>::empty());
    }
    None
}

/// The operation of each output column: that of the first mapping, over the enabled tables
/// in order, whose target has the column's key.
pub fn aggregate_operations(tables: &[SourceTable], plan: &OutputPlan) -> (r: Vec<AggregateOp>)
    ensures
        r@.len() == plan.headers@.len(),
        forall|i: int|
            0 <= i < r@.len() ==> #[trigger] r@[i] == column_op(
                enabled_tables(tables@),
                key(plan.headers@[i]@),
            ),
{
    let positions = crate::desktop::model::enabled_positions(tables);
    let ghost ts = enabled_tables(tables@);
    let mut out: Vec<AggregateOp> = Vec::new();
    let mut h: usize = 0;
    while h < plan.headers.len()
        invariant
            h <= plan.headers@.len(),
            out@.len() == h,
            ts == enabled_tables(tables@),
            positions@.len() == ts.len(),
            forall|q: int| 0 <= q < positions@.len() ==> #[trigger] positions@[q] < tables@.len()
                && tables@[positions@[q] as int] == ts[q],
            forall|q: int|
                0 <= q < h ==> #[trigger] out@[q] == column_op(ts, key(plan.headers@[q]@)),
        decreases plan.headers@.len() - h,
    {
        let k = header_key(plan.headers[h].as_str());
        let mut op = AggregateOp::First;
        let mut t: usize = 0;
        let mut found = false;
        while t < positions.len() && !found
            invariant
                t <= positions@.len(),
                positions@.len() == ts.len(),
                forall|q: int| 0 <= q < positions@.len() ==> #[trigger] positions@[q] < tables@.len()
                    && tables@[positions@[q] as int] == ts[q],
                found ==> op == column_op(ts, k@),
                !found ==> op == AggregateOp::First,
                !found ==> column_op(ts, k@) == column_op(ts.skip(t as int), k@),
            decreases positions@.len() - t,
        {
            let table = &tables[positions[t]];
            proof {
                assert(ts.skip(t as int)[0] == ts[t as int]);
                assert(ts.skip(t as int).drop_first() =~= ts.skip(t + 1));
            }
            match find_mapping_op(&table.mappings, &k) {
                Some(o) => {
                    op = o;
                    found = true;
                },
                None => {},
            }
            t = t + 1;
        }
        proof {
            if !found {
                assert(ts.skip(t as int) =~= Seq::<SourceTable>::empty());
                assert(column_op(ts.skip(t as int), k@) == AggregateOp::First);
            }
            assert(op == column_op(ts, key(plan.headers@[h as int]@)));
        }
        let ghost prev = out@;
        out.push(op);
        proof {
            assert forall|q: int| 0 <= q < h + 1 implies #[trigger] out@[q] == column_op(
                ts,
                key(plan.headers@[q]@),
            ) by {
                if q < h {
                    assert(out@[q] == prev[q]);
                }
            }
        }
        h = h + 1;
    }
    out
}

/// The integer that a cell's trimmed text writes, where it fits an `i128`.
pub open spec fn cell_integer(c: CellView) -> Option<int> {
    match signed_value(trim(cell_text(c))) {
        Some(v) => if i128::MIN <= v <= i128::MAX {
            Some(v)
        } else {
            None
        },
        None => None,
    }
}

/// Whether a sum of two cells is left to floating-point arithmetic: not both are integers.
pub open spec fn float_sum(current: CellView, other: CellView) -> bool {
    !(cell_integer(current) is Some && cell_integer(other) is Some)
}

/// An exact integer sum: a number below 10^14 in magnitude, else text so that no digit is
/// lost.
pub open spec fn integer_sum(total: int) -> CellView {
    if -100_000_000_000_000 < total < 100_000_000_000_000 {
        CellView::Number(int_text(total))
    } else {
        CellView::Text(int_text(total))
    }
}

/// The parts of `s` split at every `sep`, as `str::split` gives them.
pub uninterp spec fn split_text(s: Seq<char>, sep: Seq<char>) -> Seq<Seq<char>>;

/// The parts of `s` split at the occurrences of the non-empty `sep` found from the start,
/// each search going on after the end of the last occurrence found.
pub open spec fn split_seq(s: Seq<char>, sep: Seq<char>) -> Seq<Seq<char>>
    decreases s.len(),
{
    if sep.len() == 0 || s.len() < sep.len() {
        seq![s]
    } else if s.take(sep.len() as int) == sep {
        seq![Seq::empty()] + split_seq(s.skip(sep.len() as int), sep)
    } else {
        let r = split_seq(s.drop_first(), sep);
        r.update(0, seq![s[0]] + r[0])
    }
}

/// The parts of `s` split at `sep`: at a one-character separator, as `split_char` states
/// them; at a longer one, as `split_seq` does; at the empty separator, as `str::split` gives
/// them.
pub open spec fn split_parts(s: Seq<char>, sep: Seq<char>) -> Seq<Seq<char>> {
    if sep.len() == 1 {
        split_char(s, sep[0])
    } else if sep.len() > 1 {
        split_seq(s, sep)
    } else {
        split_text(s, sep)
    }
}

/// A character put in front of `t` either is a separator, which opens an empty first part,
/// or lengthens the first part.
proof fn lemma_split_char_front(x: char, t: Seq<char>, c: char)
    ensures
        split_char(seq![x] + t, c) == (if x == c {
            seq![Seq::<char>::empty()] + split_char(t, c)
        } else {
            split_char(t, c).update(0, seq![x] + split_char(t, c)[0])
        }),
    decreases t.len(),
{
    let e = Seq::<char>::empty();
    lemma_split_char_nonempty(t, c);
    if t.len() == 0 {
        assert(seq![x] + t =~= seq![x]);
        assert(seq![x].drop_last() =~= e);
        assert(split_char(e, c) == seq![e]);
        if x == c {
            assert(seq![e].push(e) =~= seq![e] + seq![e]);
        } else {
            assert(e.push(x) =~= seq![x] + e);
            assert(seq![e].update(0, e.push(x)) =~= seq![e].update(0, seq![x] + e));
        }
    } else {
        let u = t.drop_last();
        let y = t.last();
        lemma_split_char_front(x, u, c);
        lemma_split_char_nonempty(u, c);
        assert((seq![x] + t).drop_last() =~= seq![x] + u);
        assert((seq![x] + t).last() == y);
        let p = split_char(u, c);
        if x == c {
            let f = seq![e] + p;
            if y == c {
                assert(f.push(e) =~= seq![e] + p.push(e));
            } else {
                assert(f.update(f.len() - 1, f.last().push(y)) =~= seq![e] + p.update(p.len() - 1, p.last().push(y)));
            }
        } else {
            let f = p.update(0, seq![x] + p[0]);
            if y == c {
                assert(f.push(e) =~= p.push(e).update(0, seq![x] + p.push(e)[0]));
            } else {
                let q = p.update(p.len() - 1, p.last().push(y));
                if p.len() == 1 {
                    assert((seq![x] + p[0]).push(y) =~= seq![x] + p[0].push(y));
                    assert(f.update(f.len() - 1, f.last().push(y)) =~= q.update(0, seq![x] + q[0]));
                } else {
                    assert(f.update(f.len() - 1, f.last().push(y)) =~= q.update(0, seq![x] + q[0]));
                }
            }
        }
    }
}

/// At a one-character separator, the search from the start and the split at each
/// occurrence give the same parts.
pub proof fn lemma_split_seq_char(s: Seq<char>, c: char)
    ensures
        split_seq(s, seq![c]) == split_char(s, c),
    decreases s.len(),
{
    if s.len() == 0 {
        assert(s =~= Seq::<char>::empty());
    } else {
        let t = s.drop_first();
        lemma_split_seq_char(t, c);
        assert(s =~= seq![s[0]] + t);
        assert(s.skip(1) =~= t);
        assert((s.take(1) == seq![c]) == (s[0] == c)) by {
            if s[0] == c {
                assert(s.take(1) =~= seq![c]);
            } else if s.take(1) == seq![c] {
                assert(s.take(1)[0] == s[0]);
            }
        }
        lemma_split_char_front(s[0], t, c);
    }
}

/// Calls `str::split` with the separator `sep` and collects the parts; they are named
/// `split_text` of the text and the separator. A non-empty separator is searched for from
/// the start, each search going on after the last match, and the parts are the texts
/// between the matches, with the text before the first and after the last (`split_seq`).
/// Of the empty separator only the name is stated.
#[verifier::external_body]
fn split_by(s: &str, sep: &str) -> (r: Vec<String>)
    ensures
        texts(r@) == split_text(s@, sep@),
        sep@.len() >= 1 ==> texts(r@) == split_seq(s@, sep@),
{
    s.split(sep).map(|part| part.to_owned()).collect()
}

/// The non-empty ones of `parts`, in order.
pub open spec fn nonempty_parts(parts: Seq<Seq<char>>) -> Seq<Seq<char>>
    decreases parts.len(),
{
    if parts.len() == 0 {
        Seq::empty()
    } else {
        let p = nonempty_parts(parts.drop_last());
        if parts.last().len() > 0 {
            p.push(parts.last())
        } else {
            p
        }
    }
}

/// The values that a unique join of `current` and `other` puts together: the non-empty parts
/// of `current` split at `sep`, then `other` where it is not empty and not among them.
pub open spec fn unique_values(current: CellView, other: CellView, sep: Seq<char>) -> Seq<Seq<char>> {
    let parts = nonempty_parts(split_parts(cell_text(current), sep));
    let v = cell_text(other);
    if v.len() > 0 && !parts.contains(v) {
        parts.push(v)
    } else {
        parts
    }
}

/// A unique join adds no value twice: where the parts already held are distinct, the values
/// it joins are distinct, and the added value is non-empty. (Over many rows this needs the
/// parts to read back from the joined text, which fails where a value holds the separator.)
pub proof fn lemma_unique_join_adds_no_repeat(current: CellView, other: CellView, sep: Seq<char>)
    requires
        nonempty_parts(split_parts(cell_text(current), sep)).no_duplicates(),
    ensures
        unique_values(current, other, sep).no_duplicates(),
        combined(current, other, AggregateOp::UniqueJoin, sep) == CellView::Text(
            joined(unique_values(current, other, sep), sep),
        ),
{
    let parts = nonempty_parts(split_parts(cell_text(current), sep));
    let v = cell_text(other);
    if v.len() > 0 && !parts.contains(v) {
        let u = parts.push(v);
        assert forall|i: int, j: int| 0 <= i < u.len() && 0 <= j < u.len() && i != j implies u[i] != u[j] by {
            if i == parts.len() {
                assert(u[j] == parts[j]);
            } else if j == parts.len() {
                assert(u[i] == parts[i]);
            } else {
                assert(u[i] == parts[i] && u[j] == parts[j]);
            }
        }
    }
}

/// Text without `c` that follows `x` lengthens the last part of the split of `x`.
pub proof fn lemma_split_char_tail(x: Seq<char>, v: Seq<char>, c: char)
    requires
        !v.contains(c),
    ensures
        split_char(x + v, c) == split_char(x, c).update(
            split_char(x, c).len() - 1,
            split_char(x, c).last() + v,
        ),
    decreases v.len(),
{
    lemma_split_char_nonempty(x, c);
    let p = split_char(x, c);
    if v.len() == 0 {
        assert(x + v =~= x);
        assert(p.last() + v =~= p.last());
        assert(p.update(p.len() - 1, p.last()) =~= p);
    } else {
        let w = v.drop_last();
        assert(!w.contains(c)) by {
            if w.contains(c) {
                let k = choose|k: int| 0 <= k < w.len() && w[k] == c;
                assert(v[k] == c);
            }
        }
        assert(v.last() != c) by {
            assert(v[v.len() - 1] == v.last());
        }
        lemma_split_char_tail(x, w, c);
        assert((x + v).drop_last() =~= x + w);
        assert((x + v).last() == v.last());
        let q = split_char(x + w, c);
        assert(q.len() == p.len());
        assert(q.last() == p.last() + w);
        assert(q.last().push(v.last()) =~= p.last() + v);
        assert(p.last() + w + seq![v.last()] =~= p.last() + v);
        assert(q.update(q.len() - 1, q.last().push(v.last())) =~= p.update(p.len() - 1, p.last() + v));
    }
}

/// The non-empty values of `parts`, none of which holds `c`, each once.
pub open spec fn kept_apart(parts: Seq<Seq<char>>, c: char) -> bool {
    &&& parts.no_duplicates()
    &&& forall|i: int| 0 <= i < parts.len() ==> parts[i].len() > 0 && !parts[i].contains(c)
}

/// Values without `c`, joined with `c` between each two, split at `c` into those values.
pub proof fn lemma_split_joined(parts: Seq<Seq<char>>, c: char)
    requires
        parts.len() >= 1,
        forall|i: int| 0 <= i < parts.len() ==> !parts[i].contains(c),
    ensures
        split_char(joined(parts, seq![c]), c) == parts,
    decreases parts.len(),
{
    let e: Seq<char> = Seq::empty();
    if parts.len() == 1 {
        lemma_split_char_tail(e, parts[0], c);
        assert(e + parts[0] =~= parts[0]);
        assert(split_char(e, c) == seq![e]);
        assert(seq![e].update(0, e + parts[0]) =~= parts);
    } else {
        let init = parts.drop_last();
        lemma_split_joined(init, c);
        let x = joined(init, seq![c]) + seq![c];
        assert(x.drop_last() =~= joined(init, seq![c]));
        assert(split_char(x, c) == init.push(e));
        lemma_split_char_tail(x, parts.last(), c);
        assert(e + parts.last() =~= parts.last());
        assert(init.push(e).update(init.len() as int, e + parts.last()) =~= parts);
    }
}

/// The non-empty parts of values that are all non-empty are those values.
pub proof fn lemma_nonempty_parts_kept(parts: Seq<Seq<char>>)
    requires
        forall|i: int| 0 <= i < parts.len() ==> parts[i].len() > 0,
    ensures
        nonempty_parts(parts) == parts,
    decreases parts.len(),
{
    if parts.len() > 0 {
        lemma_nonempty_parts_kept(parts.drop_last());
        assert(parts.drop_last().push(parts.last()) =~= parts);
    }
}

/// Over any number of rows, a unique join with a one-character separator keeps each value
/// once: where the text held is the join of distinct non-empty values without the separator,
/// and the added value holds no separator, the step joins those values followed by the added
/// one where it is non-empty and new, and these are again distinct, non-empty and without
/// the separator.
pub proof fn lemma_unique_join_keeps_values_once(
    parts: Seq<Seq<char>>,
    current: CellView,
    other: CellView,
    sep: Seq<char>,
)
    requires
        sep.len() == 1,
        kept_apart(parts, sep[0]),
        cell_text(current) == joined(parts, sep),
        !cell_text(other).contains(sep[0]),
    ensures
        unique_values(current, other, sep) == (if cell_text(other).len() > 0 && !parts.contains(
            cell_text(other),
        ) {
            parts.push(cell_text(other))
        } else {
            parts
        }),
        kept_apart(unique_values(current, other, sep), sep[0]),
        combined(current, other, AggregateOp::UniqueJoin, sep) == CellView::Text(
            joined(unique_values(current, other, sep), sep),
        ),
{
    let c = sep[0];
    assert(sep =~= seq![c]);
    if parts.len() == 0 {
        assert(split_char(Seq::<char>::empty(), c) == seq![Seq::<char>::empty()]);
        let one = seq![Seq::<char>::empty()];
        assert(one.drop_last() =~= Seq::<Seq<char>>::empty());
        assert(nonempty_parts(Seq::<Seq<char>>::empty()) == Seq::<Seq<char>>::empty());
        assert(nonempty_parts(one) =~= Seq::<Seq<char>>::empty());
        assert(split_parts(cell_text(current), sep) == seq![Seq::<char>::empty()]);
    } else {
        lemma_split_joined(parts, c);
        lemma_nonempty_parts_kept(parts);
    }
    assert(nonempty_parts(split_parts(cell_text(current), sep)) == parts);
    lemma_unique_join_adds_no_repeat(current, other, sep);
}

/// The combined value of `current` and `other` under `op`, for a column whose sum, if any,
/// is an exact integer sum.
pub open spec fn combined(current: CellView, other: CellView, op: AggregateOp, sep: Seq<char>) -> CellView {
    match op {
        AggregateOp::First => if cell_empty(current) {
            other
        } else {
            current
        },
        AggregateOp::Sum => integer_sum(cell_integer(current)->0 + cell_integer(other)->0),
        AggregateOp::UniqueJoin => {
            let parts = nonempty_parts(split_parts(cell_text(current), sep));
            let v = cell_text(other);
            CellView::Text(
                joined(
                    if v.len() > 0 && !parts.contains(v) {
                        parts.push(v)
                    } else {
                        parts
                    },
                    sep,
                ),
            )
        },
        AggregateOp::TextJoin => {
            let v = cell_text(other);
            let first = cell_text(current);
            if v.len() == 0 {
                current
            } else if first.len() == 0 {
                CellView::Text(v)
            } else {
                CellView::Text(first + sep + v)
            }
        },
    }
}

/// Under `First`, a cell that holds a value keeps it whatever a later row brings; only an
/// empty cell takes the later row's value.
pub proof fn lemma_first_keeps_filled_cells(current: CellView, other: CellView, sep: Seq<char>)
    ensures
        !cell_empty(current) ==> combined(current, other, AggregateOp::First, sep) == current,
        cell_empty(current) ==> combined(current, other, AggregateOp::First, sep) == other,
{
}

/// A text join puts the separator only between two non-empty texts: an empty later value
/// leaves the cell as it is, a value joined into an empty cell is that value alone, and two
/// values are joined with the separator between them.
pub proof fn lemma_text_join_separates_filled_texts(current: CellView, other: CellView, sep: Seq<char>)
    ensures
        cell_text(other).len() == 0 ==> combined(current, other, AggregateOp::TextJoin, sep) == current,
        cell_text(current).len() == 0 && cell_text(other).len() > 0 ==> combined(
            current,
            other,
            AggregateOp::TextJoin,
            sep,
        ) == CellView::Text(cell_text(other)),
        cell_text(current).len() > 0 && cell_text(other).len() > 0 ==> combined(
            current,
            other,
            AggregateOp::TextJoin,
            sep,
        ) == CellView::Text(cell_text(current) + sep + cell_text(other)),
{
}

/// The cell of `row` at `i`, empty past its end.
pub open spec fn cell_at(row: Seq<CellView>, i: int) -> CellView {
    if 0 <= i < row.len() {
        row[i]
    } else {
        CellView::Empty
    }
}

/// The operation at `i`, `First` past the end.
pub open spec fn op_at(ops: Seq<AggregateOp>, i: int) -> AggregateOp {
    if 0 <= i < ops.len() {
        ops[i]
    } else {
        AggregateOp::First
    }
}

/// Whether column `i` is a sum that is left to floating-point arithmetic.
pub open spec fn pending_at(existing: Seq<CellView>, incoming: Seq<CellView>, ops: Seq<AggregateOp>, i: int) -> bool {
    op_at(ops, i) == AggregateOp::Sum && float_sum(existing[i], cell_at(incoming, i))
}

/// The columns, below `n`, whose sums are left to floating-point arithmetic, in order.
pub open spec fn pending_columns(
    existing: Seq<CellView>,
    incoming: Seq<CellView>,
    ops: Seq<AggregateOp>,
    n: nat,
) -> Seq<usize>
    decreases n,
{
    if n == 0 {
        Seq::empty()
    } else {
        let p = pending_columns(existing, incoming, ops, (n - 1) as nat);
        if pending_at(existing, incoming, ops, n - 1) {
            p.push((n - 1) as usize)
        } else {
            p
        }
    }
}

/// Every exact integer sum of the row fits an `i128`.
pub open spec fn sums_fit(existing: Seq<CellView>, incoming: Seq<CellView>, ops: Seq<AggregateOp>) -> bool {
    forall|i: int|
        0 <= i < existing.len() && op_at(ops, i) == AggregateOp::Sum && !float_sum(
            #[trigger] existing[i],
            cell_at(incoming, i),
        ) ==> i128::MIN <= cell_integer(existing[i])->0 + cell_integer(cell_at(incoming, i))->0
            <= i128::MAX
}

/// The integer of a cell's trimmed text, where it fits an `i128`.
fn integer_of(c: &CellValue) -> (r: Option<i128>)
    ensures
        match cell_integer(c@) {
            Some(v) => r == Some(v as i128),
            None => r is None,
        },
{
    let t = trim_str(c.as_text().as_str());
    parse_i128(&chars_of(t.as_str()))
}

/// Combines `incoming` into `existing`, column by column, under `operations` (`First` where
/// none is given) with `separator` for joined texts. A sum of two integers is exact; a sum
/// that involves any other value is left as it is, and its column is returned so that it
/// can be summed in floating point.
pub fn aggregate_rows(
    existing: &mut Vec<CellValue>,
    incoming: &Vec<CellValue>,
    operations: &Vec<AggregateOp>,
    separator: &str,
) -> (r: Vec<usize>)
    requires
        sums_fit(row_view(old(existing)@), row_view(incoming@), operations@),
    ensures
        final(existing)@.len() == old(existing)@.len(),
        forall|i: int|
            0 <= i < old(existing)@.len() ==> (#[trigger] final(existing)@[i])@ == if pending_at(
                row_view(old(existing)@),
                row_view(incoming@),
                operations@,
                i,
            ) {
                old(existing)@[i]@
            } else {
                combined(
                    old(existing)@[i]@,
                    cell_at(row_view(incoming@), i),
                    op_at(operations@, i),
                    separator@,
                )
            },
        r@ == pending_columns(
            row_view(old(existing)@),
            row_view(incoming@),
            operations@,
            old(existing)@.len(),
        ),
        forall|i: int|
            0 <= i < old(existing)@.len() && op_at(operations@, i) == AggregateOp::First && !cell_empty(
                old(existing)@[i]@,
            ) ==> (#[trigger] final(existing)@[i])@ == old(existing)@[i]@,
        forall|i: int|
            0 <= i < old(existing)@.len() && op_at(operations@, i) == AggregateOp::First && cell_empty(
                old(existing)@[i]@,
            ) ==> (#[trigger] final(existing)@[i])@ == cell_at(row_view(incoming@), i),
        forall|i: int|
            0 <= i < old(existing)@.len() && op_at(operations@, i) == AggregateOp::TextJoin && cell_text(
                old(existing)@[i]@,
            ).len() == 0 && cell_text(cell_at(row_view(incoming@), i)).len() > 0 ==> (#[trigger] final(existing)@[i])@ == CellView::Text(cell_text(cell_at(row_view(incoming@), i))),
{
    let ghost start = row_view(existing@);
    let ghost inc = row_view(incoming@);
    let ghost ops = operations@;
    let mut pending: Vec<usize> = Vec::new();
    let mut i: usize = 0;
    while i < existing.len()
        invariant
            existing@.len() == start.len(),
            i <= start.len(),
            start == row_view(old(existing)@),
            inc == row_view(incoming@),
            ops == operations@,
            sums_fit(start, inc, ops),
            pending@ == pending_columns(start, inc, ops, i as nat),
            forall|j: int|
                0 <= j < start.len() ==> (#[trigger] existing@[j])@ == if j >= i || pending_at(
                    start,
                    inc,
                    ops,
                    j,
                ) {
                    start[j]
                } else {
                    combined(start[j], cell_at(inc, j), op_at(ops, j), separator@)
                },
        decreases start.len() - i,
    {
        let other = if i < incoming.len() {
            incoming[i].copied()
        } else {
            CellValue::Empty
        };
        let op = if i < operations.len() {
            operations[i]
        } else {
            AggregateOp::First
        };
        assert(other@ == cell_at(inc, i as int));
        assert(op == op_at(ops, i as int));
        assert(existing@[i as int]@ == start[i as int]);
        match op {
            AggregateOp::First => {
                if existing[i].is_empty() {
                    existing.set(i, other);
                }
            },
            AggregateOp::Sum => {
                let a = integer_of(&existing[i]);
                let b = integer_of(&other);
                match (a, b) {
                    (Some(x), Some(y)) => {
                        assert(i128::MIN <= x + y <= i128::MAX);
                        let total = x + y;
                        let digits = string_of(i128_text(total).as_slice());
                        if -100_000_000_000_000i128 < total && total < 100_000_000_000_000i128 {
                            existing.set(i, CellValue::Number(digits));
                        } else {
                            existing.set(i, CellValue::Text(digits));
                        }
                    },
                    _ => {
                        pending.push(i);
                    },
                }
            },
            AggregateOp::UniqueJoin => {
                let current = existing[i].as_text();
                let parts = split_by(current.as_str(), separator);
                let ghost all = texts(parts@);
                proof {
                    if separator@.len() == 1 {
                        assert(separator@ =~= seq![separator@[0]]);
                        lemma_split_seq_char(current@, separator@[0]);
                    }
                    assert(all == split_parts(current@, separator@));
                }
                let mut values: Vec<String> = Vec::new();
                let mut p: usize = 0;
                while p < parts.len()
                    invariant
                        p <= parts@.len(),
                        all == texts(parts@),
                        texts(values@) == nonempty_parts(all.take(p as int)),
                    decreases parts@.len() - p,
                {
                    proof {
                        assert(all.take(p + 1).drop_last() =~= all.take(p as int));
                        assert(all.take(p + 1).last() == parts@[p as int]@);
                    }
                    if !parts[p].as_str().is_empty() {
                        let ghost prev = values@;
                        values.push(parts[p].clone());
                        proof {
                            assert(texts(values@) =~= texts(prev).push(parts@[p as int]@));
                        }
                    }
                    p = p + 1;
                }
                proof {
                    assert(all.take(all.len() as int) =~= all);
                }
                let value = other.as_text();
                if !value.as_str().is_empty() && !crate::headers::contains_text(&values, &value) {
                    let ghost prev = values@;
                    values.push(value);
                    proof {
                        assert(texts(values@) =~= texts(prev).push(cell_text(other@)));
                    }
                }
                existing.set(i, CellValue::Text(join_strings(values.as_slice(), separator)));
            },
            AggregateOp::TextJoin => {
                let value = other.as_text();
                if !value.as_str().is_empty() {
                    let first = existing[i].as_text();
                    if first.as_str().is_empty() {
                        existing.set(i, CellValue::Text(value));
                    } else {
                        let mut t = chars_of(first.as_str());
                        crate::text::push_str(&mut t, separator);
                        crate::text::push_str(&mut t, value.as_str());
                        existing.set(i, CellValue::Text(string_of(t.as_slice())));
                    }
                }
            },
        }
        i = i + 1;
    }
    pending
}

/// Whether every exact integer sum of combining `incoming` into `existing` fits an `i128`.
pub fn sums_fit_row(existing: &Vec<CellValue>, incoming: &Vec<CellValue>, operations: &Vec<AggregateOp>) -> (r: bool)
    ensures
        r == sums_fit(row_view(existing@), row_view(incoming@), operations@),
{
    let ghost ex = row_view(existing@);
    let ghost inc = row_view(incoming@);
    let mut i: usize = 0;
    while i < existing.len()
        invariant
            i <= existing@.len(),
            ex == row_view(existing@),
            inc == row_view(incoming@),
            forall|j: int|
                0 <= j < i && op_at(operations@, j) == AggregateOp::Sum && !float_sum(
                    #[trigger] ex[j],
                    cell_at(inc, j),
                ) ==> i128::MIN <= cell_integer(ex[j])->0 + cell_integer(cell_at(inc, j))->0
                    <= i128::MAX,
        decreases existing@.len() - i,
    {
        if i < operations.len() && operations[i] == AggregateOp::Sum {
            let other = if i < incoming.len() {
                integer_of(&incoming[i])
            } else {
                integer_of(&CellValue::Empty)
            };
            match (integer_of(&existing[i]), other) {
                (Some(x), Some(y)) => {
                    if x.checked_add(y).is_none() {
                        proof {
                            assert(ex[i as int] == existing@[i as int]@);
                        }
                        return false;
                    }
                },
                _ => {},
            }
        }
        i = i + 1;
    }
    true
}

} // verus!
