//! From source rows to output rows: where each value goes, row keys, the row filter, and how
//! rows are combined.
use vstd::prelude::*;
use crate::desktop::model::{
    ColumnMapping, MergeMode, OutputPlan, SourceTable, TransformOp, header_pairs, mapping_pairs,
    key, key_fn, header_key, key_list,
};
use crate::engine::cell::{CellValue, CellView, cell_empty, cell_text, row_view, transformed_cell};
use crate::headers::{texts, keys, rank, lemma_rank_bounds};
use crate::text::{string_of, push_str};

verus! {

broadcast use vstd::seq_lib::group_seq_properties;

/// The (source column, output column) pairs of `table` in `plan`, as `source_to_output_map`
/// gives them.
pub open spec fn output_pairs(table: SourceTable, plan: OutputPlan, mode: MergeMode) -> Seq<
    (usize, usize),
> {
    match mode {
        MergeMode::Manual => mapping_pairs(table.mappings@, keys(texts(plan.headers@), key_fn())),
        _ => header_pairs(texts(table.headers@), keys(texts(plan.headers@), key_fn())),
    }
}

/// Every pair of headers found among the plan's keys points into the plan.
pub proof fn lemma_header_pairs_bound(hs: Seq<Seq<char>>, pk: Seq<Seq<char>>)
    requires
        pk.len() <= usize::MAX,
    ensures
        forall|k: int| 0 <= k < header_pairs(hs, pk).len() ==> (#[trigger] header_pairs(hs, pk)[k]).1
            < pk.len(),
    decreases hs.len(),
{
    if hs.len() > 0 {
        lemma_header_pairs_bound(hs.drop_last(), pk);
        lemma_rank_bounds(pk, key(hs.last()));
        let p = header_pairs(hs.drop_last(), pk);
        let h = header_pairs(hs, pk);
        assert forall|k: int| 0 <= k < h.len() implies (#[trigger] h[k]).1 < pk.len() by {
            if k < p.len() {
                assert(h[k] == p[k]);
            }
        }
    }
}

/// Every pair of mappings found among the plan's keys points into the plan.
pub proof fn lemma_mapping_pairs_bound(ms: Seq<ColumnMapping>, pk: Seq<Seq<char>>)
    requires
        pk.len() <= usize::MAX,
    ensures
        forall|k: int| 0 <= k < mapping_pairs(ms, pk).len() ==> (#[trigger] mapping_pairs(ms, pk)[k]).1
            < pk.len(),
    decreases ms.len(),
{
    if ms.len() > 0 {
        lemma_mapping_pairs_bound(ms.drop_last(), pk);
        lemma_rank_bounds(pk, key(ms.last().target_name@));
        let p = mapping_pairs(ms.drop_last(), pk);
        let h = mapping_pairs(ms, pk);
        assert forall|k: int| 0 <= k < h.len() implies (#[trigger] h[k]).1 < pk.len() by {
            if k < p.len() {
                assert(h[k] == p[k]);
            }
        }
    }
}

/// The cleaning step of the first mapping of source column `s`.
pub open spec fn first_transform(ms: Seq<ColumnMapping>, s: usize) -> TransformOp
    decreases ms.len(),
{
    if ms.len() == 0 {
        TransformOp::Unchanged
    } else if ms[0].source_index == s {
        ms[0].transform
    } else {
        first_transform(ms.drop_first(), s)
    }
}

/// The cleaning step for source column `s` of `table`: that of its first mapping, for a
/// column that the table's headers have.
pub open spec fn transform_for(table: SourceTable, s: usize) -> TransformOp {
    if s < table.headers@.len() {
        first_transform(table.mappings@, s)
    } else {
        TransformOp::Unchanged
    }
}

/// No pair but the one at `k` reads its source column.
pub open spec fn only_reader(pairs: Seq<(usize, usize)>, k: int) -> bool {
    forall|b: int| 0 <= b < pairs.len() && b != k ==> #[trigger] pairs[b].0 != pairs[k].0
}

/// How the rows of one table become output rows.
pub struct RowMapping {
    /// (source column, output column, cleaning step, whether the value may be moved out of
    /// the source row because no other column reads it).
    pub columns: Vec<(usize, usize, TransformOp, bool)>,
    /// The source file name, where the plan has a source file column.
    pub source_file: Option<String>,
    /// The sheet name, where the plan has a source sheet column.
    pub source_sheet: Option<String>,
}

/// `m` fits `plan`: its output columns exist, and a value is moved only where no other
/// column reads it and it is not cleaned.
pub open spec fn mapping_fits(m: RowMapping, plan: OutputPlan) -> bool {
    &&& forall|k: int| 0 <= k < m.columns@.len() ==> (#[trigger] m.columns@[k]).1 < plan.headers@.len()
    &&& forall|k: int| 0 <= k < m.columns@.len() && (#[trigger] m.columns@[k]).3 ==> m.columns@[k].2
        == TransformOp::Unchanged
    &&& forall|a: int, b: int|
        0 <= a < m.columns@.len() && 0 <= b < m.columns@.len() && a != b && (#[trigger] m.columns@[a]).3
            ==> (#[trigger] m.columns@[b]).0 != m.columns@[a].0
    &&& plan.source_file_column matches Some(i) ==> i < plan.headers@.len()
    &&& plan.source_sheet_column matches Some(i) ==> i < plan.headers@.len()
}

/// The row mapping of `table` in `plan`: the pairs of `source_to_output_map`, each with the
/// cleaning step of the first mapping of its source column, and the file and sheet names
/// where the plan has those columns.
pub fn build_row_mapping(table: &SourceTable, plan: &OutputPlan, mode: MergeMode) -> (r: RowMapping)
    requires
        plan.source_file_column matches Some(i) ==> i < plan.headers@.len(),
        plan.source_sheet_column matches Some(i) ==> i < plan.headers@.len(),
    ensures
        ({
            let pairs = output_pairs(*table, *plan, mode);
            &&& r.columns@.len() == pairs.len()
            &&& forall|k: int|
                0 <= k < pairs.len() ==> {
                    let t = transform_for(*table, pairs[k].0);
                    #[trigger] r.columns@[k] == (pairs[k].0, pairs[k].1, t, t == TransformOp::Unchanged
                        && only_reader(pairs, k))
                }
        }),
        r.source_file is Some <==> plan.source_file_column is Some,
        r.source_file matches Some(n) ==> crate::engine::inspect::known_file(n@, table.path@),
        match plan.source_sheet_column {
            Some(_) => r.source_sheet matches Some(s) && s@ == table.sheet_name@,
            None => r.source_sheet is None,
        },
        mapping_fits(r, *plan),
{
    let pairs = crate::desktop::model::source_to_output_map(table, plan, mode);
    let ghost pk = keys(texts(plan.headers@), key_fn());
    let width = plan.headers.len();
    proof {
        assert(pk.len() == width);
        lemma_header_pairs_bound(texts(table.headers@), pk);
        lemma_mapping_pairs_bound(table.mappings@, pk);
    }
    let n = table.headers.len();
    let mut transforms: Vec<Option<TransformOp>> = Vec::new();
    let mut j: usize = 0;
    while j < n
        invariant
            j <= n,
            n == table.headers@.len(),
            transforms@.len() == j,
            forall|q: int| 0 <= q < j ==> #[trigger] transforms@[q] is None,
        decreases n - j,
    {
        transforms.push(None);
        j = j + 1;
    }
    let ghost ms = table.mappings@;
    let mut i: usize = 0;
    while i < table.mappings.len()
        invariant
            i <= ms.len(),
            ms == table.mappings@,
            n == table.headers@.len(),
            transforms@.len() == n,
            forall|q: int|
                0 <= q < n ==> match #[trigger] transforms@[q] {
                    Some(t) => first_transform(ms, q as usize) == t,
                    None => first_transform(ms, q as usize) == first_transform(
                        ms.skip(i as int),
                        q as usize,
                    ),
                },
        decreases ms.len() - i,
    {
        let s = table.mappings[i].source_index;
        proof {
            assert forall|q: int| 0 <= q < n implies #[trigger] first_transform(ms.skip(i as int), q as usize)
                == if ms[i as int].source_index == q as usize {
                ms[i as int].transform
            } else {
                first_transform(ms.skip(i + 1), q as usize)
            } by {
                assert(ms.skip(i as int)[0] == ms[i as int]);
                assert(ms.skip(i as int).drop_first() =~= ms.skip(i + 1));
            }
        }
        if s < n {
            if transforms[s].is_none() {
                transforms.set(s, Some(table.mappings[i].transform));
            }
        }
        i = i + 1;
    }
    let mut columns: Vec<(usize, usize, TransformOp, bool)> = Vec::new();
    let mut k: usize = 0;
    while k < pairs.len()
        invariant
            k <= pairs@.len(),
            pairs@ == output_pairs(*table, *plan, mode),
            forall|q: int| 0 <= q < pairs@.len() ==> (#[trigger] pairs@[q]).1 < plan.headers@.len(),
            n == table.headers@.len(),
            transforms@.len() == n,
            forall|q: int|
                0 <= q < n ==> match #[trigger] transforms@[q] {
                    Some(t) => first_transform(ms, q as usize) == t,
                    None => first_transform(ms, q as usize) == TransformOp::Unchanged,
                },
            ms == table.mappings@,
            columns@.len() == k,
            forall|q: int|
                0 <= q < k ==> {
                    let t = transform_for(*table, pairs@[q].0);
                    #[trigger] columns@[q] == (pairs@[q].0, pairs@[q].1, t, t
                        == TransformOp::Unchanged && only_reader(pairs@, q))
                },
        decreases pairs@.len() - k,
    {
        let (s, o) = pairs[k];
        let t = if s < n {
            match transforms[s] {
                Some(t) => t,
                None => TransformOp::Unchanged,
            }
        } else {
            TransformOp::Unchanged
        };
        let mut unique = true;
        let mut b: usize = 0;
        while b < pairs.len()
            invariant
                b <= pairs@.len(),
                k < pairs@.len(),
                s == pairs@[k as int].0,
                unique <==> forall|c: int| 0 <= c < b && c != k ==> #[trigger] pairs@[c].0 != s,
            decreases pairs@.len() - b,
        {
            if b != k && pairs[b].0 == s {
                unique = false;
            }
            b = b + 1;
        }
        columns.push((s, o, t, t == TransformOp::Unchanged && unique));
        k = k + 1;
    }
    proof {
        assert forall|q: int| 0 <= q < n implies match #[trigger] transforms@[q] {
            Some(t) => first_transform(ms, q as usize) == t,
            None => first_transform(ms, q as usize) == TransformOp::Unchanged,
        } by {
            assert(ms.skip(ms.len() as int) =~= Seq::<ColumnMapping>::empty());
        }
    }
    let source_file = match plan.source_file_column {
        Some(_) => Some(crate::paths::file_name_of(table.path.as_str())),
        None => None,
    };
    let source_sheet = match plan.source_sheet_column {
        Some(_) => Some(table.sheet_name.clone()),
        None => None,
    };
    RowMapping { columns, source_file, source_sheet }
}

/// Whether a pair fills an output cell holding `prev` with a cell cleaned from `source` into
/// `value`: only a source cell that holds something (an empty text too) fills, and only a cell
/// that is still empty; an empty text fills only a cell that holds nothing, so that a later
/// value replaces it and an empty text of a file is kept apart from a missing cell.
pub open spec fn fills(prev: CellView, source: CellView, value: CellView) -> bool {
    &&& !(source is Empty)
    &&& cell_empty(prev)
    &&& !cell_empty(value) || prev is Empty
}

/// An empty text of a source fills an output cell that holds nothing and reaches the
/// database as an empty text, or as NULL where empty texts load as NULL; a missing source
/// cell fills nothing, so its column stays NULL whatever cleaning step it has; and a later
/// non-empty value replaces an empty text.
pub proof fn lemma_empty_texts_kept_apart(empty_as_null: bool, op: TransformOp, prev: CellView, value: CellView)
    ensures
        fills(CellView::Empty, CellView::Text(Seq::empty()), transformed_cell(
            CellView::Text(Seq::empty()),
            TransformOp::Unchanged,
        )),
        crate::engine::cell::copy_value(CellView::Text(Seq::empty()), empty_as_null) == (if empty_as_null {
            None
        } else {
            Some(Seq::<char>::empty())
        }),
        crate::engine::cell::copy_value(CellView::Empty, empty_as_null) is None,
        !fills(prev, CellView::Empty, transformed_cell(CellView::Empty, op)),
        !cell_empty(value) ==> fills(CellView::Text(Seq::empty()), value, value) == !(value is Empty),
{
}

/// The output cells that the pairs `cols` fill from `vals`: in order, each pair puts its
/// cleaned value into its output cell where it `fills` it.
pub open spec fn placed(
    vals: Seq<CellView>,
    cols: Seq<(usize, usize, TransformOp, bool)>,
    width: nat,
) -> Seq<CellView>
    decreases cols.len(),
{
    if cols.len() == 0 {
        Seq::new(width, |i: int| CellView::Empty)
    } else {
        let prev = placed(vals, cols.drop_last(), width);
        let c = cols.last();
        if c.0 < vals.len() && fills(prev[c.1 as int], vals[c.0 as int], transformed_cell(vals[c.0 as int], c.2)) {
            prev.update(c.1 as int, transformed_cell(vals[c.0 as int], c.2))
        } else {
            prev
        }
    }
}

/// The text that a file or sheet column gets from an optional name.
pub open spec fn name_cell(name: Option<String>) -> CellView {
    match name {
        Some(n) => CellView::Text(n@),
        None => CellView::Text(Seq::empty()),
    }
}

/// The output row made of the source row `vals`: the placed values, then the source file
/// and sheet names in their columns.
pub open spec fn mapped_view(vals: Seq<CellView>, m: RowMapping, plan: OutputPlan) -> Seq<CellView> {
    let base = placed(vals, m.columns@, plan.headers@.len());
    let with_file = match plan.source_file_column {
        Some(i) => base.update(i as int, name_cell(m.source_file)),
        None => base,
    };
    match plan.source_sheet_column {
        Some(i) => with_file.update(i as int, name_cell(m.source_sheet)),
        None => with_file,
    }
}

/// The width of a placed row is the width of the plan.
pub proof fn lemma_placed_len(vals: Seq<CellView>, cols: Seq<(usize, usize, TransformOp, bool)>, width: nat)
    requires
        forall|k: int| 0 <= k < cols.len() ==> (#[trigger] cols[k]).1 < width,
    ensures
        placed(vals, cols, width).len() == width,
    decreases cols.len(),
{
    if cols.len() > 0 {
        lemma_placed_len(vals, cols.drop_last(), width);
    }
}

/// The output row for the source row `values`.
pub fn mapped_row(values: Vec<CellValue>, row_mapping: &RowMapping, plan: &OutputPlan) -> (r: Vec<
    CellValue,
>)
    requires
        mapping_fits(*row_mapping, *plan),
    ensures
        row_view(r@) == mapped_view(row_view(values@), *row_mapping, *plan),
{
    let ghost vals = row_view(values@);
    let ghost cols = row_mapping.columns@;
    let width = plan.headers.len();
    let mut values = values;
    let mut output: Vec<CellValue> = Vec::new();
    let mut w: usize = 0;
    while w < width
        invariant
            w <= width,
            output@.len() == w,
            forall|q: int| 0 <= q < w ==> (#[trigger] output@[q])@ == CellView::Empty,
        decreases width - w,
    {
        output.push(CellValue::Empty);
        w = w + 1;
    }
    proof {
        assert(row_view(output@) =~= placed(vals, cols.take(0), width as nat));
    }
    let mut k: usize = 0;
    while k < row_mapping.columns.len()
        invariant
            k <= cols.len(),
            cols == row_mapping.columns@,
            width == plan.headers@.len(),
            mapping_fits(*row_mapping, *plan),
            values@.len() == vals.len(),
            forall|q: int|
                0 <= q < vals.len() ==> (#[trigger] values@[q])@ == vals[q] || exists|p: int|
                    0 <= p < k && cols[p].0 == q && #[trigger] cols[p].3,
            row_view(output@) == placed(vals, cols.take(k as int), width as nat),
        decreases cols.len() - k,
    {
        let (s, o, t, can_move) = row_mapping.columns[k];
        proof {
            assert(cols.take(k + 1).drop_last() =~= cols.take(k as int));
            assert(cols.take(k + 1).last() == cols[k as int]);
            lemma_placed_len(vals, cols.take(k as int), width as nat);
        }
        if s < values.len() {
            proof {
                if values@[s as int]@ != vals[s as int] {
                    let p = choose|p: int| 0 <= p < k && cols[p].0 == s && #[trigger] cols[p].3;
                    assert(cols[p].0 != cols[k as int].0);
                }
            }
            let present = match &values[s] {
                CellValue::Empty => false,
                _ => true,
            };
            let value = if can_move {
                let mut taken = CellValue::Empty;
                values.set_and_swap(s, &mut taken);
                taken
            } else {
                values[s].transformed(t)
            };
            let nothing = match &output[o] {
                CellValue::Empty => true,
                _ => false,
            };
            if present && output[o].is_empty() && (!value.is_empty() || nothing) {
                output.set(o, value);
            }
            proof {
                assert forall|q: int| 0 <= q < vals.len() implies (#[trigger] values@[q])@ == vals[q]
                    || exists|p: int| 0 <= p < k + 1 && cols[p].0 == q && #[trigger] cols[p].3 by {
                    if q == s && can_move {
                        assert(cols[k as int].0 == q && cols[k as int].3);
                    }
                }
            }
        }
        proof {
            assert(row_view(output@) =~= placed(vals, cols.take(k + 1), width as nat));
        }
        k = k + 1;
    }
    proof {
        assert(cols.take(cols.len() as int) =~= cols);
        lemma_placed_len(vals, cols, width as nat);
    }
    match plan.source_file_column {
        Some(index) => {
            let name = match &row_mapping.source_file {
                Some(n) => n.clone(),
                None => String::new(),
            };
            output.set(index, CellValue::Text(name));
        },
        None => {},
    }
    match plan.source_sheet_column {
        Some(index) => {
            let name = match &row_mapping.source_sheet {
                Some(n) => n.clone(),
                None => String::new(),
            };
            output.set(index, CellValue::Text(name));
        },
        None => {},
    }
    proof {
        assert(row_view(output@) =~= mapped_view(vals, *row_mapping, *plan));
    }
    output
}

/// The positions of the plan's headers whose key is among the keys of `requested`.
pub open spec fn key_positions(hs: Seq<Seq<char>>, requested: Seq<Seq<char>>) -> Seq<usize>
    decreases hs.len(),
{
    if hs.len() == 0 {
        Seq::empty()
    } else {
        let p = key_positions(hs.drop_last(), requested);
        if keys(requested, key_fn()).contains(key(hs.last())) {
            p.push((hs.len() - 1) as usize)
        } else {
            p
        }
    }
}

/// The output columns that make up the row key: those whose header has the key of one of the
/// requested key columns, in output order.
pub fn key_indices(plan: &OutputPlan, columns: &Vec<String>) -> (r: Vec<usize>)
    ensures
        r@ == key_positions(texts(plan.headers@), texts(columns@)),
{
    let requested = key_list(columns);
    let ghost hs = texts(plan.headers@);
    let mut out: Vec<usize> = Vec::new();
    let mut i: usize = 0;
    while i < plan.headers.len()
        invariant
            i <= hs.len(),
            hs == texts(plan.headers@),
            texts(requested@) == keys(texts(columns@), key_fn()),
            out@ == key_positions(hs.take(i as int), texts(columns@)),
        decreases hs.len() - i,
    {
        let k = header_key(plan.headers[i].as_str());
        proof {
            assert(hs.take(i + 1).drop_last() =~= hs.take(i as int));
            assert(hs.take(i + 1).last() == plan.headers@[i as int]@);
        }
        if crate::headers::contains_text(&requested, &k) {
            out.push(i);
        }
        i = i + 1;
    }
    proof {
        assert(hs.take(hs.len() as int) =~= hs);
    }
    out
}

/// The unit separator that joins the parts of a row key.
pub open spec fn key_separator() -> Seq<char> {
    "\u{1f}"@
}

/// The text of cell `index` of `row`, empty where the row is shorter.
pub open spec fn text_at(row: Seq<CellView>, index: int) -> Seq<char> {
    if 0 <= index < row.len() {
        cell_text(row[index])
    } else {
        Seq::empty()
    }
}

/// The key of `row`: the texts of the key cells, or of every cell where there are no key
/// cells, joined by the unit separator.
pub open spec fn row_key_text(row: Seq<CellView>, indices: Seq<usize>) -> Seq<char> {
    if indices.len() == 0 {
        crate::text::joined(Seq::new(row.len(), |i: int| cell_text(row[i])), key_separator())
    } else {
        crate::text::joined(
            Seq::new(indices.len(), |i: int| text_at(row, indices[i] as int)),
            key_separator(),
        )
    }
}

/// The key of `row` over the cells `indices` (over every cell where `indices` is empty).
pub fn row_key(row: &Vec<CellValue>, indices: &Vec<usize>) -> (r: String)
    ensures
        r@ == row_key_text(row_view(row@), indices@),
{
    let ghost rv = row_view(row@);
    let mut parts: Vec<String> = Vec::new();
    if indices.len() == 0 {
        let ghost all = Seq::new(rv.len(), |i: int| cell_text(rv[i]));
        let mut i: usize = 0;
        while i < row.len()
            invariant
                i <= row@.len(),
                rv == row_view(row@),
                all == Seq::new(rv.len(), |i: int| cell_text(rv[i])),
                texts(parts@) == all.take(i as int),
            decreases row@.len() - i,
        {
            let ghost prev = parts@;
            parts.push(row[i].as_text());
            proof {
                assert(texts(parts@) =~= texts(prev).push(cell_text(rv[i as int])));
                assert(all.take(i + 1) =~= all.take(i as int).push(all[i as int]));
            }
            i = i + 1;
        }
        proof {
            assert(all.take(all.len() as int) =~= all);
        }
    } else {
        let ghost all = Seq::new(indices@.len(), |i: int| text_at(rv, indices@[i] as int));
        let mut i: usize = 0;
        while i < indices.len()
            invariant
                i <= indices@.len(),
                rv == row_view(row@),
                all == Seq::new(indices@.len(), |i: int| text_at(rv, indices@[i] as int)),
                texts(parts@) == all.take(i as int),
            decreases indices@.len() - i,
        {
            let index = indices[i];
            let ghost prev = parts@;
            if index < row.len() {
                parts.push(row[index].as_text());
            } else {
                parts.push(String::new());
            }
            proof {
                assert(texts(parts@) =~= texts(prev).push(all[i as int]));
                assert(all.take(i + 1) =~= all.take(i as int).push(all[i as int]));
            }
            i = i + 1;
        }
        proof {
            assert(all.take(all.len() as int) =~= all);
        }
    }
    crate::text::join_strings(parts.as_slice(), "\u{1f}")
}

/// Whether `pattern` occurs in `s`.
pub open spec fn has_substring(s: Seq<char>, pattern: Seq<char>) -> bool {
    exists|i: int| 0 <= i <= s.len() - pattern.len() && #[trigger] s.subrange(i, i + pattern.len()) == pattern
}

/// Whether `pattern` occurs in `s`, as `str::contains` finds it.
pub fn contains_text(s: &Vec<char>, pattern: &Vec<char>) -> (r: bool)
    ensures
        r == has_substring(s@, pattern@),
{
    if pattern.len() > s.len() {
        return false;
    }
    if pattern.len() == 0 {
        proof {
            assert(s@.subrange(0int, 0int + pattern@.len()) =~= pattern@);
        }
        return true;
    }
    let last = s.len() - pattern.len();
    let mut i: usize = 0;
    while i <= last
        invariant
            last == s@.len() - pattern@.len(),
            0 < pattern@.len() <= s@.len() <= usize::MAX,
            i <= last + 1,
            forall|j: int| 0 <= j < i ==> #[trigger] s@.subrange(j, j + pattern@.len()) != pattern@,
        decreases last + 1 - i,
    {
        let mut k: usize = 0;
        let mut same = true;
        while k < pattern.len() && same
            invariant
                i <= last,
                last == s@.len() - pattern@.len(),
                0 < pattern@.len() <= s@.len() <= usize::MAX,
                k <= pattern@.len(),
                same <==> forall|q: int| 0 <= q < k ==> s@[i + q] == pattern@[q],
            decreases pattern@.len() - k,
        {
            if s[i + k] != pattern[k] {
                same = false;
            }
            k = k + 1;
        }
        if same {
            proof {
                assert(s@.subrange(i as int, i + pattern@.len()) =~= pattern@);
            }
            return true;
        }
        proof {
            let q = choose|q: int| 0 <= q < k && s@[i + q] != pattern@[q];
            assert(s@.subrange(i as int, i + pattern@.len())[q] != pattern@[q]);
        }
        i = i + 1;
    }
    false
}

/// Whether `row` passes the user's filter: with a filter text and a plan column whose key is
/// the filter column's, the row passes where the column's text holds the filter text
/// (ignoring case), or where it does not when the filter excludes.
pub open spec fn passes(row: Seq<CellView>, plan_headers: Seq<Seq<char>>, column: Seq<char>, text: Seq<
    char,
>, exclude: bool) -> bool {
    let index = crate::headers::first_key_index(plan_headers, key_fn(), key(column));
    if text.len() == 0 || index < 0 {
        true
    } else {
        let contains = has_substring(
            crate::text::lower(text_at(row, index)),
            crate::text::lower(text),
        );
        if exclude {
            !contains
        } else {
            contains
        }
    }
}

/// Whether `row` passes the filter of `options`.
pub fn passes_filter(
    row: &Vec<CellValue>,
    plan: &OutputPlan,
    options: &crate::desktop::model::MergeOptions,
) -> (r: bool)
    ensures
        r == passes(
            row_view(row@),
            texts(plan.headers@),
            options.filter_column@,
            options.filter_text@,
            options.filter_exclude,
        ),
{
    if options.filter_text.as_str().is_empty() {
        return true;
    }
    let plan_keys = key_list(&plan.headers);
    let wanted = header_key(options.filter_column.as_str());
    let found = crate::headers::first_key_position(
        &plan_keys,
        &wanted,
        Ghost(texts(plan.headers@)),
        Ghost(key_fn()),
    );
    match found {
        None => true,
        Some(index) => {
            let value = if index < row.len() {
                row[index].as_text()
            } else {
                String::new()
            };
            let haystack = crate::text::to_lowercase(value.as_str());
            let needle = crate::text::to_lowercase(options.filter_text.as_str());
            let contains = contains_text(
                &crate::text::chars_of(haystack.as_str()),
                &crate::text::chars_of(needle.as_str()),
            );
            if options.filter_exclude {
                !contains
            } else {
                contains
            }
        },
    }
}

/// Whether the progress of `current` rows out of `total` is reported: every thousand rows
/// and at the last one.
pub fn should_report(current: u64, total: u64) -> (r: bool)
    ensures
        r == (current % 1000 == 0 || current == total),
{
    current % 1000 == 0 || current == total
}

/// The progress message for the table `label`.
pub fn progress_label(label: &str) -> (r: String)
    ensures
        r@ == "正在处理："@ + label@,
{
    let mut out: Vec<char> = Vec::new();
    push_str(&mut out, "正在处理：");
    push_str(&mut out, label);
    string_of(out.as_slice())
}

/// Fills each empty cell of `existing` with the cell of `incoming` at the same position,
/// where that one is not empty.
pub fn fill_empty(existing: &mut Vec<CellValue>, incoming: &Vec<CellValue>)
    ensures
        final(existing)@.len() == old(existing)@.len(),
        forall|i: int|
            0 <= i < old(existing)@.len() ==> (#[trigger] final(existing)@[i])@ == if i
                < incoming@.len() && cell_empty(old(existing)@[i]@) && !cell_empty(incoming@[i]@) {
                incoming@[i]@
            } else {
                old(existing)@[i]@
            },
{
    let ghost start = existing@;
    let mut i: usize = 0;
    while i < existing.len() && i < incoming.len()
        invariant
            existing@.len() == start.len(),
            i <= start.len(),
            forall|j: int|
                0 <= j < start.len() ==> (#[trigger] existing@[j])@ == if j < i && j
                    < incoming@.len() && cell_empty(start[j]@) && !cell_empty(incoming@[j]@) {
                    incoming@[j]@
                } else {
                    start[j]@
                },
        decreases start.len() - i,
    {
        if existing[i].is_empty() && !incoming[i].is_empty() {
            let v = incoming[i].copied();
            existing.set(i, v);
        }
        i = i + 1;
    }
}

} // verus!
