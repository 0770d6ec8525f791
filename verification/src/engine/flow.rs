//! The decisions of the three kinds of merge, one source row at a time: appending with the
//! filter and de-duplication, consolidating rows by key, and joining tables side by side.
use vstd::prelude::*;
use crate::desktop::model::{AggregateOp, JoinKind, MergeMode, MergeOptions, OutputPlan, SourceKind, SourceTable, enabled_tables};
use crate::text::owned;
use crate::engine::aggregate::{aggregate_rows, combined, cell_at, op_at, pending_at, pending_columns, sums_fit, sums_fit_row};
use crate::engine::cell::{CellValue, CellView, cell_empty, row_view};
use crate::engine::order::{key_order, sorted_positions, lemma_key_order_len};
use crate::engine::rows::{passes, passes_filter, row_key, row_key_text, fill_empty};
use crate::engine::text_index::TextIndex;
use crate::headers::texts;

verus! {

broadcast use vstd::seq_lib::group_seq_properties;

/// The cells of each row.
pub open spec fn rows_view(rows: Seq<Vec<CellValue>>) -> Seq<Seq<CellView>> {
    rows.map_values(|r: Vec<CellValue>| row_view(r@))
}

/// Whether `row` passes the filter of `options` in `plan`.
pub open spec fn row_passes(row: Seq<CellView>, plan: OutputPlan, options: MergeOptions) -> bool {
    passes(
        row,
        texts(plan.headers@),
        options.filter_column@,
        options.filter_text@,
        options.filter_exclude,
    )
}

/// Decides whether an appended row is written: it passes the filter and, where rows are
/// de-duplicated, its key is not in `seen` yet, and is then recorded there.
pub fn accept_row(
    seen: &mut TextIndex,
    row: &Vec<CellValue>,
    plan: &OutputPlan,
    options: &MergeOptions,
    key_indices: &Vec<usize>,
) -> (r: bool)
    requires
        old(seen).wf(),
    ensures
        final(seen).wf(),
        ({
            let k = row_key_text(row_view(row@), key_indices@);
            let pass = row_passes(row_view(row@), *plan, *options);
            &&& r == (pass && (!options.deduplicate || old(seen).lookup(k) is None))
            &&& forall|q: Seq<char>| #[trigger] final(seen).lookup(q) is Some <==> (old(seen).lookup(q) is Some
                || (r && options.deduplicate && q == k))
        }),
{
    if !passes_filter(row, plan, options) {
        return false;
    }
    if options.deduplicate {
        let k = row_key(row, key_indices);
        if seen.get(&k).is_some() {
            return false;
        }
        seen.insert(k, 0);
    }
    true
}

/// Rows with distinct keys, found by key, in the order their keys first came.
pub struct KeyedRows {
    index: TextIndex,
    keys: Vec<String>,
    rows: Vec<Vec<CellValue>>,
}

impl KeyedRows {
    /// The index finds each key at its position and nothing else.
    pub closed spec fn inv(&self) -> bool {
        &&& self.index.wf()
        &&& self.keys@.len() == self.rows@.len()
        &&& self.keys@.len() <= usize::MAX
        &&& forall|i: int| 0 <= i < self.keys@.len() ==> #[trigger] self.index.lookup(self.keys@[i]@) == Some(i as usize)
        &&& forall|k: Seq<char>| #[trigger] self.index.lookup(k) matches Some(p) ==> p < self.keys@.len()
            && self.keys@[p as int]@ == k
    }

    /// The keys, in order.
    pub closed spec fn key_view(&self) -> Seq<Seq<char>> {
        texts(self.keys@)
    }

    /// The rows, in order.
    pub closed spec fn row_views(&self) -> Seq<Seq<CellView>> {
        rows_view(self.rows@)
    }

    /// No rows.
    pub fn new() -> (r: Self)
        ensures
            r.inv(),
            r.key_view().len() == 0,
            r.row_views().len() == 0,
    {
        KeyedRows { index: TextIndex::new(), keys: Vec::new(), rows: Vec::new() }
    }

    /// The number of rows.
    pub fn len(&self) -> (r: usize)
        requires
            self.inv(),
        ensures
            r == self.row_views().len(),
            r == self.key_view().len(),
    {
        self.rows.len()
    }

    /// The position of the row with key `k`.
    pub fn find(&self, k: &String) -> (r: Option<usize>)
        requires
            self.inv(),
        ensures
            match r {
                Some(p) => p < self.key_view().len() && self.key_view()[p as int] == k@,
                None => !self.key_view().contains(k@),
            },
    {
        let r = self.index.get(k);
        proof {
            if r is None && self.key_view().contains(k@) {
                let i = choose|i: int| 0 <= i < self.key_view().len() && self.key_view()[i] == k@;
                assert(self.index.lookup(self.keys@[i]@) == Some(i as usize));
            }
        }
        r
    }

    /// Adds `row` under the new key `k`.
    pub fn push(&mut self, k: String, row: Vec<CellValue>)
        requires
            old(self).inv(),
            !old(self).key_view().contains(k@),
        ensures
            final(self).inv(),
            final(self).key_view() == old(self).key_view().push(k@),
            final(self).row_views() == old(self).row_views().push(row_view(row@)),
    {
        let n = self.keys.len();
        let ghost old_keys = self.keys@;
        let ghost old_rows = self.rows@;
        self.index.insert(k.clone(), n);
        self.keys.push(k);
        self.rows.push(row);
        let count = self.keys.len();
        proof {
            assert(count == n + 1);
            assert(texts(self.keys@) =~= texts(old_keys).push(self.keys@[n as int]@));
            assert(rows_view(self.rows@) =~= rows_view(old_rows).push(row_view(self.rows@[n as int]@)));
            assert forall|i: int| 0 <= i < self.keys@.len() implies #[trigger] self.index.lookup(
                self.keys@[i]@,
            ) == Some(i as usize) by {
                if i < n {
                    assert(self.keys@[i] == old_keys[i]);
                    assert(texts(old_keys)[i] == old_keys[i]@);
                    assert(old_keys[i]@ != self.keys@[n as int]@);
                }
            }
        }
    }

    /// Replaces the row at `p` by `row`.
    fn replace_row(&mut self, p: usize, row: Vec<CellValue>) -> (old_row: Vec<CellValue>)
        requires
            old(self).inv(),
            p < old(self).row_views().len(),
        ensures
            final(self).inv(),
            final(self).key_view() == old(self).key_view(),
            final(self).row_views() == old(self).row_views().update(p as int, row_view(row@)),
            row_view(old_row@) == old(self).row_views()[p as int],
    {
        let mut taken = row;
        let ghost old_rows = self.rows@;
        self.rows.set_and_swap(p, &mut taken);
        proof {
            assert(rows_view(self.rows@) =~= rows_view(old_rows).update(p as int, rows_view(self.rows@)[p as int]));
        }
        taken
    }

    /// Sets the cell `column` of the row at `p`, where a floating-point sum has been made.
    pub fn set_cell(&mut self, p: usize, column: usize, value: CellValue)
        requires
            old(self).inv(),
            p < old(self).row_views().len(),
            column < old(self).row_views()[p as int].len(),
        ensures
            final(self).inv(),
            final(self).key_view() == old(self).key_view(),
            final(self).row_views() == old(self).row_views().update(
                p as int,
                old(self).row_views()[p as int].update(column as int, value@),
            ),
    {
        let mut row = self.replace_row(p, Vec::new());
        let ghost before = row@;
        row.set(column, value);
        proof {
            assert(row_view(row@) =~= row_view(before).update(column as int, value@));
        }
        self.replace_row(p, row);
    }

    /// The row at `p`.
    pub fn row(&self, p: usize) -> (r: &Vec<CellValue>)
        requires
            self.inv(),
            p < self.row_views().len(),
        ensures
            row_view(r@) == self.row_views()[p as int],
    {
        &self.rows[p]
    }

    /// The rows, sorted by key.
    pub fn into_sorted_rows(self) -> (r: Vec<Vec<CellValue>>)
        requires
            self.inv(),
        ensures
            rows_view(r@) == sorted_by_key(self.key_view(), self.row_views()),
    {
        let order = sorted_positions(&self.keys);
        let ghost ks = self.key_view();
        let ghost rs = self.row_views();
        let rows = self.rows;
        proof {
            lemma_key_order_len(ks);
        }
        let mut out: Vec<Vec<CellValue>> = Vec::new();
        let mut k: usize = 0;
        while k < order.len()
            invariant
                k <= order@.len(),
                order@.len() == ks.len(),
                rows@.len() == rs.len(),
                rs.len() == ks.len(),
                key_order(ks).len() == ks.len(),
                forall|i: int| 0 <= i < order@.len() ==> #[trigger] order@[i] == key_order(ks)[i].1,
                forall|i: int| 0 <= i < order@.len() ==> #[trigger] order@[i] < ks.len(),
                forall|i: int| 0 <= i < rows@.len() ==> #[trigger] row_view(rows@[i]@) == rs[i],
                out@.len() == k,
                rows_view(out@) == Seq::new(k as nat, |i: int| rs[key_order(ks)[i].1 as int]),
            decreases order@.len() - k,
        {
            let row = clone_row(&rows[order[k]]);
            let ghost prev = out@;
            out.push(row);
            proof {
                assert(out@ == prev.push(out@[k as int]));
                assert(row_view(out@[k as int]@) == rs[order@[k as int] as int]);
                assert forall|i: int| 0 <= i < k + 1 implies #[trigger] rows_view(out@)[i] == rs[key_order(
                    ks,
                )[i].1 as int] by {
                    if i < k {
                        assert(out@[i] == prev[i]);
                        assert(rows_view(prev)[i] == rs[key_order(ks)[i].1 as int]);
                    }
                }
                assert(rows_view(out@) =~= Seq::new((k + 1) as nat, |i: int| rs[key_order(ks)[i].1 as int]));
            }
            k = k + 1;
        }
        out
    }
}

/// A row with the same cells.
pub fn clone_row(row: &Vec<CellValue>) -> (r: Vec<CellValue>)
    ensures
        row_view(r@) == row_view(row@),
{
    let mut out: Vec<CellValue> = Vec::new();
    let mut i: usize = 0;
    while i < row.len()
        invariant
            i <= row@.len(),
            out@.len() == i,
            forall|q: int| 0 <= q < i ==> (#[trigger] out@[q])@ == row@[q]@,
        decreases row@.len() - i,
    {
        out.push(row[i].copied());
        i = i + 1;
    }
    proof {
        assert(row_view(out@) =~= row_view(row@));
    }
    out
}

/// `rows` ordered by `keys`, equal keys in their order.
pub open spec fn sorted_by_key(keys: Seq<Seq<char>>, rows: Seq<Seq<CellView>>) -> Seq<Seq<CellView>> {
    Seq::new(keys.len(), |i: int| rows[key_order(keys)[i].1 as int])
}

impl KeyedRows {
    /// No key occurs twice.
    pub proof fn lemma_distinct(&self)
        requires
            self.inv(),
        ensures
            self.key_view().no_duplicates(),
    {
        assert forall|i: int, j: int|
            0 <= i < self.key_view().len() && 0 <= j < self.key_view().len() && i != j implies self.key_view()[i]
            != self.key_view()[j] by {
            assert(self.key_view()[i] == self.keys@[i]@);
            assert(self.key_view()[j] == self.keys@[j]@);
            assert(self.index.lookup(self.keys@[i]@) == Some(i as usize));
            assert(self.index.lookup(self.keys@[j]@) == Some(j as usize));
        }
    }
}

/// The position of the key `k` among distinct keys.
pub open spec fn position_of(keys: Seq<Seq<char>>, k: Seq<char>) -> int {
    choose|p: int| 0 <= p < keys.len() && keys[p] == k
}

/// Among distinct keys, the position of a key is the one where it stands.
pub proof fn lemma_position_of(keys: Seq<Seq<char>>, p: int)
    requires
        keys.no_duplicates(),
        0 <= p < keys.len(),
    ensures
        position_of(keys, keys[p]) == p,
{
}

/// The cells of `existing` combined with `incoming` under `ops`: each pending sum left as it
/// is, every other column combined.
pub open spec fn aggregated(existing: Seq<CellView>, incoming: Seq<CellView>, ops: Seq<AggregateOp>, sep: Seq<char>) -> Seq<CellView> {
    Seq::new(
        existing.len(),
        |i: int|
            if pending_at(existing, incoming, ops, i) {
                existing[i]
            } else {
                combined(existing[i], cell_at(incoming, i), op_at(ops, i), sep)
            },
    )
}

/// What consolidating one row did.
pub enum GroupStep {
    /// The row did not pass the filter.
    Skipped,
    /// The row started a new group.
    Added,
    /// The row was combined into the group at this position; the listed columns are sums
    /// still to be made in floating point.
    Merged(usize, Vec<usize>),
    /// An exact integer sum with the group at this position passes the range of `i128`.
    Overflow(usize),
}

/// Consolidates `row`: a row that passes the filter starts a group under its key, or is
/// combined into the group with that key under `operations`.
pub fn consolidate_row(
    groups: &mut KeyedRows,
    row: Vec<CellValue>,
    plan: &OutputPlan,
    options: &MergeOptions,
    key_indices: &Vec<usize>,
    operations: &Vec<AggregateOp>,
) -> (r: GroupStep)
    requires
        old(groups).inv(),
    ensures
        final(groups).inv(),
        ({
            let rv = row_view(row@);
            let k = row_key_text(rv, key_indices@);
            let ks = old(groups).key_view();
            let rs = old(groups).row_views();
            &&& !row_passes(rv, *plan, *options) ==> r is Skipped && final(groups).key_view() == ks
                && final(groups).row_views() == rs
            &&& row_passes(rv, *plan, *options) && !ks.contains(k) ==> r is Added
                && final(groups).key_view() == ks.push(k) && final(groups).row_views() == rs.push(rv)
            &&& row_passes(rv, *plan, *options) && ks.contains(k) ==> {
                let p = position_of(ks, k);
                let fits = sums_fit(rs[p], rv, operations@);
                &&& !fits ==> r == GroupStep::Overflow(p as usize) && final(groups).key_view() == ks
                    && final(groups).row_views() == rs
                &&& fits ==> (r matches GroupStep::Merged(q, pending) && q == p && pending@
                    == pending_columns(rs[p], rv, operations@, rs[p].len()))
                    && final(groups).key_view() == ks && final(groups).row_views() == rs.update(
                    p,
                    aggregated(rs[p], rv, operations@, options.text_join_separator@),
                )
            }
        }),
{
    if !passes_filter(&row, plan, options) {
        return GroupStep::Skipped;
    }
    let k = row_key(&row, key_indices);
    match groups.find(&k) {
        None => {
            groups.push(k, row);
            GroupStep::Added
        },
        Some(p) => {
            proof {
                groups.lemma_distinct();
                lemma_position_of(groups.key_view(), p as int);
            }
            if !sums_fit_row(groups.row(p), &row, operations) {
                return GroupStep::Overflow(p);
            }
            let mut existing = groups.replace_row(p, Vec::new());
            let ghost before = row_view(existing@);
            let pending = aggregate_rows(
                &mut existing,
                &row,
                operations,
                options.text_join_separator.as_str(),
            );
            proof {
                assert(row_view(existing@) =~= aggregated(
                    before,
                    row_view(row@),
                    operations@,
                    options.text_join_separator@,
                ));
            }
            groups.replace_row(p, existing);
            GroupStep::Merged(p, pending)
        },
    }
}

/// The cells of `existing`, each empty one filled from `incoming` where that one is not
/// empty.
pub open spec fn filled(existing: Seq<CellView>, incoming: Seq<CellView>) -> Seq<CellView> {
    Seq::new(
        existing.len(),
        |i: int|
            if i < incoming.len() && cell_empty(existing[i]) && !cell_empty(incoming[i]) {
                incoming[i]
            } else {
                existing[i]
            },
    )
}

/// Collects a row of a joined table: the first row with a key is kept, and later rows with
/// that key fill its empty cells.
pub fn collect_join_row(incoming: &mut KeyedRows, row: Vec<CellValue>, key_indices: &Vec<usize>)
    requires
        old(incoming).inv(),
    ensures
        final(incoming).inv(),
        ({
            let rv = row_view(row@);
            let k = row_key_text(rv, key_indices@);
            let ks = old(incoming).key_view();
            let rs = old(incoming).row_views();
            &&& !ks.contains(k) ==> final(incoming).key_view() == ks.push(k)
                && final(incoming).row_views() == rs.push(rv)
            &&& ks.contains(k) ==> final(incoming).key_view() == ks && final(incoming).row_views()
                == rs.update(position_of(ks, k), filled(rs[position_of(ks, k)], rv))
        }),
{
    let k = row_key(&row, key_indices);
    match incoming.find(&k) {
        None => {
            incoming.push(k, row);
        },
        Some(p) => {
            proof {
                incoming.lemma_distinct();
                lemma_position_of(incoming.key_view(), p as int);
            }
            let mut existing = incoming.replace_row(p, Vec::new());
            let ghost before = row_view(existing@);
            fill_empty(&mut existing, &row);
            proof {
                assert(row_view(existing@) =~= filled(before, row_view(row@)));
            }
            incoming.replace_row(p, existing);
        },
    }
}

impl KeyedRows {
    /// The key at `p`.
    pub fn key(&self, p: usize) -> (r: &String)
        requires
            self.inv(),
            p < self.key_view().len(),
        ensures
            r@ == self.key_view()[p as int],
    {
        &self.keys[p]
    }

    /// The rows, in the order their keys first came.
    pub fn into_rows(self) -> (r: Vec<Vec<CellValue>>)
        requires
            self.inv(),
        ensures
            rows_view(r@) == self.row_views(),
    {
        self.rows
    }
}

/// The keys of `rows`.
pub open spec fn row_keys(rows: Seq<Seq<CellView>>, idx: Seq<usize>) -> Seq<Seq<char>> {
    rows.map_values(|r: Seq<CellView>| row_key_text(r, idx))
}

/// The rows of `cur` that a join keeps, in order: a row whose key the joined table has is
/// filled from that table's row; a row without a partner stays unless the join is inner.
pub open spec fn kept_rows(
    cur: Seq<Seq<CellView>>,
    inc_keys: Seq<Seq<char>>,
    inc_rows: Seq<Seq<CellView>>,
    kind: JoinKind,
    idx: Seq<usize>,
) -> Seq<Seq<CellView>>
    decreases cur.len(),
{
    if cur.len() == 0 {
        Seq::empty()
    } else {
        let prev = kept_rows(cur.drop_last(), inc_keys, inc_rows, kind, idx);
        let r = cur.last();
        let k = row_key_text(r, idx);
        if inc_keys.contains(k) {
            prev.push(filled(r, inc_rows[position_of(inc_keys, k)]))
        } else if kind != JoinKind::Inner {
            prev.push(r)
        } else {
            prev
        }
    }
}

/// The rows of the joined table whose key no current row has, in order.
pub open spec fn unmatched_rows(
    cur_keys: Seq<Seq<char>>,
    inc_keys: Seq<Seq<char>>,
    inc_rows: Seq<Seq<CellView>>,
) -> Seq<Seq<CellView>>
    decreases inc_keys.len(),
{
    if inc_keys.len() == 0 || inc_rows.len() == 0 {
        Seq::empty()
    } else {
        let prev = unmatched_rows(cur_keys, inc_keys.drop_last(), inc_rows.drop_last());
        if !cur_keys.contains(inc_keys.last()) {
            prev.push(inc_rows.last())
        } else {
            prev
        }
    }
}

/// The rows after joining a table: the kept rows, then, for a full join, the joined table's
/// rows that matched nothing.
pub open spec fn join_result(
    cur: Seq<Seq<CellView>>,
    inc_keys: Seq<Seq<char>>,
    inc_rows: Seq<Seq<CellView>>,
    kind: JoinKind,
    idx: Seq<usize>,
) -> Seq<Seq<CellView>> {
    kept_rows(cur, inc_keys, inc_rows, kind, idx) + if kind == JoinKind::Full {
        unmatched_rows(row_keys(cur, idx), inc_keys, inc_rows)
    } else {
        Seq::empty()
    }
}

/// Joins the rows of the next table, collected by key in `incoming`, to the current rows.
pub fn join_tables(
    current: Vec<Vec<CellValue>>,
    incoming: &KeyedRows,
    kind: JoinKind,
    key_indices: &Vec<usize>,
) -> (r: Vec<Vec<CellValue>>)
    requires
        incoming.inv(),
    ensures
        rows_view(r@) == join_result(
            rows_view(current@),
            incoming.key_view(),
            incoming.row_views(),
            kind,
            key_indices@,
        ),
{
    let ghost cur = rows_view(current@);
    let ghost iks = incoming.key_view();
    let ghost irs = incoming.row_views();
    proof {
        incoming.lemma_distinct();
    }
    let mut seen = TextIndex::new();
    let mut out: Vec<Vec<CellValue>> = Vec::new();
    let mut i: usize = 0;
    while i < current.len()
        invariant
            i <= current@.len(),
            cur == rows_view(current@),
            incoming.inv(),
            iks == incoming.key_view(),
            irs == incoming.row_views(),
            iks.no_duplicates(),
            seen.wf(),
            forall|q: Seq<char>| #[trigger] seen.lookup(q) is Some <==> row_keys(cur.take(i as int), key_indices@).contains(q),
            rows_view(out@) == kept_rows(cur.take(i as int), iks, irs, kind, key_indices@),
        decreases current@.len() - i,
    {
        let row = &current[i];
        let k = row_key(row, key_indices);
        let ghost prev_out = out@;
        proof {
            assert(cur.take(i + 1).drop_last() =~= cur.take(i as int));
            assert(cur.take(i + 1).last() == cur[i as int]);
            assert(row_keys(cur.take(i + 1), key_indices@) =~= row_keys(cur.take(i as int), key_indices@).push(k@));
        }
        if seen.get(&k).is_none() {
            seen.insert(k.clone(), 0);
        }
        match incoming.find(&k) {
            Some(p) => {
                proof {
                    lemma_position_of(iks, p as int);
                }
                let mut joined = clone_row(row);
                let ghost before = row_view(joined@);
                fill_empty(&mut joined, incoming.row(p));
                proof {
                    assert(row_view(joined@) =~= filled(before, irs[p as int]));
                }
                out.push(joined);
            },
            None => {
                if kind != JoinKind::Inner {
                    out.push(clone_row(row));
                }
            },
        }
        proof {
            assert(rows_view(out@) =~= kept_rows(cur.take(i + 1), iks, irs, kind, key_indices@));
        }
        i = i + 1;
    }
    proof {
        assert(cur.take(cur.len() as int) =~= cur);
    }
    let ghost kept = rows_view(out@);
    if kind == JoinKind::Full {
        let mut p: usize = 0;
        let n = incoming.len();
        while p < n
            invariant
                p <= n,
                n == iks.len(),
                incoming.inv(),
                iks == incoming.key_view(),
                irs == incoming.row_views(),
                irs.len() == iks.len(),
                seen.wf(),
                forall|q: Seq<char>| #[trigger] seen.lookup(q) is Some <==> row_keys(cur, key_indices@).contains(q),
                rows_view(out@) == kept + unmatched_rows(
                    row_keys(cur, key_indices@),
                    iks.take(p as int),
                    irs.take(p as int),
                ),
            decreases n - p,
        {
            proof {
                assert(iks.take(p + 1).drop_last() =~= iks.take(p as int));
                assert(irs.take(p + 1).drop_last() =~= irs.take(p as int));
                assert(iks.take(p + 1).last() == iks[p as int]);
                assert(irs.take(p + 1).last() == irs[p as int]);
            }
            let ghost prev_out = out@;
            if seen.get(incoming.key(p)).is_none() {
                let extra = clone_row(incoming.row(p));
                out.push(extra);
                proof {
                    assert(rows_view(out@) =~= rows_view(prev_out).push(irs[p as int]));
                    assert(!row_keys(cur, key_indices@).contains(iks[p as int]));
                }
            } else {
                proof {
                    assert(row_keys(cur, key_indices@).contains(iks[p as int]));
                }
            }
            proof {
                assert(rows_view(out@) =~= kept + unmatched_rows(
                    row_keys(cur, key_indices@),
                    iks.take(p + 1),
                    irs.take(p + 1),
                ));
            }
            p = p + 1;
        }
        proof {
            assert(iks.take(n as int) =~= iks);
            assert(irs.take(n as int) =~= irs);
        }
    } else {
        proof {
            assert(rows_view(out@) =~= kept + Seq::<Seq<CellView>>::empty());
        }
    }
    out
}

/// The rows that pass the filter, in order.
pub open spec fn passing_rows(rows: Seq<Seq<CellView>>, plan: OutputPlan, options: MergeOptions) -> Seq<Seq<CellView>>
    decreases rows.len(),
{
    if rows.len() == 0 {
        Seq::empty()
    } else {
        let prev = passing_rows(rows.drop_last(), plan, options);
        if row_passes(rows.last(), plan, options) {
            prev.push(rows.last())
        } else {
            prev
        }
    }
}

/// The joined rows as they are written: sorted by key, equal keys in their order, and only
/// those that pass the filter.
pub fn finish_join(
    rows: Vec<Vec<CellValue>>,
    key_indices: &Vec<usize>,
    plan: &OutputPlan,
    options: &MergeOptions,
) -> (r: Vec<Vec<CellValue>>)
    ensures
        rows_view(r@) == passing_rows(
            sorted_by_key(row_keys(rows_view(rows@), key_indices@), rows_view(rows@)),
            *plan,
            *options,
        ),
{
    let ghost rs = rows_view(rows@);
    let mut keys: Vec<String> = Vec::new();
    let mut i: usize = 0;
    while i < rows.len()
        invariant
            i <= rows@.len(),
            rs == rows_view(rows@),
            texts(keys@) == row_keys(rs.take(i as int), key_indices@),
        decreases rows@.len() - i,
    {
        let ghost prev = keys@;
        keys.push(row_key(&rows[i], key_indices));
        proof {
            assert(texts(keys@) =~= texts(prev).push(row_key_text(rs[i as int], key_indices@)));
            assert(row_keys(rs.take(i + 1), key_indices@) =~= row_keys(rs.take(i as int), key_indices@).push(
                row_key_text(rs[i as int], key_indices@),
            ));
        }
        i = i + 1;
    }
    proof {
        assert(rs.take(rs.len() as int) =~= rs);
    }
    let ghost ks = texts(keys@);
    let ghost sorted = sorted_by_key(ks, rs);
    let order = sorted_positions(&keys);
    proof {
        lemma_key_order_len(ks);
    }
    let mut out: Vec<Vec<CellValue>> = Vec::new();
    let mut k: usize = 0;
    while k < order.len()
        invariant
            k <= order@.len(),
            order@.len() == ks.len(),
            ks.len() == rs.len(),
            rows@.len() == rs.len(),
            rs == rows_view(rows@),
            key_order(ks).len() == ks.len(),
            sorted == sorted_by_key(ks, rs),
            forall|q: int| 0 <= q < order@.len() ==> #[trigger] order@[q] == key_order(ks)[q].1,
            forall|q: int| 0 <= q < order@.len() ==> #[trigger] order@[q] < ks.len(),
            rows_view(out@) == passing_rows(sorted.take(k as int), *plan, *options),
        decreases order@.len() - k,
    {
        let row = &rows[order[k]];
        proof {
            assert(sorted.take(k + 1).drop_last() =~= sorted.take(k as int));
            assert(sorted.take(k + 1).last() == sorted[k as int]);
            assert(sorted[k as int] == rs[order@[k as int] as int]);
            assert(row_view(row@) == rs[order@[k as int] as int]);
        }
        if passes_filter(row, plan, options) {
            out.push(clone_row(row));
        }
        proof {
            assert(rows_view(out@) =~= passing_rows(sorted.take(k + 1), *plan, *options));
        }
        k = k + 1;
    }
    proof {
        assert(sorted.take(sorted.len() as int) =~= sorted);
    }
    out
}


/// A left or full join keeps every current row, in order, with its width and its non-empty
/// cells as they were; only empty cells are filled from the joined table.
pub proof fn lemma_outer_join_keeps_rows(
    cur: Seq<Seq<CellView>>,
    inc_keys: Seq<Seq<char>>,
    inc_rows: Seq<Seq<CellView>>,
    kind: JoinKind,
    idx: Seq<usize>,
    i: int,
    c: int,
)
    requires
        kind != JoinKind::Inner,
    ensures
        kept_rows(cur, inc_keys, inc_rows, kind, idx).len() == cur.len(),
        0 <= i < cur.len() ==> kept_rows(cur, inc_keys, inc_rows, kind, idx)[i].len() == cur[i].len(),
        0 <= i < cur.len() && 0 <= c < cur[i].len() && !cell_empty(cur[i][c]) ==> kept_rows(
            cur,
            inc_keys,
            inc_rows,
            kind,
            idx,
        )[i][c] == cur[i][c],
    decreases cur.len(),
{
    if cur.len() > 0 {
        let d = cur.drop_last();
        lemma_outer_join_keeps_rows(d, inc_keys, inc_rows, kind, idx, i, c);
        let prev = kept_rows(d, inc_keys, inc_rows, kind, idx);
        let whole = kept_rows(cur, inc_keys, inc_rows, kind, idx);
        if 0 <= i < cur.len() - 1 {
            assert(whole[i] == prev[i]);
            assert(d[i] == cur[i]);
        }
    }
}

/// Whether table `i` of `ts` is a workbook sheet and the first sheet of its workbook.
pub open spec fn first_of_workbook(ts: Seq<SourceTable>, i: int) -> bool {
    &&& ts[i].kind is Workbook
    &&& forall|j: int| 0 <= j < i ==> !((#[trigger] ts[j]).kind is Workbook && ts[j].path@ == ts[i].path@)
}

/// The positions of the sheets of workbook `path` among the first `n` tables of `ts`.
pub open spec fn workbook_sheets(ts: Seq<SourceTable>, path: Seq<char>, n: nat) -> Seq<usize>
    decreases n,
{
    if n == 0 {
        Seq::empty()
    } else {
        let p = workbook_sheets(ts, path, (n - 1) as nat);
        if ts[n - 1].kind is Workbook && ts[n - 1].path@ == path {
            p.push((n - 1) as usize)
        } else {
            p
        }
    }
}

/// The order in which an appending merge reads the first `n` tables of `ts`: a CSV file where
/// it stands, a workbook's sheets all together where its first sheet stands.
pub open spec fn append_steps(ts: Seq<SourceTable>, n: nat) -> Seq<usize>
    decreases n,
{
    if n == 0 {
        Seq::empty()
    } else {
        let p = append_steps(ts, (n - 1) as nat);
        let i = n - 1;
        if ts[i].kind is Csv {
            p.push(i as usize)
        } else if first_of_workbook(ts, i) {
            p + workbook_sheets(ts, ts[i].path@, ts.len())
        } else {
            p
        }
    }
}

/// The positions of the sheets of the workbook at `tables[i]`, in order.
fn sheets_of_workbook(tables: &[SourceTable], i: usize) -> (r: Vec<usize>)
    requires
        i < tables@.len(),
    ensures
        r@ == workbook_sheets(tables@, tables@[i as int].path@, tables@.len()),
{
    let mut out: Vec<usize> = Vec::new();
    let mut j: usize = 0;
    while j < tables.len()
        invariant
            i < tables@.len(),
            j <= tables@.len(),
            out@ == workbook_sheets(tables@, tables@[i as int].path@, j as nat),
        decreases tables@.len() - j,
    {
        let workbook = match tables[j].kind {
            SourceKind::Workbook => true,
            _ => false,
        };
        if workbook && tables[j].path == tables[i].path {
            out.push(j);
        }
        j = j + 1;
    }
    out
}

/// The order in which an appending merge reads `tables`: each CSV file where it stands, and
/// all the sheets of a workbook, in their order, where its first sheet stands.
pub fn append_order(tables: &[SourceTable]) -> (r: Vec<usize>)
    ensures
        r@ == append_steps(tables@, tables@.len()),
{
    let mut out: Vec<usize> = Vec::new();
    let mut i: usize = 0;
    while i < tables.len()
        invariant
            i <= tables@.len(),
            out@ == append_steps(tables@, i as nat),
        decreases tables@.len() - i,
    {
        match tables[i].kind {
            SourceKind::Csv { .. } => {
                out.push(i);
            },
            SourceKind::Workbook => {
                let mut first = true;
                let mut j: usize = 0;
                while j < i
                    invariant
                        i < tables@.len(),
                        j <= i,
                        tables@[i as int].kind is Workbook,
                        first <==> forall|q: int| 0 <= q < j ==> !((#[trigger] tables@[q]).kind is Workbook
                            && tables@[q].path@ == tables@[i as int].path@),
                    decreases i - j,
                {
                    let workbook = match tables[j].kind {
                        SourceKind::Workbook => true,
                        _ => false,
                    };
                    if workbook && tables[j].path == tables[i].path {
                        first = false;
                    }
                    j = j + 1;
                }
                if first {
                    let sheets = sheets_of_workbook(tables, i);
                    let mut k: usize = 0;
                    let ghost before = out@;
                    while k < sheets.len()
                        invariant
                            k <= sheets@.len(),
                            out@ == before + sheets@.take(k as int),
                        decreases sheets@.len() - k,
                    {
                        out.push(sheets[k]);
                        proof {
                            assert(sheets@.take(k + 1) =~= sheets@.take(k as int).push(sheets@[k as int]));
                        }
                        k = k + 1;
                    }
                    proof {
                        assert(sheets@.take(k as int) =~= sheets@);
                    }
                }
            },
        }
        i = i + 1;
    }
    out
}

/// The most columns that an XLSX worksheet holds.
pub const XLSX_MAX_COLUMNS: usize = 16_384;

/// Whether some table of `tables` is checked.
pub fn any_enabled(tables: &[SourceTable]) -> (r: bool)
    ensures
        r == (enabled_tables(tables@).len() > 0),
{
    let mut i: usize = 0;
    let mut found = false;
    assert(tables@.take(0) =~= Seq::<SourceTable>::empty());
    while i < tables.len()
        invariant
            i <= tables@.len(),
            found == (enabled_tables(tables@.take(i as int)).len() > 0),
        decreases tables@.len() - i,
    {
        assert(tables@.take(i + 1).drop_last() =~= tables@.take(i as int));
        assert(tables@.take(i + 1).last() == tables@[i as int]);
        if tables[i].enabled {
            found = true;
        }
        i = i + 1;
    }
    assert(tables@.take(tables@.len() as int) =~= tables@);
    found
}

/// The message of a merge that cannot start, where one applies: no table is checked; the
/// plan has no column (to be written to a workbook, or to be imported); a workbook would
/// have more columns than a worksheet holds.
pub open spec fn merge_refusal_text(tables: Seq<SourceTable>, columns: nat, to_workbook: bool) -> Option<Seq<char>> {
    if enabled_tables(tables).len() == 0 {
        Some("没有勾选任何表"@)
    } else if columns == 0 {
        if to_workbook {
            Some("合并后没有可输出的列，请检查合并方式或字段映射"@)
        } else {
            Some("合并后没有可导入的列，请检查合并方式或字段映射"@)
        }
    } else if to_workbook && columns > XLSX_MAX_COLUMNS {
        Some("输出列数超过 XLSX 的 16,384 列限制"@)
    } else {
        None
    }
}

/// Why the merge of `tables` into the columns of `plan` cannot start, if it cannot: into a
/// workbook where `to_workbook`, else into a database.
pub fn merge_refusal(tables: &[SourceTable], plan: &OutputPlan, to_workbook: bool) -> (r: Option<String>)
    ensures
        match r {
            Some(m) => merge_refusal_text(tables@, plan.headers@.len(), to_workbook) == Some(m@),
            None => merge_refusal_text(tables@, plan.headers@.len(), to_workbook) is None,
        },
{
    if !any_enabled(tables) {
        Some(owned("没有勾选任何表"))
    } else if plan.headers.len() == 0 {
        if to_workbook {
            Some(owned("合并后没有可输出的列，请检查合并方式或字段映射"))
        } else {
            Some(owned("合并后没有可导入的列，请检查合并方式或字段映射"))
        }
    } else if to_workbook && plan.headers.len() > XLSX_MAX_COLUMNS {
        Some(owned("输出列数超过 XLSX 的 16,384 列限制"))
    } else {
        None
    }
}

/// The message of a consolidation or join that has no key column; other modes need none.
pub open spec fn key_refusal_text(mode: MergeMode, keys: nat) -> Option<Seq<char>> {
    if keys > 0 {
        None
    } else {
        match mode {
            MergeMode::Consolidate => Some("按键汇总至少需要一个有效的键字段"@),
            MergeMode::Join => Some("横向关联至少需要一个有效的键字段"@),
            _ => None,
        }
    }
}

/// Why a merge in `mode` over the key columns `key_indices` cannot start, if it cannot.
pub fn key_refusal(mode: MergeMode, key_indices: &Vec<usize>) -> (r: Option<String>)
    ensures
        match r {
            Some(m) => key_refusal_text(mode, key_indices@.len()) == Some(m@),
            None => key_refusal_text(mode, key_indices@.len()) is None,
        },
{
    if key_indices.len() > 0 {
        None
    } else {
        match mode {
            MergeMode::Consolidate => Some(owned("按键汇总至少需要一个有效的键字段")),
            MergeMode::Join => Some(owned("横向关联至少需要一个有效的键字段")),
            _ => None,
        }
    }
}

/// The rows of a join after the table at `index`: the first table's rows as collected, and
/// each later table joined to the rows so far.
pub fn join_step(
    index: usize,
    current: Vec<Vec<CellValue>>,
    incoming: KeyedRows,
    kind: JoinKind,
    key_indices: &Vec<usize>,
) -> (r: Vec<Vec<CellValue>>)
    requires
        incoming.inv(),
    ensures
        rows_view(r@) == (if index == 0 {
            incoming.row_views()
        } else {
            join_result(rows_view(current@), incoming.key_view(), incoming.row_views(), kind, key_indices@)
        }),
{
    if index == 0 {
        incoming.into_rows()
    } else {
        join_tables(current, &incoming, kind, key_indices)
    }
}

} // verus!
