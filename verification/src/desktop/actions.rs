//! What the window's controls do to its state. Confirmation dialogs, the clipboard and the
//! file dialogs belong to the application, which calls these once the user has chosen.
use vstd::prelude::*;
use crate::desktop::config::without;
use crate::desktop::model::{AggregateOp, ColumnMapping, JoinKind, MergeMode, MergeOptions, SourceTable, TransformOp, planned_headers};
use crate::desktop::app::{aggregate_at, transform_at, comma_parts, named_parts};
use crate::desktop::config::remembered;
use crate::desktop::window::{AppState, shows_error};
use crate::engine::inspect::{CheckIssue, IssueLevel};
use crate::text::{concat, decimal, decimal_string, joined};
use crate::desktop::window::{MergeApp, kept_selection};
use crate::headers::texts;

verus! {

broadcast use vstd::seq_lib::group_seq_properties;

/// `t` switched on or off.
pub open spec fn with_enabled(t: SourceTable, enabled: bool) -> SourceTable {
    SourceTable { enabled, ..t }
}

/// The tables `ts` with those of workbook `path` switched to `enabled`; with `path` absent,
/// all of them.
pub open spec fn switched(ts: Seq<SourceTable>, path: Option<Seq<char>>, enabled: bool) -> Seq<SourceTable> {
    ts.map_values(
        |t: SourceTable|
            if path is None || t.path@ == path->0 {
                with_enabled(t, enabled)
            } else {
                t
            },
    )
}

/// The tables of `ts` that are not in workbook `path`, in order.
pub open spec fn outside_group(ts: Seq<SourceTable>, path: Seq<char>) -> Seq<SourceTable>
    decreases ts.len(),
{
    if ts.len() == 0 {
        Seq::empty()
    } else {
        let p = outside_group(ts.drop_last(), path);
        if ts.last().path@ == path {
            p
        } else {
            p.push(ts.last())
        }
    }
}

/// How many tables of `ts` are in workbook `path`.
pub open spec fn group_count(ts: Seq<SourceTable>, path: Seq<char>) -> nat
    decreases ts.len(),
{
    if ts.len() == 0 {
        0
    } else {
        group_count(ts.drop_last(), path) + if ts.last().path@ == path {
            1nat
        } else {
            0nat
        }
    }
}

/// The positions of the enabled tables of `ts`, in order.
pub open spec fn enabled_index_list(ts: Seq<SourceTable>) -> Seq<usize>
    decreases ts.len(),
{
    if ts.len() == 0 {
        Seq::empty()
    } else {
        let p = enabled_index_list(ts.drop_last());
        if ts.last().enabled {
            p.push((ts.len() - 1) as usize)
        } else {
            p
        }
    }
}

/// The suggested target for the source column `name`: that of the first pair of `pairs`
/// named after it.
pub open spec fn suggestion_for(pairs: Seq<(String, String)>, name: Seq<char>) -> Option<String>
    decreases pairs.len(),
{
    if pairs.len() == 0 {
        None
    } else if pairs[0].0@ == name {
        Some(pairs[0].1)
    } else {
        suggestion_for(pairs.drop_first(), name)
    }
}

/// `m` with its target replaced by the suggestion for its source column, where there is one.
pub open spec fn suggested(m: ColumnMapping, pairs: Seq<(String, String)>) -> ColumnMapping {
    match suggestion_for(pairs, m.source_name@) {
        Some(t) => ColumnMapping { target_name: t, ..m },
        None => m,
    }
}

/// `m` back to its defaults: the source name as target, enabled, unchanged values, the
/// first value of a group.
pub open spec fn reset(m: ColumnMapping) -> ColumnMapping {
    ColumnMapping {
        target_name: m.source_name,
        enabled: true,
        transform: TransformOp::Unchanged,
        aggregate: AggregateOp::First,
        ..m
    }
}

/// The merge mode at position `index` of its option box; positions outside it mean union.
pub open spec fn mode_at(index: i32) -> MergeMode {
    if index == 1 {
        MergeMode::Intersection
    } else if index == 2 {
        MergeMode::Manual
    } else if index == 3 {
        MergeMode::Consolidate
    } else if index == 4 {
        MergeMode::Join
    } else {
        MergeMode::Union
    }
}

/// The join at position `index` of its option box; positions outside it mean a left join.
pub open spec fn join_at(index: i32) -> JoinKind {
    if index == 1 {
        JoinKind::Inner
    } else if index == 2 {
        JoinKind::Full
    } else {
        JoinKind::Left
    }
}

/// Where column `i` of `n` lands when moved by `direction`, kept inside the columns.
pub open spec fn moved_to(i: int, direction: int, n: int) -> int {
    if i + direction < 0 {
        0
    } else if i + direction > n - 1 {
        n - 1
    } else {
        i + direction
    }
}

/// The header start row chosen as `row`: at least the first.
pub open spec fn header_start(row: i32) -> usize {
    if row < 1 {
        1
    } else {
        row as usize
    }
}

/// The number of header rows chosen as `rows`: one to three.
pub open spec fn header_count(rows: i32) -> usize {
    if rows < 1 {
        1
    } else if rows > 3 {
        3
    } else {
        rows as usize
    }
}

/// The name under which a report writes a level.
pub open spec fn level_name(level: IssueLevel) -> Seq<char> {
    match level {
        IssueLevel::Info => "Info"@,
        IssueLevel::Warning => "Warning"@,
        IssueLevel::Error => "Error"@,
    }
}

/// One finding in a report: its level in brackets and its title, then its detail.
pub open spec fn report_entry(i: CheckIssue) -> Seq<char> {
    "["@ + level_name(i.level) + "] "@ + i.title@ + "\n"@ + i.detail@
}

/// `max(index, 0)` as a position.
pub open spec fn position_of(index: i32) -> usize {
    if index < 0 {
        0
    } else {
        index as usize
    }
}

/// The tables `ts` with those of workbook `path` (all of them where `path` is absent)
/// switched to `enabled`.
fn switch_tables(ts: Vec<SourceTable>, path: Option<&str>, enabled: bool) -> (r: Vec<SourceTable>)
    ensures
        r@ == switched(ts@, match path {
            Some(p) => Some(p@),
            None => None,
        }, enabled),
{
    let ghost p: Option<Seq<char>> = match path {
        Some(p) => Some(p@),
        None => None,
    };
    let target: Option<String> = match path {
        Some(p) => Some(crate::text::owned(p)),
        None => None,
    };
    let ghost start = ts@;
    let n = ts.len();
    let mut rest = ts;
    let mut out: Vec<SourceTable> = Vec::new();
    let mut k: usize = 0;
    proof {
        assert(start.skip(0) =~= start);
        assert(start.take(0) =~= Seq::<SourceTable>::empty());
    }
    while rest.len() > 0
        invariant
            k <= start.len(),
            start.len() == n,
            rest@ == start.skip(k as int),
            out@ == switched(start.take(k as int), p, enabled),
            match target {
                Some(t) => p == Some(t@),
                None => p is None,
            },
        decreases rest@.len(),
    {
        let mut t = rest.remove(0);
        let hit = match &target {
            Some(x) => t.path == *x,
            None => true,
        };
        if hit {
            t.enabled = enabled;
        }
        out.push(t);
        proof {
            assert(start.take(k + 1) =~= start.take(k as int).push(start[k as int]));
            assert(start.skip(k + 1) =~= start.skip(k as int).drop_first());
            assert(switched(start.take(k + 1), p, enabled) =~= switched(start.take(k as int), p, enabled).push(
                out@.last(),
            ));
        }
        k = k + 1;
    }
    proof {
        assert(start.take(k as int) =~= start);
    }
    out
}

/// A list without entries equal to `value` loses nothing by removing them.
proof fn lemma_without_absent(items: Seq<Seq<char>>, value: Seq<char>)
    requires
        !items.contains(value),
    ensures
        without(items, value) == items,
    decreases items.len(),
{
    if items.len() > 0 {
        assert(!items.drop_last().contains(value)) by {
            if items.drop_last().contains(value) {
                let i = choose|i: int| 0 <= i < items.drop_last().len() && items.drop_last()[i] == value;
                assert(items[i] == value);
            }
        }
        lemma_without_absent(items.drop_last(), value);
        assert(items.last() != value) by {
            assert(items[items.len() - 1] == items.last());
        }
        assert(items.drop_last().push(items.last()) =~= items);
    }
}

/// Folding a workbook and then folding it again leaves the folded workbooks as they were.
pub proof fn lemma_fold_twice(items: Seq<Seq<char>>, path: Seq<char>)
    requires
        !items.contains(path),
    ensures
        items.push(path).contains(path),
        without(items.push(path), path) == items,
{
    assert(items.push(path)[items.len() as int] == path);
    assert(items.push(path).drop_last() =~= items);
    lemma_without_absent(items, path);
}

/// The positions of the enabled tables of `ts`.
pub fn enabled_positions_list(ts: &Vec<SourceTable>) -> (r: Vec<usize>)
    ensures
        r@ == enabled_index_list(ts@),
{
    let mut out: Vec<usize> = Vec::new();
    let mut i: usize = 0;
    proof {
        assert(ts@.take(0) =~= Seq::<SourceTable>::empty());
    }
    while i < ts.len()
        invariant
            i <= ts@.len(),
            out@ == enabled_index_list(ts@.take(i as int)),
        decreases ts@.len() - i,
    {
        proof {
            assert(ts@.take(i + 1).drop_last() =~= ts@.take(i as int));
        }
        if ts[i].enabled {
            out.push(i);
        }
        i = i + 1;
    }
    proof {
        assert(ts@.take(i as int) =~= ts@);
    }
    out
}

/// The suggestion for source column `name` among `pairs`.
pub fn suggestion_lookup(pairs: &[(String, String)], name: &String) -> (r: Option<String>)
    ensures
        r == suggestion_for(pairs@, name@),
{
    let mut i: usize = 0;
    while i < pairs.len()
        invariant
            i <= pairs@.len(),
            suggestion_for(pairs@, name@) == suggestion_for(pairs@.skip(i as int), name@),
        decreases pairs@.len() - i,
    {
        proof {
            assert(pairs@.skip(i as int).drop_first() =~= pairs@.skip(i + 1));
        }
        if pairs[i].0 == *name {
            return Some(pairs[i].1.clone());
        }
        i = i + 1;
    }
    None
}

/// The mappings `ms`, each given the suggestion for its source column.
fn suggest_all(ms: Vec<ColumnMapping>, pairs: &[(String, String)]) -> (r: Vec<ColumnMapping>)
    ensures
        r@ == ms@.map_values(|m: ColumnMapping| suggested(m, pairs@)),
{
    let ghost start = ms@;
    let n = ms.len();
    let mut rest = ms;
    let mut out: Vec<ColumnMapping> = Vec::new();
    let mut k: usize = 0;
    proof {
        assert(start.skip(0) =~= start);
    }
    while rest.len() > 0
        invariant
            k <= start.len(),
            start.len() == n,
            rest@ == start.skip(k as int),
            out@ == start.take(k as int).map_values(|m: ColumnMapping| suggested(m, pairs@)),
        decreases rest@.len(),
    {
        let mut m = rest.remove(0);
        match suggestion_lookup(pairs, &m.source_name) {
            Some(t) => {
                m.target_name = t;
            },
            None => {},
        }
        out.push(m);
        proof {
            assert(start.take(k + 1) =~= start.take(k as int).push(start[k as int]));
            assert(start.skip(k + 1) =~= start.skip(k as int).drop_first());
            assert(out@ =~= start.take(k + 1).map_values(|m: ColumnMapping| suggested(m, pairs@)));
        }
        k = k + 1;
    }
    proof {
        assert(start.take(k as int) =~= start);
    }
    out
}

/// The mappings `ms`, each back to its defaults.
fn reset_all(ms: Vec<ColumnMapping>) -> (r: Vec<ColumnMapping>)
    ensures
        r@ == ms@.map_values(|m: ColumnMapping| reset(m)),
{
    let ghost start = ms@;
    let n = ms.len();
    let mut rest = ms;
    let mut out: Vec<ColumnMapping> = Vec::new();
    let mut k: usize = 0;
    proof {
        assert(start.skip(0) =~= start);
    }
    while rest.len() > 0
        invariant
            k <= start.len(),
            start.len() == n,
            rest@ == start.skip(k as int),
            out@ == start.take(k as int).map_values(|m: ColumnMapping| reset(m)),
        decreases rest@.len(),
    {
        let mut m = rest.remove(0);
        m.target_name = m.source_name.clone();
        m.enabled = true;
        m.transform = TransformOp::Unchanged;
        m.aggregate = AggregateOp::First;
        out.push(m);
        proof {
            assert(start.take(k + 1) =~= start.take(k as int).push(start[k as int]));
            assert(start.skip(k + 1) =~= start.skip(k as int).drop_first());
            assert(out@ =~= start.take(k + 1).map_values(|m: ColumnMapping| reset(m)));
        }
        k = k + 1;
    }
    proof {
        assert(start.take(k as int) =~= start);
    }
    out
}

impl MergeApp {
    /// Switches table `max(index, 0)` on or off, where there is such a table, and keeps the
    /// mapping table on an enabled one.
    pub fn set_source_enabled(&mut self, index: i32, enabled: bool)
        ensures
            final(self).sources@ == (if position_of(index) < old(self).sources@.len() {
                old(self).sources@.update(
                    position_of(index) as int,
                    with_enabled(old(self).sources@[position_of(index) as int], enabled),
                )
            } else {
                old(self).sources@
            }),
            *final(self) == (MergeApp {
                sources: final(self).sources,
                selected_mapping_table: kept_selection(final(self).sources@, old(self).selected_mapping_table),
                ..*old(self)
            }),
    {
        let i: usize = if index < 0 { 0 } else { index as usize };
        if i < self.sources.len() {
            let mut t = self.sources.remove(i);
            t.enabled = enabled;
            let ghost removed = self.sources@;
            self.sources.insert(i, t);
            proof {
                assert(self.sources@ =~= old(self).sources@.update(
                    i as int,
                    with_enabled(old(self).sources@[i as int], enabled),
                ));
            }
        }
        self.ensure_mapping_selection();
    }

    /// Switches every table on or off and keeps the mapping table on an enabled one.
    pub fn select_all_sources(&mut self, enabled: bool)
        ensures
            final(self).sources@ == switched(old(self).sources@, None, enabled),
            *final(self) == (MergeApp {
                sources: final(self).sources,
                selected_mapping_table: kept_selection(final(self).sources@, old(self).selected_mapping_table),
                ..*old(self)
            }),
    {
        let mut ts: Vec<SourceTable> = Vec::new();
        std::mem::swap(&mut ts, &mut self.sources);
        self.sources = switch_tables(ts, None, enabled);
        self.ensure_mapping_selection();
    }

    /// Switches the tables of workbook `path` on or off and keeps the mapping table on an
    /// enabled one.
    pub fn set_group_enabled(&mut self, path: &str, enabled: bool)
        ensures
            final(self).sources@ == switched(old(self).sources@, Some(path@), enabled),
            *final(self) == (MergeApp {
                sources: final(self).sources,
                selected_mapping_table: kept_selection(final(self).sources@, old(self).selected_mapping_table),
                ..*old(self)
            }),
    {
        let mut ts: Vec<SourceTable> = Vec::new();
        std::mem::swap(&mut ts, &mut self.sources);
        self.sources = switch_tables(ts, Some(path), enabled);
        self.ensure_mapping_selection();
    }

    /// Folds the tables of workbook `path` away in the list, or unfolds them where they were
    /// folded.
    pub fn toggle_source_group(&mut self, path: String)
        ensures
            *final(self) == (MergeApp { collapsed_groups: final(self).collapsed_groups, ..*old(self) }),
            texts(old(self).collapsed_groups@).contains(path@) ==> texts(final(self).collapsed_groups@)
                == without(texts(old(self).collapsed_groups@), path@),
            !texts(old(self).collapsed_groups@).contains(path@) ==> texts(final(self).collapsed_groups@)
                == texts(old(self).collapsed_groups@).push(path@),
    {
        let ghost start = texts(self.collapsed_groups@);
        let found = crate::headers::contains_text(&self.collapsed_groups, &path);
        if found {
            let mut kept: Vec<String> = Vec::new();
            let mut i: usize = 0;
            while i < self.collapsed_groups.len()
                invariant
                    start == texts(self.collapsed_groups@),
                    i <= self.collapsed_groups@.len(),
                    texts(kept@) == without(start.take(i as int), path@),
                decreases self.collapsed_groups@.len() - i,
            {
                proof {
                    assert(start.take(i + 1).drop_last() =~= start.take(i as int));
                }
                if self.collapsed_groups[i] != path {
                    let ghost prev = kept@;
                    kept.push(self.collapsed_groups[i].clone());
                    proof {
                        assert(texts(kept@) =~= texts(prev).push(start[i as int]));
                    }
                }
                i = i + 1;
            }
            proof {
                assert(start.take(start.len() as int) =~= start);
            }
            self.collapsed_groups = kept;
        } else {
            let ghost prev = self.collapsed_groups@;
            self.collapsed_groups.push(path);
            proof {
                assert(texts(self.collapsed_groups@) =~= texts(prev).push(self.collapsed_groups@.last()@));
            }
        }
    }

    /// How many tables workbook `path` has in the list.
    pub fn group_size(&self, path: &str) -> (r: usize)
        ensures
            r == group_count(self.sources@, path@),
    {
        let target = crate::text::owned(path);
        let mut n: usize = 0;
        let mut i: usize = 0;
        proof {
            assert(self.sources@.take(0) =~= Seq::<SourceTable>::empty());
        }
        while i < self.sources.len()
            invariant
                target@ == path@,
                i <= self.sources@.len(),
                n <= i,
                n == group_count(self.sources@.take(i as int), path@),
            decreases self.sources@.len() - i,
        {
            proof {
                assert(self.sources@.take(i + 1).drop_last() =~= self.sources@.take(i as int));
            }
            if self.sources[i].path == target {
                n = n + 1;
            }
            i = i + 1;
        }
        proof {
            assert(self.sources@.take(i as int) =~= self.sources@);
        }
        n
    }

    /// Removes workbook `path` and its tables from the list, forgets whether it was folded,
    /// and keeps the mapping table on an enabled one.
    pub fn remove_source_group(&mut self, path: String)
        ensures
            final(self).sources@ == outside_group(old(self).sources@, path@),
            texts(final(self).collapsed_groups@) == without(texts(old(self).collapsed_groups@), path@),
            *final(self) == (MergeApp {
                sources: final(self).sources,
                collapsed_groups: final(self).collapsed_groups,
                selected_mapping_table: kept_selection(final(self).sources@, old(self).selected_mapping_table),
                ..*old(self)
            }),
    {
        let ghost start = self.sources@;
        let n = self.sources.len();
        let mut rest: Vec<SourceTable> = Vec::new();
        std::mem::swap(&mut rest, &mut self.sources);
        let mut kept: Vec<SourceTable> = Vec::new();
        let mut k: usize = 0;
        proof {
            assert(start.skip(0) =~= start);
            assert(start.take(0) =~= Seq::<SourceTable>::empty());
        }
        while rest.len() > 0
            invariant
                k <= start.len(),
                start.len() == n,
                rest@ == start.skip(k as int),
                kept@ == outside_group(start.take(k as int), path@),
            decreases rest@.len(),
        {
            let t = rest.remove(0);
            proof {
                assert(start.take(k + 1).drop_last() =~= start.take(k as int));
                assert(start.take(k + 1).last() == t);
                assert(start.skip(k + 1) =~= start.skip(k as int).drop_first());
            }
            if t.path != path {
                kept.push(t);
            }
            k = k + 1;
        }
        proof {
            assert(start.take(k as int) =~= start);
        }
        self.sources = kept;
        let ghost groups = texts(self.collapsed_groups@);
        let mut folded: Vec<String> = Vec::new();
        let mut i: usize = 0;
        while i < self.collapsed_groups.len()
            invariant
                groups == texts(self.collapsed_groups@),
                i <= self.collapsed_groups@.len(),
                texts(folded@) == without(groups.take(i as int), path@),
            decreases self.collapsed_groups@.len() - i,
        {
            proof {
                assert(groups.take(i + 1).drop_last() =~= groups.take(i as int));
            }
            if self.collapsed_groups[i] != path {
                let ghost prev = folded@;
                folded.push(self.collapsed_groups[i].clone());
                proof {
                    assert(texts(folded@) =~= texts(prev).push(groups[i as int]));
                }
            }
            i = i + 1;
        }
        proof {
            assert(groups.take(groups.len() as int) =~= groups);
        }
        self.collapsed_groups = folded;
        self.ensure_mapping_selection();
    }

    /// Removes table `max(index, 0)` from the list, where there is one, and keeps the mapping
    /// table on an enabled one.
    pub fn remove_source(&mut self, index: i32)
        ensures
            final(self).sources@ == (if position_of(index) < old(self).sources@.len() {
                old(self).sources@.remove(position_of(index) as int)
            } else {
                old(self).sources@
            }),
            *final(self) == (MergeApp {
                sources: final(self).sources,
                selected_mapping_table: kept_selection(final(self).sources@, old(self).selected_mapping_table),
                ..*old(self)
            }),
    {
        let i: usize = if index < 0 { 0 } else { index as usize };
        if i < self.sources.len() {
            self.sources.remove(i);
        }
        self.ensure_mapping_selection();
    }

    /// Shows the mappings of the enabled table at `max(position, 0)` among the enabled ones,
    /// where there is such a table.
    pub fn select_mapping_table(&mut self, position: i32)
        ensures
            *final(self) == (MergeApp {
                selected_mapping_table: if position_of(position) < enabled_index_list(old(self).sources@).len() {
                    enabled_index_list(old(self).sources@)[position_of(position) as int]
                } else {
                    old(self).selected_mapping_table
                },
                ..*old(self)
            }),
    {
        let enabled = enabled_positions_list(&self.sources);
        let p: usize = if position < 0 { 0 } else { position as usize };
        if p < enabled.len() {
            self.selected_mapping_table = enabled[p];
        }
    }

    /// Puts `m` at `i` among the mappings of table `t`.
    fn put_mapping(&mut self, t: usize, i: usize, m: ColumnMapping)
        requires
            t < old(self).sources@.len(),
            i < old(self).sources@[t as int].mappings@.len(),
        ensures
            final(self).sources@.len() == old(self).sources@.len(),
            forall|k: int| 0 <= k < old(self).sources@.len() && k != t ==> #[trigger] final(self).sources@[k]
                == old(self).sources@[k],
            final(self).sources@[t as int] == (SourceTable {
                mappings: final(self).sources@[t as int].mappings,
                ..old(self).sources@[t as int]
            }),
            final(self).sources@[t as int].mappings@ == old(self).sources@[t as int].mappings@.update(i as int, m),
            *final(self) == (MergeApp { sources: final(self).sources, ..*old(self) }),
    {
        let mut table = self.sources.remove(t);
        table.mappings.set(i, m);
        self.sources.insert(t, table);
    }

    /// Switches mapping `max(index, 0)` of the mapping table on or off and gives it the
    /// target `target`, where there is such a mapping.
    pub fn change_mapping(&mut self, index: i32, enabled: bool, target: String)
        ensures
            ({
                let t = old(self).selected_mapping_table as int;
                let i = position_of(index) as int;
                if t < old(self).sources@.len() && i < old(self).sources@[t].mappings@.len() {
                    &&& *final(self) == (MergeApp { sources: final(self).sources, ..*old(self) })
                    &&& final(self).sources@.len() == old(self).sources@.len()
                    &&& forall|k: int| 0 <= k < old(self).sources@.len() && k != t ==> #[trigger] final(self).sources@[k]
                        == old(self).sources@[k]
                    &&& final(self).sources@[t] == (SourceTable { mappings: final(self).sources@[t].mappings, ..old(self).sources@[t] })
                    &&& final(self).sources@[t].mappings@ == old(self).sources@[t].mappings@.update(
                        i,
                        ColumnMapping { enabled, target_name: target, ..old(self).sources@[t].mappings@[i] },
                    )
                } else {
                    *final(self) == *old(self)
                }
            }),
    {
        let t = self.selected_mapping_table;
        let i: usize = if index < 0 { 0 } else { index as usize };
        if t < self.sources.len() && i < self.sources[t].mappings.len() {
            let m = &self.sources[t].mappings[i];
            let changed = ColumnMapping {
                source_index: m.source_index,
                source_name: m.source_name.clone(),
                target_name: target,
                enabled,
                transform: m.transform,
                aggregate: m.aggregate,
            };
            self.put_mapping(t, i, changed);
        }
    }

    /// Gives mapping `max(index, 0)` of the mapping table the cleaning step and combination
    /// at positions `transform` and `aggregate` of their option boxes, where there is such a
    /// mapping.
    pub fn change_mapping_operation(&mut self, index: i32, transform: i32, aggregate: i32)
        ensures
            ({
                let t = old(self).selected_mapping_table as int;
                let i = position_of(index) as int;
                if t < old(self).sources@.len() && i < old(self).sources@[t].mappings@.len() {
                    &&& *final(self) == (MergeApp { sources: final(self).sources, ..*old(self) })
                    &&& final(self).sources@.len() == old(self).sources@.len()
                    &&& forall|k: int| 0 <= k < old(self).sources@.len() && k != t ==> #[trigger] final(self).sources@[k]
                        == old(self).sources@[k]
                    &&& final(self).sources@[t] == (SourceTable { mappings: final(self).sources@[t].mappings, ..old(self).sources@[t] })
                    &&& final(self).sources@[t].mappings@ == old(self).sources@[t].mappings@.update(
                        i,
                        ColumnMapping {
                            transform: transform_at(transform),
                            aggregate: aggregate_at(aggregate),
                            ..old(self).sources@[t].mappings@[i]
                        },
                    )
                } else {
                    *final(self) == *old(self)
                }
            }),
    {
        let t = self.selected_mapping_table;
        let i: usize = if index < 0 { 0 } else { index as usize };
        if t < self.sources.len() && i < self.sources[t].mappings.len() {
            let m = &self.sources[t].mappings[i];
            let changed = ColumnMapping {
                source_index: m.source_index,
                source_name: m.source_name.clone(),
                target_name: m.target_name.clone(),
                enabled: m.enabled,
                transform: crate::desktop::app::transform_from_index(transform),
                aggregate: crate::desktop::app::aggregate_from_index(aggregate),
            };
            self.put_mapping(t, i, changed);
        }
    }

    /// Puts every mapping of the mapping table back to its defaults.
    pub fn reset_mapping(&mut self)
        ensures
            ({
                let t = old(self).selected_mapping_table as int;
                if t < old(self).sources@.len() {
                    &&& *final(self) == (MergeApp { sources: final(self).sources, ..*old(self) })
                    &&& final(self).sources@.len() == old(self).sources@.len()
                    &&& forall|k: int| 0 <= k < old(self).sources@.len() && k != t ==> #[trigger] final(self).sources@[k]
                        == old(self).sources@[k]
                    &&& final(self).sources@[t] == (SourceTable { mappings: final(self).sources@[t].mappings, ..old(self).sources@[t] })
                    &&& final(self).sources@[t].mappings@ == old(self).sources@[t].mappings@.map_values(
                        |m: ColumnMapping| reset(m),
                    )
                } else {
                    *final(self) == *old(self)
                }
            }),
    {
        let t = self.selected_mapping_table;
        if t < self.sources.len() {
            let mut table = self.sources.remove(t);
            let mut ms: Vec<ColumnMapping> = Vec::new();
            std::mem::swap(&mut ms, &mut table.mappings);
            table.mappings = reset_all(ms);
            self.sources.insert(t, table);
        }
    }

    /// Hides the fields that all enabled tables share, or shows them again.
    pub fn toggle_common_fields(&mut self)
        ensures
            *final(self) == (MergeApp { hide_common_mappings: !old(self).hide_common_mappings, ..*old(self) }),
    {
        self.hide_common_mappings = !self.hide_common_mappings;
    }

    /// Gives every mapping of every table the suggested target for its source column, where
    /// `suggestions` has one; a pair names the source column, then the target.
    pub fn apply_suggestions(&mut self, suggestions: &[(String, String)])
        ensures
            *final(self) == (MergeApp { sources: final(self).sources, ..*old(self) }),
            final(self).sources@.len() == old(self).sources@.len(),
            forall|k: int| 0 <= k < old(self).sources@.len() ==> {
                &&& #[trigger] final(self).sources@[k] == (SourceTable {
                    mappings: final(self).sources@[k].mappings,
                    ..old(self).sources@[k]
                })
                &&& final(self).sources@[k].mappings@ == old(self).sources@[k].mappings@.map_values(
                    |m: ColumnMapping| suggested(m, suggestions@),
                )
            },
    {
        let ghost start = self.sources@;
        let n = self.sources.len();
        let mut rest: Vec<SourceTable> = Vec::new();
        std::mem::swap(&mut rest, &mut self.sources);
        let mut out: Vec<SourceTable> = Vec::new();
        let mut k: usize = 0;
        proof {
            assert(start.skip(0) =~= start);
        }
        while rest.len() > 0
            invariant
                k <= start.len(),
                start.len() == n,
                rest@ == start.skip(k as int),
                out@.len() == k,
                forall|j: int| 0 <= j < k ==> {
                    &&& #[trigger] out@[j] == (SourceTable { mappings: out@[j].mappings, ..start[j] })
                    &&& out@[j].mappings@ == start[j].mappings@.map_values(|m: ColumnMapping| suggested(m, suggestions@))
                },
            decreases rest@.len(),
        {
            proof {
                assert(rest@[0] == start[k as int]);
                assert(start.skip(k + 1) =~= start.skip(k as int).drop_first());
            }
            let mut table = rest.remove(0);
            let mut ms: Vec<ColumnMapping> = Vec::new();
            std::mem::swap(&mut ms, &mut table.mappings);
            table.mappings = suggest_all(ms, suggestions);
            out.push(table);
            k = k + 1;
        }
        self.sources = out;
    }


    /// Sets the merge mode at position `mode` of its option box.
    pub fn set_mode(&mut self, mode: i32)
        ensures
            *final(self) == (MergeApp { options: MergeOptions { mode: mode_at(mode), ..old(self).options }, ..*old(self) }),
    {
        self.options.mode = match mode {
            1 => MergeMode::Intersection,
            2 => MergeMode::Manual,
            3 => MergeMode::Consolidate,
            4 => MergeMode::Join,
            _ => MergeMode::Union,
        };
    }

    /// Takes the advanced settings: the key columns as one comma-separated text, whether to
    /// drop repeated rows, the filter, and the join at position `join_kind` of its box.
    pub fn change_advanced_options(
        &mut self,
        keys: &str,
        deduplicate: bool,
        filter_column: String,
        filter_text: String,
        filter_exclude: bool,
        join_kind: i32,
    )
        ensures
            *final(self) == (MergeApp {
                options: MergeOptions {
                    key_columns: final(self).options.key_columns,
                    deduplicate,
                    filter_column,
                    filter_text,
                    filter_exclude,
                    join_kind: join_at(join_kind),
                    ..old(self).options
                },
                ..*old(self)
            }),
            texts(final(self).options.key_columns@) == named_parts(comma_parts(keys@)),
    {
        self.options.key_columns = crate::desktop::app::split_columns(keys);
        self.options.deduplicate = deduplicate;
        self.options.filter_column = filter_column;
        self.options.filter_text = filter_text;
        self.options.filter_exclude = filter_exclude;
        self.options.join_kind = match join_kind {
            1 => JoinKind::Inner,
            2 => JoinKind::Full,
            _ => JoinKind::Left,
        };
    }

    /// Moves output column `max(index, 0)` by `direction` places, kept inside the columns,
    /// by swapping it with the column there; the resulting column list becomes the output
    /// order. Without such a column nothing changes.
    pub fn move_output_column(&mut self, index: i32, direction: i32)
        ensures
            ({
                let h = planned_headers(old(self).sources@, old(self).options);
                let i = position_of(index) as int;
                if i < h.len() {
                    let t = moved_to(i, direction as int, h.len() as int);
                    &&& *final(self) == (MergeApp {
                        options: MergeOptions { output_order: final(self).options.output_order, ..old(self).options },
                        ..*old(self)
                    })
                    &&& texts(final(self).options.output_order@) == h.update(i, h[t]).update(t, h[i])
                } else {
                    *final(self) == *old(self)
                }
            }),
    {
        let plan = crate::desktop::model::build_output_plan(self.sources.as_slice(), &self.options);
        let mut headers = plan.headers;
        let i: usize = if index < 0 { 0 } else { index as usize };
        let n = headers.len();
        if i < n {
            let x: i64 = i as i64 + direction as i64;
            let t: usize = if x < 0 {
                0
            } else if x as u64 > (n - 1) as u64 {
                n - 1
            } else {
                x as usize
            };
            let ghost h = texts(headers@);
            let a = headers[i].clone();
            let b = headers[t].clone();
            headers.set(i, b);
            headers.set(t, a);
            proof {
                assert(texts(headers@) =~= h.update(i as int, h[t as int]).update(t as int, h[i as int]));
            }
            self.options.output_order = headers;
        }
    }

    /// The table that a preview request for `position` shows: `max(position, 0)` itself where
    /// it is an enabled table, else the enabled table at that place among the enabled ones,
    /// else the position itself.
    pub fn preview_position(&self, position: i32) -> (r: usize)
        ensures
            ({
                let e = enabled_index_list(self.sources@);
                let p = position_of(position);
                r == (if e.contains(p) {
                    p
                } else if p < e.len() {
                    e[p as int]
                } else {
                    p
                })
            }),
    {
        let e = enabled_positions_list(&self.sources);
        let p: usize = if position < 0 { 0 } else { position as usize };
        let mut i: usize = 0;
        while i < e.len()
            invariant
                e@ == enabled_index_list(self.sources@),
                p == position_of(position),
                i <= e@.len(),
                forall|j: int| 0 <= j < i ==> e@[j] != p,
            decreases e@.len() - i,
        {
            if e[i] == p {
                proof {
                    assert(e@[i as int] == p);
                    assert(e@.contains(p));
                }
                return p;
            }
            i = i + 1;
        }
        if p < e.len() {
            e[p]
        } else {
            p
        }
    }

    /// Reads the headers of table `max(index, 0)` again, from row `max(row, 1)` over one to
    /// three rows as `rows` asks. The result says whether the application starts the reload.
    pub fn change_header(&mut self, index: i32, row: i32, rows: i32) -> (r: bool)
        ensures
            r == (position_of(index) < old(self).sources@.len()),
            !r ==> *final(self) == *old(self),
            r ==> *final(self) == (MergeApp {
                scan_listening: true,
                state: AppState::Scanning,
                progress_done: 15,
                progress_total: 100,
                progress_label: final(self).progress_label,
                ..*old(self)
            }),
            r ==> crate::desktop::window::shows_name(
                final(self).progress_label@,
                "正在从第 "@ + decimal(header_start(row) as nat) + " 行开始、读取 "@ + decimal(
                    header_count(rows) as nat,
                ) + " 行表头："@,
                old(self).sources@[position_of(index) as int],
                Seq::empty(),
            ),
    {
        let i: usize = if index < 0 { 0 } else { index as usize };
        let start: usize = if row < 1 { 1 } else { row as usize };
        let count: usize = if rows < 1 { 1 } else if rows > 3 { 3 } else { rows as usize };
        self.start_table_reload(i, start, count)
    }

    /// Asks the running merge to stop, once the user confirmed it (`confirmed`). The result
    /// says whether the application signals the merge worker.
    pub fn cancel_merge(&mut self, confirmed: bool) -> (r: bool)
        ensures
            r == (old(self).state is Merging && confirmed),
            !r ==> *final(self) == *old(self),
            r ==> *final(self) == (MergeApp { progress_label: final(self).progress_label, ..*old(self) })
                && final(self).progress_label@ == "正在取消…"@,
    {
        let merging = match self.state {
            AppState::Merging => true,
            _ => false,
        };
        if !merging || !confirmed {
            return false;
        }
        self.progress_label = crate::text::owned("正在取消…");
        true
    }

    /// Reports the copy of `value` to the clipboard, given as `copied`.
    pub fn cell_copied(&mut self, value: &str, copied: Result<(), String>)
        ensures
            match copied {
                Ok(()) => *final(self) == (MergeApp { progress_label: final(self).progress_label, ..*old(self) })
                    && final(self).progress_label@ == "已复制单元格内容（"@ + decimal(value@.len()) + " 个字符）"@,
                Err(e) => *final(self) == (MergeApp { state: final(self).state, ..*old(self) })
                    && shows_error(final(self).state, "复制到剪贴板失败："@ + e@),
            },
    {
        match copied {
            Ok(()) => {
                let count = crate::text::chars_of(value).len();
                let a = concat("已复制单元格内容（", decimal_string(count as u64).as_str());
                self.progress_label = concat(a.as_str(), " 个字符）");
            },
            Err(error) => {
                self.state = AppState::Error(concat("复制到剪贴板失败：", error.as_str()));
            },
        }
    }

    /// Reports the saving of the scheme to `path`, given as `saved`: a saved scheme becomes
    /// the latest one.
    pub fn scheme_saved(&mut self, path: String, saved: Result<(), String>)
        ensures
            match saved {
                Ok(()) => {
                    &&& *final(self) == (MergeApp {
                        progress_label: final(self).progress_label,
                        settings: crate::desktop::config::AppSettings {
                            recent_schemes: final(self).settings.recent_schemes,
                            ..old(self).settings
                        },
                        ..*old(self)
                    })
                    &&& final(self).progress_label@ == "方案已保存："@ + path@
                    &&& texts(final(self).settings.recent_schemes@) == remembered(texts(old(self).settings.recent_schemes@), path@)
                },
                Err(e) => *final(self) == (MergeApp { state: final(self).state, ..*old(self) })
                    && shows_error(final(self).state, "保存方案失败："@ + e@),
            },
    {
        match saved {
            Ok(()) => {
                self.progress_label = concat("方案已保存：", path.as_str());
                crate::desktop::config::remember(&mut self.settings.recent_schemes, path);
            },
            Err(error) => {
                self.state = AppState::Error(concat("保存方案失败：", error.as_str()));
            },
        }
    }

    /// The report of the checks before a merge: each finding as its level in brackets and
    /// its title, then its detail, with a blank line between findings.
    pub fn check_report(&self) -> (r: String)
        ensures
            r@ == joined(self.check_issues@.map_values(|i: CheckIssue| report_entry(i)), "\n\n"@),
    {
        let mut parts: Vec<String> = Vec::new();
        let mut k: usize = 0;
        while k < self.check_issues.len()
            invariant
                k <= self.check_issues@.len(),
                parts@.map_values(|p: String| p@) == self.check_issues@.take(k as int).map_values(
                    |i: CheckIssue| report_entry(i),
                ),
            decreases self.check_issues@.len() - k,
        {
            let issue = &self.check_issues[k];
            let name = match issue.level {
                IssueLevel::Info => "Info",
                IssueLevel::Warning => "Warning",
                IssueLevel::Error => "Error",
            };
            let a = concat("[", name);
            let b = concat(a.as_str(), "] ");
            let c = concat(b.as_str(), issue.title.as_str());
            let d = concat(c.as_str(), "\n");
            let entry = concat(d.as_str(), issue.detail.as_str());
            let ghost prev = parts@;
            parts.push(entry);
            proof {
                assert(self.check_issues@.take(k + 1) =~= self.check_issues@.take(k as int).push(self.check_issues@[k as int]));
                assert(parts@.map_values(|p: String| p@) =~= prev.map_values(|p: String| p@).push(entry@));
            }
            k = k + 1;
        }
        proof {
            assert(self.check_issues@.take(k as int) =~= self.check_issues@);
        }
        crate::text::join_strings(parts.as_slice(), "\n\n")
    }

    /// Reports that the check report could not be written, for `error`.
    pub fn report_export_failed(&mut self, error: &str)
        ensures
            *final(self) == (MergeApp { state: final(self).state, ..*old(self) }),
            shows_error(final(self).state, "导出检查报告失败："@ + error@),
    {
        self.state = AppState::Error(concat("导出检查报告失败：", error));
    }

}

} // verus!
