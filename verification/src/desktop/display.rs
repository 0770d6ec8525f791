//! What the merger's window shows of its state: the status line, the check summary, the
//! size figures, which controls are live, and the lists of tables and mappings.
use vstd::prelude::*;
use crate::desktop::actions::{enabled_index_list, suggestion_for};
use crate::desktop::app::{aggregate_at, transform_at};
use crate::desktop::model::{ColumnMapping, common_keys, key};
use crate::engine::rows::has_substring;
use crate::text::lower;
use crate::desktop::model::SourceTable;
use crate::engine::order::{key_order, text_leq};
use crate::paths::display_text;
use crate::desktop::app::grouped;
use crate::desktop::model::{MergeMode, JoinKind, enabled_tables, mode_label, planned_headers};
use crate::desktop::window::{AppState, MergeApp, busy_state};
use crate::engine::inspect::{IssueLevel, PreviewTable, issue_views, level_count, rows_total};
use crate::engine::sheets::width_units;
use crate::engine::sheets::XLSX_MAX_DATA_ROWS;
use crate::headers::texts;
use crate::text::{concat, decimal, decimal_string};

verus! {

/// The status line: its text, its kind (0 for information, 1 for success, 2 for an error),
/// and whether the written workbook can be shown in the file browser.
pub struct StatusLine {
    pub text: String,
    pub kind: i32,
    pub can_reveal: bool,
}

/// One line of the mapping list: a mapping of the mapping table, its place among the
/// mappings, the suggested target for its source column (empty without one) and the
/// positions of its cleaning step and combination in their option boxes.
pub struct MappingRow {
    pub enabled: bool,
    pub mapping_index: i32,
    pub source_name: String,
    pub target_name: String,
    pub suggestion: String,
    pub transform_index: i32,
    pub aggregate_index: i32,
}

/// Whether mapping `m` is listed: shared fields only where they are not hidden, only
/// mismatched ones (a target with another key, or a suggestion) where asked, and only those
/// whose lowercased source or target contains `search` where it is not empty.
pub open spec fn mapping_listed(
    m: ColumnMapping,
    common: Set<Seq<char>>,
    pairs: Seq<(String, String)>,
    hide_common: bool,
    mismatch_only: bool,
    search: Seq<char>,
) -> bool {
    let common_field = common.contains(key(m.source_name@));
    let differs = key(m.source_name@) != key(m.target_name@) || suggestion_for(pairs, m.source_name@) is Some;
    &&& !hide_common || !common_field
    &&& !mismatch_only || differs
    &&& search.len() == 0 || has_substring(lower(m.source_name@), search) || has_substring(
        lower(m.target_name@),
        search,
    )
}

/// The places of the listed mappings of `ms`, in order.
pub open spec fn listed_indices(
    ms: Seq<ColumnMapping>,
    common: Set<Seq<char>>,
    pairs: Seq<(String, String)>,
    hide_common: bool,
    mismatch_only: bool,
    search: Seq<char>,
) -> Seq<int>
    decreases ms.len(),
{
    if ms.len() == 0 {
        Seq::empty()
    } else {
        let p = listed_indices(ms.drop_last(), common, pairs, hide_common, mismatch_only, search);
        if mapping_listed(ms.last(), common, pairs, hide_common, mismatch_only, search) {
            p.push(ms.len() - 1)
        } else {
            p
        }
    }
}

/// How many mappings of `ms` have a source column whose key is in `common`.
pub open spec fn common_count(ms: Seq<ColumnMapping>, common: Set<Seq<char>>) -> nat
    decreases ms.len(),
{
    if ms.len() == 0 {
        0
    } else {
        common_count(ms.drop_last(), common) + if common.contains(key(ms.last().source_name@)) {
            1nat
        } else {
            0nat
        }
    }
}

/// Whether `row` shows mapping `m` at place `j`.
pub open spec fn row_shows(row: MappingRow, m: ColumnMapping, j: int, pairs: Seq<(String, String)>) -> bool {
    &&& row.enabled == m.enabled
    &&& row.mapping_index == j as i32
    &&& row.source_name@ == m.source_name@
    &&& row.target_name@ == m.target_name@
    &&& row.suggestion@ == match suggestion_for(pairs, m.source_name@) {
        Some(t) => t@,
        None => Seq::<char>::empty(),
    }
    &&& transform_at(row.transform_index) == m.transform && 0 <= row.transform_index <= 3
    &&& aggregate_at(row.aggregate_index) == m.aggregate && 0 <= row.aggregate_index <= 3
}

/// One line of the table list: a workbook (a group line, with no table position) or one of
/// its tables.
pub struct SourceRow {
    pub is_group: bool,
    pub source_index: i32,
    pub enabled: bool,
    pub collapsed: bool,
    pub file_name: String,
    pub sheet_name: String,
    pub detail: String,
    pub path: String,
    pub header_row: i32,
    pub header_rows: i32,
    pub suggested_row: i32,
}

/// A line of the table list as values.
pub struct SourceRowView {
    pub is_group: bool,
    pub source_index: i32,
    pub enabled: bool,
    pub collapsed: bool,
    pub file_name: Seq<char>,
    pub sheet_name: Seq<char>,
    pub detail: Seq<char>,
    pub path: Seq<char>,
    pub header_row: i32,
    pub header_rows: i32,
    pub suggested_row: i32,
}

/// The values of `r`.
pub open spec fn row_view(r: SourceRow) -> SourceRowView {
    SourceRowView {
        is_group: r.is_group,
        source_index: r.source_index,
        enabled: r.enabled,
        collapsed: r.collapsed,
        file_name: r.file_name@,
        sheet_name: r.sheet_name@,
        detail: r.detail@,
        path: r.path@,
        header_row: r.header_row,
        header_rows: r.header_rows,
        suggested_row: r.suggested_row,
    }
}

/// The values of the lines `rs`.
pub open spec fn row_views(rs: Seq<SourceRow>) -> Seq<SourceRowView> {
    rs.map_values(|r: SourceRow| row_view(r))
}

/// The file name shown for a table whose path has file name `name`: empty without one.
pub open spec fn file_text(name: Option<String>) -> Seq<char> {
    match name {
        Some(n) => n@,
        None => Seq::empty(),
    }
}

/// Whether table `t`, whose path has file name `name`, is found by `filter`: an empty filter
/// finds every table, another one those whose lowercased path, sheet and shown name contain
/// it.
pub open spec fn table_found(t: SourceTable, name: Option<String>, filter: Seq<char>) -> bool {
    filter.len() == 0 || has_substring(
        lower(t.path@ + " "@ + t.sheet_name@ + " "@ + display_text(file_text(name), t.sheet_name@)),
        filter,
    )
}

/// Whether `name` is the file name of `t`'s path as far as every platform agrees: the text
/// after the last `/` of a plain path, and none for a portable path ending in `..`.
pub open spec fn path_file_name(name: Option<String>, t: SourceTable) -> bool {
    &&& crate::paths::plain_path(t.path@) ==> (name matches Some(n) && n@ == crate::paths::last_part(t.path@))
    &&& crate::paths::ends_in_parent(t.path@) ==> name is None
}

/// The paths of `ts`.
pub open spec fn paths_of(ts: Seq<SourceTable>) -> Seq<Seq<char>> {
    ts.map_values(|t: SourceTable| t.path@)
}

/// The positions among `order` of the tables that `filter` finds, in that order.
pub open spec fn found_in(order: Seq<usize>, ts: Seq<SourceTable>, names: Seq<Option<String>>, filter: Seq<char>) -> Seq<usize>
    decreases order.len(),
{
    if order.len() == 0 {
        Seq::empty()
    } else {
        let p = found_in(order.drop_last(), ts, names, filter);
        let i = order.last() as int;
        if table_found(ts[i], names[i], filter) {
            p.push(order.last())
        } else {
            p
        }
    }
}

/// The positions of the tables of `ts`, ordered by path and then by position.
pub open spec fn path_order(ts: Seq<SourceTable>) -> Seq<usize> {
    key_order(paths_of(ts)).map_values(|p: (Seq<char>, usize)| p.1)
}

/// The tables at `order` grouped: each run of tables with one path, with that path.
pub open spec fn groups_of(ts: Seq<SourceTable>, order: Seq<usize>) -> Seq<(Seq<char>, Seq<usize>)>
    decreases order.len(),
{
    if order.len() == 0 {
        Seq::empty()
    } else {
        let g = groups_of(ts, order.drop_last());
        let i = order.last();
        let p = ts[i as int].path@;
        if g.len() > 0 && g.last().0 == p {
            g.update(g.len() - 1, (p, g.last().1.push(i)))
        } else {
            g.push((p, seq![i]))
        }
    }
}

/// How many of the tables at `ms` are enabled.
pub open spec fn enabled_count(ts: Seq<SourceTable>, ms: Seq<usize>) -> nat
    decreases ms.len(),
{
    if ms.len() == 0 {
        0
    } else {
        enabled_count(ts, ms.drop_last()) + if ts[ms.last() as int].enabled {
            1nat
        } else {
            0nat
        }
    }
}

/// The line of table `i`.
pub open spec fn table_line(ts: Seq<SourceTable>, i: usize) -> SourceRowView {
    let t = ts[i as int];
    SourceRowView {
        is_group: false,
        source_index: i as i32,
        enabled: t.enabled,
        collapsed: false,
        file_name: Seq::empty(),
        sheet_name: t.sheet_name@,
        detail: grouped(decimal(t.estimated_rows as nat), decimal(t.estimated_rows as nat).len()) + " 行 · "@
            + decimal(t.headers@.len()) + " 列"@,
        path: t.path@,
        header_row: t.header_row as i32,
        header_rows: t.header_rows as i32,
        suggested_row: t.suggested_header_row as i32,
    }
}

/// The line of the workbook of group `g`: its file name (its path where it has none), its
/// table count, how many are enabled, whether all are and whether it is folded.
pub open spec fn group_line(
    ts: Seq<SourceTable>,
    names: Seq<Option<String>>,
    collapsed: Seq<Seq<char>>,
    g: (Seq<char>, Seq<usize>),
) -> SourceRowView {
    SourceRowView {
        is_group: true,
        source_index: -1i32,
        enabled: enabled_count(ts, g.1) == g.1.len(),
        collapsed: collapsed.contains(g.0),
        file_name: match names[g.1[0] as int] {
            Some(n) => n@,
            None => g.0,
        },
        sheet_name: Seq::empty(),
        detail: decimal(g.1.len()) + " 个数据表 · 已选 "@ + decimal(enabled_count(ts, g.1)) + " 个"@,
        path: g.0,
        header_row: 1,
        header_rows: 1,
        suggested_row: 1,
    }
}

/// The lines of group `g`: its workbook line, then, unless it is folded, its tables.
pub open spec fn group_lines(
    ts: Seq<SourceTable>,
    names: Seq<Option<String>>,
    collapsed: Seq<Seq<char>>,
    g: (Seq<char>, Seq<usize>),
) -> Seq<SourceRowView> {
    seq![group_line(ts, names, collapsed, g)] + if collapsed.contains(g.0) {
        Seq::empty()
    } else {
        g.1.map_values(|i: usize| table_line(ts, i))
    }
}

/// The lines of the groups `gs`, in order.
pub open spec fn all_lines(
    ts: Seq<SourceTable>,
    names: Seq<Option<String>>,
    collapsed: Seq<Seq<char>>,
    gs: Seq<(Seq<char>, Seq<usize>)>,
) -> Seq<SourceRowView>
    decreases gs.len(),
{
    if gs.len() == 0 {
        Seq::empty()
    } else {
        all_lines(ts, names, collapsed, gs.drop_last()) + group_lines(ts, names, collapsed, gs.last())
    }
}

/// The table list of `ts` searched with `search` and with the workbooks `collapsed` folded,
/// where `names` holds the file name of each table's path: the found tables grouped by
/// workbook, the workbooks in the order of their paths, the tables of each in their order.
pub open spec fn table_list(
    ts: Seq<SourceTable>,
    names: Seq<Option<String>>,
    collapsed: Seq<Seq<char>>,
    search: Seq<char>,
) -> Seq<SourceRowView> {
    let found = found_in(path_order(ts), ts, names, lower(crate::text::trim(search)));
    all_lines(ts, names, collapsed, groups_of(ts, found))
}

/// The most preview columns shown.
pub const PREVIEW_MAX_COLUMNS: usize = 100;

/// The most preview rows measured for column widths.
pub const PREVIEW_MEASURED_ROWS: usize = 100;

/// One line of the preview: its number (`表头` on the header line), its first cells, and
/// whether it is the header line.
pub struct PreviewLine {
    pub line_number: String,
    pub cells: Vec<String>,
    pub header: bool,
}

/// The texts of the first hundred cells of `v`.
pub open spec fn shown_cells(v: Seq<String>) -> Seq<Seq<char>> {
    let t = texts(v);
    if t.len() > PREVIEW_MAX_COLUMNS {
        t.take(PREVIEW_MAX_COLUMNS as int)
    } else {
        t
    }
}

/// Whether `line` is line `k` of a preview (counted from one) showing the cells `cells`.
pub open spec fn shows_line(line: PreviewLine, k: nat, cells: Seq<String>) -> bool {
    &&& line.line_number@ == decimal(k)
    &&& texts(line.cells@) == shown_cells(cells)
    &&& !line.header
}

/// The width of a preview column of `units` width units: seven pixels a unit and twenty
/// more, kept between 56 and 320.
pub open spec fn column_width(units: nat) -> nat {
    let w = units * 7 + 20;
    if w < 56 {
        56
    } else if w > 320 {
        320
    } else {
        w
    }
}

/// The widest cell of column `c` among `rows`, in width units; rows without that column
/// count as nothing.
pub open spec fn rows_units(rows: Seq<Vec<String>>, c: int) -> nat
    decreases rows.len(),
{
    if rows.len() == 0 {
        0
    } else {
        let p = rows_units(rows.drop_last(), c);
        let w = if c < rows.last()@.len() {
            width_units(rows.last()@[c]@)
        } else {
            0
        };
        if w > p {
            w
        } else {
            p
        }
    }
}

/// The width units of preview column `c`: the widest of its header and its cells in the
/// first hundred rows.
pub open spec fn column_units(headers: Seq<String>, rows: Seq<Vec<String>>, c: int) -> nat {
    let measured = if rows.len() > PREVIEW_MEASURED_ROWS {
        rows.take(PREVIEW_MEASURED_ROWS as int)
    } else {
        rows
    };
    let h = width_units(headers[c]@);
    let r = rows_units(measured, c);
    if h > r {
        h
    } else {
        r
    }
}

/// A prefix of a text is no wider than the text.
proof fn lemma_width_prefix(s: Seq<char>, i: int)
    requires
        0 <= i <= s.len(),
    ensures
        width_units(s.take(i)) <= width_units(s),
    decreases s.len(),
{
    if i < s.len() {
        lemma_width_prefix(s.drop_last(), i);
        assert(s.drop_last().take(i) =~= s.take(i));
    } else {
        assert(s.take(i) =~= s);
    }
}

/// The width units of `s`, or 43 where it has more: at 43 units a column is already at its
/// widest.
fn capped_units(s: &String) -> (r: usize)
    ensures
        r == (if width_units(s@) > 43 {
            43
        } else {
            width_units(s@)
        }),
{
    let chars = crate::text::chars_of(s.as_str());
    let mut units: usize = 0;
    let mut i: usize = 0;
    while i < chars.len()
        invariant
            chars@ == s@,
            i <= chars@.len(),
            units == width_units(chars@.take(i as int)),
            units < 43,
        decreases chars@.len() - i,
    {
        proof {
            assert(chars@.take(i + 1).drop_last() =~= chars@.take(i as int));
            assert(chars@.take(i + 1).last() == chars@[i as int]);
        }
        units = units + if chars[i] <= '\u{7f}' { 1 } else { 2 };
        i = i + 1;
        if units >= 43 {
            proof {
                lemma_width_prefix(chars@, i as int);
            }
            return 43;
        }
    }
    proof {
        assert(chars@.take(i as int) =~= chars@);
    }
    units
}

/// The lines of a preview: the header line, then each row numbered from one; each line
/// shows at most its first hundred cells. Without a preview there are none.
pub fn preview_lines(preview: &Option<PreviewTable>) -> (r: Vec<PreviewLine>)
    ensures
        match preview {
            None => r@.len() == 0,
            Some(p) => {
                &&& r@.len() == p.rows@.len() + 1
                &&& r@[0].line_number@ == "表头"@ && texts(r@[0].cells@) == shown_cells(p.headers@) && r@[0].header
                &&& forall|k: int| 0 <= k < p.rows@.len() ==> shows_line(#[trigger] r@[k + 1], (k + 1) as nat, p.rows@[k]@)
            },
        },
{
    let mut lines: Vec<PreviewLine> = Vec::new();
    match preview {
        None => lines,
        Some(p) => {
            lines.push(PreviewLine { line_number: crate::text::owned("表头"), cells: first_cells(&p.headers), header: true });
            let mut k: usize = 0;
            while k < p.rows.len()
                invariant
                    k <= p.rows@.len(),
                    lines@.len() == k + 1,
                    lines@[0].line_number@ == "表头"@ && texts(lines@[0].cells@) == shown_cells(p.headers@) && lines@[0].header,
                    forall|q: int| 0 <= q < k ==> shows_line(#[trigger] lines@[q + 1], (q + 1) as nat, p.rows@[q]@),
                decreases p.rows@.len() - k,
            {
                let ghost before = lines@;
                lines.push(
                    PreviewLine {
                        line_number: decimal_string((k + 1) as u64),
                        cells: first_cells(&p.rows[k]),
                        header: false,
                    },
                );
                proof {
                    assert forall|q: int| 0 <= q < k + 1 implies shows_line(#[trigger] lines@[q + 1], (q + 1) as nat, p.rows@[q]@) by {
                        if q < k {
                            assert(lines@[q + 1] == before[q + 1]);
                        }
                    }
                }
                k = k + 1;
            }
            lines
        },
    }
}

/// The first hundred cells of `v`.
fn first_cells(v: &Vec<String>) -> (r: Vec<String>)
    ensures
        texts(r@) == shown_cells(v@),
{
    let mut out: Vec<String> = Vec::new();
    let mut i: usize = 0;
    while i < v.len() && i < PREVIEW_MAX_COLUMNS
        invariant
            i <= v@.len(),
            i <= PREVIEW_MAX_COLUMNS,
            texts(out@) == texts(v@).take(i as int),
        decreases v@.len() - i,
    {
        let ghost prev = out@;
        out.push(v[i].clone());
        proof {
            assert(texts(out@) =~= texts(prev).push(v@[i as int]@));
            assert(texts(v@).take(i + 1) =~= texts(v@).take(i as int).push(v@[i as int]@));
        }
        i = i + 1;
    }
    proof {
        if v@.len() <= PREVIEW_MAX_COLUMNS {
            assert(texts(v@).take(v@.len() as int) =~= texts(v@));
        }
    }
    out
}

/// The width of each of the first hundred preview columns, in pixels: by the widest of its
/// header and its cells in the first hundred rows, Chinese characters counting double.
/// Without a preview there are none.
pub fn preview_column_widths(preview: &Option<PreviewTable>) -> (r: Vec<u32>)
    ensures
        match preview {
            None => r@.len() == 0,
            Some(p) => {
                &&& r@.len() == (if p.headers@.len() > PREVIEW_MAX_COLUMNS {
                    PREVIEW_MAX_COLUMNS as int
                } else {
                    p.headers@.len() as int
                })
                &&& forall|c: int| 0 <= c < r@.len() ==> #[trigger] r@[c] == column_width(column_units(p.headers@, p.rows@, c))
            },
        },
{
    let mut widths: Vec<u32> = Vec::new();
    match preview {
        None => widths,
        Some(p) => {
            let limit = if p.rows.len() > PREVIEW_MEASURED_ROWS { PREVIEW_MEASURED_ROWS } else { p.rows.len() };
            let ghost measured = if p.rows@.len() > PREVIEW_MEASURED_ROWS {
                p.rows@.take(PREVIEW_MEASURED_ROWS as int)
            } else {
                p.rows@
            };
            proof {
                assert(measured =~= p.rows@.take(limit as int));
            }
            let mut c: usize = 0;
            while c < p.headers.len() && c < PREVIEW_MAX_COLUMNS
                invariant
                    c <= p.headers@.len(),
                    c <= PREVIEW_MAX_COLUMNS,
                    limit <= p.rows@.len(),
                    measured == p.rows@.take(limit as int),
                    measured == (if p.rows@.len() > PREVIEW_MEASURED_ROWS {
                        p.rows@.take(PREVIEW_MEASURED_ROWS as int)
                    } else {
                        p.rows@
                    }),
                    widths@.len() == c,
                    forall|q: int| 0 <= q < c ==> #[trigger] widths@[q] == column_width(column_units(p.headers@, p.rows@, q)),
                decreases p.headers@.len() - c,
            {
                let mut units = capped_units(&p.headers[c]);
                let ghost h = width_units(p.headers@[c as int]@);
                let mut r: usize = 0;
                proof {
                    assert(p.rows@.take(0) =~= Seq::<Vec<String>>::empty());
                }
                while r < limit
                    invariant
                        limit <= p.rows@.len(),
                        r <= limit,
                        c < p.headers@.len(),
                        h == width_units(p.headers@[c as int]@),
                        units == (if h > rows_units(p.rows@.take(r as int), c as int) {
                            if h > 43 { 43 } else { h }
                        } else {
                            if rows_units(p.rows@.take(r as int), c as int) > 43 {
                                43
                            } else {
                                rows_units(p.rows@.take(r as int), c as int)
                            }
                        }),
                    decreases limit - r,
                {
                    proof {
                        assert(p.rows@.take(r + 1).drop_last() =~= p.rows@.take(r as int));
                        assert(p.rows@.take(r + 1).last() == p.rows@[r as int]);
                    }
                    if c < p.rows[r].len() {
                        let v = capped_units(&p.rows[r][c]);
                        if v > units {
                            units = v;
                        }
                    }
                    r = r + 1;
                }
                let w: u32 = if units >= 43 { 320 } else if units * 7 + 20 < 56 { 56 } else { (units * 7 + 20) as u32 };
                widths.push(w);
                proof {
                    assert(widths@[c as int] == column_width(column_units(p.headers@, p.rows@, c as int)));
                }
                c = c + 1;
            }
            widths
        },
    }
}

/// What the status line of `app` says.
pub open spec fn status_of(app: MergeApp) -> (Seq<char>, i32, bool) {
    match app.state {
        AppState::Done { rows, sheets, .. } => (
            "合并成功："@ + grouped(decimal(rows as nat), decimal(rows as nat).len()) + " 行，"@ + decimal(
                sheets as nat,
            ) + " 个 Sheet"@,
            1,
            true,
        ),
        AppState::Error(m) => (m@, 2, false),
        _ => if app.progress_label@.len() > 0 {
            (app.progress_label@, 0, false)
        } else if app.warnings@.len() > 0 {
            (decimal(app.warnings@.len()) + " 个文件或工作表未能读取，可在检查报告中查看"@, 2, false)
        } else {
            ("当前方式："@ + mode_label(app.options.mode), 0, false)
        },
    }
}

/// What the check summary of `app` says.
pub open spec fn check_summary_of(app: MergeApp) -> Seq<char> {
    if app.check_issues@.len() == 0 {
        if app.check_ran {
            "检查完成：未发现问题"@
        } else {
            "尚未检查"@
        }
    } else {
        "检查完成："@ + decimal(level_count(issue_views(app.check_issues@), IssueLevel::Error)) + " 个错误，"@
            + decimal(level_count(issue_views(app.check_issues@), IssueLevel::Warning)) + " 个提醒"@
    }
}

/// How many sheets `rows` data rows fill, at least one.
pub open spec fn sheets_for(rows: nat) -> nat {
    let r: int = if rows == 0 {
        1
    } else {
        rows as int
    };
    let m = XLSX_MAX_DATA_ROWS as int;
    ((r + m - 1) / m) as nat
}

/// The position of a merge mode in its option box.
pub open spec fn mode_position(mode: MergeMode) -> i32 {
    match mode {
        MergeMode::Union => 0,
        MergeMode::Intersection => 1,
        MergeMode::Manual => 2,
        MergeMode::Consolidate => 3,
        MergeMode::Join => 4,
    }
}

/// The position of a join in its option box.
pub open spec fn join_position(kind: JoinKind) -> i32 {
    match kind {
        JoinKind::Left => 0,
        JoinKind::Inner => 1,
        JoinKind::Full => 2,
    }
}

/// How many sheets `rows` data rows fill, at least one.
pub fn sheets_needed(rows: u64) -> (r: u64)
    ensures
        r == sheets_for(rows as nat),
{
    let m: u64 = XLSX_MAX_DATA_ROWS as u64;
    let total: u64 = if rows == 0 { 1 } else { rows };
    let r = (total - 1) / m + 1;
    assert(r as int == (total as int + m as int - 1) / (m as int)) by (nonlinear_arith)
        requires
            r as int == (total as int - 1) / (m as int) + 1,
            m == 1048575,
            total >= 1,
    {
    }
    r
}

/// The position of `mode` in its option box.
pub fn mode_index(mode: MergeMode) -> (r: i32)
    ensures
        r == mode_position(mode),
        crate::desktop::actions::mode_at(r) == mode,
{
    match mode {
        MergeMode::Union => 0,
        MergeMode::Intersection => 1,
        MergeMode::Manual => 2,
        MergeMode::Consolidate => 3,
        MergeMode::Join => 4,
    }
}

/// The position of `kind` in its option box.
pub fn join_index(kind: JoinKind) -> (r: i32)
    ensures
        r == join_position(kind),
        crate::desktop::actions::join_at(r) == kind,
{
    match kind {
        JoinKind::Left => 0,
        JoinKind::Inner => 1,
        JoinKind::Full => 2,
    }
}

/// `items` after a first entry `placeholder`, as a drop-down list shows them.
pub fn with_placeholder(placeholder: &str, items: &Vec<String>) -> (r: Vec<String>)
    ensures
        texts(r@) == seq![placeholder@] + texts(items@),
{
    let mut out: Vec<String> = Vec::new();
    out.push(crate::text::owned(placeholder));
    let mut i: usize = 0;
    while i < items.len()
        invariant
            i <= items@.len(),
            texts(out@) == seq![placeholder@] + texts(items@).take(i as int),
        decreases items@.len() - i,
    {
        let ghost prev = out@;
        out.push(items[i].clone());
        proof {
            assert(texts(out@) =~= texts(prev).push(items@[i as int]@));
            assert(texts(items@).take(i + 1) =~= texts(items@).take(i as int).push(items@[i as int]@));
        }
        i = i + 1;
    }
    proof {
        assert(texts(items@).take(i as int) =~= texts(items@));
    }
    out
}

/// The text order is antisymmetric and transitive.
proof fn lemma_text_order(a: Seq<char>, b: Seq<char>, c: Seq<char>)
    ensures
        text_leq(a, b) && text_leq(b, a) ==> a == b,
        text_leq(a, b) && text_leq(b, c) ==> text_leq(a, c),
{
    crate::engine::order::lemma_bytes_leq_total(
        vstd::utf8::encode_utf8(a),
        vstd::utf8::encode_utf8(b),
        vstd::utf8::encode_utf8(c),
    );
    if text_leq(a, b) && text_leq(b, a) {
        vstd::utf8::encode_utf8_decode_utf8(a);
        vstd::utf8::encode_utf8_decode_utf8(b);
    }
}

/// Whether the tables at `s` come in the order of their paths.
pub open spec fn by_path(ts: Seq<SourceTable>, s: Seq<usize>) -> bool {
    forall|i: int, j: int|
        #![trigger s[i], s[j]]
        0 <= i < j < s.len() ==> text_leq(ts[s[i] as int].path@, ts[s[j] as int].path@)
}

/// The positions ordered by path come in the order of their paths.
proof fn lemma_path_order_sorted(ts: Seq<SourceTable>)
    requires
        ts.len() <= usize::MAX,
    ensures
        by_path(ts, path_order(ts)),
{
    let keys = paths_of(ts);
    crate::engine::order::lemma_key_order_len(keys);
    let o = path_order(ts);
    assert forall|i: int, j: int| 0 <= i < j < o.len() implies text_leq(
        ts[o[i] as int].path@,
        ts[o[j] as int].path@,
    ) by {
        crate::engine::order::lemma_key_order_ascending(keys, i, j);
    }
}

/// The found tables keep the order of `order`, and each is one of `order`.
proof fn lemma_found_by_path(order: Seq<usize>, ts: Seq<SourceTable>, names: Seq<Option<String>>, filter: Seq<char>)
    requires
        by_path(ts, order),
    ensures
        by_path(ts, found_in(order, ts, names, filter)),
        forall|k: int|
            0 <= k < found_in(order, ts, names, filter).len() ==> order.contains(
                #[trigger] found_in(order, ts, names, filter)[k],
            ),
    decreases order.len(),
{
    if order.len() > 0 {
        let o2 = order.drop_last();
        assert forall|i: int, j: int| 0 <= i < j < o2.len() implies text_leq(
            ts[o2[i] as int].path@,
            ts[o2[j] as int].path@,
        ) by {
            assert(o2[i] == order[i] && o2[j] == order[j]);
        }
        lemma_found_by_path(o2, ts, names, filter);
        let f2 = found_in(o2, ts, names, filter);
        let f = found_in(order, ts, names, filter);
        let x = order.last();
        assert forall|k: int| 0 <= k < f2.len() implies order.contains(#[trigger] f2[k]) by {
            assert(o2.contains(f2[k]));
            let w = choose|w: int| 0 <= w < o2.len() && o2[w] == f2[k];
            assert(order[w] == f2[k]);
        }
        if table_found(ts[x as int], names[x as int], filter) {
            assert(f == f2.push(x));
            assert forall|i: int, j: int| 0 <= i < j < f.len() implies text_leq(
                ts[f[i] as int].path@,
                ts[f[j] as int].path@,
            ) by {
                if j == f2.len() {
                    assert(f[i] == f2[i]);
                    assert(o2.contains(f2[i]));
                    let w = choose|w: int| 0 <= w < o2.len() && o2[w] == f2[i];
                    assert(order[w] == f2[i]);
                    assert(order[order.len() - 1] == x);
                    assert(f[j] == x);
                } else {
                    assert(f[i] == f2[i] && f[j] == f2[j]);
                }
            }
            assert forall|k: int| 0 <= k < f.len() implies order.contains(#[trigger] f[k]) by {
                if k == f2.len() {
                    assert(order[order.len() - 1] == x);
                } else {
                    assert(f[k] == f2[k]);
                }
            }
        } else {
            assert(f == f2);
        }
    }
}

/// Grouping tables that come in the order of their paths gives groups whose members share
/// the group's path and whose paths rise strictly.
proof fn lemma_groups_ascending(ts: Seq<SourceTable>, s: Seq<usize>)
    requires
        by_path(ts, s),
    ensures
        ({
            let g = groups_of(ts, s);
            &&& forall|a: int| 0 <= a < g.len() ==> (#[trigger] g[a]).1.len() > 0
            &&& forall|a: int, q: int|
                0 <= a < g.len() && 0 <= q < g[a].1.len() ==> ts[(#[trigger] g[a].1[q]) as int].path@ == g[a].0
                    && s.contains(g[a].1[q])
            &&& forall|a: int, b: int|
                #![trigger g[a], g[b]]
                0 <= a < b < g.len() ==> text_leq(g[a].0, g[b].0) && g[a].0 != g[b].0
            &&& s.len() > 0 ==> g.len() > 0 && g.last().0 == ts[s.last() as int].path@
        }),
    decreases s.len(),
{
    if s.len() > 0 {
        let s2 = s.drop_last();
        assert forall|i: int, j: int| 0 <= i < j < s2.len() implies text_leq(
            ts[s2[i] as int].path@,
            ts[s2[j] as int].path@,
        ) by {
            assert(s2[i] == s[i] && s2[j] == s[j]);
        }
        lemma_groups_ascending(ts, s2);
        let g2 = groups_of(ts, s2);
        let g = groups_of(ts, s);
        let x = s.last();
        let p = ts[x as int].path@;
        assert(s[s.len() - 1] == x);
        // every member of an earlier group comes before x, so its path is not after p
        assert forall|a: int| 0 <= a < g2.len() implies text_leq(#[trigger] g2[a].0, p) by {
            let m = g2[a].1[0];
            assert(ts[m as int].path@ == g2[a].0);
            assert(s2.contains(m));
            let w = choose|w: int| 0 <= w < s2.len() && s2[w] == m;
            assert(s[w] == m);
        }
        assert forall|a: int, q: int| 0 <= a < g2.len() && 0 <= q < g2[a].1.len() implies s.contains(
            #[trigger] g2[a].1[q],
        ) by {
            assert(s2.contains(g2[a].1[q]));
            let w = choose|w: int| 0 <= w < s2.len() && s2[w] == g2[a].1[q];
            assert(s[w] == g2[a].1[q]);
        }
        if g2.len() > 0 && g2.last().0 == p {
            let last = g2.len() - 1;
            assert(g == g2.update(last, (p, g2.last().1.push(x))));
            assert forall|a: int, q: int|
                0 <= a < g.len() && 0 <= q < g[a].1.len() implies ts[(#[trigger] g[a].1[q]) as int].path@ == g[a].0
                && s.contains(g[a].1[q]) by {
                if a == last && q == g2[last].1.len() {
                    assert(g[a].1[q] == x);
                } else if a == last {
                    assert(g[a].1[q] == g2[a].1[q]);
                } else {
                    assert(g[a] == g2[a]);
                }
            }
            assert forall|a: int, b: int| #![trigger g[a], g[b]] 0 <= a < b < g.len() implies text_leq(g[a].0, g[b].0)
                && g[a].0 != g[b].0 by {
                assert(g[a].0 == g2[a].0 && g[b].0 == g2[b].0);
            }
            assert forall|a: int| 0 <= a < g.len() implies (#[trigger] g[a]).1.len() > 0 by {
                if a != last {
                    assert(g[a] == g2[a]);
                }
            }
        } else {
            assert(g == g2.push((p, seq![x])));
            assert forall|a: int| 0 <= a < g2.len() implies (#[trigger] g2[a]).0 != p by {
                if g2.len() > 0 && a < g2.len() - 1 {
                    let l = g2.len() - 1;
                    assert(text_leq(g2[a].0, g2[l].0) && g2[a].0 != g2[l].0);
                    assert(text_leq(g2[l].0, p));
                    lemma_text_order(g2[a].0, g2[l].0, p);
                    lemma_text_order(g2[l].0, p, g2[l].0);
                    if g2[a].0 == p {
                        assert(text_leq(p, g2[l].0));
                    }
                }
            }
            assert forall|a: int, q: int|
                0 <= a < g.len() && 0 <= q < g[a].1.len() implies ts[(#[trigger] g[a].1[q]) as int].path@ == g[a].0
                && s.contains(g[a].1[q]) by {
                if a == g2.len() {
                    assert(g[a].1 == seq![x]);
                    assert(g[a].1[q] == x);
                } else {
                    assert(g[a] == g2[a]);
                }
            }
            assert forall|a: int, b: int| #![trigger g[a], g[b]] 0 <= a < b < g.len() implies text_leq(g[a].0, g[b].0)
                && g[a].0 != g[b].0 by {
                if b == g2.len() {
                    assert(g[a] == g2[a]);
                    assert(g[b].0 == p);
                } else {
                    assert(g[a] == g2[a] && g[b] == g2[b]);
                }
            }
            assert forall|a: int| 0 <= a < g.len() implies (#[trigger] g[a]).1.len() > 0 by {
                if a < g2.len() {
                    assert(g[a] == g2[a]);
                }
            }
        }
    }
}

/// Each workbook line of `all_lines(.., gs)` shows the path of one of `gs`, and two such
/// lines show the paths of two groups in the same order.
proof fn lemma_lines_follow_groups(
    ts: Seq<SourceTable>,
    names: Seq<Option<String>>,
    collapsed: Seq<Seq<char>>,
    gs: Seq<(Seq<char>, Seq<usize>)>,
)
    ensures
        ({
            let lines = all_lines(ts, names, collapsed, gs);
            &&& forall|i: int|
                0 <= i < lines.len() && (#[trigger] lines[i]).is_group ==> exists|a: int|
                    0 <= a < gs.len() && lines[i].path == (#[trigger] gs[a]).0
            &&& forall|i: int, j: int|
                #![trigger lines[i], lines[j]]
                0 <= i < j < lines.len() && lines[i].is_group && lines[j].is_group ==> exists|a: int, b: int|
                    #![trigger gs[a], gs[b]]
                    0 <= a < b < gs.len() && lines[i].path == gs[a].0 && lines[j].path == gs[b].0
        }),
    decreases gs.len(),
{
    if gs.len() > 0 {
        let gs2 = gs.drop_last();
        lemma_lines_follow_groups(ts, names, collapsed, gs2);
        let l2 = all_lines(ts, names, collapsed, gs2);
        let last = gs.last();
        let tail = group_lines(ts, names, collapsed, last);
        let lines = all_lines(ts, names, collapsed, gs);
        assert(lines == l2 + tail);
        let n = l2.len();
        let top = gs.len() - 1;
        assert(gs[top] == last);
        assert forall|k: int| 0 < k < tail.len() implies !(#[trigger] tail[k]).is_group by {
            assert(!collapsed.contains(last.0));
            assert(tail[k] == table_line(ts, last.1[k - 1]));
        }
        assert forall|i: int| 0 <= i < lines.len() && (#[trigger] lines[i]).is_group implies exists|a: int|
            0 <= a < gs.len() && lines[i].path == (#[trigger] gs[a]).0 by {
            if i < n {
                assert(lines[i] == l2[i]);
                let a = choose|a: int| 0 <= a < gs2.len() && l2[i].path == (#[trigger] gs2[a]).0;
                assert(gs[a] == gs2[a]);
            } else {
                assert(lines[i] == tail[i - n]);
                assert(i - n == 0);
                assert(lines[i].path == gs[top].0);
            }
        }
        assert forall|i: int, j: int|
            #![trigger lines[i], lines[j]]
            0 <= i < j < lines.len() && lines[i].is_group && lines[j].is_group implies exists|a: int, b: int|
                #![trigger gs[a], gs[b]]
                0 <= a < b < gs.len() && lines[i].path == gs[a].0 && lines[j].path == gs[b].0 by {
            if j < n {
                assert(lines[i] == l2[i] && lines[j] == l2[j]);
                let (a, b) = choose|a: int, b: int|
                    #![trigger gs2[a], gs2[b]]
                    0 <= a < b < gs2.len() && l2[i].path == gs2[a].0 && l2[j].path == gs2[b].0;
                assert(gs[a] == gs2[a] && gs[b] == gs2[b]);
            } else {
                assert(lines[j] == tail[j - n]);
                assert(j - n == 0);
                if i >= n {
                    assert(false);
                }
                assert(lines[i] == l2[i]);
                let a = choose|a: int| 0 <= a < gs2.len() && l2[i].path == (#[trigger] gs2[a]).0;
                assert(gs[a] == gs2[a]);
            }
        }
    }
}

/// Each workbook shows once in the table list, and the workbooks come in the order of their
/// paths: of two workbook lines, the first has the smaller path.
pub proof fn lemma_one_line_per_workbook(
    ts: Seq<SourceTable>,
    names: Seq<Option<String>>,
    collapsed: Seq<Seq<char>>,
    search: Seq<char>,
    i: int,
    j: int,
)
    requires
        ts.len() <= usize::MAX,
        0 <= i < j < table_list(ts, names, collapsed, search).len(),
        table_list(ts, names, collapsed, search)[i].is_group,
        table_list(ts, names, collapsed, search)[j].is_group,
    ensures
        table_list(ts, names, collapsed, search)[i].path != table_list(ts, names, collapsed, search)[j].path,
        text_leq(table_list(ts, names, collapsed, search)[i].path, table_list(ts, names, collapsed, search)[j].path),
{
    let filter = lower(crate::text::trim(search));
    lemma_path_order_sorted(ts);
    lemma_found_by_path(path_order(ts), ts, names, filter);
    let found = found_in(path_order(ts), ts, names, filter);
    lemma_groups_ascending(ts, found);
    let gs = groups_of(ts, found);
    lemma_lines_follow_groups(ts, names, collapsed, gs);
    let lines = table_list(ts, names, collapsed, search);
    assert(lines == all_lines(ts, names, collapsed, gs));
    let (a, b) = choose|a: int, b: int|
        #![trigger gs[a], gs[b]]
        0 <= a < b < gs.len() && lines[i].path == gs[a].0 && lines[j].path == gs[b].0;
}

/// The groups `v` as values.
pub open spec fn group_views(v: Seq<(String, Vec<usize>)>) -> Seq<(Seq<char>, Seq<usize>)> {
    v.map_values(|g: (String, Vec<usize>)| (g.0@, g.1@))
}

/// The positions of the tables `ts`, ordered by path and then by position.
fn ordered_positions(ts: &Vec<SourceTable>) -> (r: Vec<usize>)
    ensures
        r@ == path_order(ts@),
        forall|k: int| 0 <= k < r@.len() ==> #[trigger] r@[k] < ts@.len(),
{
    let mut keys: Vec<String> = Vec::new();
    let mut i: usize = 0;
    while i < ts.len()
        invariant
            i <= ts@.len(),
            texts(keys@) == paths_of(ts@).take(i as int),
        decreases ts@.len() - i,
    {
        let ghost prev = keys@;
        keys.push(ts[i].path.clone());
        proof {
            assert(texts(keys@) =~= texts(prev).push(ts@[i as int].path@));
            assert(paths_of(ts@).take(i + 1) =~= paths_of(ts@).take(i as int).push(ts@[i as int].path@));
        }
        i = i + 1;
    }
    proof {
        assert(paths_of(ts@).take(i as int) =~= paths_of(ts@));
    }
    let r = crate::engine::order::sorted_positions(&keys);
    proof {
        crate::engine::order::lemma_key_order_len(paths_of(ts@));
        assert(r@ =~= path_order(ts@));
    }
    r
}

/// The positions among `order` of the tables that `filter` finds, in that order.
fn found_positions(ts: &Vec<SourceTable>, names: &[Option<String>], order: &Vec<usize>, filter: &Vec<char>) -> (r: Vec<usize>)
    requires
        names@.len() == ts@.len(),
        forall|k: int| 0 <= k < order@.len() ==> #[trigger] order@[k] < ts@.len(),
    ensures
        r@ == found_in(order@, ts@, names@, filter@),
        forall|k: int| 0 <= k < r@.len() ==> #[trigger] r@[k] < ts@.len(),
{
    let mut out: Vec<usize> = Vec::new();
    let mut k: usize = 0;
    proof {
        assert(order@.take(0) =~= Seq::<usize>::empty());
    }
    while k < order.len()
        invariant
            names@.len() == ts@.len(),
            forall|q: int| 0 <= q < order@.len() ==> #[trigger] order@[q] < ts@.len(),
            k <= order@.len(),
            out@ == found_in(order@.take(k as int), ts@, names@, filter@),
            forall|q: int| 0 <= q < out@.len() ==> #[trigger] out@[q] < ts@.len(),
        decreases order@.len() - k,
    {
        let i = order[k];
        proof {
            assert(order@.take(k + 1).drop_last() =~= order@.take(k as int));
            assert(order@.take(k + 1).last() == i);
        }
        let t = &ts[i];
        let found = if filter.len() == 0 {
            true
        } else {
            let file = match &names[i] {
                Some(n) => n.clone(),
                None => String::new(),
            };
            let shown = crate::paths::display_name_of(file.as_str(), t.sheet_name.as_str());
            let a = concat(t.path.as_str(), " ");
            let b = concat(a.as_str(), t.sheet_name.as_str());
            let c = concat(b.as_str(), " ");
            let d = concat(c.as_str(), shown.as_str());
            let lowered = crate::text::to_lowercase(d.as_str());
            let chars = crate::text::chars_of(lowered.as_str());
            crate::engine::rows::contains_text(&chars, filter)
        };
        if found {
            out.push(i);
        }
        k = k + 1;
    }
    proof {
        assert(order@.take(k as int) =~= order@);
    }
    out
}

/// The tables at `found` grouped into runs of one path.
fn group_positions(ts: &Vec<SourceTable>, found: &Vec<usize>) -> (r: Vec<(String, Vec<usize>)>)
    requires
        forall|k: int| 0 <= k < found@.len() ==> #[trigger] found@[k] < ts@.len(),
    ensures
        group_views(r@) == groups_of(ts@, found@),
        forall|g: int| 0 <= g < r@.len() ==> (#[trigger] r@[g]).1@.len() > 0,
        forall|g: int, q: int| 0 <= g < r@.len() && 0 <= q < r@[g].1@.len() ==> #[trigger] r@[g].1@[q] < ts@.len(),
{
    let mut groups: Vec<(String, Vec<usize>)> = Vec::new();
    let mut k: usize = 0;
    proof {
        assert(found@.take(0) =~= Seq::<usize>::empty());
    }
    while k < found.len()
        invariant
            forall|q: int| 0 <= q < found@.len() ==> #[trigger] found@[q] < ts@.len(),
            k <= found@.len(),
            group_views(groups@) == groups_of(ts@, found@.take(k as int)),
            forall|g: int| 0 <= g < groups@.len() ==> (#[trigger] groups@[g]).1@.len() > 0,
            forall|g: int, q: int| 0 <= g < groups@.len() && 0 <= q < groups@[g].1@.len() ==> #[trigger] groups@[g].1@[q]
                < ts@.len(),
        decreases found@.len() - k,
    {
        let i = found[k];
        proof {
            assert(found@.take(k + 1).drop_last() =~= found@.take(k as int));
            assert(found@.take(k + 1).last() == i);
        }
        let n = groups.len();
        let same = n > 0 && groups[n - 1].0 == ts[i].path;
        let ghost before = groups@;
        if same {
            match groups.pop() {
                Some((p, ms)) => {
                    let mut ms = ms;
                    let ghost old_ms = ms@;
                    ms.push(i);
                    groups.push((p, ms));
                    proof {
                        assert(group_views(before).last() == (p@, old_ms));
                        assert(group_views(groups@) =~= group_views(before).update(
                            n - 1,
                            (p@, group_views(before).last().1.push(i)),
                        ));
                        assert forall|g: int, q: int| 0 <= g < groups@.len() && 0 <= q < groups@[g].1@.len() implies #[trigger] groups@[g].1@[q]
                            < ts@.len() by {
                            if g < n - 1 {
                                assert(groups@[g] == before[g]);
                            } else if q < old_ms.len() {
                                assert(groups@[g].1@[q] == old_ms[q]);
                                assert(before[g].1@[q] == old_ms[q]);
                            }
                        }
                        assert forall|g: int| 0 <= g < groups@.len() implies (#[trigger] groups@[g]).1@.len() > 0 by {
                            if g < n - 1 {
                                assert(groups@[g] == before[g]);
                            }
                        }
                    }
                },
                None => {},
            }
        } else {
            let mut ms: Vec<usize> = Vec::new();
            ms.push(i);
            groups.push((ts[i].path.clone(), ms));
            proof {
                assert(ms@ =~= seq![i]);
                assert(group_views(groups@) =~= group_views(before).push((ts@[i as int].path@, seq![i])));
                assert forall|g: int, q: int| 0 <= g < groups@.len() && 0 <= q < groups@[g].1@.len() implies #[trigger] groups@[g].1@[q]
                    < ts@.len() by {
                    if g < n {
                        assert(groups@[g] == before[g]);
                    }
                }
                assert forall|g: int| 0 <= g < groups@.len() implies (#[trigger] groups@[g]).1@.len() > 0 by {
                    if g < n {
                        assert(groups@[g] == before[g]);
                    }
                }
            }
        }
        k = k + 1;
    }
    proof {
        assert(found@.take(k as int) =~= found@);
    }
    groups
}

/// Looks up the suggestion for source column `name` among `pairs`.
fn suggestion_text(pairs: &[(String, String)], name: &String) -> (r: String)
    ensures
        r@ == match suggestion_for(pairs@, name@) {
            Some(t) => t@,
            None => Seq::<char>::empty(),
        },
{
    match crate::desktop::actions::suggestion_lookup(pairs, name) {
        Some(t) => t,
        None => String::new(),
    }
}

/// The line of table `i` of `ts`.
fn table_row(ts: &Vec<SourceTable>, i: usize) -> (r: SourceRow)
    requires
        i < ts@.len(),
    ensures
        row_view(r) == table_line(ts@, i),
{
    let t = &ts[i];
    let a = concat(crate::desktop::app::format_number(t.estimated_rows).as_str(), " 行 · ");
    let b = concat(a.as_str(), decimal_string(t.headers.len() as u64).as_str());
    SourceRow {
        is_group: false,
        source_index: i as i32,
        enabled: t.enabled,
        collapsed: false,
        file_name: String::new(),
        sheet_name: t.sheet_name.clone(),
        detail: concat(b.as_str(), " 列"),
        path: t.path.clone(),
        header_row: t.header_row as i32,
        header_rows: t.header_rows as i32,
        suggested_row: t.suggested_header_row as i32,
    }
}

/// How many of the tables at `ms` are enabled.
fn count_enabled(ts: &Vec<SourceTable>, ms: &Vec<usize>) -> (r: usize)
    requires
        forall|q: int| 0 <= q < ms@.len() ==> #[trigger] ms@[q] < ts@.len(),
    ensures
        r == enabled_count(ts@, ms@),
        r <= ms@.len(),
{
    let mut on: usize = 0;
    let mut q: usize = 0;
    proof {
        assert(ms@.take(0) =~= Seq::<usize>::empty());
    }
    while q < ms.len()
        invariant
            forall|j: int| 0 <= j < ms@.len() ==> #[trigger] ms@[j] < ts@.len(),
            q <= ms@.len(),
            on <= q,
            on == enabled_count(ts@, ms@.take(q as int)),
        decreases ms@.len() - q,
    {
        proof {
            assert(ms@.take(q + 1).drop_last() =~= ms@.take(q as int));
            assert(ms@.take(q + 1).last() == ms@[q as int]);
        }
        if ts[ms[q]].enabled {
            on = on + 1;
        }
        q = q + 1;
    }
    proof {
        assert(ms@.take(q as int) =~= ms@);
    }
    on
}

/// The lines of the groups `groups`.
fn group_rows(
    ts: &Vec<SourceTable>,
    names: &[Option<String>],
    collapsed: &Vec<String>,
    groups: &Vec<(String, Vec<usize>)>,
) -> (r: Vec<SourceRow>)
    requires
        names@.len() == ts@.len(),
        forall|g: int| 0 <= g < groups@.len() ==> (#[trigger] groups@[g]).1@.len() > 0,
        forall|g: int, q: int| 0 <= g < groups@.len() && 0 <= q < groups@[g].1@.len() ==> #[trigger] groups@[g].1@[q]
            < ts@.len(),
    ensures
        row_views(r@) == all_lines(ts@, names@, texts(collapsed@), group_views(groups@)),
{
    let ghost cs = texts(collapsed@);
    let ghost gv = group_views(groups@);
    let mut rows: Vec<SourceRow> = Vec::new();
    let mut g: usize = 0;
    proof {
        assert(gv.take(0) =~= Seq::<(Seq<char>, Seq<usize>)>::empty());
    }
    while g < groups.len()
        invariant
            names@.len() == ts@.len(),
            cs == texts(collapsed@),
            gv == group_views(groups@),
            forall|j: int| 0 <= j < groups@.len() ==> (#[trigger] groups@[j]).1@.len() > 0,
            forall|j: int, q: int| 0 <= j < groups@.len() && 0 <= q < groups@[j].1@.len() ==> #[trigger] groups@[j].1@[q]
                < ts@.len(),
            g <= groups@.len(),
            row_views(rows@) == all_lines(ts@, names@, cs, gv.take(g as int)),
        decreases groups@.len() - g,
    {
        let path = &groups[g].0;
        let ms = &groups[g].1;
        let ghost grp = gv[g as int];
        proof {
            assert(grp == (path@, ms@));
            assert(gv.take(g + 1).drop_last() =~= gv.take(g as int));
            assert(gv.take(g + 1).last() == grp);
            assert forall|q: int| 0 <= q < ms@.len() implies #[trigger] ms@[q] < ts@.len() by {
                assert(groups@[g as int].1@[q] < ts@.len());
            }
        }
        let on = count_enabled(ts, ms);
        let folded = crate::headers::contains_text(collapsed, path);
        let first = ms[0];
        let file = match &names[first] {
            Some(n) => n.clone(),
            None => path.clone(),
        };
        let a = concat(decimal_string(ms.len() as u64).as_str(), " 个数据表 · 已选 ");
        let b = concat(a.as_str(), decimal_string(on as u64).as_str());
        let ghost before = rows@;
        rows.push(
            SourceRow {
                is_group: true,
                source_index: -1,
                enabled: on == ms.len(),
                collapsed: folded,
                file_name: file,
                sheet_name: String::new(),
                detail: concat(b.as_str(), " 个"),
                path: path.clone(),
                header_row: 1,
                header_rows: 1,
                suggested_row: 1,
            },
        );
        proof {
            assert(row_views(rows@) =~= row_views(before).push(group_line(ts@, names@, cs, grp)));
        }
        if !folded {
            let mut q: usize = 0;
            while q < ms.len()
                invariant
                    forall|j: int| 0 <= j < ms@.len() ==> #[trigger] ms@[j] < ts@.len(),
                    q <= ms@.len(),
                    row_views(rows@) == row_views(before).push(group_line(ts@, names@, cs, grp)) + ms@.take(
                        q as int,
                    ).map_values(|i: usize| table_line(ts@, i)),
                decreases ms@.len() - q,
            {
                let ghost prev = rows@;
                rows.push(table_row(ts, ms[q]));
                proof {
                    assert(row_views(rows@) =~= row_views(prev).push(table_line(ts@, ms@[q as int])));
                    assert(ms@.take(q + 1).map_values(|i: usize| table_line(ts@, i)) =~= ms@.take(q as int).map_values(
                        |i: usize| table_line(ts@, i),
                    ).push(table_line(ts@, ms@[q as int])));
                }
                q = q + 1;
            }
            proof {
                assert(ms@.take(q as int) =~= ms@);
                assert(row_views(rows@) =~= row_views(before) + group_lines(ts@, names@, cs, grp));
            }
        } else {
            proof {
                assert(row_views(rows@) =~= row_views(before) + group_lines(ts@, names@, cs, grp));
            }
        }
        g = g + 1;
    }
    proof {
        assert(gv.take(g as int) =~= gv);
    }
    rows
}

impl MergeApp {
    /// The table list, where `names` holds the file name of each table's path: the tables
    /// that the source search finds, grouped by workbook.
    pub fn source_rows(&self, names: &[Option<String>]) -> (r: Vec<SourceRow>)
        requires
            names@.len() == self.sources@.len(),
        ensures
            row_views(r@) == table_list(self.sources@, names@, texts(self.collapsed_groups@), self.source_search@),
    {
        let trimmed = crate::text::trim_str(self.source_search.as_str());
        let lowered = crate::text::to_lowercase(trimmed.as_str());
        let filter = crate::text::chars_of(lowered.as_str());
        let order = ordered_positions(&self.sources);
        let found = found_positions(&self.sources, names, &order, &filter);
        let groups = group_positions(&self.sources, &found);
        group_rows(&self.sources, names, &self.collapsed_groups, &groups)
    }

    /// The table list, with the file name of each table's path by the platform's path rules:
    /// for a plain path the text after its last `/`, for a portable path ending in `..` none.
    pub fn source_list(&self) -> (r: Vec<SourceRow>)
        ensures
            exists|names: Seq<Option<String>>|
                {
                    &&& names.len() == self.sources@.len()
                    &&& forall|i: int| 0 <= i < names.len() ==> path_file_name(#[trigger] names[i], self.sources@[i])
                    &&& row_views(r@) == table_list(
                        self.sources@,
                        names,
                        texts(self.collapsed_groups@),
                        self.source_search@,
                    )
                },
    {
        let mut names: Vec<Option<String>> = Vec::new();
        let mut i: usize = 0;
        while i < self.sources.len()
            invariant
                i <= self.sources@.len(),
                names@.len() == i,
                forall|q: int| 0 <= q < i ==> path_file_name(#[trigger] names@[q], self.sources@[q]),
            decreases self.sources@.len() - i,
        {
            let ghost before = names@;
            names.push(crate::paths::file_name_part(self.sources[i].path.as_str()));
            proof {
                assert forall|q: int| 0 <= q < i + 1 implies path_file_name(#[trigger] names@[q], self.sources@[q]) by {
                    if q < i {
                        assert(names@[q] == before[q]);
                    }
                }
            }
            i = i + 1;
        }
        self.source_rows(names.as_slice())
    }

    /// The mapping list of the mapping table and how many of its mappings are shared by all
    /// enabled tables; `suggestions` pairs a source column with its suggested target. Without
    /// a mapping table both are empty.
    pub fn mapping_rows(&self, suggestions: &[(String, String)]) -> (r: (Vec<MappingRow>, usize))
        ensures
            self.selected_mapping_table >= self.sources@.len() ==> r.0@.len() == 0 && r.1 == 0,
            self.selected_mapping_table < self.sources@.len() ==> ({
                let ms = self.sources@[self.selected_mapping_table as int].mappings@;
                let common = common_keys(self.sources@);
                let idx = listed_indices(
                    ms,
                    common,
                    suggestions@,
                    self.hide_common_mappings,
                    self.mismatch_only,
                    lower(self.mapping_search@),
                );
                &&& r.1 == common_count(ms, common)
                &&& r.0@.len() == idx.len()
                &&& forall|k: int| 0 <= k < idx.len() ==> row_shows(#[trigger] r.0@[k], ms[idx[k]], idx[k], suggestions@)
            }),
    {
        let t = self.selected_mapping_table;
        let mut rows: Vec<MappingRow> = Vec::new();
        if t >= self.sources.len() {
            return (rows, 0);
        }
        let common = crate::desktop::model::common_header_keys(self.sources.as_slice());
        let search = crate::text::to_lowercase(self.mapping_search.as_str());
        let search_chars = crate::text::chars_of(search.as_str());
        let ms = &self.sources[t].mappings;
        let ghost cs = common_keys(self.sources@);
        let ghost sv = lower(self.mapping_search@);
        let mut count: usize = 0;
        let mut j: usize = 0;
        proof {
            assert(ms@.take(0) =~= Seq::<ColumnMapping>::empty());
        }
        while j < ms.len()
            invariant
                ms@ == self.sources@[t as int].mappings@,
                texts(common@).to_set() == cs,
                search_chars@ == sv,
                j <= ms@.len(),
                count <= j,
                count == common_count(ms@.take(j as int), cs),
                ({
                    let idx = listed_indices(ms@.take(j as int), cs, suggestions@, self.hide_common_mappings, self.mismatch_only, sv);
                    &&& rows@.len() == idx.len()
                    &&& forall|k: int| 0 <= k < idx.len() ==> row_shows(#[trigger] rows@[k], ms@[idx[k]], idx[k], suggestions@)
                    &&& forall|k: int| 0 <= k < idx.len() ==> 0 <= #[trigger] idx[k] < j
                }),
            decreases ms@.len() - j,
        {
            let m = &ms[j];
            proof {
                assert(ms@.take(j + 1).drop_last() =~= ms@.take(j as int));
                assert(ms@.take(j + 1).last() == ms@[j as int]);
            }
            let k = crate::desktop::model::header_key(m.source_name.as_str());
            let common_field = crate::headers::contains_text(&common, &k);
            proof {
                assert(texts(common@).contains(k@) == cs.contains(k@));
            }
            if common_field {
                count = count + 1;
            }
            let target_key = crate::desktop::model::header_key(m.target_name.as_str());
            let suggestion = suggestion_text(suggestions, &m.source_name);
            let has_suggestion = crate::desktop::actions::suggestion_lookup(suggestions, &m.source_name).is_some();
            let differs = k != target_key || has_suggestion;
            let matches = if search_chars.len() == 0 {
                true
            } else {
                let source_lower = crate::text::chars_of(crate::text::to_lowercase(m.source_name.as_str()).as_str());
                let target_lower = crate::text::chars_of(crate::text::to_lowercase(m.target_name.as_str()).as_str());
                crate::engine::rows::contains_text(&source_lower, &search_chars) || crate::engine::rows::contains_text(
                    &target_lower,
                    &search_chars,
                )
            };
            let ghost before = rows@;
            if (!self.hide_common_mappings || !common_field) && (!self.mismatch_only || differs) && matches {
                rows.push(
                    MappingRow {
                        enabled: m.enabled,
                        mapping_index: j as i32,
                        source_name: m.source_name.clone(),
                        target_name: m.target_name.clone(),
                        suggestion,
                        transform_index: crate::desktop::app::transform_index(m.transform),
                        aggregate_index: crate::desktop::app::aggregate_index(m.aggregate),
                    },
                );
                proof {
                    assert(rows@[rows@.len() - 1] == rows@.last());
                    assert forall|q: int| 0 <= q < before.len() implies rows@[q] == before[q] by {}
                }
            }
            j = j + 1;
        }
        proof {
            assert(ms@.take(j as int) =~= ms@);
        }
        (rows, count)
    }

    /// The status line.
    pub fn status_line(&self) -> (r: StatusLine)
        ensures
            (r.text@, r.kind, r.can_reveal) == status_of(*self),
    {
        match &self.state {
            AppState::Done { rows, sheets, .. } => {
                let a = concat("合并成功：", crate::desktop::app::format_number(*rows).as_str());
                let b = concat(a.as_str(), " 行，");
                let c = concat(b.as_str(), decimal_string(*sheets as u64).as_str());
                StatusLine { text: concat(c.as_str(), " 个 Sheet"), kind: 1, can_reveal: true }
            },
            AppState::Error(message) => StatusLine { text: message.clone(), kind: 2, can_reveal: false },
            _ => {
                if !self.progress_label.as_str().is_empty() {
                    StatusLine { text: self.progress_label.clone(), kind: 0, can_reveal: false }
                } else if self.warnings.len() > 0 {
                    let text = concat(
                        decimal_string(self.warnings.len() as u64).as_str(),
                        " 个文件或工作表未能读取，可在检查报告中查看",
                    );
                    StatusLine { text, kind: 2, can_reveal: false }
                } else {
                    StatusLine { text: concat("当前方式：", self.options.mode.label()), kind: 0, can_reveal: false }
                }
            },
        }
    }

    /// The summary above the check report.
    pub fn check_summary(&self) -> (r: String)
        ensures
            r@ == check_summary_of(*self),
    {
        if self.check_issues.len() == 0 {
            if self.check_ran {
                crate::text::owned("检查完成：未发现问题")
            } else {
                crate::text::owned("尚未检查")
            }
        } else {
            let ghost v = issue_views(self.check_issues@);
            let mut errors: u64 = 0;
            let mut warnings: u64 = 0;
            let mut i: usize = 0;
            proof {
                assert(v.take(0) =~= Seq::<crate::engine::inspect::IssueView>::empty());
            }
            while i < self.check_issues.len()
                invariant
                    v == issue_views(self.check_issues@),
                    i <= self.check_issues@.len(),
                    errors <= i && warnings <= i,
                    errors == level_count(v.take(i as int), IssueLevel::Error),
                    warnings == level_count(v.take(i as int), IssueLevel::Warning),
                decreases self.check_issues@.len() - i,
            {
                proof {
                    assert(v.take(i + 1).drop_last() =~= v.take(i as int));
                    assert(v.take(i + 1).last() == v[i as int]);
                }
                let level = self.check_issues[i].level;
                if level == IssueLevel::Error {
                    errors = errors + 1;
                } else if level == IssueLevel::Warning {
                    warnings = warnings + 1;
                }
                i = i + 1;
            }
            proof {
                assert(v.take(i as int) =~= v);
            }
            let a = concat("检查完成：", decimal_string(errors).as_str());
            let b = concat(a.as_str(), " 个错误，");
            let c = concat(b.as_str(), decimal_string(warnings).as_str());
            concat(c.as_str(), " 个提醒")
        }
    }

    /// Whether the last check ran and found nothing.
    pub fn check_clean(&self) -> (r: bool)
        ensures
            r == (self.check_ran && self.check_issues@.len() == 0),
    {
        self.check_ran && self.check_issues.len() == 0
    }

    /// Whether a merge can start: nothing under way, some table enabled, some output column.
    pub fn can_start(&self) -> (r: bool)
        ensures
            r == (!busy_state(self.state) && enabled_tables(self.sources@).len() > 0 && planned_headers(
                self.sources@,
                self.options,
            ).len() > 0),
    {
        let plan = crate::desktop::model::build_output_plan(self.sources.as_slice(), &self.options);
        let enabled = self.enabled_indices();
        !self.busy() && enabled.len() > 0 && plan.headers.len() > 0
    }

    /// Whether the progress bar shows.
    pub fn show_progress(&self) -> (r: bool)
        ensures
            r == (busy_state(self.state) || self.progress_label@.len() > 0),
    {
        self.busy() || !self.progress_label.as_str().is_empty()
    }

    /// The figures above the output: the estimated rows of the enabled tables with thousands
    /// separated, the number of output columns, and the number of sheets those rows fill.
    pub fn metrics(&self) -> (r: (String, String, String))
        requires
            rows_total(enabled_tables(self.sources@)) <= u64::MAX,
        ensures
            ({
                let rows = rows_total(enabled_tables(self.sources@));
                &&& r.0@ == grouped(decimal(rows), decimal(rows).len())
                &&& r.1@ == decimal(planned_headers(self.sources@, self.options).len())
                &&& r.2@ == decimal(sheets_for(rows))
            }),
    {
        let rows = crate::engine::preflight::estimated_rows_total(self.sources.as_slice());
        let plan = crate::desktop::model::build_output_plan(self.sources.as_slice(), &self.options);
        proof {
            assert(plan.headers@.len() == texts(plan.headers@).len());
        }
        (
            crate::desktop::app::format_number(rows),
            decimal_string(plan.headers.len() as u64),
            decimal_string(sheets_needed(rows)),
        )
    }

    /// The place of the mapping table among the enabled tables, the first where it is not
    /// enabled.
    pub fn mapping_position(&self) -> (r: usize)
        ensures
            ({
                let e = enabled_index_list(self.sources@);
                &&& e.contains(self.selected_mapping_table) ==> r < e.len() && e[r as int]
                    == self.selected_mapping_table && forall|j: int| 0 <= j < r ==> e[j] != self.selected_mapping_table
                &&& !e.contains(self.selected_mapping_table) ==> r == 0
            }),
    {
        let e = crate::desktop::actions::enabled_positions_list(&self.sources);
        let mut i: usize = 0;
        while i < e.len()
            invariant
                e@ == enabled_index_list(self.sources@),
                i <= e@.len(),
                forall|j: int| 0 <= j < i ==> e@[j] != self.selected_mapping_table,
            decreases e@.len() - i,
        {
            if e[i] == self.selected_mapping_table {
                return i;
            }
            i = i + 1;
        }
        0
    }
}

} // verus!
