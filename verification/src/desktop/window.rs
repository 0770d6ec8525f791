//! The state of the merger's window and how each user action and worker report changes it.
//! The window, its dialogs, the files and the worker threads belong to the application: the
//! functions here decide, and their results say what the application starts next.
use vstd::prelude::*;
use crate::desktop::config::{AppSettings, MergeScheme, remember, remembered};
use crate::desktop::model::{AggregateOp, JoinKind, MergeMode, MergeOptions, SourceTable, default_join_separator_text};
use crate::desktop::events::{MergeEvent, ScanEvent, UpdateEvent};
use crate::engine::inspect::{CheckIssue, IssueLevel, IssueView, PreviewTable, issue_views, level_count};
use crate::version::newer;
use crate::headers::texts;
use crate::text::{concat, decimal, decimal_string};

verus! {

/// What the window is doing.
#[derive(Debug)]
pub enum AppState {
    Ready,
    Scanning,
    Checking,
    Merging,
    Done { output: String, rows: u64, sheets: usize },
    Error(String),
}

/// The state of the merger's window. `collapsed_groups` holds the paths of the workbooks
/// whose tables are folded away in the list. The progress bar stands at
/// `progress_done / progress_total`; `progress_total` is never zero. The three `listening`
/// flags say whether the window still reads the reports of the scan, merge or release-check
/// worker.
pub struct MergeApp {
    pub sources: Vec<SourceTable>,
    pub input_label: String,
    pub output_path: String,
    pub options: MergeOptions,
    pub hide_common_mappings: bool,
    pub mismatch_only: bool,
    pub source_search: String,
    pub mapping_search: String,
    pub selected_mapping_table: usize,
    pub collapsed_groups: Vec<String>,
    pub preview: Option<PreviewTable>,
    pub preview_title: String,
    pub check_issues: Vec<CheckIssue>,
    pub scan_listening: bool,
    pub merge_listening: bool,
    pub update_listening: bool,
    pub update_text: String,
    pub update_url: Option<String>,
    pub state: AppState,
    pub preflight_continues: bool,
    pub check_ran: bool,
    pub progress_done: u64,
    pub progress_total: u64,
    pub progress_label: String,
    pub warnings: Vec<String>,
    pub settings: AppSettings,
}

/// The tables `s` after each pair of `pairs` in turn put its table at its position, where
/// there is such a position.
pub open spec fn replaced(s: Seq<SourceTable>, pairs: Seq<(usize, SourceTable)>) -> Seq<SourceTable>
    decreases pairs.len(),
{
    if pairs.len() == 0 {
        s
    } else {
        let p = replaced(s, pairs.drop_last());
        let (i, t) = pairs.last();
        if i < p.len() {
            p.update(i as int, t)
        } else {
            p
        }
    }
}

/// The length of `replaced(s, pairs)` is that of `s`.
proof fn lemma_replaced_len(s: Seq<SourceTable>, pairs: Seq<(usize, SourceTable)>)
    ensures
        replaced(s, pairs).len() == s.len(),
    decreases pairs.len(),
{
    if pairs.len() > 0 {
        lemma_replaced_len(s, pairs.drop_last());
    }
}

/// Whether the finding at `i` of `v` is its first error.
pub open spec fn first_error_at(v: Seq<IssueView>, i: int) -> bool {
    &&& 0 <= i < v.len()
    &&& v[i].level == IssueLevel::Error
    &&& forall|j: int| 0 <= j < i ==> (#[trigger] v[j]).level != IssueLevel::Error
}

/// Whether `v` holds an error.
pub open spec fn has_error(v: Seq<IssueView>) -> bool {
    exists|i: int| 0 <= i < v.len() && (#[trigger] v[i]).level == IssueLevel::Error
}

/// Whether `text` is `before`, then the name under which `t` is shown, then `after`. The
/// file name in it is the platform's: for a plain path the text after the last `/`, for a
/// portable path that ends in `..` empty.
pub open spec fn shows_name(text: Seq<char>, before: Seq<char>, t: SourceTable, after: Seq<char>) -> bool {
    &&& exists|file: Seq<char>| text == before + crate::paths::display_text(file, t.sheet_name@) + after
    &&& crate::paths::plain_path(t.path@) ==> text == before + crate::paths::display_text(
        crate::paths::last_part(t.path@),
        t.sheet_name@,
    ) + after
    &&& crate::paths::ends_in_parent(t.path@) ==> text == before + crate::paths::display_text(
        Seq::empty(),
        t.sheet_name@,
    ) + after
}

/// Whether `state` shows the error `message`.
pub open spec fn shows_error(state: AppState, message: Seq<char>) -> bool {
    state matches AppState::Error(m) && m@ == message
}

/// Whether a scan, check or merge is under way in `state`.
pub open spec fn busy_state(state: AppState) -> bool {
    state is Scanning || state is Checking || state is Merging
}

/// Whether `o` holds the default merge settings.
pub open spec fn default_options(o: MergeOptions) -> bool {
    &&& o.mode == MergeMode::Union
    &&& !o.include_source_file
    &&& !o.include_source_sheet
    &&& o.output_order@.len() == 0
    &&& !o.deduplicate
    &&& o.key_columns@.len() == 0
    &&& o.join_kind == JoinKind::Left
    &&& o.text_join_separator@ == default_join_separator_text()
    &&& o.filter_column@.len() == 0
    &&& o.filter_text@.len() == 0
    &&& !o.filter_exclude
}

/// Whether the table at `i` of `ts` is the first enabled one.
pub open spec fn first_enabled_at(ts: Seq<SourceTable>, i: int) -> bool {
    &&& 0 <= i < ts.len()
    &&& ts[i].enabled
    &&& forall|j: int| 0 <= j < i ==> !(#[trigger] ts[j]).enabled
}

/// The mapping table shown after the tables change to `ts`: `selected` where it is enabled
/// or no table is, else the first enabled table.
pub open spec fn kept_selection(ts: Seq<SourceTable>, selected: usize) -> usize {
    if (exists|i: int| 0 <= i < ts.len() && #[trigger] ts[i].enabled) && !(selected < ts.len()
        && ts[selected as int].enabled) {
        choose|i: usize| first_enabled_at(ts, i as int)
    } else {
        selected
    }
}

/// Whether the merge may be written to `output`, the trimmed output path, whose extension
/// is `extension`: an empty path asks for a file, and only an `xlsx` extension in any case is
/// accepted.
pub fn check_output_choice(output: &str, extension: Option<String>) -> (r: Result<(), String>)
    ensures
        output@.len() == 0 ==> (r matches Err(m) && m@ == "请先选择输出文件"@),
        output@.len() > 0 && (extension matches Some(e) && crate::text::ascii_lower(e@) == "xlsx"@) ==> r is Ok,
        output@.len() > 0 && !(extension matches Some(e) && crate::text::ascii_lower(e@) == "xlsx"@) ==> (r matches Err(
            m,
        ) && m@ == "输出文件必须使用 .xlsx 扩展名"@),
{
    if output.is_empty() {
        return Err(crate::text::owned("请先选择输出文件"));
    }
    match extension {
        Some(e) => {
            let lowered = crate::text::to_ascii_lowercase(e.as_str());
            let wanted = crate::text::owned("xlsx");
            if lowered == wanted {
                Ok(())
            } else {
                Err(crate::text::owned("输出文件必须使用 .xlsx 扩展名"))
            }
        },
        None => Err(crate::text::owned("输出文件必须使用 .xlsx 扩展名")),
    }
}

/// Some enabled table comes first among the enabled ones.
proof fn lemma_first_enabled_exists(ts: Seq<SourceTable>, i: int)
    requires
        0 <= i < ts.len(),
        ts[i].enabled,
    ensures
        exists|j: int| first_enabled_at(ts, j),
    decreases i,
{
    if exists|k: int| 0 <= k < i && #[trigger] ts[k].enabled {
        let k = choose|k: int| 0 <= k < i && #[trigger] ts[k].enabled;
        lemma_first_enabled_exists(ts, k);
    } else {
        assert(first_enabled_at(ts, i));
    }
}

/// Whenever some table is enabled, the mapping table kept after the tables change is an
/// enabled one.
pub proof fn lemma_kept_selection_is_enabled(ts: Seq<SourceTable>, selected: usize)
    requires
        ts.len() <= usize::MAX,
        exists|i: int| 0 <= i < ts.len() && #[trigger] ts[i].enabled,
    ensures
        kept_selection(ts, selected) < ts.len(),
        ts[kept_selection(ts, selected) as int].enabled,
{
    let i = choose|i: int| 0 <= i < ts.len() && #[trigger] ts[i].enabled;
    lemma_first_enabled_exists(ts, i);
    let j = choose|j: int| first_enabled_at(ts, j);
    assert(first_enabled_at(ts, j as usize as int));
}

impl MergeApp {
    /// The window as it opens with `settings`: no tables, default merge settings, output
    /// into the remembered output directory.
    pub fn new(settings: AppSettings) -> (r: MergeApp)
        ensures
            r.sources@.len() == 0,
            r.input_label@ == "尚未选择文件或文件夹，可直接拖放"@,
            r.output_path@ == settings.output_directory@,
            default_options(r.options),
            !r.hide_common_mappings && !r.mismatch_only,
            r.source_search@.len() == 0 && r.mapping_search@.len() == 0,
            r.selected_mapping_table == 0,
            r.collapsed_groups@.len() == 0,
            r.preview is None,
            r.preview_title@ == "选择一个数据表生成预览"@,
            r.check_issues@.len() == 0,
            !r.scan_listening && !r.merge_listening && !r.update_listening,
            r.update_text@ == "检查更新"@,
            r.update_url is None,
            r.state is Ready,
            !r.preflight_continues && !r.check_ran,
            r.progress_done == 0 && r.progress_total == 1,
            r.progress_label@.len() == 0,
            r.warnings@.len() == 0,
            r.settings == settings,
    {
        let output_path = settings.output_directory.clone();
        MergeApp {
            sources: Vec::new(),
            input_label: crate::text::owned("尚未选择文件或文件夹，可直接拖放"),
            output_path,
            options: MergeOptions::default(),
            hide_common_mappings: false,
            mismatch_only: false,
            source_search: String::new(),
            mapping_search: String::new(),
            selected_mapping_table: 0,
            collapsed_groups: Vec::new(),
            preview: None,
            preview_title: crate::text::owned("选择一个数据表生成预览"),
            check_issues: Vec::new(),
            scan_listening: false,
            merge_listening: false,
            update_listening: false,
            update_text: crate::text::owned("检查更新"),
            update_url: None,
            state: AppState::Ready,
            preflight_continues: false,
            check_ran: false,
            progress_done: 0,
            progress_total: 1,
            progress_label: String::new(),
            warnings: Vec::new(),
            settings,
        }
    }

    /// Whether a scan, check or merge is under way.
    pub fn busy(&self) -> (r: bool)
        ensures
            r == busy_state(self.state),
    {
        match self.state {
            AppState::Scanning | AppState::Checking | AppState::Merging => true,
            _ => false,
        }
    }

    /// The positions of the enabled tables.
    pub fn enabled_indices(&self) -> (r: Vec<usize>)
        ensures
            r@.len() == crate::desktop::model::enabled_tables(self.sources@).len(),
            forall|j: int|
                0 <= j < r@.len() ==> #[trigger] r@[j] < self.sources@.len() && self.sources@[r@[j] as int]
                    == crate::desktop::model::enabled_tables(self.sources@)[j],
            forall|j: int, k: int| 0 <= j < k < r@.len() ==> r@[j] < r@[k],
    {
        crate::desktop::model::enabled_positions(self.sources.as_slice())
    }

    /// Keeps the mapping table on an enabled table: where the selected one is not enabled
    /// and some table is, the first enabled table is selected.
    pub fn ensure_mapping_selection(&mut self)
        ensures
            *final(self) == (MergeApp {
                selected_mapping_table: kept_selection(old(self).sources@, old(self).selected_mapping_table),
                ..*old(self)
            }),
    {
        let n = self.sources.len();
        let mut i: usize = 0;
        while i < n
            invariant
                n == self.sources@.len(),
                i <= n,
                forall|j: int| 0 <= j < i ==> !(#[trigger] self.sources@[j]).enabled,
            ensures
                i <= n,
                forall|j: int| 0 <= j < i ==> !(#[trigger] self.sources@[j]).enabled,
                i < n ==> self.sources@[i as int].enabled,
            decreases n - i,
        {
            if self.sources[i].enabled {
                break;
            }
            i = i + 1;
        }
        if i < n {
            let selected = self.selected_mapping_table;
            if !(selected < n && self.sources[selected].enabled) {
                proof {
                    assert(first_enabled_at(self.sources@, i as int));
                    let c = choose|c: usize| first_enabled_at(self.sources@, c as int);
                    assert(first_enabled_at(self.sources@, c as int));
                    if c < i {
                        assert(!self.sources@[c as int].enabled);
                    }
                    if i < c {
                        assert(!self.sources@[i as int].enabled);
                    }
                    assert(c == i);
                }
                self.selected_mapping_table = i;
            }
        } else {
            proof {
                assert(!exists|j: int| 0 <= j < self.sources@.len() && #[trigger] self.sources@[j].enabled);
            }
        }
    }

    /// Remembers `folder` as the latest folder and writes the merge into `output_path`, the
    /// merge file inside that folder.
    pub fn choose_folder(&mut self, folder: String, output_path: String)
        ensures
            *final(self) == (MergeApp {
                output_path,
                settings: AppSettings { recent_folders: final(self).settings.recent_folders, ..old(self).settings },
                ..*old(self)
            }),
            texts(final(self).settings.recent_folders@) == remembered(texts(old(self).settings.recent_folders@), folder@),
    {
        remember(&mut self.settings.recent_folders, folder);
        self.output_path = output_path;
    }

    /// Starts a scan of `inputs`, the chosen table files other than the output file, shown
    /// under `label`. With no input the window shows an error instead. The result says
    /// whether the application starts the scan.
    pub fn start_scan(&mut self, inputs: &[String], label: String) -> (r: bool)
        ensures
            r == (inputs@.len() > 0),
            !r ==> shows_error(final(self).state, "没有找到支持的表格文件"@),
            !r ==> *final(self) == (MergeApp { state: final(self).state, ..*old(self) }),
            r ==> *final(self) == (MergeApp {
                scan_listening: true,
                state: AppState::Scanning,
                progress_done: 0,
                progress_total: 1,
                progress_label: final(self).progress_label,
                input_label: label,
                warnings: final(self).warnings,
                preview: None,
                check_issues: final(self).check_issues,
                check_ran: false,
                ..*old(self)
            }),
            r ==> final(self).progress_label@ == "正在读取文件并自动识别表头…"@,
            r ==> final(self).warnings@.len() == 0 && final(self).check_issues@.len() == 0,
    {
        if inputs.len() == 0 {
            self.state = AppState::Error(crate::text::owned("没有找到支持的表格文件"));
            return false;
        }
        self.scan_listening = true;
        self.state = AppState::Scanning;
        self.progress_done = 0;
        self.progress_total = 1;
        self.progress_label = crate::text::owned("正在读取文件并自动识别表头…");
        self.input_label = label;
        self.warnings.clear();
        self.preview = None;
        self.check_issues.clear();
        self.check_ran = false;
        true
    }

    /// Starts reading the headers of table `index` again, from row `header_row` over
    /// `header_rows` rows. Where there is no such table nothing changes. The result says
    /// whether the application starts the reload.
    pub fn start_table_reload(&mut self, index: usize, header_row: usize, header_rows: usize) -> (r: bool)
        ensures
            r == (index < old(self).sources@.len()),
            !r ==> *final(self) == *old(self),
            r ==> *final(self) == (MergeApp {
                scan_listening: true,
                state: AppState::Scanning,
                progress_done: 15,
                progress_total: 100,
                progress_label: final(self).progress_label,
                ..*old(self)
            }),
            r ==> shows_name(
                final(self).progress_label@,
                "正在从第 "@ + decimal(header_row as nat) + " 行开始、读取 "@ + decimal(header_rows as nat)
                    + " 行表头："@,
                old(self).sources@[index as int],
                Seq::empty(),
            ),
    {
        if index >= self.sources.len() {
            return false;
        }
        let name = self.sources[index].display_name();
        let a = concat("正在从第 ", decimal_string(header_row as u64).as_str());
        let b = concat(a.as_str(), " 行开始、读取 ");
        let c = concat(b.as_str(), decimal_string(header_rows as u64).as_str());
        let d = concat(c.as_str(), " 行表头：");
        self.progress_label = concat(d.as_str(), name.as_str());
        self.scan_listening = true;
        self.state = AppState::Scanning;
        self.progress_done = 15;
        self.progress_total = 100;
        true
    }

    /// Starts applying the header rows of the first table of workbook `path` to all its
    /// tables. The result holds the positions of those tables and the first one's header
    /// start and row count; without such a table it is `None` and nothing changes.
    pub fn start_group_reload(&mut self, path: &str) -> (r: Option<(Vec<usize>, usize, usize)>)
        ensures
            r is None <==> !(exists|i: int| 0 <= i < old(self).sources@.len() && #[trigger] old(self).sources@[i].path@ == path@),
            r is None ==> *final(self) == *old(self),
            r matches Some((ps, row, rows)) ==> {
                &&& ps@.len() > 0
                &&& forall|j: int| 0 <= j < ps@.len() ==> #[trigger] ps@[j] < old(self).sources@.len()
                    && old(self).sources@[ps@[j] as int].path@ == path@
                &&& forall|i: int| 0 <= i < old(self).sources@.len() && #[trigger] old(self).sources@[i].path@ == path@
                    ==> ps@.contains(i as usize)
                &&& forall|j: int, k: int| 0 <= j < k < ps@.len() ==> ps@[j] < ps@[k]
                &&& row == old(self).sources@[ps@[0] as int].header_row
                &&& rows == old(self).sources@[ps@[0] as int].header_rows
                &&& *final(self) == (MergeApp {
                    scan_listening: true,
                    state: AppState::Scanning,
                    progress_done: 15,
                    progress_total: 100,
                    progress_label: final(self).progress_label,
                    ..*old(self)
                })
                &&& final(self).progress_label@ == "正在把从第 "@ + decimal(row as nat) + " 行开始、占用 "@
                    + decimal(rows as nat) + " 行的表头设置应用到整本工作簿…"@
            },
    {
        let target = crate::text::owned(path);
        let mut ps: Vec<usize> = Vec::new();
        let mut i: usize = 0;
        while i < self.sources.len()
            invariant
                target@ == path@,
                i <= self.sources@.len(),
                forall|j: int| 0 <= j < ps@.len() ==> #[trigger] ps@[j] < i && self.sources@[ps@[j] as int].path@ == path@,
                forall|k: int| 0 <= k < i && #[trigger] self.sources@[k].path@ == path@ ==> ps@.contains(k as usize),
                forall|j: int, k: int| 0 <= j < k < ps@.len() ==> ps@[j] < ps@[k],
            decreases self.sources@.len() - i,
        {
            let ghost before = ps@;
            if self.sources[i].path == target {
                ps.push(i);
            }
            proof {
                assert forall|k: int| 0 <= k < i + 1 && #[trigger] self.sources@[k].path@ == path@ implies ps@.contains(
                    k as usize,
                ) by {
                    if k < i {
                        let w = choose|w: int| 0 <= w < before.len() && before[w] == k as usize;
                        assert(ps@[w] == k as usize);
                    } else {
                        assert(ps@[ps@.len() - 1] == i);
                    }
                }
            }
            i = i + 1;
        }
        if ps.len() == 0 {
            return None;
        }
        proof {
            assert(self.sources@[ps@[0] as int].path@ == path@);
        }
        let first = ps[0];
        let row = self.sources[first].header_row;
        let rows = self.sources[first].header_rows;
        let a = concat("正在把从第 ", decimal_string(row as u64).as_str());
        let b = concat(a.as_str(), " 行开始、占用 ");
        let c = concat(b.as_str(), decimal_string(rows as u64).as_str());
        self.progress_label = concat(c.as_str(), " 行的表头设置应用到整本工作簿…");
        self.scan_listening = true;
        self.state = AppState::Scanning;
        self.progress_done = 15;
        self.progress_total = 100;
        Some((ps, row, rows))
    }

    /// Starts the checks before a merge, unless a scan, check or merge is under way; after
    /// them the merge itself follows where `continues_merge` holds. The result says whether
    /// the application starts the checks.
    pub fn run_preflight_background(&mut self, continues_merge: bool) -> (r: bool)
        ensures
            r == !busy_state(old(self).state),
            !r ==> *final(self) == *old(self),
            r ==> *final(self) == (MergeApp {
                merge_listening: true,
                preflight_continues: continues_merge,
                state: AppState::Checking,
                progress_done: 0,
                progress_total: 1,
                progress_label: final(self).progress_label,
                ..*old(self)
            }),
            r ==> final(self).progress_label@ == "正在执行合并前检查…"@,
    {
        if self.busy() {
            return false;
        }
        self.merge_listening = true;
        self.preflight_continues = continues_merge;
        self.state = AppState::Checking;
        self.progress_done = 0;
        self.progress_total = 1;
        self.progress_label = crate::text::owned("正在执行合并前检查…");
        true
    }

    /// Runs the checks before a merge on their own, for their report.
    pub fn run_preflight(&mut self) -> (r: bool)
        ensures
            r == !busy_state(old(self).state),
            !r ==> *final(self) == *old(self),
            r ==> *final(self) == (MergeApp {
                merge_listening: true,
                preflight_continues: false,
                state: AppState::Checking,
                progress_done: 0,
                progress_total: 1,
                progress_label: final(self).progress_label,
                ..*old(self)
            }),
            r ==> final(self).progress_label@ == "正在执行合并前检查…"@,
    {
        self.run_preflight_background(false)
    }

    /// Starts a merge into the output path: its checks run first, then the merge. An empty
    /// path, or one whose extension is not `xlsx` in any case, is refused with an error. The
    /// extension comes from the platform's path rules. The result says whether the
    /// application starts the checks.
    pub fn start_merge(&mut self) -> (r: bool)
        ensures
            crate::text::trim(old(self).output_path@).len() == 0 ==> !r && *final(self) == (MergeApp {
                state: final(self).state,
                ..*old(self)
            }) && shows_error(final(self).state, "请先选择输出文件"@),
            r ==> *final(self) == (MergeApp {
                merge_listening: true,
                preflight_continues: true,
                state: AppState::Checking,
                progress_done: 0,
                progress_total: 1,
                progress_label: final(self).progress_label,
                ..*old(self)
            }),
            r ==> final(self).progress_label@ == "正在执行合并前检查…"@,
            !r ==> *final(self) == *old(self) || (*final(self) == (MergeApp { state: final(self).state, ..*old(self) })
                && (shows_error(final(self).state, "请先选择输出文件"@) || shows_error(
                final(self).state,
                "输出文件必须使用 .xlsx 扩展名"@,
            ))),
    {
        let output = crate::text::trim_str(self.output_path.as_str());
        let extension = if output.as_str().is_empty() {
            None
        } else {
            crate::paths::path_extension(output.as_str())
        };
        match check_output_choice(output.as_str(), extension) {
            Err(message) => {
                self.state = AppState::Error(message);
                false
            },
            Ok(()) => self.run_preflight_background(true),
        }
    }

    /// After the checks passed: where `proceed` is false (the output file exists and the
    /// user declined to overwrite it) the window is ready again; otherwise the merge starts,
    /// and `output_directory`, the folder of the output file where it has one, becomes the
    /// remembered output directory. The result says whether the application starts the
    /// merge.
    pub fn begin_merge(&mut self, proceed: bool, output_directory: Option<String>) -> (r: bool)
        ensures
            r == proceed,
            !r ==> *final(self) == (MergeApp { state: AppState::Ready, ..*old(self) }),
            r ==> *final(self) == (MergeApp {
                settings: AppSettings { output_directory: final(self).settings.output_directory, ..old(self).settings },
                merge_listening: true,
                state: AppState::Merging,
                progress_done: 0,
                progress_total: 1,
                progress_label: final(self).progress_label,
                ..*old(self)
            }),
            r ==> final(self).progress_label@ == "正在准备输出工作簿…"@,
            r ==> final(self).settings.output_directory == (match output_directory {
                Some(d) => d,
                None => old(self).settings.output_directory,
            }),
    {
        if !proceed {
            self.state = AppState::Ready;
            return false;
        }
        if let Some(directory) = output_directory {
            self.settings.output_directory = directory;
        }
        self.merge_listening = true;
        self.state = AppState::Merging;
        self.progress_done = 0;
        self.progress_total = 1;
        self.progress_label = crate::text::owned("正在准备输出工作簿…");
        true
    }

    /// Shows `result`, the first rows of table `index` or why they could not be read.
    /// Where there is no such table nothing changes.
    pub fn show_source_preview(&mut self, index: usize, result: Result<PreviewTable, String>)
        ensures
            index >= old(self).sources@.len() ==> *final(self) == *old(self),
            index < old(self).sources@.len() ==> match result {
                Ok(p) => {
                    &&& *final(self) == (MergeApp {
                        preview: Some(p),
                        preview_title: final(self).preview_title,
                        ..*old(self)
                    })
                    &&& shows_name(
                        final(self).preview_title@,
                        Seq::empty(),
                        old(self).sources@[index as int],
                        " · 前 "@ + decimal(p.rows@.len()) + " 行"@,
                    )
                },
                Err(e) => *final(self) == (MergeApp { state: final(self).state, ..*old(self) })
                    && shows_error(final(self).state, "预览失败："@ + e@),
            },
    {
        if index >= self.sources.len() {
            return;
        }
        match result {
            Ok(preview) => {
                let name = self.sources[index].display_name();
                let a = concat(name.as_str(), " · 前 ");
                let b = concat(a.as_str(), decimal_string(preview.rows.len() as u64).as_str());
                self.preview_title = concat(b.as_str(), " 行");
                proof {
                    let ghost after = " · 前 "@ + decimal(preview.rows@.len()) + " 行"@;
                    assert(self.preview_title@ =~= Seq::<char>::empty() + name@ + after);
                    assert forall|file: Seq<char>| name@ == crate::paths::display_text(file, self.sources@[index as int].sheet_name@) implies
                        self.preview_title@ == Seq::<char>::empty() + crate::paths::display_text(
                        file,
                        self.sources@[index as int].sheet_name@,
                    ) + after by {}
                }
                self.preview = Some(preview);
            },
            Err(error) => {
                self.state = AppState::Error(concat("预览失败：", error.as_str()));
            },
        }
    }

    /// Shows `result`, the first rows of the merge or why they could not be made.
    pub fn show_merged_preview(&mut self, result: Result<PreviewTable, String>)
        ensures
            match result {
                Ok(p) => {
                    &&& *final(self) == (MergeApp {
                        preview: Some(p),
                        preview_title: final(self).preview_title,
                        ..*old(self)
                    })
                    &&& final(self).preview_title@ == "合并结果预览 · "@ + decimal(p.headers@.len()) + " 列 · 前 "@
                        + decimal(p.rows@.len()) + " 行"@
                },
                Err(e) => *final(self) == (MergeApp { state: final(self).state, ..*old(self) })
                    && shows_error(final(self).state, "结果预览失败："@ + e@),
            },
    {
        match result {
            Ok(preview) => {
                let a = concat("合并结果预览 · ", decimal_string(preview.headers.len() as u64).as_str());
                let b = concat(a.as_str(), " 列 · 前 ");
                let c = concat(b.as_str(), decimal_string(preview.rows.len() as u64).as_str());
                self.preview_title = concat(c.as_str(), " 行");
                self.preview = Some(preview);
            },
            Err(error) => {
                self.state = AppState::Error(concat("结果预览失败：", error.as_str()));
            },
        }
    }

    /// Opens the scheme at `path`, given as `loaded` or the reason it could not be read: its
    /// tables and settings replace the window's, and `path` becomes the latest scheme.
    pub fn open_scheme(&mut self, path: String, loaded: Result<MergeScheme, String>)
        ensures
            match loaded {
                Ok(scheme) => {
                    &&& *final(self) == (MergeApp {
                        sources: scheme.tables,
                        options: scheme.options,
                        selected_mapping_table: kept_selection(scheme.tables@, old(self).selected_mapping_table),
                        input_label: final(self).input_label,
                        check_issues: final(self).check_issues,
                        check_ran: false,
                        settings: AppSettings { recent_schemes: final(self).settings.recent_schemes, ..old(self).settings },
                        ..*old(self)
                    })
                    &&& final(self).input_label@ == "已打开方案："@ + path@
                    &&& final(self).check_issues@.len() == 0
                    &&& texts(final(self).settings.recent_schemes@) == remembered(texts(old(self).settings.recent_schemes@), path@)
                },
                Err(e) => *final(self) == (MergeApp { state: final(self).state, ..*old(self) })
                    && shows_error(final(self).state, "打开方案失败："@ + e@),
            },
    {
        match loaded {
            Ok(scheme) => {
                self.sources = scheme.tables;
                self.options = scheme.options;
                self.ensure_mapping_selection();
                self.input_label = concat("已打开方案：", path.as_str());
                self.check_issues.clear();
                self.check_ran = false;
                remember(&mut self.settings.recent_schemes, path);
            },
            Err(error) => {
                self.state = AppState::Error(concat("打开方案失败：", error.as_str()));
            },
        }
    }

    /// The scan found `tables` with `warnings`: they replace the window's, the mapping table
    /// stays on an enabled table, the column order is reset and the window is ready.
    fn scan_finished(&mut self, tables: Vec<SourceTable>, warnings: Vec<String>)
        ensures
            *final(self) == (MergeApp {
                sources: tables,
                warnings,
                selected_mapping_table: kept_selection(tables@, 0),
                options: MergeOptions { output_order: final(self).options.output_order, ..old(self).options },
                progress_done: 1,
                progress_total: 1,
                progress_label: final(self).progress_label,
                state: AppState::Ready,
                scan_listening: false,
                ..*old(self)
            }),
            final(self).options.output_order@.len() == 0,
            final(self).progress_label@ == "已识别 "@ + decimal(tables@.len()) + " 个数据表"@,
    {
        let count = tables.len();
        self.sources = tables;
        self.warnings = warnings;
        self.selected_mapping_table = 0;
        self.ensure_mapping_selection();
        self.options.output_order.clear();
        self.progress_done = 1;
        self.progress_total = 1;
        let a = concat("已识别 ", decimal_string(count as u64).as_str());
        self.progress_label = concat(a.as_str(), " 个数据表");
        self.state = AppState::Ready;
        self.scan_listening = false;
    }

    /// The headers of table `index` were read again into `table`.
    fn table_reloaded(&mut self, index: usize, table: SourceTable)
        ensures
            *final(self) == (MergeApp {
                sources: final(self).sources,
                selected_mapping_table: index,
                preview: None,
                check_issues: final(self).check_issues,
                check_ran: false,
                progress_done: 1,
                progress_total: 1,
                progress_label: final(self).progress_label,
                state: AppState::Ready,
                scan_listening: false,
                ..*old(self)
            }),
            final(self).sources@ == (if index < old(self).sources@.len() {
                old(self).sources@.update(index as int, table)
            } else {
                old(self).sources@
            }),
            final(self).check_issues@.len() == 0,
            shows_name(final(self).progress_label@, "表头已刷新："@, table, Seq::empty()),
    {
        let name = table.display_name();
        if index < self.sources.len() {
            self.sources.set(index, table);
        }
        self.selected_mapping_table = index;
        self.preview = None;
        self.check_issues.clear();
        self.check_ran = false;
        self.progress_done = 1;
        self.progress_total = 1;
        self.progress_label = concat("表头已刷新：", name.as_str());
        self.state = AppState::Ready;
        self.scan_listening = false;
    }

    /// The tables of a workbook were read again: each pair of `tables` puts its table at its
    /// position.
    fn tables_reloaded(&mut self, tables: Vec<(usize, SourceTable)>)
        ensures
            *final(self) == (MergeApp {
                sources: final(self).sources,
                preview: None,
                check_issues: final(self).check_issues,
                check_ran: false,
                progress_done: 1,
                progress_total: 1,
                progress_label: final(self).progress_label,
                state: AppState::Ready,
                scan_listening: false,
                ..*old(self)
            }),
            final(self).sources@ == replaced(old(self).sources@, tables@),
            final(self).check_issues@.len() == 0,
            final(self).progress_label@ == "已统一刷新 "@ + decimal(tables@.len()) + " 个数据表的表头"@,
    {
        let count = tables.len();
        let ghost start = self.sources@;
        let ghost pairs = tables@;
        let mut sources: Vec<SourceTable> = Vec::new();
        std::mem::swap(&mut sources, &mut self.sources);
        let mut rest = tables;
        let mut k: usize = 0;
        proof {
            assert(pairs.take(0) =~= Seq::<(usize, SourceTable)>::empty());
            assert(pairs.skip(0) =~= pairs);
        }
        while rest.len() > 0
            invariant
                k <= pairs.len(),
                pairs.len() == count,
                rest@ == pairs.skip(k as int),
                sources@ == replaced(start, pairs.take(k as int)),
            decreases rest@.len(),
        {
            let (index, table) = rest.remove(0);
            proof {
                assert(pairs.take(k + 1).drop_last() =~= pairs.take(k as int));
                assert(pairs.take(k + 1).last() == pairs[k as int]);
                assert(pairs.skip(k + 1) =~= pairs.skip(k as int).drop_first());
                lemma_replaced_len(start, pairs.take(k as int));
            }
            if index < sources.len() {
                sources.set(index, table);
            }
            k = k + 1;
        }
        proof {
            assert(pairs.take(k as int) =~= pairs);
        }
        self.sources = sources;
        self.preview = None;
        self.check_issues.clear();
        self.check_ran = false;
        self.progress_done = 1;
        self.progress_total = 1;
        let a = concat("已统一刷新 ", decimal_string(count as u64).as_str());
        self.progress_label = concat(a.as_str(), " 个数据表的表头");
        self.state = AppState::Ready;
        self.scan_listening = false;
    }

    /// Takes in one report of the scan worker.
    pub fn scan_event(&mut self, event: ScanEvent)
        ensures
            match event {
                ScanEvent::Progress { done, total, name } => {
                    &&& *final(self) == (MergeApp {
                        progress_done: if total == 0 { 0 } else { done as u64 },
                        progress_total: if total == 0 { 1 } else { total as u64 },
                        progress_label: final(self).progress_label,
                        ..*old(self)
                    })
                    &&& final(self).progress_label@ == "正在扫描："@ + name@
                },
                ScanEvent::Finished { tables, warnings } => {
                    &&& *final(self) == (MergeApp {
                        sources: tables,
                        warnings,
                        selected_mapping_table: kept_selection(tables@, 0),
                        options: MergeOptions { output_order: final(self).options.output_order, ..old(self).options },
                        progress_done: 1,
                        progress_total: 1,
                        progress_label: final(self).progress_label,
                        state: AppState::Ready,
                        scan_listening: false,
                        ..*old(self)
                    })
                    &&& final(self).options.output_order@.len() == 0
                    &&& final(self).progress_label@ == "已识别 "@ + decimal(tables@.len()) + " 个数据表"@
                },
                ScanEvent::TableReloaded { index, table } => {
                    &&& *final(self) == (MergeApp {
                        sources: final(self).sources,
                        selected_mapping_table: index,
                        preview: None,
                        check_issues: final(self).check_issues,
                        check_ran: false,
                        progress_done: 1,
                        progress_total: 1,
                        progress_label: final(self).progress_label,
                        state: AppState::Ready,
                        scan_listening: false,
                        ..*old(self)
                    })
                    &&& final(self).sources@ == (if index < old(self).sources@.len() {
                        old(self).sources@.update(index as int, table)
                    } else {
                        old(self).sources@
                    })
                    &&& final(self).check_issues@.len() == 0
                    &&& shows_name(final(self).progress_label@, "表头已刷新："@, table, Seq::empty())
                },
                ScanEvent::TablesReloaded { tables } => {
                    &&& *final(self) == (MergeApp {
                        sources: final(self).sources,
                        preview: None,
                        check_issues: final(self).check_issues,
                        check_ran: false,
                        progress_done: 1,
                        progress_total: 1,
                        progress_label: final(self).progress_label,
                        state: AppState::Ready,
                        scan_listening: false,
                        ..*old(self)
                    })
                    &&& final(self).sources@ == replaced(old(self).sources@, tables@)
                    &&& final(self).check_issues@.len() == 0
                    &&& final(self).progress_label@ == "已统一刷新 "@ + decimal(tables@.len()) + " 个数据表的表头"@
                },
                ScanEvent::TableReloadFailed { index, message } => {
                    &&& *final(self) == (MergeApp {
                        selected_mapping_table: if index < old(self).sources@.len() {
                            index
                        } else if old(self).sources@.len() == 0 {
                            0
                        } else {
                            (old(self).sources@.len() - 1) as usize
                        },
                        state: final(self).state,
                        scan_listening: false,
                        ..*old(self)
                    })
                    &&& shows_error(final(self).state, "重新读取表头失败："@ + message@)
                },
                ScanEvent::Failed(message) => *final(self) == (MergeApp {
                    state: AppState::Error(message),
                    scan_listening: false,
                    ..*old(self)
                }),
            },
    {
        match event {
            ScanEvent::Progress { done, total, name } => {
                if total == 0 {
                    self.progress_done = 0;
                    self.progress_total = 1;
                } else {
                    self.progress_done = done as u64;
                    self.progress_total = total as u64;
                }
                self.progress_label = concat("正在扫描：", name.as_str());
            },
            ScanEvent::Finished { tables, warnings } => self.scan_finished(tables, warnings),
            ScanEvent::TableReloaded { index, table } => self.table_reloaded(index, table),
            ScanEvent::TablesReloaded { tables } => self.tables_reloaded(tables),
            ScanEvent::TableReloadFailed { index, message } => {
                let n = self.sources.len();
                let last = if n == 0 { 0 } else { n - 1 };
                self.selected_mapping_table = if index < last { index } else { last };
                self.state = AppState::Error(concat("重新读取表头失败：", message.as_str()));
                self.scan_listening = false;
            },
            ScanEvent::Failed(message) => {
                self.state = AppState::Error(message);
                self.scan_listening = false;
            },
        }
    }

    /// The checks before a merge found `issues`. The first error stops the merge; without
    /// error the merge goes on where it was asked for, else the window is ready and counts
    /// the errors and warnings. The result says whether the application begins the merge.
    fn preflight_done(&mut self, issues: Vec<CheckIssue>) -> (r: bool)
        ensures
            has_error(issue_views(issues@)) ==> !r && (exists|i: int|
                first_error_at(issue_views(issues@), i) && shows_error(
                    final(self).state,
                    "合并前检查未通过："@ + issue_views(issues@)[i].title + " — "@ + issue_views(issues@)[i].detail,
                )) && *final(self) == (MergeApp {
                    check_issues: issues,
                    check_ran: true,
                    state: final(self).state,
                    merge_listening: false,
                    ..*old(self)
                }),
            !has_error(issue_views(issues@)) && old(self).preflight_continues ==> r && *final(self) == (MergeApp {
                check_issues: issues,
                check_ran: true,
                preflight_continues: false,
                ..*old(self)
            }),
            !has_error(issue_views(issues@)) && !old(self).preflight_continues ==> !r && *final(self) == (MergeApp {
                check_issues: issues,
                check_ran: true,
                progress_label: final(self).progress_label,
                state: AppState::Ready,
                merge_listening: false,
                ..*old(self)
            }) && final(self).progress_label@ == "检查完成："@ + decimal(level_count(issue_views(issues@), IssueLevel::Error))
                + " 个错误，"@ + decimal(level_count(issue_views(issues@), IssueLevel::Warning)) + " 个提醒"@,
    {
        let ghost v = issue_views(issues@);
        let mut errors: u64 = 0;
        let mut warnings: u64 = 0;
        let mut first: Option<usize> = None;
        let mut i: usize = 0;
        proof {
            assert(v.take(0) =~= Seq::<IssueView>::empty());
        }
        while i < issues.len()
            invariant
                v == issue_views(issues@),
                i <= issues@.len(),
                errors <= i && warnings <= i,
                errors == level_count(v.take(i as int), IssueLevel::Error),
                warnings == level_count(v.take(i as int), IssueLevel::Warning),
                match first {
                    Some(f) => f < i && first_error_at(v, f as int),
                    None => forall|j: int| 0 <= j < i ==> (#[trigger] v[j]).level != IssueLevel::Error,
                },
            decreases issues@.len() - i,
        {
            proof {
                assert(v.take(i + 1).drop_last() =~= v.take(i as int));
                assert(v.take(i + 1).last() == v[i as int]);
            }
            let level = issues[i].level;
            if level == IssueLevel::Error {
                errors = errors + 1;
                if first.is_none() {
                    first = Some(i);
                }
            } else if level == IssueLevel::Warning {
                warnings = warnings + 1;
            }
            i = i + 1;
        }
        proof {
            assert(v.take(issues@.len() as int) =~= v);
        }
        match first {
            Some(f) => {
                let a = concat("合并前检查未通过：", issues[f].title.as_str());
                let b = concat(a.as_str(), " — ");
                let message = concat(b.as_str(), issues[f].detail.as_str());
                self.check_issues = issues;
                self.check_ran = true;
                self.state = AppState::Error(message);
                self.merge_listening = false;
                false
            },
            None => {
                proof {
                    assert(!has_error(v));
                }
                self.check_issues = issues;
                self.check_ran = true;
                if self.preflight_continues {
                    self.preflight_continues = false;
                    true
                } else {
                    let a = concat("检查完成：", decimal_string(errors).as_str());
                    let b = concat(a.as_str(), " 个错误，");
                    let c = concat(b.as_str(), decimal_string(warnings).as_str());
                    self.progress_label = concat(c.as_str(), " 个提醒");
                    self.state = AppState::Ready;
                    self.merge_listening = false;
                    false
                }
            },
        }
    }

    /// Takes in one report of the merge worker. The result says whether the application
    /// begins the merge now, after checks that passed.
    pub fn merge_event(&mut self, event: MergeEvent) -> (r: bool)
        ensures
            match event {
                MergeEvent::Progress { current, total, label } => !r && *final(self) == (MergeApp {
                    progress_done: if total == 0 { 0 } else { current },
                    progress_total: if total == 0 { 1 } else { total },
                    progress_label: final(self).progress_label,
                    ..*old(self)
                }) && final(self).progress_label@ == label@ + "  ·  "@ + decimal(current as nat) + " / "@
                    + decimal(total as nat) + " 行"@,
                MergeEvent::Preflight { issues } => {
                    let v = issue_views(issues@);
                    &&& has_error(v) ==> !r && (exists|i: int|
                        first_error_at(v, i) && shows_error(
                            final(self).state,
                            "合并前检查未通过："@ + v[i].title + " — "@ + v[i].detail,
                        )) && *final(self) == (MergeApp {
                            check_issues: issues,
                            check_ran: true,
                            state: final(self).state,
                            merge_listening: false,
                            ..*old(self)
                        })
                    &&& !has_error(v) && old(self).preflight_continues ==> r && *final(self) == (MergeApp {
                        check_issues: issues,
                        check_ran: true,
                        preflight_continues: false,
                        ..*old(self)
                    })
                    &&& !has_error(v) && !old(self).preflight_continues ==> !r && *final(self) == (MergeApp {
                        check_issues: issues,
                        check_ran: true,
                        progress_label: final(self).progress_label,
                        state: AppState::Ready,
                        merge_listening: false,
                        ..*old(self)
                    }) && final(self).progress_label@ == "检查完成："@ + decimal(level_count(v, IssueLevel::Error))
                        + " 个错误，"@ + decimal(level_count(v, IssueLevel::Warning)) + " 个提醒"@
                },
                MergeEvent::Finished { output, rows, sheets } => !r && *final(self) == (MergeApp {
                    progress_done: 1,
                    progress_total: 1,
                    progress_label: final(self).progress_label,
                    state: AppState::Done { output, rows, sheets },
                    merge_listening: false,
                    ..*old(self)
                }) && final(self).progress_label@ == "合并完成"@,
                MergeEvent::Cancelled => !r && *final(self) == (MergeApp {
                    progress_label: final(self).progress_label,
                    state: AppState::Ready,
                    merge_listening: false,
                    ..*old(self)
                }) && final(self).progress_label@ == "已取消"@,
                MergeEvent::Failed(message) => !r && *final(self) == (MergeApp {
                    state: AppState::Error(message),
                    merge_listening: false,
                    ..*old(self)
                }),
            },
    {
        match event {
            MergeEvent::Progress { current, total, label } => {
                if total == 0 {
                    self.progress_done = 0;
                    self.progress_total = 1;
                } else {
                    self.progress_done = current;
                    self.progress_total = total;
                }
                let a = concat(label.as_str(), "  ·  ");
                let b = concat(a.as_str(), decimal_string(current).as_str());
                let c = concat(b.as_str(), " / ");
                let d = concat(c.as_str(), decimal_string(total).as_str());
                self.progress_label = concat(d.as_str(), " 行");
                false
            },
            MergeEvent::Preflight { issues } => self.preflight_done(issues),
            MergeEvent::Finished { output, rows, sheets } => {
                self.progress_done = 1;
                self.progress_total = 1;
                self.progress_label = crate::text::owned("合并完成");
                self.state = AppState::Done { output, rows, sheets };
                self.merge_listening = false;
                false
            },
            MergeEvent::Cancelled => {
                self.progress_label = crate::text::owned("已取消");
                self.state = AppState::Ready;
                self.merge_listening = false;
                false
            },
            MergeEvent::Failed(message) => {
                self.state = AppState::Error(message);
                self.merge_listening = false;
                false
            },
        }
    }

    /// Takes in the report of the release check, against `current_version`, the version
    /// that runs: a newer release offers its page, any other says the version is current.
    pub fn update_event(&mut self, event: UpdateEvent, current_version: &str)
        ensures
            match event {
                UpdateEvent::Result { version, url } => if newer(version@, current_version@) {
                    *final(self) == (MergeApp {
                        update_text: final(self).update_text,
                        update_url: Some(url),
                        update_listening: false,
                        ..*old(self)
                    }) && final(self).update_text@ == "发现 "@ + version@ + "，打开下载页"@
                } else {
                    *final(self) == (MergeApp {
                        update_text: final(self).update_text,
                        update_listening: false,
                        ..*old(self)
                    }) && final(self).update_text@ == "已是最新版本"@
                },
                UpdateEvent::Failed(message) => *final(self) == (MergeApp {
                    update_text: final(self).update_text,
                    state: final(self).state,
                    update_listening: false,
                    ..*old(self)
                }) && final(self).update_text@ == "检查失败，重试"@ && shows_error(
                    final(self).state,
                    "检查更新失败："@ + message@,
                ),
            },
    {
        match event {
            UpdateEvent::Result { version, url } => {
                if crate::version::is_newer_version(version.as_str(), current_version) {
                    let a = concat("发现 ", version.as_str());
                    self.update_text = concat(a.as_str(), "，打开下载页");
                    self.update_url = Some(url);
                } else {
                    self.update_text = crate::text::owned("已是最新版本");
                }
                self.update_listening = false;
            },
            UpdateEvent::Failed(message) => {
                self.update_text = crate::text::owned("检查失败，重试");
                self.state = AppState::Error(concat("检查更新失败：", message.as_str()));
                self.update_listening = false;
            },
        }
    }

    /// The release check: where a newer release was found its page is handed back for the
    /// application to open; otherwise the check starts and the result is `None`.
    pub fn start_update_check(&mut self) -> (r: Option<String>)
        ensures
            old(self).update_url is Some ==> r == old(self).update_url && *final(self) == *old(self),
            old(self).update_url is None ==> r is None && *final(self) == (MergeApp {
                update_listening: true,
                update_text: final(self).update_text,
                ..*old(self)
            }) && final(self).update_text@ == "正在检查…"@,
    {
        match &self.update_url {
            Some(url) => {
                return Some(url.clone());
            },
            None => {},
        }
        self.update_listening = true;
        self.update_text = crate::text::owned("正在检查…");
        None
    }
}

} // verus!
