use sheetforge::desktop::config::{AppSettings, MergeScheme};
use sheetforge::desktop::events::{MergeEvent, ScanEvent, UpdateEvent};
use sheetforge::desktop::display::{
    join_index, mode_index, preview_column_widths, preview_lines, sheets_needed, with_placeholder,
};
use sheetforge::desktop::model::{
    make_default_mappings, AggregateOp, JoinKind, MergeMode, MergeOptions, SourceKind, SourceTable, TransformOp,
};
use sheetforge::desktop::window::{check_output_choice, AppState, MergeApp};
use sheetforge::engine::inspect::{CheckIssue, IssueLevel, PreviewTable};

fn table(path: &str, sheet: &str, enabled: bool) -> SourceTable {
    let headers = vec!["姓名".to_owned(), "年龄".to_owned()];
    SourceTable {
        path: path.to_owned(),
        sheet_name: sheet.to_owned(),
        kind: SourceKind::Workbook,
        header_row: 2,
        header_rows: 1,
        suggested_header_row: 2,
        mappings: make_default_mappings(&headers),
        headers,
        estimated_rows: 10,
        enabled,
    }
}

fn settings() -> AppSettings {
    AppSettings { output_directory: "/data/out".to_owned(), ..AppSettings::default() }
}

fn issue(level: IssueLevel, title: &str, detail: &str) -> CheckIssue {
    CheckIssue { level, title: title.to_owned(), detail: detail.to_owned() }
}

fn error_text(state: &AppState) -> String {
    match state {
        AppState::Error(message) => message.clone(),
        other => panic!("{other:?}"),
    }
}

#[test]
fn the_window_opens_ready_in_the_remembered_directory() {
    let app = MergeApp::new(settings());
    assert_eq!(app.output_path, "/data/out");
    assert_eq!(app.input_label, "尚未选择文件或文件夹，可直接拖放");
    assert_eq!(app.update_text, "检查更新");
    assert!(matches!(app.state, AppState::Ready));
    assert!(!app.busy());
    assert!(app.sources.is_empty());
    assert_eq!((app.progress_done, app.progress_total), (0, 1));
}

#[test]
fn finished_scans_select_the_first_enabled_table() {
    let mut app = MergeApp::new(settings());
    assert!(app.start_scan(&["a.xlsx".to_owned()], "已选择 1 个文件".to_owned()));
    assert!(matches!(app.state, AppState::Scanning));
    assert!(app.busy());
    app.options.output_order = vec!["年龄".to_owned()];
    app.scan_event(ScanEvent::Finished {
        tables: vec![table("a.xlsx", "S1", false), table("a.xlsx", "S2", true)],
        warnings: vec!["b.csv：坏".to_owned()],
    });
    assert_eq!(app.selected_mapping_table, 1);
    assert_eq!(app.progress_label, "已识别 2 个数据表");
    assert!(app.options.output_order.is_empty());
    assert_eq!(app.warnings, vec!["b.csv：坏".to_owned()]);
    assert!(matches!(app.state, AppState::Ready));
    assert!(!app.scan_listening);
    assert_eq!(app.enabled_indices(), vec![1]);
}

#[test]
fn a_scan_without_inputs_is_an_error() {
    let mut app = MergeApp::new(settings());
    assert!(!app.start_scan(&[], "x".to_owned()));
    assert_eq!(error_text(&app.state), "没有找到支持的表格文件");
    assert!(!app.scan_listening);
}

#[test]
fn scan_progress_is_a_fraction_and_zero_without_total() {
    let mut app = MergeApp::new(settings());
    app.scan_event(ScanEvent::Progress { done: 3, total: 4, name: "a.csv".to_owned() });
    assert_eq!((app.progress_done, app.progress_total), (3, 4));
    assert_eq!(app.progress_label, "正在扫描：a.csv");
    app.scan_event(ScanEvent::Progress { done: 3, total: 0, name: "b.csv".to_owned() });
    assert_eq!((app.progress_done, app.progress_total), (0, 1));
}

#[test]
fn workbook_reloads_put_each_table_back_in_place() {
    let mut app = MergeApp::new(settings());
    app.sources = vec![table("a.xlsx", "S1", true), table("a.xlsx", "S2", true), table("b.csv", "CSV", true)];
    let group = app.start_group_reload("a.xlsx").expect("a workbook");
    assert_eq!(group, (vec![0, 1], 2, 1));
    assert_eq!(app.progress_label, "正在把从第 2 行开始、占用 1 行的表头设置应用到整本工作簿…");
    assert_eq!((app.progress_done, app.progress_total), (15, 100));
    let mut first = table("a.xlsx", "S1", true);
    first.header_row = 5;
    let mut second = table("a.xlsx", "S1", true);
    second.header_row = 6;
    app.scan_event(ScanEvent::TablesReloaded {
        tables: vec![(0, first), (9, table("x", "X", true)), (0, second)],
    });
    assert_eq!(app.sources.len(), 3);
    assert_eq!(app.sources[0].header_row, 6);
    assert_eq!(app.sources[1].header_row, 2);
    assert_eq!(app.progress_label, "已统一刷新 3 个数据表的表头");
    assert!(app.start_group_reload("c.csv").is_none());
}

#[test]
fn one_table_reload_shows_its_name() {
    let mut app = MergeApp::new(settings());
    app.sources = vec![table("/d/a.xlsx", "S1", true), table("/d/a.xlsx", "S2", true)];
    assert!(app.start_table_reload(1, 3, 2));
    assert_eq!(app.progress_label, "正在从第 3 行开始、读取 2 行表头：a.xlsx  /  S2");
    assert!(!app.start_table_reload(2, 3, 2));
    let mut reloaded = table("/d/a.xlsx", "S2", true);
    reloaded.header_row = 3;
    app.scan_event(ScanEvent::TableReloaded { index: 1, table: reloaded });
    assert_eq!(app.sources[1].header_row, 3);
    assert_eq!(app.selected_mapping_table, 1);
    assert_eq!(app.progress_label, "表头已刷新：a.xlsx  /  S2");
    app.scan_event(ScanEvent::TableReloadFailed { index: 7, message: "坏".to_owned() });
    assert_eq!(app.selected_mapping_table, 1);
    assert_eq!(error_text(&app.state), "重新读取表头失败：坏");
}

#[test]
fn the_output_must_be_an_xlsx_file() {
    assert_eq!(check_output_choice("", None).unwrap_err(), "请先选择输出文件");
    assert_eq!(check_output_choice("out.txt", Some("txt".to_owned())).unwrap_err(), "输出文件必须使用 .xlsx 扩展名");
    assert!(check_output_choice("out.XLSX", Some("XLSX".to_owned())).is_ok());
    let mut app = MergeApp::new(settings());
    app.output_path = "   ".to_owned();
    assert!(!app.start_merge());
    assert_eq!(error_text(&app.state), "请先选择输出文件");
    app.output_path = "/d/out.csv".to_owned();
    assert!(!app.start_merge());
    assert_eq!(error_text(&app.state), "输出文件必须使用 .xlsx 扩展名");
    app.output_path = " /d/合并结果.Xlsx ".to_owned();
    app.state = AppState::Ready;
    assert!(app.start_merge());
    assert!(matches!(app.state, AppState::Checking));
    assert!(app.preflight_continues && app.merge_listening);
    assert_eq!(app.progress_label, "正在执行合并前检查…");
    assert!(!app.run_preflight());
}

#[test]
fn an_error_found_before_a_merge_stops_it() {
    let mut app = MergeApp::new(settings());
    app.output_path = "/d/out.xlsx".to_owned();
    assert!(app.start_merge());
    let begin = app.merge_event(MergeEvent::Preflight {
        issues: vec![
            issue(IssueLevel::Warning, "列缺失", "b"),
            issue(IssueLevel::Error, "没有列", "空"),
            issue(IssueLevel::Error, "第二个", "x"),
        ],
    });
    assert!(!begin);
    assert_eq!(error_text(&app.state), "合并前检查未通过：没有列 — 空");
    assert!(app.check_ran && !app.merge_listening);
    assert_eq!(app.check_issues.len(), 3);
}

#[test]
fn passed_checks_begin_the_merge_or_report_counts() {
    let mut app = MergeApp::new(settings());
    app.output_path = "/d/out.xlsx".to_owned();
    assert!(app.start_merge());
    assert!(app.merge_event(MergeEvent::Preflight { issues: vec![issue(IssueLevel::Warning, "a", "b")] }));
    assert!(!app.preflight_continues);
    assert!(!app.begin_merge(false, Some("/d".to_owned())));
    assert!(matches!(app.state, AppState::Ready));
    assert_eq!(app.settings.output_directory, "/data/out");
    app.state = AppState::Checking;
    assert!(app.begin_merge(true, Some("/d".to_owned())));
    assert!(matches!(app.state, AppState::Merging));
    assert_eq!(app.settings.output_directory, "/d");
    assert_eq!(app.progress_label, "正在准备输出工作簿…");

    let mut report = MergeApp::new(settings());
    assert!(report.run_preflight());
    let begin = report.merge_event(MergeEvent::Preflight {
        issues: vec![
            issue(IssueLevel::Warning, "a", "b"),
            issue(IssueLevel::Info, "c", "d"),
            issue(IssueLevel::Warning, "e", "f"),
        ],
    });
    assert!(!begin);
    assert_eq!(report.progress_label, "检查完成：0 个错误，2 个提醒");
    assert!(matches!(report.state, AppState::Ready));
}

#[test]
fn merge_reports_move_the_window_on() {
    let mut app = MergeApp::new(settings());
    assert!(!app.merge_event(MergeEvent::Progress { current: 50, total: 200, label: "写入".to_owned() }));
    assert_eq!(app.progress_label, "写入  ·  50 / 200 行");
    assert_eq!((app.progress_done, app.progress_total), (50, 200));
    app.merge_event(MergeEvent::Finished { output: "/d/out.xlsx".to_owned(), rows: 12, sheets: 1 });
    match &app.state {
        AppState::Done { output, rows, sheets } => assert_eq!((output.as_str(), *rows, *sheets), ("/d/out.xlsx", 12, 1)),
        other => panic!("{other:?}"),
    }
    assert_eq!(app.progress_label, "合并完成");
    app.merge_event(MergeEvent::Cancelled);
    assert_eq!(app.progress_label, "已取消");
    app.merge_event(MergeEvent::Failed("磁盘已满".to_owned()));
    assert_eq!(error_text(&app.state), "磁盘已满");
}

#[test]
fn a_newer_release_offers_its_page() {
    let mut app = MergeApp::new(settings());
    assert_eq!(app.start_update_check(), None);
    assert_eq!(app.update_text, "正在检查…");
    app.update_event(UpdateEvent::Result { version: "v0.3.1".to_owned(), url: "u".to_owned() }, "0.3.1");
    assert_eq!(app.update_text, "已是最新版本");
    assert_eq!(app.update_url, None);
    app.update_event(UpdateEvent::Result { version: "v0.4.0".to_owned(), url: "https://r".to_owned() }, "0.3.1");
    assert_eq!(app.update_text, "发现 v0.4.0，打开下载页");
    assert_eq!(app.start_update_check(), Some("https://r".to_owned()));
    app.update_event(UpdateEvent::Failed("timeout".to_owned()), "0.3.1");
    assert_eq!(app.update_text, "检查失败，重试");
    assert_eq!(error_text(&app.state), "检查更新失败：timeout");
}

#[test]
fn opening_a_scheme_replaces_tables_and_remembers_it() {
    let mut app = MergeApp::new(settings());
    app.selected_mapping_table = 0;
    app.open_scheme(
        "/s/a.json".to_owned(),
        Ok(MergeScheme {
            format_version: 1,
            name: "a".to_owned(),
            tables: vec![table("a.csv", "CSV", false), table("b.csv", "CSV", true)],
            options: MergeOptions::default(),
        }),
    );
    assert_eq!(app.sources.len(), 2);
    assert_eq!(app.selected_mapping_table, 1);
    assert_eq!(app.input_label, "已打开方案：/s/a.json");
    assert_eq!(app.settings.recent_schemes, vec!["/s/a.json".to_owned()]);
    app.open_scheme("/s/b.json".to_owned(), Err("格式错误".to_owned()));
    assert_eq!(error_text(&app.state), "打开方案失败：格式错误");
    app.choose_folder("/d".to_owned(), "/d/合并结果.xlsx".to_owned());
    assert_eq!(app.output_path, "/d/合并结果.xlsx");
    assert_eq!(app.settings.recent_folders, vec!["/d".to_owned()]);
}

#[test]
fn previews_are_titled_by_their_size() {
    let mut app = MergeApp::new(settings());
    app.sources = vec![table("/d/a.xlsx", "S1", true)];
    let preview = PreviewTable { headers: vec!["a".to_owned(), "b".to_owned()], rows: vec![vec!["1".to_owned(), "2".to_owned()]] };
    app.show_merged_preview(Ok(preview.clone()));
    assert_eq!(app.preview_title, "合并结果预览 · 2 列 · 前 1 行");
    app.show_source_preview(0, Ok(preview));
    assert_eq!(app.preview_title, "a.xlsx  /  S1 · 前 1 行");
    app.show_source_preview(0, Err("坏".to_owned()));
    assert_eq!(error_text(&app.state), "预览失败：坏");
    app.show_merged_preview(Err("空".to_owned()));
    assert_eq!(error_text(&app.state), "结果预览失败：空");
}

#[test]
fn switching_tables_keeps_an_enabled_mapping_table() {
    let mut app = MergeApp::new(settings());
    app.sources = vec![table("a.xlsx", "S1", true), table("a.xlsx", "S2", true), table("b.csv", "CSV", true)];
    app.selected_mapping_table = 0;
    app.set_source_enabled(0, false);
    assert!(!app.sources[0].enabled);
    assert_eq!(app.selected_mapping_table, 1);
    app.set_source_enabled(-5, true);
    assert!(app.sources[0].enabled);
    app.set_group_enabled("a.xlsx", false);
    assert!(!app.sources[0].enabled && !app.sources[1].enabled && app.sources[2].enabled);
    assert_eq!(app.selected_mapping_table, 2);
    app.select_all_sources(true);
    assert!(app.sources.iter().all(|t| t.enabled));
    assert_eq!(app.group_size("a.xlsx"), 2);
    app.remove_source_group("a.xlsx".to_owned());
    assert_eq!(app.sources.len(), 1);
    assert_eq!(app.selected_mapping_table, 0);
    app.remove_source(0);
    assert!(app.sources.is_empty());
}

#[test]
fn folding_a_workbook_twice_unfolds_it() {
    let mut app = MergeApp::new(settings());
    app.toggle_source_group("a.xlsx".to_owned());
    assert_eq!(app.collapsed_groups, vec!["a.xlsx".to_owned()]);
    app.toggle_source_group("b.xlsx".to_owned());
    app.toggle_source_group("a.xlsx".to_owned());
    assert_eq!(app.collapsed_groups, vec!["b.xlsx".to_owned()]);
}

#[test]
fn mapping_edits_touch_only_the_mapping_table() {
    let mut app = MergeApp::new(settings());
    app.sources = vec![table("a.csv", "CSV", true), table("b.csv", "CSV", false), table("c.csv", "CSV", true)];
    app.select_mapping_table(1);
    assert_eq!(app.selected_mapping_table, 2);
    app.select_mapping_table(7);
    assert_eq!(app.selected_mapping_table, 2);
    app.change_mapping(0, false, "名字".to_owned());
    assert_eq!(app.sources[2].mappings[0].target_name, "名字");
    assert!(!app.sources[2].mappings[0].enabled);
    assert_eq!(app.sources[0].mappings[0].target_name, "姓名");
    app.change_mapping_operation(1, 1, 2);
    assert_eq!(app.sources[2].mappings[1].transform, TransformOp::Trim);
    assert_eq!(app.sources[2].mappings[1].aggregate, AggregateOp::UniqueJoin);
    app.change_mapping(9, true, "x".to_owned());
    app.reset_mapping();
    assert_eq!(app.sources[2].mappings[0].target_name, "姓名");
    assert!(app.sources[2].mappings[0].enabled);
    assert_eq!(app.sources[2].mappings[1].transform, TransformOp::Unchanged);
    assert_eq!(app.sources[2].mappings[1].aggregate, AggregateOp::First);
    app.toggle_common_fields();
    assert!(app.hide_common_mappings);
}

#[test]
fn suggestions_rename_every_matching_source_column() {
    let mut app = MergeApp::new(settings());
    app.sources = vec![table("a.csv", "CSV", true), table("b.csv", "CSV", true)];
    app.apply_suggestions(&[("年龄".to_owned(), "岁数".to_owned()), ("年龄".to_owned(), "其他".to_owned())]);
    assert_eq!(app.sources[0].mappings[1].target_name, "岁数");
    assert_eq!(app.sources[1].mappings[1].target_name, "岁数");
    assert_eq!(app.sources[0].mappings[0].target_name, "姓名");
}

#[test]
fn options_and_column_moves_follow_the_controls() {
    let mut app = MergeApp::new(settings());
    app.sources = vec![table("a.csv", "CSV", true)];
    app.set_mode(3);
    assert_eq!(app.options.mode, MergeMode::Consolidate);
    app.set_mode(9);
    assert_eq!(app.options.mode, MergeMode::Union);
    app.change_advanced_options("姓名， 年龄,,", true, "城市".to_owned(), "北".to_owned(), true, 2);
    assert_eq!(app.options.key_columns, vec!["姓名".to_owned(), "年龄".to_owned()]);
    assert!(app.options.deduplicate && app.options.filter_exclude);
    assert_eq!(app.options.join_kind, JoinKind::Full);
    app.move_output_column(0, 1);
    assert_eq!(app.options.output_order, vec!["年龄".to_owned(), "姓名".to_owned()]);
    app.move_output_column(1, 100);
    assert_eq!(app.options.output_order, vec!["年龄".to_owned(), "姓名".to_owned()]);
    app.move_output_column(1, -100);
    assert_eq!(app.options.output_order, vec!["姓名".to_owned(), "年龄".to_owned()]);
    let before = app.options.output_order.clone();
    app.move_output_column(5, 1);
    assert_eq!(app.options.output_order, before);
}

#[test]
fn preview_requests_and_header_changes_pick_their_table() {
    let mut app = MergeApp::new(settings());
    app.sources = vec![table("a.csv", "CSV", false), table("b.csv", "CSV", true), table("c.csv", "CSV", true)];
    assert_eq!(app.preview_position(2), 2);
    assert_eq!(app.preview_position(0), 1);
    assert_eq!(app.preview_position(-1), 1);
    assert_eq!(app.preview_position(5), 5);
    assert!(app.change_header(1, 0, 9));
    assert_eq!(app.progress_label, "正在从第 1 行开始、读取 3 行表头：b.csv  /  CSV");
    assert!(!app.change_header(3, 2, 1));
}

#[test]
fn cancelling_copying_and_saving_report_their_outcome() {
    let mut app = MergeApp::new(settings());
    assert!(!app.cancel_merge(true));
    app.state = AppState::Merging;
    assert!(!app.cancel_merge(false));
    assert!(app.cancel_merge(true));
    assert_eq!(app.progress_label, "正在取消…");
    app.cell_copied("中文ab", Ok(()));
    assert_eq!(app.progress_label, "已复制单元格内容（4 个字符）");
    app.cell_copied("x", Err("busy".to_owned()));
    assert_eq!(error_text(&app.state), "复制到剪贴板失败：busy");
    app.scheme_saved("/s/a.json".to_owned(), Ok(()));
    assert_eq!(app.progress_label, "方案已保存：/s/a.json");
    assert_eq!(app.settings.recent_schemes, vec!["/s/a.json".to_owned()]);
    app.scheme_saved("/s/b.json".to_owned(), Err("只读".to_owned()));
    assert_eq!(error_text(&app.state), "保存方案失败：只读");
    app.report_export_failed("拒绝访问");
    assert_eq!(error_text(&app.state), "导出检查报告失败：拒绝访问");
}

#[test]
fn the_check_report_lists_findings_with_their_levels() {
    let mut app = MergeApp::new(settings());
    assert_eq!(app.check_report(), "");
    app.check_issues = vec![issue(IssueLevel::Warning, "列缺失", "b 缺少 年龄"), issue(IssueLevel::Error, "空", "没有列")];
    assert_eq!(app.check_report(), "[Warning] 列缺失\nb 缺少 年龄\n\n[Error] 空\n没有列");
}

#[test]
fn the_status_line_follows_the_state() {
    let mut app = MergeApp::new(settings());
    let line = app.status_line();
    assert_eq!((line.text.as_str(), line.kind, line.can_reveal), ("当前方式：列名并集", 0, false));
    app.warnings = vec!["a".to_owned(), "b".to_owned()];
    assert_eq!(app.status_line().text, "2 个文件或工作表未能读取，可在检查报告中查看");
    assert_eq!(app.status_line().kind, 2);
    app.progress_label = "正在扫描：a.csv".to_owned();
    assert_eq!(app.status_line().text, "正在扫描：a.csv");
    app.state = AppState::Done { output: "/d/o.xlsx".to_owned(), rows: 1234567, sheets: 2 };
    let done = app.status_line();
    assert_eq!((done.text.as_str(), done.kind, done.can_reveal), ("合并成功：1,234,567 行，2 个 Sheet", 1, true));
    app.state = AppState::Error("坏".to_owned());
    assert_eq!(app.status_line().text, "坏");
    assert!(app.show_progress());
}

#[test]
fn the_check_summary_counts_errors_and_warnings() {
    let mut app = MergeApp::new(settings());
    assert_eq!(app.check_summary(), "尚未检查");
    assert!(!app.check_clean());
    app.check_ran = true;
    assert_eq!(app.check_summary(), "检查完成：未发现问题");
    assert!(app.check_clean());
    app.check_issues = vec![issue(IssueLevel::Error, "a", "b"), issue(IssueLevel::Info, "c", "d"), issue(IssueLevel::Warning, "e", "f")];
    assert_eq!(app.check_summary(), "检查完成：1 个错误，1 个提醒");
    assert!(!app.check_clean());
}

#[test]
fn metrics_count_rows_columns_and_sheets() {
    assert_eq!(sheets_needed(0), 1);
    assert_eq!(sheets_needed(1_048_575), 1);
    assert_eq!(sheets_needed(1_048_576), 2);
    let mut app = MergeApp::new(settings());
    let mut big = table("a.csv", "CSV", true);
    big.estimated_rows = 2_000_000;
    app.sources = vec![big, table("b.csv", "CSV", false)];
    assert_eq!(app.metrics(), ("2,000,000".to_owned(), "2".to_owned(), "2".to_owned()));
    assert!(app.can_start());
    app.state = AppState::Scanning;
    assert!(!app.can_start());
    assert_eq!(mode_index(MergeMode::Join), 4);
    assert_eq!(join_index(JoinKind::Inner), 1);
    assert_eq!(with_placeholder("最近文件夹…", &vec!["/d".to_owned()]), vec!["最近文件夹…".to_owned(), "/d".to_owned()]);
}

#[test]
fn the_mapping_list_filters_and_counts_shared_fields() {
    let mut app = MergeApp::new(settings());
    let mut other = table("b.csv", "CSV", true);
    other.headers = vec!["姓名".to_owned(), "城市".to_owned()];
    other.mappings = make_default_mappings(&other.headers);
    app.sources = vec![table("a.csv", "CSV", false), table("a2.csv", "CSV", true), other];
    app.selected_mapping_table = 1;
    assert_eq!(app.mapping_position(), 0);
    let (rows, shared) = app.mapping_rows(&[("年龄".to_owned(), "岁数".to_owned())]);
    assert_eq!(shared, 1);
    assert_eq!(rows.len(), 2);
    assert_eq!(rows[1].suggestion, "岁数");
    assert_eq!(rows[0].suggestion, "");
    assert_eq!(rows[1].mapping_index, 1);
    app.hide_common_mappings = true;
    let (rows, _) = app.mapping_rows(&[]);
    assert_eq!(rows.len(), 1);
    assert_eq!(rows[0].source_name, "年龄");
    app.hide_common_mappings = false;
    app.mismatch_only = true;
    assert_eq!(app.mapping_rows(&[]).0.len(), 0);
    app.mismatch_only = false;
    app.mapping_search = "姓".to_owned();
    let (rows, _) = app.mapping_rows(&[]);
    assert_eq!(rows.len(), 1);
    assert_eq!(rows[0].target_name, "姓名");
    app.selected_mapping_table = 9;
    assert_eq!(app.mapping_rows(&[]).0.len(), 0);
    assert_eq!(app.mapping_position(), 0);
}

#[test]
fn the_table_list_groups_found_tables_by_workbook() {
    let mut app = MergeApp::new(settings());
    app.sources = vec![
        table("/d/b.xlsx", "销售", true),
        table("/d/a.xlsx", "S1", true),
        table("/d/b.xlsx", "库存", false),
        table("/d/a.xlsx", "S2", true),
    ];
    let rows = app.source_list();
    let lines: Vec<(bool, i32, &str, &str)> =
        rows.iter().map(|r| (r.is_group, r.source_index, r.file_name.as_str(), r.sheet_name.as_str())).collect();
    assert_eq!(
        lines,
        vec![
            (true, -1, "a.xlsx", ""),
            (false, 1, "", "S1"),
            (false, 3, "", "S2"),
            (true, -1, "b.xlsx", ""),
            (false, 0, "", "销售"),
            (false, 2, "", "库存"),
        ]
    );
    assert_eq!(rows[0].detail, "2 个数据表 · 已选 2 个");
    assert!(rows[0].enabled);
    assert_eq!(rows[3].detail, "2 个数据表 · 已选 1 个");
    assert!(!rows[3].enabled);
    assert_eq!(rows[1].detail, "10 行 · 2 列");
    app.collapsed_groups = vec!["/d/a.xlsx".to_owned()];
    app.source_search = " 销售 ".to_owned();
    let rows = app.source_list();
    assert_eq!(rows.len(), 2);
    assert_eq!(rows[0].detail, "1 个数据表 · 已选 1 个");
    assert_eq!(rows[1].sheet_name, "销售");
    app.source_search = "A.XLSX".to_owned();
    let rows = app.source_list();
    assert_eq!(rows.len(), 1);
    assert!(rows[0].collapsed);
    let named = app.source_rows(&[None, None, None, None]);
    assert_eq!(named[0].file_name, "/d/a.xlsx");
}

#[test]
fn preview_lines_number_rows_under_the_header() {
    assert!(preview_lines(&None).is_empty());
    let headers: Vec<String> = (0..120).map(|i| format!("c{i}")).collect();
    let preview = PreviewTable { headers, rows: vec![vec!["x".to_owned()], vec![]] };
    let lines = preview_lines(&Some(preview));
    assert_eq!(lines.len(), 3);
    assert_eq!(lines[0].line_number, "表头");
    assert!(lines[0].header);
    assert_eq!(lines[0].cells.len(), 100);
    assert_eq!(lines[1].line_number, "1");
    assert_eq!(lines[1].cells, vec!["x".to_owned()]);
    assert_eq!(lines[2].line_number, "2");
    assert!(!lines[2].header);
}

#[test]
fn preview_columns_widen_with_their_widest_cell() {
    assert!(preview_column_widths(&None).is_empty());
    let preview = PreviewTable {
        headers: vec!["a".to_owned(), "中文名称".to_owned(), "b".to_owned()],
        rows: vec![
            vec!["1".to_owned(), "一二三四五六七八九十".to_owned()],
            vec!["22".to_owned(), "x".to_owned(), "一二三四五六七八九十一二三四五六七八九十一二三".to_owned()],
        ],
    };
    assert_eq!(preview_column_widths(&Some(preview)), vec![56, 160, 320]);
}
