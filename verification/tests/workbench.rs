use sheetforge::workbench::scan::{header_setting, is_tsv_path, rows_before_data};
use sheetforge::workbench::scan::estimated_csv_rows;
use sheetforge::workbench::xlsx_rows::XlsxRowStream;
use sheetforge::pg::config::{AppConfig, ConnectionProfile};
use sheetforge::pg::table::{IfExists, TablePersistence, TargetTable};
use sheetforge::workbench::database::{
    check_column_count, check_server_count, check_stream_count, copy_sql, delete_profile,
    import_profile, parse_if_exists, parse_persistence, resolve_password, save_profile,
    validate_profile, CopyFormat, CredentialAction,
};
use sheetforge::pg::identifier::IdentifierMapping;
use sheetforge::version::is_newer_version;
use sheetforge::workbench::commands::is_xlsx_extension;
use sheetforge::workbench::model::{make_default_mappings, SourceKind, SourceTable};
use sheetforge::workbench::scan::{
    choose_delimiter, combine_header_rows, combine_header_rows_with_width, decode_csv_field,
    decode_csv_field_with_quality, preserve_mappings, range_content_bounds, recommend_header,
    scan_kind, source_table_from_headers, supported_file, supported_name, is_xlsx_path, xlsx_actual_width, xlsx_estimated_rows,
    ScanCell, ScanKind, XlsxStreamBounds,
};

fn rows(values: &[&[&str]]) -> Vec<Vec<String>> {
    values.iter().map(|row| row.iter().map(|cell| cell.to_string()).collect()).collect()
}

#[test]
fn commands_version_comparison_is_semantic() {
    assert!(is_newer_version("v0.10.0", "0.3.1"));
    assert!(!is_newer_version("v0.3.1", "0.3.1"));
    assert!(!is_newer_version("v0.2.9", "0.3.1"));
    assert!(is_newer_version("1.0.0", "0.9.9"));
    assert!(!is_newer_version("junk", "0.3.1"));
}

#[test]
fn version_parts_beyond_the_patch_are_ignored() {
    assert!(!is_newer_version("1.2.3.9", "1.2.3"));
    assert!(is_newer_version("  vv1.2.4 ", "1.2.3"));
    assert!(is_newer_version("1.0.0", "not a version"));
    assert!(!is_newer_version("1.0", "0.1.0"));
}

#[test]
fn parses_database_import_options() {
    assert!(matches!(parse_if_exists("replace").unwrap(), IfExists::Replace));
    assert!(matches!(parse_persistence("unlogged").unwrap(), TablePersistence::Unlogged));
    assert_eq!(CopyFormat::parse("binary").unwrap().sql_name(), "binary");
}

#[test]
fn import_options_ignore_case_and_space_and_name_the_bad_word() {
    assert_eq!(CopyFormat::parse(" 文本 ").unwrap(), CopyFormat::Text);
    assert_eq!(CopyFormat::parse("Binary").unwrap().display_name(), "PostgreSQL 二进制");
    assert_eq!(CopyFormat::parse(" CSV ").unwrap_err(), "不支持的 COPY 格式：csv");
    assert_eq!(parse_if_exists("Drop").unwrap_err(), "不支持的目标表策略：drop");
    assert!(matches!(parse_persistence("持久化").unwrap(), TablePersistence::Logged));
    assert_eq!(parse_persistence("temp").unwrap_err(), "不支持的数据表持久性：temp");
}

#[test]
fn rejects_incomplete_profiles() {
    let profile = ConnectionProfile { host: String::new(), ..ConnectionProfile::default() };
    assert!(validate_profile(&profile).is_err());
}

#[test]
fn profile_checks_name_the_missing_field() {
    assert!(validate_profile(&ConnectionProfile::default()).is_ok());
    let no_user = ConnectionProfile { user: "  ".into(), ..ConnectionProfile::default() };
    assert_eq!(validate_profile(&no_user).unwrap_err(), "用户名不能为空");
    let no_port = ConnectionProfile { port: 0, ..ConnectionProfile::default() };
    assert_eq!(validate_profile(&no_port).unwrap_err(), "端口必须大于 0");
}

#[test]
fn saving_profiles_decides_about_the_stored_password() {
    let mut config = AppConfig::new();
    assert_eq!(
        save_profile(&mut config, "  ", ConnectionProfile::default(), None, true).unwrap_err(),
        "连接名称不能为空"
    );
    let (name, action) =
        save_profile(&mut config, " 主库 ", ConnectionProfile::default(), Some("pw".into()), true).unwrap();
    assert_eq!(name, "主库");
    assert!(matches!(action, CredentialAction::Store(p) if p == "pw"));
    let (_, action) =
        save_profile(&mut config, "主库", ConnectionProfile::default(), Some(String::new()), true).unwrap();
    assert!(matches!(action, CredentialAction::Keep));
    let (_, action) = save_profile(&mut config, "主库", ConnectionProfile::default(), None, false).unwrap();
    assert!(matches!(action, CredentialAction::Delete));
    assert!(import_profile(&config, " 主库 ").is_ok());
    assert_eq!(import_profile(&config, "备库").unwrap_err(), "连接配置不存在：备库");
    assert!(delete_profile(&mut config, "主库").is_ok());
    assert_eq!(delete_profile(&mut config, "主库").unwrap_err(), "连接配置不存在：主库");
}

#[test]
fn explicit_passwords_win_unless_empty() {
    assert_eq!(resolve_password(Some("a".into()), Some("b".into())), Some("a".into()));
    assert_eq!(resolve_password(Some(String::new()), Some("b".into())), Some("b".into()));
    assert_eq!(resolve_password(None, None), None);
}

#[test]
fn import_checks_columns_and_row_counts() {
    assert_eq!(check_column_count(0).unwrap_err(), "合并后没有可导入的列，请检查合并方式或字段映射");
    assert_eq!(
        check_column_count(1601).unwrap_err(),
        "输出列数为 1601，超过 PostgreSQL 单表最多 1,600 列的限制"
    );
    assert!(check_column_count(1600).is_ok());
    assert!(check_stream_count(3, 3).is_ok());
    assert_eq!(check_stream_count(3, 2).unwrap_err(), "行流计数不一致：处理端 3 行，数据库端 2 行");
    assert_eq!(
        check_server_count(5, 4).unwrap_err(),
        "PostgreSQL COPY 确认行数异常：客户端发送 5 行，服务器确认 4 行"
    );
}

#[test]
fn copy_statement_lists_quoted_columns() {
    let target = TargetTable { schema: "public".into(), table: "t".into(), if_exists: IfExists::Abort };
    let columns = vec![
        IdentifierMapping { original: "a".into(), database: "a".into() },
        IdentifierMapping { original: "b\"c".into(), database: "b\"c".into() },
    ];
    assert_eq!(
        copy_sql(&target, &columns, CopyFormat::Binary, true),
        "COPY \"public\".\"t\" (\"a\", \"b\"\"c\") FROM STDIN WITH (FORMAT binary, FREEZE true)"
    );
    assert_eq!(
        copy_sql(&target, &columns[..1], CopyFormat::Text, false),
        "COPY \"public\".\"t\" (\"a\") FROM STDIN WITH (FORMAT text)"
    );
}

#[test]
fn header_recommendation_skips_report_title() {
    let rows = vec![
        vec!["2026 年销售报表".into()],
        vec!["姓名".into(), "金额".into(), "城市".into()],
        vec!["张三".into(), "12".into(), "北京".into()],
    ];
    assert_eq!(recommend_header(rows), 1);
}

#[test]
fn header_recommendation_of_nothing_is_the_first_row() {
    assert_eq!(recommend_header(Vec::new()), 0);
    assert_eq!(recommend_header(rows(&[&["a", "b"]])), 0);
}

#[test]
fn multi_row_headers_are_combined_and_deduplicated() {
    let headers = combine_header_rows(&[
        vec!["客户".into(), "金额".into()],
        vec!["姓名".into(), "金额".into()],
    ]);
    assert_eq!(headers, vec!["客户 / 姓名", "金额"]);
}

#[test]
fn combined_headers_name_empty_columns_and_cut_to_width() {
    let headers = combine_header_rows_with_width(&rows(&[&["a", "", "x"], &["A", " "]]), 2);
    assert_eq!(headers, vec!["a", "未命名列2"]);
}

#[test]
fn table_files_are_recognised_by_extension() {
    assert!(supported_name(Some("data.csv".into()), Some("CSV".into())));
    assert!(supported_name(Some("book.xlsx".into()), Some("xlsx".into())));
    assert!(!supported_name(Some("~$book.xlsx".into()), Some("xlsx".into())));
    assert!(!supported_name(Some("notes.txt".into()), Some("txt".into())));
    assert!(!supported_name(None, None));
    assert_eq!(scan_kind(Some("TSV".into())), ScanKind::Delimited);
    assert_eq!(scan_kind(Some("xlsm".into())), ScanKind::Xlsx);
    assert_eq!(scan_kind(Some("ods".into())), ScanKind::Workbook);
    assert_eq!(scan_kind(None), ScanKind::Other);
    assert!(is_xlsx_extension(Some("XLSX".into())));
}

#[test]
fn plain_paths_are_judged_by_their_last_name() {
    assert!(supported_file("/data/销售.CSV"));
    assert!(supported_file("book.xlsb"));
    assert!(!supported_file("/data/~$book.xlsx"));
    assert!(!supported_file("data/.csv"));
    assert!(!supported_file("data/notes.txt"));
    assert!(!supported_file("data.csv/readme"));
    assert!(is_xlsx_path("out/b.XLSM"));
    assert!(!is_xlsx_path("out/b.xls"));
    assert!(!is_xlsx_path("out/xlsx"));
}

#[test]
fn delimiter_detection_prefers_a_stable_multi_column_split() {
    let sample = "姓名;说明;金额\n张三;\"北京,朝阳\";12\n李四;\"上海,浦东\";15\n";
    assert_eq!(choose_delimiter(false, sample.as_bytes()), b';');
    assert_eq!(choose_delimiter(true, sample.as_bytes()), b'\t');
    assert_eq!(choose_delimiter(false, b"a\tb\n1\t2\n"), b'\t');
    assert_eq!(choose_delimiter(false, b"single\nvalue\n"), b',');
}

#[test]
fn csv_fields_decode_utf8_gbk_and_bom() {
    assert_eq!(decode_csv_field("中文".as_bytes()), "中文");
    assert_eq!(decode_csv_field(&[0xEF, 0xBB, 0xBF, b'a']), "a");
    assert_eq!(decode_csv_field(&[0xD6, 0xD0, 0xCE, 0xC4]), "中文");
    assert!(!decode_csv_field_with_quality(b"plain").1);
    assert!(decode_csv_field_with_quality(&[0xFF, 0xFF, 0xFF]).1);
}

#[test]
fn reloaded_tables_keep_user_mappings() {
    let headers = vec!["金额".to_owned(), "客户".to_owned()];
    let mut old_mappings = make_default_mappings(&headers);
    old_mappings[1].target_name = "客户名称".into();
    let old = SourceTable {
        path: "a.csv".into(),
        sheet_name: "CSV".into(),
        kind: SourceKind::Csv { delimiter: b',' },
        header_row: 1,
        header_rows: 1,
        suggested_header_row: 1,
        headers,
        estimated_rows: 1,
        enabled: true,
        mappings: old_mappings,
    };
    let new_headers = vec!["客户".to_owned(), "日期".to_owned()];
    let mut new = old.clone();
    new.mappings = make_default_mappings(&new_headers);
    new.headers = new_headers;
    preserve_mappings(&old, &mut new);
    assert_eq!(new.mappings[0].target_name, "客户名称");
    assert_eq!(new.mappings[0].source_index, 0);
    assert_eq!(new.mappings[1].target_name, "日期");
}

#[test]
fn streamed_sheet_bounds_give_rows_and_width() {
    let bounds = XlsxStreamBounds {
        actual_start: Some((2, 1)),
        actual_end: Some((11, 3)),
        actual_columns: Some((1, 4)),
    };
    assert_eq!(xlsx_estimated_rows(&bounds, 1), 9);
    assert_eq!(xlsx_estimated_rows(&bounds, 20), 0);
    assert_eq!(xlsx_actual_width(&bounds), 4);
    let empty = XlsxStreamBounds { actual_start: None, actual_end: None, actual_columns: None };
    assert_eq!(xlsx_estimated_rows(&empty, 0), 0);
    assert_eq!(xlsx_actual_width(&empty), 0);
}

#[test]
fn content_bounds_ignore_blank_formatted_cells() {
    let grid = vec![
        vec![ScanCell::Text("a".into()), ScanCell::Empty],
        vec![ScanCell::Empty, ScanCell::Other, ScanCell::Text("  ".into())],
        vec![ScanCell::Text(" ".into())],
    ];
    assert_eq!(range_content_bounds(&grid), (2, 2));
    assert_eq!(range_content_bounds(&Vec::new()), (0, 0));
}

#[test]
fn header_tables_clamp_their_rows() {
    let table = source_table_from_headers(
        "b.xlsx".into(),
        "Sheet1".into(),
        0,
        9,
        0,
        vec!["a".into()],
        4,
    );
    assert_eq!(table.header_row, 1);
    assert_eq!(table.header_rows, 3);
    assert_eq!(table.suggested_header_row, 1);
    assert_eq!(table.mappings.len(), 1);
    assert!(matches!(table.kind, SourceKind::Workbook));
}

fn streamed(
    cells: &[(u32, u32, &str)],
    row_offset: usize,
    max_rows: Option<usize>,
) -> (Vec<Vec<String>>, sheetforge::workbench::scan::XlsxStreamBounds) {
    let mut stream = XlsxRowStream::<String>::open(row_offset, max_rows).unwrap();
    let mut rows = Vec::new();
    let show = |row: Vec<Option<String>>| row.into_iter().map(|c| c.unwrap_or_default()).collect::<Vec<_>>();
    for (row, column, value) in cells {
        for out in stream.push_cell(*row, *column, value.to_string(), value.trim().is_empty()) {
            rows.push(show(out));
        }
    }
    let (last, bounds) = stream.finish();
    if let Some(last) = last {
        rows.push(show(last));
    }
    (rows, bounds)
}

#[test]
fn xlsx_rows_stream_sparse_rows_after_the_header() {
    let (rows, bounds) = streamed(&[(0, 0, "id"), (1, 0, "a"), (3, 0, "c")], 1, None);
    assert_eq!(rows, vec![vec!["a".to_owned()], Vec::<String>::new(), vec!["c".to_owned()]]);
    assert_eq!(bounds.actual_start, Some((0, 0)));
    assert_eq!(bounds.actual_end, Some((3, 0)));
    assert_eq!(xlsx_estimated_rows(&bounds, 1), 3);
}

#[test]
fn xlsx_rows_ignore_formatted_empty_cells() {
    let (_, bounds) = streamed(&[(0, 0, "id"), (0, 16_000, ""), (1, 0, "001"), (50_000, 16_000, " ")], 0, Some(20));
    assert_eq!(bounds.actual_end, Some((1, 0)));
    assert_eq!(bounds.actual_columns, Some((0, 0)));
}

#[test]
fn xlsx_rows_stop_at_the_limit_but_keep_the_bounds() {
    let (rows, bounds) = streamed(&[(2, 1, "h"), (2, 3, "x"), (3, 2, "y"), (4, 1, "z"), (9, 5, "w")], 0, Some(2));
    assert_eq!(rows, vec![vec!["h".to_owned(), String::new(), "x".to_owned()], vec![String::new(), "y".to_owned()]]);
    assert_eq!(bounds.actual_start, Some((2, 1)));
    assert_eq!(bounds.actual_end, Some((9, 5)));
    assert_eq!(bounds.actual_columns, Some((1, 5)));
    assert!(XlsxRowStream::<String>::open(0, Some(0)).is_none());
}

#[test]
fn large_csv_row_counts_scale_the_sample() {
    assert_eq!(estimated_csv_rows(10_000, 100_000_000, 100, 1_000_100), 999_999);
    assert_eq!(estimated_csv_rows(5, 1_000, 0, 0), 5_000);
    assert_eq!(estimated_csv_rows(7, 10, 20, 30), 0);
    assert_eq!(estimated_csv_rows(u64::MAX, 3, 0, 1), u64::MAX);
}

#[test]
fn header_settings_are_kept_in_range() {
    assert_eq!(header_setting(0, 0), (1, 1));
    assert_eq!(header_setting(4, 2), (4, 2));
    assert_eq!(header_setting(2, 9), (2, 3));
    assert_eq!(rows_before_data(1, 1), 1);
    assert_eq!(rows_before_data(3, 2), 4);
}

#[test]
fn tsv_files_are_known_by_extension_in_any_case() {
    assert!(is_tsv_path("data/a.tsv"));
    assert!(is_tsv_path("data/A.TSV"));
    assert!(!is_tsv_path("data/a.csv"));
    assert!(!is_tsv_path("data/tsv"));
    assert!(!is_tsv_path("data/.tsv"));
}
