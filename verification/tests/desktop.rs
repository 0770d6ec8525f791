use sheetforge::desktop::events::{finish_scan, scan_outcome, ScanEvent};
use sheetforge::desktop::model::{make_default_mappings, SourceKind, SourceTable};
use sheetforge::desktop::app::{
    aggregate_from_index, aggregate_index, display_units, drop_text_paths, format_number, percent_decode,
    split_columns, transform_from_index, transform_index,
};
use sheetforge::desktop::config::{check_scheme_version, remember, AppSettings};
use sheetforge::desktop::model::{AggregateOp, TransformOp};
use sheetforge::version::{is_newer_version, version_tuple};

#[test]
fn app_version_comparison_is_semantic() {
    assert!(is_newer_version("v0.10.0", "0.3.1"));
    assert!(!is_newer_version("v0.3.1", "0.3.1"));
    assert!(!is_newer_version("v0.2.9", "0.3.1"));
    assert!(is_newer_version("1.0.0", "0.9.9"));
    assert!(!is_newer_version("junk", "0.3.1"));
}

#[test]
fn version_numbers_accept_a_plus_but_not_a_minus() {
    assert_eq!(version_tuple("+1.2.3"), Some((1, 2, 3)));
    assert_eq!(version_tuple("-1.2.3"), None);
    assert_eq!(version_tuple("1..3"), None);
    assert_eq!(version_tuple("18446744073709551616.0.0"), None);
}

#[test]
fn percent_decode_handles_utf8_paths() {
    assert_eq!(percent_decode("C%3A%5C%E4%B8%AD%E6%96%87"), "C:\\中文");
    assert_eq!(percent_decode("a%20b.txt"), "a b.txt");
    assert_eq!(percent_decode("plain.txt"), "plain.txt");
    assert_eq!(percent_decode("bad%2"), "bad%2");
    assert_eq!(percent_decode("100%25"), "100%");
}

#[test]
fn percent_decode_replaces_broken_utf8() {
    assert_eq!(percent_decode("%FFa"), "\u{fffd}a");
    assert_eq!(percent_decode("%zz"), "%zz");
}

#[test]
fn numbers_are_grouped_by_thousands() {
    assert_eq!(format_number(0), "0");
    assert_eq!(format_number(999), "999");
    assert_eq!(format_number(1000), "1,000");
    assert_eq!(format_number(1234567), "1,234,567");
}

#[test]
fn column_lists_split_on_both_commas() {
    assert_eq!(split_columns(" 客户 ,金额，, 城市 "), vec!["客户", "金额", "城市"]);
    assert!(split_columns("").is_empty());
}

#[test]
fn display_width_counts_wide_characters_twice() {
    assert_eq!(display_units("ab中"), 4);
}

#[test]
fn option_boxes_map_both_ways() {
    for index in 0..4 {
        assert_eq!(transform_index(transform_from_index(index)), index);
        assert_eq!(aggregate_index(aggregate_from_index(index)), index);
    }
    assert_eq!(transform_from_index(9), TransformOp::Unchanged);
    assert_eq!(aggregate_from_index(-1), AggregateOp::First);
}

#[test]
fn recent_lists_put_the_latest_first_once_and_keep_eight() {
    let mut items: Vec<String> = (1..=8).map(|i| format!("p{i}")).collect();
    remember(&mut items, "p3".into());
    assert_eq!(items[0], "p3");
    assert_eq!(items.iter().filter(|item| *item == "p3").count(), 1);
    assert_eq!(items.len(), 8);
    remember(&mut items, "new".into());
    assert_eq!(items.len(), 8);
    assert_eq!(items[0], "new");
    assert!(!items.contains(&"p8".to_owned()));
}

#[test]
fn settings_and_schemes_have_safe_defaults() {
    let settings = AppSettings::default();
    assert!(settings.check_updates);
    assert!(settings.recent_folders.is_empty());
    assert!(check_scheme_version(1).is_ok());
    assert_eq!(check_scheme_version(2).unwrap_err(), "该方案由更高版本的软件创建，当前版本无法读取");
}

#[test]
fn a_scan_without_tables_fails_with_its_warnings() {
    match scan_outcome(Vec::new(), vec!["a.csv：坏".to_owned(), "b.xlsx：坏".to_owned()]) {
        ScanEvent::Failed(message) => assert_eq!(message, "a.csv：坏\nb.xlsx：坏"),
        other => panic!("{other:?}"),
    }
    match scan_outcome(Vec::new(), Vec::new()) {
        ScanEvent::Finished { tables, warnings } => assert!(tables.is_empty() && warnings.is_empty()),
        other => panic!("{other:?}"),
    }
}

#[test]
fn dropped_text_names_one_path_per_line() {
    let text = "# 注释\r\n\"file:///C:/%E6%95%B0%E6%8D%AE/a.csv\"\r\n\n  /tmp/b.xlsx  \nfile://relative\n";
    assert_eq!(
        drop_text_paths(text),
        vec!["C:/数据/a.csv".to_owned(), "/tmp/b.xlsx".to_owned(), "file://relative".to_owned()]
    );
    assert!(drop_text_paths("").is_empty());
    assert_eq!(drop_text_paths("\"\"\"x\"\""), vec!["x".to_owned()]);
}

#[test]
fn a_release_is_never_newer_than_itself() {
    for version in ["1.2.3", "v0.10.0", "junk", ""] {
        assert!(!is_newer_version(version, version));
    }
    assert!(is_newer_version("1.0.1", "1.0.0"));
    assert!(!is_newer_version("1.0.0", "1.0.1"));
}

fn scanned(path: &str, sheet: &str) -> SourceTable {
    let headers = vec!["a".to_owned()];
    SourceTable {
        path: path.to_owned(),
        sheet_name: sheet.to_owned(),
        kind: SourceKind::Workbook,
        header_row: 1,
        header_rows: 1,
        suggested_header_row: 1,
        mappings: make_default_mappings(&headers),
        headers,
        estimated_rows: 0,
        enabled: true,
    }
}

#[test]
fn finished_scans_order_tables_by_path_then_sheet() {
    let tables = vec![
        scanned("/d/b.xlsx", "S2"),
        scanned("/d/B.xlsx", "s1"),
        scanned("/d/a.csv", "CSV"),
        scanned("/d/b.xlsx", "S1"),
    ];
    let (tables, warnings) =
        finish_scan(tables, vec!["z.csv：坏".to_owned(), "a.csv：坏".to_owned()]);
    let names: Vec<(String, String)> = tables.into_iter().map(|t| (t.path, t.sheet_name)).collect();
    assert_eq!(
        names,
        vec![
            ("/d/a.csv".to_owned(), "CSV".to_owned()),
            ("/d/B.xlsx".to_owned(), "s1".to_owned()),
            ("/d/b.xlsx".to_owned(), "S1".to_owned()),
            ("/d/b.xlsx".to_owned(), "S2".to_owned()),
        ]
    );
    assert_eq!(warnings, vec!["a.csv：坏".to_owned(), "z.csv：坏".to_owned()]);
}
