use sheetforge::desktop::model::{
    build_output_plan, make_default_mappings, AggregateOp, ColumnMapping, JoinKind, MergeMode,
    MergeOptions, OutputPlan, SourceKind, SourceTable, TransformOp,
};
use sheetforge::engine::aggregate::{aggregate_operations, aggregate_rows, sums_fit_row};
use sheetforge::engine::cell::{database_row, CellValue};
use sheetforge::engine::flow::{
    accept_row, append_order, collect_join_row, consolidate_row, finish_join, join_step, join_tables, key_refusal,
    merge_refusal, GroupStep, KeyedRows,
};
use sheetforge::engine::rows::{
    build_row_mapping, contains_text, fill_empty, key_indices, mapped_row, passes_filter,
    progress_label, row_key, should_report,
};
use sheetforge::engine::sheets::{column_width_units, sheet_name, SheetCursor, XLSX_MAX_DATA_ROWS};
use sheetforge::engine::text_index::TextIndex;
use sheetforge::engine::suggestions::{suggestion_candidates, unmatched_headers};
use sheetforge::engine::inspect::{CheckIssue, IssueLevel, SampleCell, TableFacts};
use sheetforge::engine::preflight::{estimated_rows_total, preflight, sort_by_level, union_header_keys};

fn text(value: &str) -> CellValue {
    CellValue::Text(value.to_owned())
}

fn texts(row: &[CellValue]) -> Vec<String> {
    row.iter().map(CellValue::as_text).collect()
}

fn plan(headers: &[&str]) -> OutputPlan {
    OutputPlan {
        headers: headers.iter().map(|h| h.to_string()).collect(),
        source_file_column: None,
        source_sheet_column: None,
    }
}

fn csv_table(headers: &[&str]) -> SourceTable {
    let headers: Vec<String> = headers.iter().map(|h| h.to_string()).collect();
    SourceTable {
        path: "data.csv".into(),
        sheet_name: "CSV".into(),
        kind: SourceKind::Csv { delimiter: b',' },
        header_row: 1,
        header_rows: 1,
        suggested_header_row: 1,
        mappings: make_default_mappings(&headers),
        headers,
        estimated_rows: 1,
        enabled: true,
    }
}

#[test]
fn merge_data_capacity_reserves_header() {
    assert_eq!(XLSX_MAX_DATA_ROWS, 1_048_575);
}

#[test]
fn merge_chinese_headers_get_wider_columns() {
    assert_eq!(column_width_units("订单编号") as f64, 12.0);
    assert!(column_width_units("a very long english heading") as f64 > 20.0);
}

#[test]
fn merge_transformations_are_applied() {
    assert_eq!(text(" Ab ").transformed(TransformOp::Lowercase).as_text(), "ab");
}

#[test]
fn manual_mapping_can_reuse_a_source_value() {
    let headers = vec!["原始值".to_owned()];
    let mut mappings = make_default_mappings(&headers);
    mappings.push(ColumnMapping {
        source_index: 0,
        source_name: "原始值".to_owned(),
        target_name: "复制值".to_owned(),
        enabled: true,
        transform: TransformOp::Unchanged,
        aggregate: AggregateOp::First,
    });
    let table = SourceTable {
        path: "customers.csv".to_owned(),
        sheet_name: "CSV".to_owned(),
        kind: SourceKind::Csv { delimiter: b',' },
        header_row: 1,
        header_rows: 1,
        suggested_header_row: 1,
        headers,
        estimated_rows: 1,
        enabled: true,
        mappings,
    };
    let options = MergeOptions { mode: MergeMode::Manual, ..MergeOptions::default() };
    let plan = build_output_plan(std::slice::from_ref(&table), &options);
    let mapping = build_row_mapping(&table, &plan, options.mode);
    let row = mapped_row(vec![CellValue::Text("001".to_owned())], &mapping, &plan);
    assert_eq!(row.iter().map(CellValue::as_text).collect::<Vec<_>>(), ["001", "001"]);
}

#[test]
fn cell_texts_follow_their_kind() {
    assert_eq!(CellValue::Integer(-42).as_text(), "-42");
    assert_eq!(CellValue::Integer(i64::MIN).as_text(), i64::MIN.to_string());
    assert_eq!(CellValue::Boolean(false).as_text(), "false");
    assert_eq!(CellValue::Number("1.5".into()).as_text(), "1.5");
    let date = CellValue::DateTime { year: 2024, month: 1, day: 1, hour: 0, minute: 0, second: 0 };
    assert_eq!(date.as_text(), "2024-01-01");
    let time = CellValue::DateTime { year: 2024, month: 1, day: 1, hour: 6, minute: 30, second: 0 };
    assert_eq!(time.as_text(), "2024-01-01 06:30:00");
    assert!(text("").is_empty());
    assert!(CellValue::Empty.is_empty());
    assert!(!text(" ").is_empty());
}

#[test]
fn source_columns_receive_file_and_sheet_names() {
    let table = csv_table(&["id"]);
    let options = MergeOptions { include_source_sheet: true, ..MergeOptions::default() };
    let plan = build_output_plan(std::slice::from_ref(&table), &options);
    let mapping = build_row_mapping(&table, &plan, options.mode);
    let row = mapped_row(vec![text("7")], &mapping, &plan);
    assert_eq!(texts(&row), ["7", "CSV"]);
}

#[test]
fn later_pairs_do_not_overwrite_filled_cells() {
    let headers = vec!["a".to_owned(), "b".to_owned()];
    let mut table = csv_table(&["a", "b"]);
    table.mappings[1].target_name = "a".into();
    table.headers = headers;
    let options = MergeOptions { mode: MergeMode::Manual, ..MergeOptions::default() };
    let plan = build_output_plan(std::slice::from_ref(&table), &options);
    let mapping = build_row_mapping(&table, &plan, options.mode);
    assert_eq!(texts(&mapped_row(vec![text(""), text("x")], &mapping, &plan)), ["x"]);
    assert_eq!(texts(&mapped_row(vec![text("y"), text("x")], &mapping, &plan)), ["y"]);
}

#[test]
fn empty_csv_texts_reach_the_database_unless_loaded_as_null() {
    let table = csv_table(&["a", "b"]);
    let options = MergeOptions::default();
    let plan = build_output_plan(std::slice::from_ref(&table), &options);
    let mapping = build_row_mapping(&table, &plan, options.mode);
    let row = mapped_row(vec![text(""), text("x")], &mapping, &plan);
    assert_eq!(database_row(&row, false), vec![Some(String::new()), Some("x".to_owned())]);
    assert_eq!(database_row(&row, true), vec![None, Some("x".to_owned())]);
    let missing = mapped_row(vec![CellValue::Empty, text("x")], &mapping, &plan);
    assert_eq!(database_row(&missing, false), vec![None, Some("x".to_owned())]);
    let mut trimmed = table.clone();
    trimmed.mappings[0].transform = TransformOp::Trim;
    let mapping = build_row_mapping(&trimmed, &plan, options.mode);
    let missing = mapped_row(vec![CellValue::Empty, text("x")], &mapping, &plan);
    assert_eq!(database_row(&missing, false), vec![None, Some("x".to_owned())]);
}

#[test]
fn row_keys_join_key_cells_with_the_unit_separator() {
    let row = vec![text("a"), text("b"), CellValue::Integer(3)];
    assert_eq!(row_key(&row, &vec![2, 0, 9]), "3\u{1f}a\u{1f}");
    assert_eq!(row_key(&row, &Vec::new()), "a\u{1f}b\u{1f}3");
    let plan = plan(&["Id", "名称", " id "]);
    assert_eq!(key_indices(&plan, &vec!["ID".to_owned()]), vec![0, 2]);
}

#[test]
fn filter_matches_ignoring_case_and_can_exclude() {
    let plan = plan(&["城市", "备注"]);
    let mut options = MergeOptions {
        filter_column: " 备注 ".into(),
        filter_text: "vip".into(),
        ..MergeOptions::default()
    };
    assert!(passes_filter(&vec![text("北京"), text("老VIP客户")], &plan, &options));
    assert!(!passes_filter(&vec![text("北京"), text("普通")], &plan, &options));
    options.filter_exclude = true;
    assert!(passes_filter(&vec![text("北京"), text("普通")], &plan, &options));
    options.filter_column = "没有".into();
    assert!(passes_filter(&vec![text("北京")], &plan, &options));
    assert!(contains_text(&"abc".chars().collect(), &"".chars().collect()));
}

#[test]
fn dedup_and_filter_work_together() {
    let plan = plan(&["姓名", "城市"]);
    let dedup = MergeOptions { deduplicate: true, ..MergeOptions::default() };
    let keys = key_indices(&plan, &dedup.key_columns);
    assert!(keys.is_empty());
    let mut seen = TextIndex::new();
    let rows = vec![
        vec![text("张三"), text("北京")],
        vec![text("张三"), text("北京")],
        vec![text("李四"), text("上海")],
    ];
    let written: Vec<&Vec<CellValue>> =
        rows.iter().filter(|row| accept_row(&mut seen, row, &plan, &dedup, &keys)).collect();
    assert_eq!(written.len(), 2);

    let filter = MergeOptions {
        filter_column: "城市".into(),
        filter_text: "北".into(),
        ..MergeOptions::default()
    };
    let keys = key_indices(&plan, &filter.key_columns);
    let mut seen = TextIndex::new();
    let rows = vec![vec![text("张三"), text("北京")], vec![text("李四"), text("上海")]];
    let written: Vec<Vec<String>> = rows
        .iter()
        .filter(|row| accept_row(&mut seen, row, &plan, &filter, &keys))
        .map(|row| texts(row))
        .collect();
    assert_eq!(written, vec![vec!["张三", "北京"]]);
}

#[test]
fn dedup_by_key_columns_after_the_filter() {
    let plan = plan(&["id", "城市"]);
    let options = MergeOptions {
        deduplicate: true,
        key_columns: vec!["id".into()],
        filter_column: "城市".into(),
        filter_text: "北".into(),
        ..MergeOptions::default()
    };
    let keys = key_indices(&plan, &options.key_columns);
    let mut seen = TextIndex::new();
    let rows = vec![
        vec![text("1"), text("北京")],
        vec![text("1"), text("北京")],
        vec![text("2"), text("上海")],
        vec![text("3"), text("河北")],
    ];
    let written: Vec<bool> = rows.iter().map(|row| accept_row(&mut seen, row, &plan, &options, &keys)).collect();
    assert_eq!(written, [true, false, false, true]);
}

#[test]
fn consolidate_sums_integers_exactly() {
    let plan = plan(&["客户", "金额", "备注"]);
    let options = MergeOptions {
        mode: MergeMode::Consolidate,
        key_columns: vec!["客户".into()],
        ..MergeOptions::default()
    };
    let keys = key_indices(&plan, &options.key_columns);
    let operations = vec![AggregateOp::First, AggregateOp::Sum, AggregateOp::TextJoin];
    let mut groups = KeyedRows::new();
    let input = vec![
        vec![text("乙"), text(" 10 "), text("x")],
        vec![text("甲"), text("99999999999999"), text("a")],
        vec![text("甲"), text("1"), text("b")],
        vec![text("乙"), CellValue::Integer(-3), text("")],
    ];
    for row in input {
        let step = consolidate_row(&mut groups, row, &plan, &options, &keys, &operations);
        assert!(!matches!(step, GroupStep::Overflow(_) | GroupStep::Skipped));
    }
    let rows = groups.into_sorted_rows();
    assert_eq!(texts(&rows[0]), ["乙", "7", "x"]);
    assert!(matches!(rows[0][1], CellValue::Number(_)));
    assert_eq!(texts(&rows[1]), ["甲", "100000000000000", "a；b"]);
    assert!(matches!(rows[1][1], CellValue::Text(_)));
}

#[test]
fn decimal_sums_are_left_for_floating_point() {
    let mut existing = vec![text("1.5"), text("a")];
    let incoming = vec![text("2"), text("b")];
    let operations = vec![AggregateOp::Sum, AggregateOp::UniqueJoin];
    assert!(sums_fit_row(&existing, &incoming, &operations));
    let pending = aggregate_rows(&mut existing, &incoming, &operations, "|");
    assert_eq!(pending, vec![0]);
    assert_eq!(texts(&existing), ["1.5", "a|b"]);
    let mut again = vec![text("a|b")];
    aggregate_rows(&mut again, &vec![text("a")], &vec![AggregateOp::UniqueJoin], "|");
    assert_eq!(texts(&again), ["a|b"]);
}

#[test]
fn unique_joins_keep_each_value_once_over_many_rows() {
    let mut existing = vec![text("")];
    let operations = vec![AggregateOp::UniqueJoin];
    for value in ["甲", "乙", "", "甲", "丙", "乙"] {
        aggregate_rows(&mut existing, &vec![text(value)], &operations, "；");
    }
    assert_eq!(texts(&existing), ["甲；乙；丙"]);
}

#[test]
fn oversized_integer_sums_are_reported() {
    let big = i128::MAX.to_string();
    assert!(!sums_fit_row(&vec![text(&big)], &vec![text("1")], &vec![AggregateOp::Sum]));
    assert!(sums_fit_row(&vec![text(&big)], &vec![text("1")], &vec![AggregateOp::First]));
}

#[test]
fn aggregate_operations_come_from_the_first_matching_mapping() {
    let mut first = csv_table(&["金额", "客户"]);
    first.mappings[0].aggregate = AggregateOp::Sum;
    let mut second = csv_table(&["金额"]);
    second.mappings[0].aggregate = AggregateOp::TextJoin;
    let plan = plan(&["客户", " 金额 ", "其他"]);
    assert_eq!(
        aggregate_operations(&[first, second], &plan),
        vec![AggregateOp::First, AggregateOp::Sum, AggregateOp::First]
    );
}

fn keyed(rows: Vec<Vec<CellValue>>, keys: &Vec<usize>) -> KeyedRows {
    let mut collected = KeyedRows::new();
    for row in rows {
        collect_join_row(&mut collected, row, keys);
    }
    collected
}

#[test]
fn join_left_inner_full() {
    let plan = plan(&["id", "姓名", "城市"]);
    let keys = key_indices(&plan, &vec!["id".to_owned()]);
    assert_eq!(keys, vec![0]);
    let left = vec![
        vec![text("1"), text("张三"), CellValue::Empty],
        vec![text("2"), text("李四"), CellValue::Empty],
    ];
    let right = vec![
        vec![text("1"), CellValue::Empty, text("北京")],
        vec![text("3"), CellValue::Empty, text("上海")],
    ];
    let options = MergeOptions::default();
    for (kind, expected) in [
        (JoinKind::Left, vec![vec!["1", "张三", "北京"], vec!["2", "李四", ""]]),
        (JoinKind::Inner, vec![vec!["1", "张三", "北京"]]),
        (JoinKind::Full, vec![vec!["1", "张三", "北京"], vec!["2", "李四", ""], vec!["3", "", "上海"]]),
    ] {
        let current = keyed(left.clone(), &keys).into_rows();
        let joined = join_tables(current, &keyed(right.clone(), &keys), kind, &keys);
        let finished = finish_join(joined, &keys, &plan, &options);
        let got: Vec<Vec<String>> = finished.iter().map(|row| texts(row)).collect();
        assert_eq!(got.len(), expected.len());
        assert_eq!(got, expected);
    }
}

#[test]
fn joins_order_rows_by_key() {
    let plan = plan(&["id", "a", "b"]);
    let keys = vec![0];
    let left = vec![vec![text("2"), text("x"), text("")], vec![text("1"), text("y"), text("")]];
    let right = vec![vec![text("1"), text(""), text("p")], vec![text("3"), text(""), text("q")]];
    let options = MergeOptions::default();
    for (kind, expected) in [
        (JoinKind::Left, vec![vec!["1", "y", "p"], vec!["2", "x", ""]]),
        (JoinKind::Inner, vec![vec!["1", "y", "p"]]),
        (JoinKind::Full, vec![vec!["1", "y", "p"], vec!["2", "x", ""], vec!["3", "", "q"]]),
    ] {
        let current = keyed(left.clone(), &keys).into_rows();
        let joined = join_tables(current, &keyed(right.clone(), &keys), kind, &keys);
        let finished = finish_join(joined, &keys, &plan, &options);
        let got: Vec<Vec<String>> = finished.iter().map(|row| texts(row)).collect();
        assert_eq!(got, expected);
    }
}

#[test]
fn later_rows_of_a_joined_table_fill_gaps() {
    let keys = vec![0];
    let collected = keyed(vec![vec![text("1"), text("")], vec![text("1"), text("z")]], &keys);
    let rows = collected.into_rows();
    assert_eq!(rows.len(), 1);
    assert_eq!(texts(&rows[0]), ["1", "z"]);
    let mut row = vec![text(""), text("k")];
    fill_empty(&mut row, &vec![text("v"), text("w")]);
    assert_eq!(texts(&row), ["v", "k"]);
}

#[test]
fn database_rows_keep_nulls_apart_from_empty_texts() {
    let row = vec![text("001"), CellValue::Empty, text("")];
    assert_eq!(database_row(&row, true), vec![Some("001".to_owned()), None, None]);
    assert_eq!(database_row(&row, false), vec![Some("001".to_owned()), None, Some(String::new())]);
}

#[test]
fn appending_reads_a_workbook_s_sheets_together() {
    let sheet = |path: &str, name: &str| SourceTable {
        path: path.into(),
        sheet_name: name.into(),
        kind: SourceKind::Workbook,
        ..csv_table(&["a"])
    };
    let tables = vec![
        sheet("w.xlsx", "S1"),
        csv_table(&["a"]),
        sheet("v.xlsx", "T1"),
        sheet("w.xlsx", "S2"),
        csv_table(&["b"]),
    ];
    assert_eq!(append_order(&tables), vec![0, 3, 1, 2, 4]);
}

#[test]
fn rows_fill_sheets_of_the_limit_in_turn() {
    let mut cursor = SheetCursor::new_with_limit(3).unwrap();
    for _ in 0..7 {
        cursor.next_row();
    }
    assert_eq!(cursor.total_rows, 7);
    assert_eq!(cursor.sheet_count(), 3);
    assert_eq!(cursor.row_in_sheet, 1);
}

#[test]
fn sheets_split_after_the_limit_and_are_numbered() {
    let mut cursor = SheetCursor::new_with_limit(2).unwrap();
    assert_eq!(cursor.next_row(), (false, 1));
    assert_eq!(cursor.next_row(), (false, 2));
    assert_eq!(cursor.next_row(), (true, 1));
    assert_eq!(cursor.sheet_count(), 2);
    assert_eq!(cursor.total_rows, 3);
    assert!(SheetCursor::new_with_limit(0).is_err());
    assert!(SheetCursor::new_with_limit(XLSX_MAX_DATA_ROWS + 1).is_err());
    assert_eq!(sheet_name(0), "合并结果_001");
    assert_eq!(sheet_name(1234), "合并结果_1235");
}

#[test]
fn progress_is_reported_every_thousand_rows_and_at_the_end() {
    assert!(should_report(2000, 5000));
    assert!(should_report(17, 17));
    assert!(!should_report(17, 18));
    assert_eq!(progress_label("a.csv"), "正在处理：a.csv");
}

fn consolidate_two_columns(input: &[[&str; 2]]) -> Vec<Vec<CellValue>> {
    let mut table = csv_table(&["城市", "金额"]);
    for mapping in &mut table.mappings {
        if mapping.source_name == "金额" {
            mapping.aggregate = AggregateOp::Sum;
        }
    }
    let mut options = MergeOptions {
        mode: MergeMode::Consolidate,
        key_columns: vec!["城市".to_owned()],
        ..MergeOptions::default()
    };
    options.output_order = vec!["城市".to_owned(), "金额".to_owned()];
    let tables = vec![table];
    let plan = build_output_plan(&tables, &options);
    assert_eq!(plan.headers, vec!["城市", "金额"]);
    let keys = key_indices(&plan, &options.key_columns);
    let operations = aggregate_operations(&tables, &plan);
    let mapping = build_row_mapping(&tables[0], &plan, options.mode);
    let mut groups = KeyedRows::new();
    for values in input {
        let row = mapped_row(values.iter().map(|v| text(v)).collect(), &mapping, &plan);
        let step = consolidate_row(&mut groups, row, &plan, &options, &keys, &operations);
        assert!(!matches!(step, GroupStep::Overflow(_) | GroupStep::Skipped));
    }
    groups.into_sorted_rows()
}

#[test]
fn consolidate_sums_text_numbers() {
    let rows = consolidate_two_columns(&[["北京", "10"], ["北京", "20"], ["上海", "30"]]);
    let got: Vec<Vec<String>> = rows.iter().map(|row| texts(row)).collect();
    assert!(got.contains(&vec!["北京".to_owned(), "30".to_owned()]), "{got:?}");
    assert!(got.contains(&vec!["上海".to_owned(), "30".to_owned()]));
}

#[test]
fn consolidate_large_int_sum_keeps_exact_precision() {
    let rows = consolidate_two_columns(&[["北京", "9007199254740992"], ["北京", "1"]]);
    assert_eq!(texts(&rows[0]), vec!["北京".to_owned(), "9007199254740993".to_owned()]);
}

#[test]
fn consolidate_normal_integer_sum_stays_numeric() {
    let rows = consolidate_two_columns(&[["北京", "10"], ["北京", "20"]]);
    assert_eq!(texts(&rows[0]), vec!["北京".to_owned(), "30".to_owned()]);
    assert!(matches!(rows[0][1], CellValue::Number(_)));
}

#[test]
fn consolidate_wide_integer_sum_stays_text_not_scientific() {
    let rows = consolidate_two_columns(&[["北京", "70000000000000"], ["北京", "70000000000000"]]);
    assert_eq!(texts(&rows[0]), vec!["北京".to_owned(), "140000000000000".to_owned()]);
    assert!(matches!(rows[0][1], CellValue::Text(_)));
}

#[test]
fn transforms_and_source_columns() {
    let mut table = csv_table(&["姓名", "城市"]);
    table.path = "t.csv".into();
    for mapping in &mut table.mappings {
        if mapping.source_name == "姓名" {
            mapping.transform = TransformOp::Trim;
        }
    }
    let options = MergeOptions {
        mode: MergeMode::Union,
        include_source_file: true,
        include_source_sheet: true,
        ..MergeOptions::default()
    };
    let plan = build_output_plan(std::slice::from_ref(&table), &options);
    let mapping = build_row_mapping(&table, &plan, options.mode);
    let row = mapped_row(vec![text(" 张三 "), text("北京")], &mapping, &plan);
    assert_eq!(texts(&row)[0], "张三");
    assert_eq!(texts(&row)[2], "t.csv");
    assert_eq!(texts(&row)[3], "CSV");
}

fn facts_of(rows: &[&[&str]]) -> TableFacts {
    TableFacts {
        exists: true,
        csv_error: None,
        sample: Ok(rows
            .iter()
            .map(|row| {
                row.iter()
                    .map(|v| SampleCell { text: v.to_string(), number: v.trim().parse::<f64>().is_ok() })
                    .collect()
            })
            .collect()),
    }
}

#[test]
fn preflight_catches_missing_filter_column() {
    let table = csv_table(&["姓名"]);
    let options = MergeOptions {
        mode: MergeMode::Union,
        filter_column: "不存在的列".to_owned(),
        filter_text: "x".to_owned(),
        ..MergeOptions::default()
    };
    let issues = preflight(&[table], &options, &[facts_of(&[&["张三"]])], "0.0", &vec![]);
    assert!(issues.iter().any(|issue| issue.title == "筛选字段不存在"), "{issues:?}");
}

#[test]
fn preflight_without_enabled_tables_reports_only_that() {
    let mut table = csv_table(&["姓名"]);
    table.enabled = false;
    let issues = preflight(&[table], &MergeOptions::default(), &[], "0.0", &vec![]);
    assert_eq!(issues.len(), 1);
    assert_eq!(issues[0].level, IssueLevel::Error);
    assert_eq!(issues[0].title, "没有数据表");
    assert_eq!(issues[0].detail, "请至少选择一个工作表或 CSV。");
}

#[test]
fn preflight_reports_shape_fields_and_samples_sorted_by_level() {
    let mut a = csv_table(&["姓名", "金额"]);
    a.estimated_rows = 1_048_576;
    let mut b = csv_table(&["姓名", "未命名列1"]);
    b.estimated_rows = 4;
    let options = MergeOptions {
        mode: MergeMode::Consolidate,
        ..MergeOptions::default()
    };
    let facts = vec![
        facts_of(&[&["张三", "10"], &["李四", "是"]]),
        TableFacts { exists: true, csv_error: Some("第 3 行格式异常".into()), sample: Err("读不出".into()) },
    ];
    let similar = vec!["金额 ↔ 全额".to_owned()];
    let issues = preflight(&[a, b], &options, &facts, "1.5", &similar);
    let shown: Vec<(IssueLevel, &str, &str)> =
        issues.iter().map(|i| (i.level, i.title.as_str(), i.detail.as_str())).collect();
    assert_eq!(
        shown,
        vec![
            (IssueLevel::Error, "CSV 行格式异常", "data.csv  /  CSV：第 3 行格式异常"),
            (IssueLevel::Error, "无法抽样读取", "data.csv  /  CSV：读不出"),
            (IssueLevel::Error, "缺少键字段", "汇总或横向关联至少需要一个键字段。"),
            (IssueLevel::Warning, "字段不一致", "data.csv  /  CSV 缺少并集中 1 个字段。"),
            (IssueLevel::Warning, "字段不一致", "data.csv  /  CSV 缺少并集中 1 个字段。"),
            (IssueLevel::Warning, "存在空表头", "data.csv  /  CSV 有 1 个空表头，已自动命名。"),
            (IssueLevel::Warning, "字段类型混合", "字段“金额”的样本同时出现：布尔、数字。"),
            (IssueLevel::Warning, "字段样本全空", "字段“未命名列1”在抽样行中没有非空值。"),
            (IssueLevel::Warning, "疑似同义/错拼字段", "金额 ↔ 全额"),
            (IssueLevel::Info, "输出规模", "预计 1048580 行、3 列、约 2 个结果 Sheet。"),
            (IssueLevel::Info, "输入文件规模", "已选数据源合计约 1.5 MB。"),
        ]
    );
}

#[test]
fn union_keys_and_row_totals_cover_enabled_tables_only() {
    let a = csv_table(&["姓名", " 金额 "]);
    let mut b = csv_table(&["城市"]);
    b.enabled = false;
    let c = csv_table(&["金额", "Phone"]);
    let tables = vec![a, b, c];
    assert_eq!(union_header_keys(&tables), vec!["姓名", "金额", "phone"]);
    assert_eq!(estimated_rows_total(&tables), 2);
}

#[test]
fn sorting_by_level_keeps_order_within_a_level() {
    let issue = |level, title: &str| CheckIssue { level, title: title.into(), detail: String::new() };
    let sorted = sort_by_level(&vec![
        issue(IssueLevel::Info, "a"),
        issue(IssueLevel::Error, "b"),
        issue(IssueLevel::Warning, "c"),
        issue(IssueLevel::Error, "d"),
    ]);
    let titles: Vec<&str> = sorted.iter().map(|i| i.title.as_str()).collect();
    assert_eq!(titles, ["b", "d", "c", "a"]);
}

#[test]
fn shared_header_names_become_mapping_candidates() {
    let a = csv_table(&["手机号", "姓名", "城市"]);
    let b = csv_table(&[" 手机号 ", "联系电话"]);
    let mut c = csv_table(&["城市"]);
    c.enabled = false;
    let d = csv_table(&["姓名 ", "Phone"]);
    let tables = vec![a, b, c, d];
    let candidates = suggestion_candidates(&tables);
    assert_eq!(candidates, vec!["手机号", "姓名"]);
    assert_eq!(unmatched_headers(&tables, &candidates), vec!["城市", "联系电话", "Phone"]);
    assert!(suggestion_candidates(&[csv_table(&["a"])]).is_empty());
}

#[test]
fn merges_that_cannot_start_are_refused_with_their_reason() {
    let mut unchecked = csv_table(&["a"]);
    unchecked.enabled = false;
    let one = plan(&["a"]);
    assert_eq!(merge_refusal(&[unchecked.clone()], &one, true).as_deref(), Some("没有勾选任何表"));
    assert_eq!(
        merge_refusal(&[csv_table(&["a"])], &plan(&[]), true).as_deref(),
        Some("合并后没有可输出的列，请检查合并方式或字段映射")
    );
    assert_eq!(
        merge_refusal(&[csv_table(&["a"])], &plan(&[]), false).as_deref(),
        Some("合并后没有可导入的列，请检查合并方式或字段映射")
    );
    let names: Vec<String> = (0..16_385).map(|i| format!("c{i}")).collect();
    let wide = OutputPlan { headers: names, source_file_column: None, source_sheet_column: None };
    assert_eq!(
        merge_refusal(&[csv_table(&["a"])], &wide, true).as_deref(),
        Some("输出列数超过 XLSX 的 16,384 列限制")
    );
    assert_eq!(merge_refusal(&[csv_table(&["a"])], &wide, false), None);
    assert_eq!(merge_refusal(&[unchecked, csv_table(&["a"])], &one, true), None);
}

#[test]
fn consolidation_and_joins_need_a_key_column() {
    assert_eq!(key_refusal(MergeMode::Consolidate, &vec![]).as_deref(), Some("按键汇总至少需要一个有效的键字段"));
    assert_eq!(key_refusal(MergeMode::Join, &vec![]).as_deref(), Some("横向关联至少需要一个有效的键字段"));
    assert_eq!(key_refusal(MergeMode::Union, &vec![]), None);
    assert_eq!(key_refusal(MergeMode::Join, &vec![0]), None);
}

#[test]
fn the_first_joined_table_is_taken_as_it_is() {
    let keys = vec![0];
    let first = keyed(vec![vec![text("2"), text("x")], vec![text("1"), text("y")]], &keys);
    let rows = join_step(0, Vec::new(), first, JoinKind::Inner, &keys);
    assert_eq!(rows.iter().map(|row| texts(row)).collect::<Vec<_>>(), vec![vec!["2", "x"], vec!["1", "y"]]);
    let second = keyed(vec![vec![text("1"), text("")]], &keys);
    let rows = join_step(1, rows, second, JoinKind::Inner, &keys);
    assert_eq!(rows.iter().map(|row| texts(row)).collect::<Vec<_>>(), vec![vec!["1", "y"]]);
}

#[test]
fn unique_joins_split_at_longer_separators_from_the_start() {
    let operations = vec![AggregateOp::UniqueJoin];
    let mut row = vec![text("a---b")];
    aggregate_rows(&mut row, &vec![text("c")], &operations, "--");
    assert_eq!(texts(&row), ["a---b--c"]);
    let mut row = vec![text("aaa")];
    aggregate_rows(&mut row, &vec![text("a")], &operations, "aa");
    assert_eq!(texts(&row), ["a"]);
}
