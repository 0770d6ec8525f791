use sheetforge::workbench::model::{
    build_output_plan, common_header_keys, header_key, make_default_mappings, normalize_headers,
    source_to_output_map, ColumnMapping, MergeMode, MergeOptions, SourceKind, SourceTable,
    TransformOp,
};
use std::collections::HashSet;

fn table(headers: &[&str]) -> SourceTable {
    let headers = headers.iter().map(|v| (*v).to_owned()).collect::<Vec<_>>();
    SourceTable {
        path: "a.csv".to_owned(),
        sheet_name: "CSV".to_owned(),
        kind: SourceKind::Csv { delimiter: b',' },
        header_row: 1,
        header_rows: 1,
        suggested_header_row: 1,
        mappings: make_default_mappings(&headers),
        headers,
        estimated_rows: 0,
        enabled: true,
    }
}

fn desktop_table(headers: &[&str]) -> sheetforge::desktop::model::SourceTable {
    let headers = headers.iter().map(|v| (*v).to_owned()).collect::<Vec<_>>();
    sheetforge::desktop::model::SourceTable {
        path: "a.csv".to_owned(),
        sheet_name: "CSV".to_owned(),
        kind: sheetforge::desktop::model::SourceKind::Csv { delimiter: b',' },
        header_row: 1,
        header_rows: 1,
        suggested_header_row: 1,
        mappings: sheetforge::desktop::model::make_default_mappings(&headers),
        headers,
        estimated_rows: 0,
        enabled: true,
    }
}

fn strings(values: &[&str]) -> Vec<String> {
    values.iter().map(|v| (*v).to_owned()).collect()
}

#[test]
fn model_headers_are_unique_and_named() {
    assert_eq!(
        normalize_headers(&strings(&["姓名", "", "姓名"])),
        vec!["姓名", "未命名列2", "姓名_2"]
    );
    assert_eq!(
        sheetforge::desktop::model::normalize_headers(&strings(&["姓名", "", "姓名"])),
        vec!["姓名", "未命名列2", "姓名_2"]
    );
}

#[test]
fn line_breaks_in_headers_are_ignored_for_matching() {
    assert_eq!(header_key("客户\n姓名"), "客户姓名");
    assert_eq!(header_key("客户\r\n姓名"), "客户姓名");
    assert_eq!(header_key("客户 \n 姓名"), "客户姓名");
}

#[test]
fn header_keys_settle_after_one_folding() {
    for value in ["  Total\u{2028}  Amount ", "客户\r\n 姓名\n", "\n\n", "Plain"] {
        let once = header_key(value);
        assert!(!once.contains(['\r', '\n', '\u{2028}', '\u{2029}']));
        assert_eq!(once.trim(), once);
        assert_eq!(header_key(&once), once);
    }
    assert_eq!(header_key("  Total\u{2028}  Amount "), "totalamount");
}

#[test]
fn manual_mapping_with_line_breaks_does_not_create_duplicate_output_column() {
    let mut wrapped = table(&["客户\n姓名"]);
    let plain = table(&["客户姓名"]);
    wrapped.mappings[0].target_name = "客户姓名".to_owned();
    let plan = build_output_plan(
        &[wrapped, plain],
        &MergeOptions {
            mode: MergeMode::Manual,
            ..Default::default()
        },
    );
    assert_eq!(plan.headers, vec!["客户姓名"]);
}

#[test]
fn manual_and_intersection_preserve_first_table_order() {
    let tables = vec![table(&["姓名", "年龄"]), table(&["姓名", "城市"])];
    let manual = build_output_plan(
        &tables,
        &MergeOptions {
            mode: MergeMode::Manual,
            ..Default::default()
        },
    );
    let intersection = build_output_plan(
        &tables,
        &MergeOptions {
            mode: MergeMode::Intersection,
            ..Default::default()
        },
    );
    assert_eq!(manual.headers, vec!["姓名", "年龄", "城市"]);
    assert_eq!(intersection.headers, vec!["姓名"]);
}

#[test]
fn manual_includes_enabled_mapping_targets_and_common_headers_are_detected() {
    let tables = vec![table(&["姓名", "手机号"]), table(&["姓名", "联系电话"])];
    let manual = build_output_plan(
        &tables,
        &MergeOptions {
            mode: MergeMode::Manual,
            ..Default::default()
        },
    );
    assert_eq!(manual.headers, vec!["姓名", "手机号", "联系电话"]);
    assert_eq!(
        common_header_keys(&tables).into_iter().collect::<HashSet<_>>(),
        HashSet::from(["姓名".to_owned()])
    );
}

#[test]
fn model_manual_mapping_joins_different_source_names() {
    let mut a = table(&["手机号"]);
    let mut b = table(&["联系电话"]);
    a.mappings[0].target_name = "电话".to_owned();
    b.mappings[0].target_name = "电话".to_owned();
    let plan = build_output_plan(
        &[a, b],
        &MergeOptions {
            mode: MergeMode::Manual,
            ..Default::default()
        },
    );
    assert_eq!(plan.headers, vec!["电话"]);

    let mut a = desktop_table(&["手机号"]);
    let mut b = desktop_table(&["联系电话"]);
    a.mappings[0].target_name = "电话".to_owned();
    b.mappings[0].target_name = "电话".to_owned();
    let plan = sheetforge::desktop::model::build_output_plan(
        &[a, b],
        &sheetforge::desktop::model::MergeOptions {
            mode: sheetforge::desktop::model::MergeMode::Manual,
            ..Default::default()
        },
    );
    assert_eq!(plan.headers, vec!["电话"]);
}

#[test]
fn source_sheet_column_follows_user_output_order() {
    let tables = vec![table(&["姓名", "年龄"]), table(&["姓名", "城市"])];
    let plan = build_output_plan(
        &tables,
        &MergeOptions {
            mode: MergeMode::Manual,
            include_source_sheet: true,
            output_order: vec![
                "来源工作表".to_owned(),
                "姓名".to_owned(),
                "年龄".to_owned(),
                "城市".to_owned(),
            ],
            ..Default::default()
        },
    );
    assert_eq!(plan.headers, vec!["来源工作表", "姓名", "年龄", "城市"]);
    assert_eq!(plan.source_sheet_column, Some(0));
}

#[test]
fn source_columns_can_sit_in_the_middle_of_output() {
    let tables = vec![table(&["姓名", "年龄"])];
    let plan = build_output_plan(
        &tables,
        &MergeOptions {
            mode: MergeMode::Manual,
            include_source_sheet: true,
            output_order: vec![
                "姓名".to_owned(),
                "来源工作表".to_owned(),
                "年龄".to_owned(),
            ],
            ..Default::default()
        },
    );
    assert_eq!(plan.headers, vec!["姓名", "来源工作表", "年龄"]);
    assert_eq!(plan.source_sheet_column, Some(1));
}

#[test]
fn source_metadata_keeps_original_column_with_same_name() {
    let plan = build_output_plan(
        &[table(&["来源文件", "来源工作表", "值"])],
        &MergeOptions {
            include_source_file: true,
            include_source_sheet: true,
            ..Default::default()
        },
    );
    assert_eq!(
        plan.headers,
        vec!["来源文件", "来源工作表", "值", "_来源文件2", "_来源工作表2"]
    );
    assert_eq!(plan.source_file_column, Some(3));
    assert_eq!(plan.source_sheet_column, Some(4));
}

#[test]
fn transform_op_apply_cleans_text() {
    assert_eq!(TransformOp::Unchanged.apply(" Ab "), " Ab ");
    assert_eq!(TransformOp::Trim.apply(" Ab "), "Ab");
    assert_eq!(TransformOp::Uppercase.apply(" Ab "), "AB");
    assert_eq!(TransformOp::Lowercase.apply(" Ab "), "ab");
}

#[test]
fn disabled_tables_and_mappings_do_not_contribute_columns() {
    let mut a = table(&["姓名", "年龄"]);
    a.mappings[1].enabled = false;
    let mut b = table(&["城市"]);
    b.enabled = false;
    let plan = build_output_plan(&[a, b], &MergeOptions::default());
    assert_eq!(plan.headers, vec!["姓名"]);
    assert_eq!(plan.source_file_column, None);
}

#[test]
fn source_map_follows_keys_in_both_modes() {
    let mut t = table(&["姓名", "城市"]);
    t.mappings.push(ColumnMapping {
        source_index: 0,
        source_name: "姓名".to_owned(),
        target_name: " 复制 ".to_owned(),
        enabled: true,
        transform: TransformOp::Unchanged,
    });
    let plan = build_output_plan(std::slice::from_ref(&t), &MergeOptions::default());
    assert_eq!(plan.headers, vec!["姓名", "城市", "复制"]);
    assert_eq!(
        source_to_output_map(&t, &plan, MergeMode::Manual),
        vec![(0, 0), (1, 1), (0, 2)]
    );
    assert_eq!(
        source_to_output_map(&t, &plan, MergeMode::Intersection),
        vec![(0, 0), (1, 1)]
    );
}

#[test]
fn common_keys_need_two_enabled_tables() {
    assert!(common_header_keys(&[table(&["姓名"])]).is_empty());
    let keys = common_header_keys(&[table(&["A", "b"]), table(&["a", "B"])]);
    assert_eq!(keys, vec!["a", "b"]);
}
