use sheetforge::desktop::model::{
    build_output_plan, common_header_keys, header_key, make_default_mappings, AggregateOp,
    JoinKind, MergeMode, MergeOptions, SourceKind, SourceTable,
};
use std::collections::HashSet;

fn table(headers: &[&str]) -> SourceTable {
    let headers = headers.iter().map(|v| (*v).to_owned()).collect::<Vec<_>>();
    SourceTable {
        path: "a.csv".to_owned(),
        sheet_name: "CSV".to_owned(),
        kind: SourceKind::Csv { delimiter: b',' },
        header_row: 1,
        header_rows: 1,
        suggested_header_row: 1,
        mappings: make_default_mappings(&headers),
        headers,
        estimated_rows: 0,
        enabled: true,
    }
}

#[test]
fn union_and_intersection_preserve_first_table_order() {
    let tables = vec![table(&["姓名", "年龄"]), table(&["姓名", "城市"])];
    let union = build_output_plan(
        &tables,
        &MergeOptions {
            mode: MergeMode::Union,
            ..Default::default()
        },
    );
    let intersection = build_output_plan(
        &tables,
        &MergeOptions {
            mode: MergeMode::Intersection,
            ..Default::default()
        },
    );
    assert_eq!(union.headers, vec!["姓名", "年龄", "城市"]);
    assert_eq!(intersection.headers, vec!["姓名"]);
}

#[test]
fn manual_defaults_to_union_and_common_headers_are_detected() {
    let tables = vec![table(&["姓名", "手机号"]), table(&["姓名", "联系电话"])];
    let manual = build_output_plan(
        &tables,
        &MergeOptions {
            mode: MergeMode::Manual,
            ..Default::default()
        },
    );
    assert_eq!(manual.headers, vec!["姓名", "手机号", "联系电话"]);
    assert_eq!(
        common_header_keys(&tables).into_iter().collect::<HashSet<_>>(),
        HashSet::from(["姓名".to_owned()])
    );
}

#[test]
fn desktop_source_columns_go_after_the_ordered_columns() {
    let tables = vec![table(&["姓名", "年龄"])];
    let plan = build_output_plan(
        &tables,
        &MergeOptions {
            include_source_file: true,
            include_source_sheet: true,
            output_order: vec!["年龄".to_owned(), "姓名".to_owned()],
            ..Default::default()
        },
    );
    assert_eq!(plan.headers, vec!["年龄", "姓名", "来源文件", "来源工作表"]);
    assert_eq!(plan.source_file_column, Some(2));
    assert_eq!(plan.source_sheet_column, Some(3));
}

#[test]
fn desktop_keys_fold_case_and_space() {
    assert_eq!(header_key("  Name "), "name");
    assert_eq!(MergeMode::Consolidate.label(), "按键汇总");
    assert_eq!(MergeMode::Join.label(), "横向关联");
    let options = MergeOptions::default();
    assert_eq!(options.mode, MergeMode::Union);
    assert_eq!(options.join_kind, JoinKind::Left);
    assert_eq!(options.text_join_separator, "；");
    assert_eq!(AggregateOp::default(), AggregateOp::First);
}

#[test]
fn planned_columns_never_share_a_key() {
    let headers = vec!["来源文件".to_owned(), "A".to_owned(), "来源工作表".to_owned()];
    let table = SourceTable {
        path: "x.csv".into(),
        sheet_name: "CSV".into(),
        kind: SourceKind::Csv { delimiter: b',' },
        header_row: 1,
        header_rows: 1,
        suggested_header_row: 1,
        mappings: make_default_mappings(&headers),
        headers,
        estimated_rows: 0,
        enabled: true,
    };
    let options = MergeOptions {
        include_source_file: true,
        include_source_sheet: true,
        output_order: vec!["a".to_owned()],
        ..MergeOptions::default()
    };
    let plan = build_output_plan(&[table], &options);
    assert_eq!(plan.headers, vec!["A", "来源文件", "来源工作表", "_来源文件2", "_来源工作表2"]);
    let keys: Vec<String> = plan.headers.iter().map(|h| h.to_lowercase()).collect();
    for i in 0..keys.len() {
        for j in i + 1..keys.len() {
            assert_ne!(keys[i], keys[j]);
        }
    }
    assert_eq!(plan.source_file_column, Some(3));
    assert_eq!(plan.source_sheet_column, Some(4));
}

#[test]
fn tables_are_shown_by_file_name_and_sheet() {
    let mut t = table(&["a"]);
    t.path = "data/a.csv".to_owned();
    assert_eq!(t.display_name(), "a.csv  /  CSV");
    t.path = "..".to_owned();
    assert_eq!(t.display_name(), "  /  CSV");
}
