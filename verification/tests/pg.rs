use sheetforge::engine::cell::CellValue;
use sheetforge::pg::config::{AppConfig, ConnectionProfile};
use sheetforge::pg::connection::{connect_plan, ssl_mode, tls_settings, ConnectPlan, ProfileSslMode};
use sheetforge::pg::copy_binary::{
    encode_binary_cells_row, encode_binary_header, encode_binary_row, encode_binary_trailer,
};
use sheetforge::pg::copy_text::{encode_copy_cells_row_into, encode_copy_row, encode_copy_row_into};
use sheetforge::pg::error::AppError;
use sheetforge::pg::identifier::{map_identifiers, quote_identifier, IdentifierMapping};
use sheetforge::pg::table::{
    create_table_sql, prepare_step, validate_append, ExistingColumn, IfExists, PrepareStep,
    TablePersistence, TargetTable,
};

const SIGNATURE: &[u8; 11] = b"PGCOPY\n\xFF\r\n\0";

fn config_message(error: AppError) -> String {
    match error {
        AppError::Config(message) => message,
        other => panic!("expected a configuration error, got {other:?}"),
    }
}

fn target(schema: &str, table: &str, if_exists: IfExists) -> TargetTable {
    TargetTable { schema: schema.to_owned(), table: table.to_owned(), if_exists }
}

fn column(name: &str) -> IdentifierMapping {
    IdentifierMapping { original: name.to_owned(), database: name.to_owned() }
}

#[test]
fn quotes_embedded_double_quotes() {
    assert_eq!(quote_identifier("a\"b"), "\"a\"\"b\"");
    assert_eq!(quote_identifier("select"), "\"select\"");
}

#[test]
fn truncates_by_utf8_bytes_and_avoids_collisions() {
    let common = "中".repeat(30);
    let names = vec![format!("{common}甲"), format!("{common}乙")];
    let mapped = map_identifiers(&names);
    assert!(mapped.iter().all(|m| m.database.len() <= 63));
    assert_ne!(mapped[0].database, mapped[1].database);
    assert!(mapped[0].database.is_char_boundary(mapped[0].database.len()));
}

#[test]
fn short_unique_names_keep_their_text() {
    let names = vec!["客户".to_owned(), "金额".to_owned()];
    let mapped = map_identifiers(&names);
    assert_eq!(mapped[0].database, "客户");
    assert_eq!(mapped[1].database, "金额");
    assert_eq!(mapped[0].original, "客户");
}

#[test]
fn repeated_names_get_a_hashed_identifier() {
    let names = vec!["id".to_owned(), "id".to_owned()];
    let mapped = map_identifiers(&names);
    assert_eq!(mapped[0].database, "id");
    assert_ne!(mapped[1].database, "id");
    assert!(mapped[1].database.starts_with("id_"));
    assert_eq!(mapped[1].database.len(), "id_".len() + 8);
    assert!(mapped[1].database[3..].chars().all(|c| c.is_ascii_hexdigit() && !c.is_ascii_uppercase()));
}

#[test]
fn long_names_are_cut_at_fifty_four_bytes() {
    let long = "a".repeat(70);
    let mapped = map_identifiers(&[long.clone()]);
    assert_eq!(mapped[0].database.len(), 63);
    assert!(mapped[0].database.starts_with(&"a".repeat(54)));
    assert_eq!(&mapped[0].database[54..55], "_");
}

#[test]
fn encodes_postgres_binary_copy_stream() {
    let mut output = Vec::new();
    encode_binary_header(&mut output);
    encode_binary_row(
        &[Some("A".into()), None, Some(String::new()), Some("中文".into())],
        &mut output,
    )
    .unwrap();
    encode_binary_trailer(&mut output);

    assert_eq!(&output[..11], SIGNATURE);
    assert_eq!(&output[11..19], &[0; 8]);
    assert_eq!(&output[19..21], &4i16.to_be_bytes());
    assert_eq!(&output[21..25], &1i32.to_be_bytes());
    assert_eq!(output[25], b'A');
    assert_eq!(&output[26..30], &(-1i32).to_be_bytes());
    assert_eq!(&output[30..34], &0i32.to_be_bytes());
    assert_eq!(&output[34..38], &6i32.to_be_bytes());
    assert_eq!(&output[38..44], "中文".as_bytes());
    assert_eq!(&output[44..], &(-1i16).to_be_bytes());
}

#[test]
fn cell_value_encoder_matches_owned_string_encoder() {
    let cells = vec![CellValue::Text("A".into()), CellValue::Empty, CellValue::Integer(42)];
    let owned = vec![Some("A".into()), None, Some("42".into())];
    let mut direct_output = Vec::new();
    let mut owned_output = Vec::new();
    encode_binary_cells_row(&cells, true, &mut direct_output).unwrap();
    encode_binary_row(&owned, &mut owned_output).unwrap();
    assert_eq!(direct_output, owned_output);
}

#[test]
fn binary_rows_with_too_many_fields_are_refused_untouched() {
    let row: Vec<Option<String>> = vec![None; 32768];
    let mut output = vec![7u8];
    let error = encode_binary_row(&row, &mut output).unwrap_err();
    assert_eq!(config_message(error), "二进制 COPY 单行字段数超过 PostgreSQL 限制：32768");
    assert_eq!(output, vec![7u8]);
}

#[test]
fn escapes_postgres_copy_text_specials() {
    let row = vec![
        Some("tab\there".into()),
        Some("line\nreturn\rslash\\".into()),
        Some(r"\N".into()),
        Some(String::new()),
        None,
        Some("中文".into()),
    ];
    assert_eq!(
        String::from_utf8(encode_copy_row(&row)).unwrap(),
        "tab\\there\tline\\nreturn\\rslash\\\\\t\\\\N\t\t\\N\t中文\n"
    );
}

#[test]
fn appends_multiple_rows_to_one_copy_buffer() {
    let mut output = Vec::new();
    encode_copy_row_into(&[Some("1".into()), Some("甲".into())], &mut output);
    encode_copy_row_into(&[Some("2".into()), None], &mut output);
    assert_eq!(String::from_utf8(output).unwrap(), "1\t甲\n2\t\\N\n");
}

#[test]
fn encodes_cell_values_with_the_same_copy_text_semantics() {
    let row = vec![
        CellValue::Text("001".into()),
        CellValue::Empty,
        CellValue::Integer(42),
        CellValue::Text(String::new()),
    ];
    let mut output = Vec::new();
    encode_copy_cells_row_into(&row, true, &mut output);
    assert_eq!(String::from_utf8(output).unwrap(), "001\t\\N\t42\t\\N\n");
}

#[test]
fn empty_texts_stay_text_unless_loaded_as_null() {
    let row = vec![CellValue::Text(String::new()), CellValue::Boolean(true)];
    let mut output = Vec::new();
    encode_copy_cells_row_into(&row, false, &mut output);
    assert_eq!(String::from_utf8(output).unwrap(), "\ttrue\n");
}

#[test]
fn distinguishes_null_empty_and_literal_null_words() {
    let row = vec![None, Some(String::new()), Some("NULL".into()), Some(r"\N".into())];
    assert_eq!(String::from_utf8(encode_copy_row(&row)).unwrap(), "\\N\t\tNULL\t\\\\N\n");
}

#[test]
fn ssl_modes_remain_distinct() {
    assert_eq!(ssl_mode("allow").unwrap(), ProfileSslMode::Allow);
    assert_eq!(ssl_mode("prefer").unwrap(), ProfileSslMode::Prefer);
    assert_eq!(ssl_mode("require").unwrap(), ProfileSslMode::Require);
    assert_eq!(ssl_mode("verify-ca").unwrap(), ProfileSslMode::VerifyCa);
    assert_eq!(ssl_mode("verify-full").unwrap(), ProfileSslMode::VerifyFull);
}

#[test]
fn ssl_modes_ignore_case_and_reject_unknown_words() {
    assert_eq!(ssl_mode("DISABLE").unwrap(), ProfileSslMode::Disable);
    let message = config_message(ssl_mode("Secure").unwrap_err());
    assert_eq!(
        message,
        "不支持的 sslmode“secure”；可选 disable、allow、prefer、require、verify-ca、verify-full"
    );
}

#[test]
fn ssl_modes_decide_how_to_connect() {
    assert_eq!(connect_plan(ProfileSslMode::Disable), ConnectPlan::Plain);
    assert_eq!(connect_plan(ProfileSslMode::Allow), ConnectPlan::PlainThenTls);
    assert_eq!(connect_plan(ProfileSslMode::Prefer), ConnectPlan::Tls { prefer: true });
    assert_eq!(connect_plan(ProfileSslMode::VerifyFull), ConnectPlan::Tls { prefer: false });
    let relaxed = tls_settings(ProfileSslMode::Require);
    assert!(relaxed.accept_invalid_certs && relaxed.accept_invalid_hostnames);
    let ca = tls_settings(ProfileSslMode::VerifyCa);
    assert!(!ca.accept_invalid_certs && ca.accept_invalid_hostnames);
    let full = tls_settings(ProfileSslMode::VerifyFull);
    assert!(!full.accept_invalid_certs && !full.accept_invalid_hostnames);
}

#[test]
fn target_names_are_checked() {
    assert!(target("public", "orders", IfExists::Abort).validate().is_ok());
    let empty = config_message(target("", "orders", IfExists::Abort).validate().unwrap_err());
    assert_eq!(empty, "schema 不能为空");
    let long = "t".repeat(64);
    let too_long = config_message(target("public", &long, IfExists::Abort).validate().unwrap_err());
    assert_eq!(too_long, format!("table 名称超过 PostgreSQL 63 字节限制: {long}"));
    let nul = config_message(target("pub\0lic", "orders", IfExists::Abort).validate().unwrap_err());
    assert_eq!(nul, "schema 不能包含 NUL");
    assert_eq!(target("my\"s", "t", IfExists::Abort).quoted(), "\"my\"\"s\".\"t\"");
}

#[test]
fn created_tables_have_nullable_text_columns() {
    let sql = create_table_sql(
        &target("public", "客户", IfExists::Abort),
        &[column("编号"), column("name")],
        TablePersistence::Unlogged,
    )
    .unwrap();
    assert_eq!(
        sql,
        "CREATE UNLOGGED TABLE \"public\".\"客户\" (\"编号\" TEXT NULL, \"name\" TEXT NULL)"
    );
    let error = create_table_sql(&target("public", "t", IfExists::Abort), &[], TablePersistence::Logged)
        .unwrap_err();
    assert_eq!(config_message(error), "无法创建零字段表");
}

#[test]
fn append_checks_types_extra_columns_and_missing_columns() {
    let existing = vec![
        ExistingColumn { name: "id".into(), data_type: "int4".into(), not_null: false, has_default: false },
        ExistingColumn { name: "note".into(), data_type: "text".into(), not_null: true, has_default: false },
        ExistingColumn { name: "made".into(), data_type: "timestamp".into(), not_null: true, has_default: true },
    ];
    let error = validate_append(&[column("id"), column("city"), column("city")], &existing).unwrap_err();
    assert_eq!(
        config_message(error),
        "append 前置检查失败: 目标字段 id 类型 int4 与 TEXT 不兼容；额外字段 note 为 NOT NULL 且没有默认值；目标表缺少字段 city"
    );
    let ok_existing = vec![ExistingColumn {
        name: "id".into(),
        data_type: "varchar".into(),
        not_null: true,
        has_default: false,
    }];
    assert!(validate_append(&[column("id")], &ok_existing).is_ok());
}

#[test]
fn existing_tables_follow_the_policy() {
    assert!(matches!(prepare_step(&target("s", "t", IfExists::Abort), false), PrepareStep::Create));
    match prepare_step(&target("s", "t", IfExists::Abort), true) {
        PrepareStep::Fail(error) => {
            assert_eq!(config_message(error), "目标表 \"s\".\"t\" 已存在（默认策略 abort）")
        }
        other => panic!("expected a failure, got {other:?}"),
    }
    assert!(matches!(prepare_step(&target("s", "t", IfExists::Append), true), PrepareStep::CheckAppend));
    assert!(matches!(
        prepare_step(&target("s", "t", IfExists::Truncate), true),
        PrepareStep::TruncateThenCheck
    ));
    assert!(matches!(prepare_step(&target("s", "t", IfExists::Replace), true), PrepareStep::DropThenCreate));
    assert_eq!(IfExists::default(), IfExists::Abort);
    assert_eq!(IfExists::Append.chinese_name(), "追加数据");
    assert_eq!(TablePersistence::Unlogged.chinese_name(), "极速非持久（UNLOGGED）");
}

#[test]
fn profiles_are_saved_replaced_and_removed_by_name() {
    let mut config = AppConfig::new();
    config.insert("main".into(), ConnectionProfile::default());
    let replacement = ConnectionProfile { host: "db.example".into(), ..ConnectionProfile::default() };
    config.insert("main".into(), replacement);
    config.insert("backup".into(), ConnectionProfile::default());
    assert_eq!(config.entries().len(), 2);
    assert_eq!(config.get("main").unwrap().host, "db.example");
    assert!(config.remove("main"));
    assert!(!config.remove("main"));
    assert!(config.get("main").is_none());
    let default = ConnectionProfile::default();
    assert_eq!(default.port, 5432);
    assert_eq!(default.sslmode, "prefer");
}

#[test]
fn profiles_are_listed_in_name_order() {
    let mut config = AppConfig::new();
    for name in ["测试", "prod", "Backup", "analytics"] {
        config.insert(name.into(), ConnectionProfile::default());
    }
    let names: Vec<String> = config.entries().into_iter().map(|(name, _)| name).collect();
    assert_eq!(names, ["Backup", "analytics", "prod", "测试"]);
    config.remove("prod");
    let names: Vec<String> = config.entries().into_iter().map(|(name, _)| name).collect();
    assert_eq!(names, ["Backup", "analytics", "测试"]);
}

#[test]
fn context_errors_name_the_file_and_sheet() {
    match AppError::context("读取", Some("a.csv"), Some("Sheet1"), "坏数据") {
        AppError::Context { stage, context, source } => {
            assert_eq!(stage, "读取");
            assert_eq!(context, "（文件=a.csv，工作表=Sheet1）");
            assert_eq!(source, "坏数据");
        }
        other => panic!("unexpected {other:?}"),
    }
}

#[test]
fn errors_read_as_their_messages() {
    assert_eq!(AppError::Config("x".into()).message(), "配置错误: x");
    assert_eq!(
        AppError::context("连接 PostgreSQL", Some("a.csv"), None, "超时").message(),
        "阶段“连接 PostgreSQL”失败（文件=a.csv）: 超时"
    );
    let ragged = AppError::RaggedRow { source_name: "s".into(), row: 3, expected: 2, actual: 5 };
    assert_eq!(ragged.message(), "数据源 s 第 3 行有 5 个字段，表头有 2 个字段");
    let duplicates = AppError::DuplicateHeaders { source_name: "s".into(), headers: vec!["a".into(), "b\"".into()] };
    assert_eq!(duplicates.message(), "数据源 s 的表头重复: [\"a\", \"b\\\"\"]");
    assert_eq!(AppError::Cancelled.message(), "操作已由用户取消，数据库事务已回滚");
}
