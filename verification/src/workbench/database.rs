//! The decisions of a PostgreSQL import: its options, the profile checks, the target and the
//! COPY statement, and the checks of the row counts.
use vstd::prelude::*;
use crate::pg::config::{AppConfig, ConnectionProfile};
use crate::pg::identifier::{IdentifierMapping, quote_identifier, quoted};
use crate::pg::table::{IfExists, TablePersistence, TargetTable, quoted_target};
use crate::text::{ascii_lower, trim, to_ascii_lowercase, trim_str, owned, push_str, string_of, joined, join_strings, decimal};
use crate::headers::texts;

verus! {

/// The bytes that an import sends to the server at a time.
pub const COPY_BATCH_BYTES: usize = 8 * 1024 * 1024;

/// The most columns a PostgreSQL table has.
pub const POSTGRES_MAX_COLUMNS: usize = 1_600;

/// The form of the COPY data.
#[derive(Clone, Copy, Debug, PartialEq, Eq, Structural)]
pub enum CopyFormat {
    Binary,
    Text,
}

/// A user's option text as it is matched: trimmed, with ASCII letters made small.
pub open spec fn option_word(value: Seq<char>) -> Seq<char> {
    ascii_lower(trim(value))
}

/// The COPY format that `value` names.
pub open spec fn copy_format_named(value: Seq<char>) -> Option<CopyFormat> {
    let v = option_word(value);
    if v == "binary"@ || v == "二进制"@ {
        Some(CopyFormat::Binary)
    } else if v == "text"@ || v == "文本"@ {
        Some(CopyFormat::Text)
    } else {
        None
    }
}

/// The name of `f` in SQL.
pub open spec fn copy_format_sql(f: CopyFormat) -> Seq<char> {
    match f {
        CopyFormat::Binary => "binary"@,
        CopyFormat::Text => "text"@,
    }
}

impl CopyFormat {
    /// Reads the COPY format of an import request.
    pub fn parse(value: &str) -> (r: Result<CopyFormat, String>)
        ensures
            match copy_format_named(value@) {
                Some(f) => r matches Ok(x) && x == f,
                None => r matches Err(m) && m@ == "不支持的 COPY 格式："@ + option_word(value@),
            },
    {
        let t = trim_str(value);
        let v = to_ascii_lowercase(t.as_str());
        if v == owned("binary") || v == owned("二进制") {
            Ok(CopyFormat::Binary)
        } else if v == owned("text") || v == owned("文本") {
            Ok(CopyFormat::Text)
        } else {
            let mut m: Vec<char> = Vec::new();
            push_str(&mut m, "不支持的 COPY 格式：");
            push_str(&mut m, v.as_str());
            Err(string_of(m.as_slice()))
        }
    }

    /// The name of the format in SQL.
    pub fn sql_name(self) -> (r: &'static str)
        ensures
            r@ == copy_format_sql(self),
    {
        match self {
            CopyFormat::Binary => "binary",
            CopyFormat::Text => "text",
        }
    }

    /// The name of the format shown to the user.
    pub fn display_name(self) -> (r: &'static str)
        ensures
            r@ == match self {
                CopyFormat::Binary => "PostgreSQL 二进制"@,
                CopyFormat::Text => "PostgreSQL 文本"@,
            },
    {
        match self {
            CopyFormat::Binary => "PostgreSQL 二进制",
            CopyFormat::Text => "PostgreSQL 文本",
        }
    }
}

/// The table policy that `value` names.
pub open spec fn if_exists_named(value: Seq<char>) -> Option<IfExists> {
    let v = option_word(value);
    if v == "abort"@ {
        Some(IfExists::Abort)
    } else if v == "append"@ {
        Some(IfExists::Append)
    } else if v == "truncate"@ {
        Some(IfExists::Truncate)
    } else if v == "replace"@ {
        Some(IfExists::Replace)
    } else {
        None
    }
}

/// Reads what to do when the target table exists.
pub fn parse_if_exists(value: &str) -> (r: Result<IfExists, String>)
    ensures
        match if_exists_named(value@) {
            Some(p) => r matches Ok(x) && x == p,
            None => r matches Err(m) && m@ == "不支持的目标表策略："@ + option_word(value@),
        },
{
    let t = trim_str(value);
    let v = to_ascii_lowercase(t.as_str());
    if v == owned("abort") {
        Ok(IfExists::Abort)
    } else if v == owned("append") {
        Ok(IfExists::Append)
    } else if v == owned("truncate") {
        Ok(IfExists::Truncate)
    } else if v == owned("replace") {
        Ok(IfExists::Replace)
    } else {
        let mut m: Vec<char> = Vec::new();
        push_str(&mut m, "不支持的目标表策略：");
        push_str(&mut m, v.as_str());
        Err(string_of(m.as_slice()))
    }
}

/// The table persistence that `value` names.
pub open spec fn persistence_named(value: Seq<char>) -> Option<TablePersistence> {
    let v = option_word(value);
    if v == "logged"@ || v == "持久化"@ {
        Some(TablePersistence::Logged)
    } else if v == "unlogged"@ || v == "极速非持久"@ {
        Some(TablePersistence::Unlogged)
    } else {
        None
    }
}

/// Reads the persistence of a created table.
pub fn parse_persistence(value: &str) -> (r: Result<TablePersistence, String>)
    ensures
        match persistence_named(value@) {
            Some(p) => r matches Ok(x) && x == p,
            None => r matches Err(m) && m@ == "不支持的数据表持久性："@ + option_word(value@),
        },
{
    let t = trim_str(value);
    let v = to_ascii_lowercase(t.as_str());
    if v == owned("logged") || v == owned("持久化") {
        Ok(TablePersistence::Logged)
    } else if v == owned("unlogged") || v == owned("极速非持久") {
        Ok(TablePersistence::Unlogged)
    } else {
        let mut m: Vec<char> = Vec::new();
        push_str(&mut m, "不支持的数据表持久性：");
        push_str(&mut m, v.as_str());
        Err(string_of(m.as_slice()))
    }
}

/// What is wrong with a profile, if anything: an empty host, database or user, or port 0.
pub open spec fn profile_problem(p: ConnectionProfile) -> Option<Seq<char>> {
    if trim(p.host@).len() == 0 {
        Some("主机不能为空"@)
    } else if trim(p.database@).len() == 0 {
        Some("数据库不能为空"@)
    } else if trim(p.user@).len() == 0 {
        Some("用户名不能为空"@)
    } else if p.port == 0 {
        Some("端口必须大于 0"@)
    } else {
        None
    }
}

/// Checks that a profile names a host, a database, a user and a port.
pub fn validate_profile(profile: &ConnectionProfile) -> (r: Result<(), String>)
    ensures
        match profile_problem(*profile) {
            Some(m) => r matches Err(t) && t@ == m,
            None => r is Ok,
        },
{
    if trim_str(profile.host.as_str()).as_str().is_empty() {
        return Err(owned("主机不能为空"));
    }
    if trim_str(profile.database.as_str()).as_str().is_empty() {
        return Err(owned("数据库不能为空"));
    }
    if trim_str(profile.user.as_str()).as_str().is_empty() {
        return Err(owned("用户名不能为空"));
    }
    if profile.port == 0 {
        return Err(owned("端口必须大于 0"));
    }
    Ok(())
}

/// The password to connect with: the one given, unless it is empty, else the stored one
/// (from the credential store or the environment), which the caller looks up.
pub fn resolve_password(explicit: Option<String>, stored: Option<String>) -> (r: Option<String>)
    ensures
        match explicit {
            Some(p) if p@.len() > 0 => r == Some(p),
            _ => r == stored,
        },
{
    match explicit {
        Some(p) => {
            if p.as_str().is_empty() {
                stored
            } else {
                Some(p)
            }
        },
        None => stored,
    }
}

/// What to do with the stored password when a profile is saved.
#[derive(Debug)]
pub enum CredentialAction {
    /// Store this password.
    Store(String),
    /// Remove the stored password.
    Delete,
    /// Leave the stored password as it is.
    Keep,
}

/// Saves `profile` under the trimmed `name` in `config`: the name must not be empty and the
/// profile must be valid. Gives the trimmed name and what to do with the stored password:
/// store a non-empty password that is to be remembered, delete it when it is not to be
/// remembered, and keep it otherwise.
pub fn save_profile(
    config: &mut AppConfig,
    name: &str,
    profile: ConnectionProfile,
    password: Option<String>,
    remember_password: bool,
) -> (r: Result<(String, CredentialAction), String>)
    requires
        old(config).inv(),
    ensures
        final(config).inv(),
        trim(name@).len() == 0 ==> (r matches Err(m) && m@ == "连接名称不能为空"@) && final(config).view()
            == old(config).view(),
        trim(name@).len() > 0 && profile_problem(profile) is Some ==> (r matches Err(m) && m@
            == profile_problem(profile)->0) && final(config).view() == old(config).view(),
        trim(name@).len() > 0 && profile_problem(profile) is None ==> {
            &&& final(config).view() == old(config).view().insert(trim(name@), profile)
            &&& r matches Ok((n, action)) && n@ == trim(name@) && match action {
                CredentialAction::Store(p) => remember_password && (password matches Some(q) && q@.len()
                    > 0 && p@ == q@),
                CredentialAction::Delete => !remember_password,
                CredentialAction::Keep => remember_password && (password is None || password->0@.len()
                    == 0),
            }
        },
{
    let trimmed = trim_str(name);
    if trimmed.as_str().is_empty() {
        return Err(owned("连接名称不能为空"));
    }
    match validate_profile(&profile) {
        Err(m) => {
            return Err(m);
        },
        Ok(()) => {},
    }
    config.insert(trimmed.clone(), profile);
    let password = match password {
        Some(p) => p,
        None => String::new(),
    };
    let action = if remember_password && !password.as_str().is_empty() {
        CredentialAction::Store(password)
    } else if !remember_password {
        CredentialAction::Delete
    } else {
        CredentialAction::Keep
    };
    Ok((trimmed, action))
}

/// The warning when a profile was saved but storing its password failed.
pub fn store_warning(error: &str) -> (r: String)
    ensures
        r@ == "连接已保存，但系统凭据保存失败："@ + error@,
{
    let mut m: Vec<char> = Vec::new();
    push_str(&mut m, "连接已保存，但系统凭据保存失败：");
    push_str(&mut m, error);
    string_of(m.as_slice())
}

/// The warning when a profile was saved but its old password could not be deleted.
pub fn delete_warning(error: &str) -> (r: String)
    ensures
        r@ == "连接已保存，但旧的系统凭据未能删除："@ + error@,
{
    let mut m: Vec<char> = Vec::new();
    push_str(&mut m, "连接已保存，但旧的系统凭据未能删除：");
    push_str(&mut m, error);
    string_of(m.as_slice())
}

/// The message for a profile that is not saved.
pub open spec fn missing_profile_text(name: Seq<char>) -> Seq<char> {
    "连接配置不存在："@ + name
}

/// Removes the profile `name` from `config`; a name without a profile is an error.
pub fn delete_profile(config: &mut AppConfig, name: &str) -> (r: Result<(), String>)
    requires
        old(config).inv(),
    ensures
        final(config).inv(),
        final(config).view() == old(config).view().remove(name@),
        old(config).view().contains_key(name@) ==> r is Ok,
        !old(config).view().contains_key(name@) ==> (r matches Err(m) && m@ == missing_profile_text(
            name@,
        )),
{
    if config.remove(name) {
        Ok(())
    } else {
        let mut m: Vec<char> = Vec::new();
        push_str(&mut m, "连接配置不存在：");
        push_str(&mut m, name);
        Err(string_of(m.as_slice()))
    }
}

/// The profile that an import names, looked up by its trimmed name.
pub fn import_profile(config: &AppConfig, profile_name: &str) -> (r: Result<ConnectionProfile, String>)
    requires
        config.inv(),
    ensures
        config.view().contains_key(trim(profile_name@)) ==> (r matches Ok(p) && p == config.view()[trim(
            profile_name@,
        )]),
        !config.view().contains_key(trim(profile_name@)) ==> (r matches Err(m) && m@
            == missing_profile_text(profile_name@)),
{
    let trimmed = trim_str(profile_name);
    match config.get(trimmed.as_str()) {
        Some(p) => Ok(p),
        None => {
            let mut m: Vec<char> = Vec::new();
            push_str(&mut m, "连接配置不存在：");
            push_str(&mut m, profile_name);
            Err(string_of(m.as_slice()))
        },
    }
}

/// What an import request asks for.
#[derive(Clone, Debug)]
pub struct DatabaseImportRequest {
    pub profile_name: String,
    pub password: Option<String>,
    pub remember_password: bool,
    pub schema: String,
    pub table: String,
    pub if_exists: String,
    pub copy_format: String,
    pub table_persistence: String,
    pub empty_as_null: bool,
    pub fast_mode: bool,
}

/// The saved profiles and where they are kept.
#[derive(Debug)]
pub struct DatabaseProfilesDto {
    pub profiles: Vec<(String, ConnectionProfile)>,
    pub config_path: String,
}

/// What a finished import reports.
#[derive(Clone, Debug)]
pub struct DatabaseImportFinishedDto {
    pub rows: u64,
    pub bytes: u64,
    pub batches: u64,
    pub server: String,
    pub database: String,
    pub target: String,
    pub elapsed_ms: u128,
    pub copy_format: String,
    pub table_persistence: String,
    pub copy_freeze: bool,
}

/// Checks the number of output columns of an import: at least one, at most 1600.
pub fn check_column_count(n: usize) -> (r: Result<(), String>)
    ensures
        n == 0 ==> (r matches Err(m) && m@ == "合并后没有可导入的列，请检查合并方式或字段映射"@),
        n > 1600 ==> (r matches Err(m) && m@ == "输出列数为 "@ + decimal(n as nat)
            + "，超过 PostgreSQL 单表最多 1,600 列的限制"@),
        0 < n <= 1600 ==> r is Ok,
{
    if n == 0 {
        return Err(owned("合并后没有可导入的列，请检查合并方式或字段映射"));
    }
    if n > POSTGRES_MAX_COLUMNS {
        let mut m: Vec<char> = Vec::new();
        push_str(&mut m, "输出列数为 ");
        push_str(&mut m, crate::text::decimal_string(n as u64).as_str());
        push_str(&mut m, "，超过 PostgreSQL 单表最多 1,600 列的限制");
        return Err(string_of(m.as_slice()));
    }
    Ok(())
}

/// The target of an import request: the trimmed schema and table, and the parsed policy.
pub fn import_target(request: &DatabaseImportRequest) -> (r: Result<TargetTable, String>)
    ensures
        match if_exists_named(request.if_exists@) {
            Some(p) => r matches Ok(t) && t.schema@ == trim(request.schema@) && t.table@ == trim(
                request.table@,
            ) && t.if_exists == p,
            None => r matches Err(m) && m@ == "不支持的目标表策略："@ + option_word(request.if_exists@),
        },
{
    let if_exists = match parse_if_exists(request.if_exists.as_str()) {
        Ok(p) => p,
        Err(m) => {
            return Err(m);
        },
    };
    Ok(TargetTable {
        schema: trim_str(request.schema.as_str()),
        table: trim_str(request.table.as_str()),
        if_exists,
    })
}

/// The quoted database names of the columns.
pub open spec fn quoted_columns(columns: Seq<IdentifierMapping>) -> Seq<Seq<char>> {
    columns.map_values(|c: IdentifierMapping| quoted(c.database@))
}

/// The COPY statement of an import.
pub open spec fn copy_statement(
    schema: Seq<char>,
    table: Seq<char>,
    columns: Seq<IdentifierMapping>,
    format: CopyFormat,
    freeze: bool,
) -> Seq<char> {
    "COPY "@ + quoted_target(schema, table) + " ("@ + joined(quoted_columns(columns), ", "@)
        + ") FROM STDIN WITH (FORMAT "@ + copy_format_sql(format) + (if freeze {
        ", FREEZE true"@
    } else {
        ""@
    }) + ")"@
}

/// The COPY statement into `target` for `columns`; a freshly created table is loaded frozen.
pub fn copy_sql(
    target: &TargetTable,
    columns: &[IdentifierMapping],
    format: CopyFormat,
    freeze: bool,
) -> (r: String)
    ensures
        r@ == copy_statement(target.schema@, target.table@, columns@, format, freeze),
{
    let ghost cols = columns@;
    let mut quoted_names: Vec<String> = Vec::new();
    let mut i: usize = 0;
    while i < columns.len()
        invariant
            i <= cols.len(),
            cols == columns@,
            texts(quoted_names@) == quoted_columns(cols.take(i as int)),
        decreases cols.len() - i,
    {
        let ghost prev = quoted_names@;
        quoted_names.push(quote_identifier(columns[i].database.as_str()));
        proof {
            assert(texts(quoted_names@) =~= texts(prev).push(quoted(cols[i as int].database@)));
            assert(quoted_columns(cols.take(i + 1)) =~= quoted_columns(cols.take(i as int)).push(
                quoted(cols[i as int].database@),
            ));
        }
        i = i + 1;
    }
    proof {
        assert(cols.take(cols.len() as int) =~= cols);
    }
    let names = join_strings(quoted_names.as_slice(), ", ");
    let mut m: Vec<char> = Vec::new();
    push_str(&mut m, "COPY ");
    push_str(&mut m, target.quoted().as_str());
    push_str(&mut m, " (");
    push_str(&mut m, names.as_str());
    push_str(&mut m, ") FROM STDIN WITH (FORMAT ");
    push_str(&mut m, format.sql_name());
    push_str(&mut m, if freeze { ", FREEZE true" } else { "" });
    push_str(&mut m, ")");
    string_of(m.as_slice())
}

/// `schema.table` as the finished import reports it.
pub fn target_label(target: &TargetTable) -> (r: String)
    ensures
        r@ == target.schema@ + seq!['.'] + target.table@,
{
    let mut m = crate::text::chars_of(target.schema.as_str());
    m.push('.');
    push_str(&mut m, target.table.as_str());
    string_of(m.as_slice())
}

/// Checks that the rows the merge produced are the rows that were encoded.
pub fn check_stream_count(produced: u64, sent: u64) -> (r: Result<(), String>)
    ensures
        produced == sent ==> r is Ok,
        produced != sent ==> (r matches Err(m) && m@ == "行流计数不一致：处理端 "@ + decimal(produced as nat)
            + " 行，数据库端 "@ + decimal(sent as nat) + " 行"@),
{
    if produced == sent {
        return Ok(());
    }
    let mut m: Vec<char> = Vec::new();
    push_str(&mut m, "行流计数不一致：处理端 ");
    push_str(&mut m, crate::text::decimal_string(produced).as_str());
    push_str(&mut m, " 行，数据库端 ");
    push_str(&mut m, crate::text::decimal_string(sent).as_str());
    push_str(&mut m, " 行");
    Err(string_of(m.as_slice()))
}

/// Checks that the server confirmed every row that was sent.
pub fn check_server_count(sent: u64, confirmed: u64) -> (r: Result<(), String>)
    ensures
        sent == confirmed ==> r is Ok,
        sent != confirmed ==> (r matches Err(m) && m@ == "PostgreSQL COPY 确认行数异常：客户端发送 "@
            + decimal(sent as nat) + " 行，服务器确认 "@ + decimal(confirmed as nat) + " 行"@),
{
    if sent == confirmed {
        return Ok(());
    }
    let mut m: Vec<char> = Vec::new();
    push_str(&mut m, "PostgreSQL COPY 确认行数异常：客户端发送 ");
    push_str(&mut m, crate::text::decimal_string(sent).as_str());
    push_str(&mut m, " 行，服务器确认 ");
    push_str(&mut m, crate::text::decimal_string(confirmed).as_str());
    push_str(&mut m, " 行");
    Err(string_of(m.as_slice()))
}

/// Whether the buffered COPY bytes are sent as a batch.
pub fn batch_full(buffered: usize) -> (r: bool)
    ensures
        r == (buffered >= COPY_BATCH_BYTES),
{
    buffered >= COPY_BATCH_BYTES
}

} // verus!
