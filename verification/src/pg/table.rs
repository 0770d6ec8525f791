//! Target tables: what happens when the table exists, name checks, CREATE TABLE text and the
//! checks that come before an append.
use vstd::prelude::*;
use vstd::utf8::encode_utf8;
use crate::pg::error::AppError;
use crate::pg::identifier::{IdentifierMapping, quote_identifier, quoted, utf8_len};
use crate::text::{chars_of, string_of, push_str, push_all, owned, joined, join_strings};

verus! {

/// What an import does when the target table already exists.
#[derive(Clone, Copy, Debug, PartialEq, Eq, Structural)]
pub enum IfExists {
    Abort,
    Append,
    Truncate,
    Replace,
}

impl Default for IfExists {
    fn default() -> (r: Self)
        ensures
            r == IfExists::Abort,
    {
        IfExists::Abort
    }
}

impl IfExists {
    /// The name of the policy shown to the user.
    pub fn chinese_name(self) -> (r: &'static str)
        ensures
            r@ == match self {
                IfExists::Abort => "表已存在则停止"@,
                IfExists::Append => "追加数据"@,
                IfExists::Truncate => "清空后导入"@,
                IfExists::Replace => "重建数据表"@,
            },
    {
        match self {
            IfExists::Abort => "表已存在则停止",
            IfExists::Append => "追加数据",
            IfExists::Truncate => "清空后导入",
            IfExists::Replace => "重建数据表",
        }
    }
}

/// Whether a created table is written to the write-ahead log.
#[derive(Clone, Copy, Debug, PartialEq, Eq, Structural)]
pub enum TablePersistence {
    Logged,
    Unlogged,
}

impl Default for TablePersistence {
    fn default() -> (r: Self)
        ensures
            r == TablePersistence::Logged,
    {
        TablePersistence::Logged
    }
}

/// The word that `CREATE ... TABLE` takes for `p`.
pub open spec fn create_keyword_text(p: TablePersistence) -> Seq<char> {
    match p {
        TablePersistence::Logged => ""@,
        TablePersistence::Unlogged => "UNLOGGED "@,
    }
}

impl TablePersistence {
    /// The name of the setting shown to the user.
    pub fn chinese_name(self) -> (r: &'static str)
        ensures
            r@ == match self {
                TablePersistence::Logged => "标准持久化（崩溃可恢复）"@,
                TablePersistence::Unlogged => "极速非持久（UNLOGGED）"@,
            },
    {
        match self {
            TablePersistence::Logged => "标准持久化（崩溃可恢复）",
            TablePersistence::Unlogged => "极速非持久（UNLOGGED）",
        }
    }

    /// The word that `CREATE ... TABLE` takes.
    pub fn create_keyword(self) -> (r: &'static str)
        ensures
            r@ == create_keyword_text(self),
    {
        match self {
            TablePersistence::Logged => "",
            TablePersistence::Unlogged => "UNLOGGED ",
        }
    }

    /// The persistence of an existing table, from whether the catalogue marks it unlogged.
    pub fn from_unlogged(unlogged: bool) -> (r: Self)
        ensures
            r == (if unlogged {
                TablePersistence::Unlogged
            } else {
                TablePersistence::Logged
            }),
    {
        if unlogged {
            TablePersistence::Unlogged
        } else {
            TablePersistence::Logged
        }
    }
}

/// The table that an import writes to.
#[derive(Clone, Debug)]
pub struct TargetTable {
    pub schema: String,
    pub table: String,
    pub if_exists: IfExists,
}

/// What is wrong with the `kind` name `value`, if anything: it is empty, longer than 63
/// bytes, or holds a NUL byte.
pub open spec fn name_problem(kind: Seq<char>, value: Seq<char>) -> Option<Seq<char>> {
    if value.len() == 0 {
        Some(kind + " 不能为空"@)
    } else if utf8_len(value) > 63 {
        Some(kind + " 名称超过 PostgreSQL 63 字节限制: "@ + value)
    } else if encode_utf8(value).contains(0u8) {
        Some(kind + " 不能包含 NUL"@)
    } else {
        None
    }
}

/// The first problem of the schema name, else of the table name.
pub open spec fn target_problem(schema: Seq<char>, table: Seq<char>) -> Option<Seq<char>> {
    match name_problem("schema"@, schema) {
        Some(m) => Some(m),
        None => name_problem("table"@, table),
    }
}

/// The message about the `kind` name `value`, if it is not a valid identifier.
fn check_name(kind: &str, value: &str) -> (r: Option<String>)
    ensures
        match name_problem(kind@, value@) {
            Some(m) => r is Some && r->0@ == m,
            None => r is None,
        },
{
    let mut text: Vec<char> = Vec::new();
    push_str(&mut text, kind);
    if value.is_empty() {
        push_str(&mut text, " 不能为空");
        return Some(string_of(text.as_slice()));
    }
    let bytes = value.as_bytes();
    if bytes.len() > 63 {
        push_str(&mut text, " 名称超过 PostgreSQL 63 字节限制: ");
        push_str(&mut text, value);
        return Some(string_of(text.as_slice()));
    }
    let mut i: usize = 0;
    while i < bytes.len()
        invariant
            i <= bytes@.len(),
            bytes@ == encode_utf8(value@),
            text@ == kind@,
            value@.len() > 0,
            bytes@.len() <= 63,
            forall|j: int| 0 <= j < i ==> bytes@[j] != 0u8,
        decreases bytes@.len() - i,
    {
        if bytes[i] == 0u8 {
            push_str(&mut text, " 不能包含 NUL");
            proof {
                assert(encode_utf8(value@)[i as int] == 0u8);
                assert(encode_utf8(value@).contains(0u8));
            }
            return Some(string_of(text.as_slice()));
        }
        i = i + 1;
    }
    proof {
        if encode_utf8(value@).contains(0u8) {
            let j = choose|j: int| 0 <= j < encode_utf8(value@).len() && encode_utf8(value@)[j] == 0u8;
            assert(bytes@[j] == 0u8);
        }
    }
    None
}

/// `schema.table` with both parts quoted.
pub open spec fn quoted_target(schema: Seq<char>, table: Seq<char>) -> Seq<char> {
    quoted(schema) + seq!['.'] + quoted(table)
}

impl TargetTable {
    /// Checks the schema and the table name: neither may be empty, longer than 63 bytes, or
    /// hold a NUL byte.
    pub fn validate(&self) -> (r: Result<(), AppError>)
        ensures
            match target_problem(self.schema@, self.table@) {
                Some(m) => r matches Err(AppError::Config(t)) && t@ == m,
                None => r is Ok,
            },
    {
        match check_name("schema", self.schema.as_str()) {
            Some(m) => {
                return Err(AppError::Config(m));
            },
            None => {},
        }
        match check_name("table", self.table.as_str()) {
            Some(m) => Err(AppError::Config(m)),
            None => Ok(()),
        }
    }

    /// `schema.table`, each part quoted.
    pub fn quoted(&self) -> (r: String)
        ensures
            r@ == quoted_target(self.schema@, self.table@),
    {
        let mut text = chars_of(quote_identifier(self.schema.as_str()).as_str());
        text.push('.');
        push_str(&mut text, quote_identifier(self.table.as_str()).as_str());
        string_of(text.as_slice())
    }
}

/// The column definition of `name` in a created table.
pub open spec fn column_definition(name: Seq<char>) -> Seq<char> {
    quoted(name) + " TEXT NULL"@
}

/// The column definitions of `names`, in order.
pub open spec fn column_definitions(names: Seq<Seq<char>>) -> Seq<Seq<char>> {
    names.map_values(|n: Seq<char>| column_definition(n))
}

/// The database names of `columns`.
pub open spec fn database_texts(columns: Seq<IdentifierMapping>) -> Seq<Seq<char>> {
    columns.map_values(|c: IdentifierMapping| c.database@)
}

/// The `CREATE TABLE` statement for `columns` in `schema.table`.
pub open spec fn create_table_text(
    schema: Seq<char>,
    table: Seq<char>,
    columns: Seq<Seq<char>>,
    persistence: TablePersistence,
) -> Seq<char> {
    "CREATE "@ + create_keyword_text(persistence) + "TABLE "@ + quoted_target(schema, table) + " ("@
        + joined(column_definitions(columns), ", "@) + ")"@
}

/// The statement that creates the target with one nullable text column per mapping; a table
/// without columns is refused.
pub fn create_table_sql(
    target: &TargetTable,
    columns: &[IdentifierMapping],
    persistence: TablePersistence,
) -> (r: Result<String, AppError>)
    ensures
        columns@.len() == 0 ==> (r matches Err(AppError::Config(m)) && m@ == "无法创建零字段表"@),
        columns@.len() > 0 ==> (r matches Ok(sql) && sql@ == create_table_text(
            target.schema@,
            target.table@,
            database_texts(columns@),
            persistence,
        )),
{
    if columns.len() == 0 {
        return Err(AppError::Config(owned("无法创建零字段表")));
    }
    let ghost names = database_texts(columns@);
    let mut definitions: Vec<String> = Vec::new();
    let mut i: usize = 0;
    while i < columns.len()
        invariant
            i <= columns@.len(),
            names == database_texts(columns@),
            crate::headers::texts(definitions@) == column_definitions(names.take(i as int)),
        decreases columns@.len() - i,
    {
        let mut d = chars_of(quote_identifier(columns[i].database.as_str()).as_str());
        push_str(&mut d, " TEXT NULL");
        let ghost prev = definitions@;
        definitions.push(string_of(d.as_slice()));
        proof {
            assert(names[i as int] == columns@[i as int].database@);
            assert(crate::headers::texts(definitions@) =~= crate::headers::texts(prev).push(
                column_definition(names[i as int]),
            ));
            assert(column_definitions(names.take(i + 1)) =~= column_definitions(
                names.take(i as int),
            ).push(column_definition(names[i as int])));
        }
        i = i + 1;
    }
    proof {
        assert(names.take(columns@.len() as int) =~= names);
    }
    let defs = join_strings(definitions.as_slice(), ", ");
    let mut sql: Vec<char> = Vec::new();
    push_str(&mut sql, "CREATE ");
    push_str(&mut sql, persistence.create_keyword());
    push_str(&mut sql, "TABLE ");
    push_str(&mut sql, target.quoted().as_str());
    push_str(&mut sql, " (");
    push_str(&mut sql, defs.as_str());
    push_str(&mut sql, ")");
    Ok(string_of(sql.as_slice()))
}

/// A column of an existing target table, as the catalogue describes it.
#[derive(Clone, Debug)]
pub struct ExistingColumn {
    pub name: String,
    pub data_type: String,
    pub not_null: bool,
    pub has_default: bool,
}

/// Whether a column of type `t` takes text.
pub open spec fn text_compatible(t: Seq<char>) -> bool {
    t == "text"@ || t == "varchar"@ || t == "bpchar"@
}

/// The problems that one existing column makes for an append of `imported`: an imported
/// column whose type takes no text, or a column that is not imported, is NOT NULL and has no
/// default.
pub open spec fn column_errors(imported: Seq<Seq<char>>, c: ExistingColumn) -> Seq<Seq<char>> {
    (if imported.contains(c.name@) && !text_compatible(c.data_type@) {
        seq!["目标字段 "@ + c.name@ + " 类型 "@ + c.data_type@ + " 与 TEXT 不兼容"@]
    } else {
        Seq::empty()
    }) + (if !imported.contains(c.name@) && c.not_null && !c.has_default {
        seq!["额外字段 "@ + c.name@ + " 为 NOT NULL 且没有默认值"@]
    } else {
        Seq::empty()
    })
}

/// The problems of the existing columns, in their order.
pub open spec fn existing_errors(imported: Seq<Seq<char>>, cs: Seq<ExistingColumn>) -> Seq<Seq<char>>
    decreases cs.len(),
{
    if cs.len() == 0 {
        Seq::empty()
    } else {
        existing_errors(imported, cs.drop_last()) + column_errors(imported, cs.last())
    }
}

/// The imported names that the existing columns lack, each once, in the order of their first
/// occurrence.
pub open spec fn missing_errors(imported: Seq<Seq<char>>, existing: Seq<Seq<char>>) -> Seq<Seq<char>>
    decreases imported.len(),
{
    if imported.len() == 0 {
        Seq::empty()
    } else {
        let n = imported.last();
        missing_errors(imported.drop_last(), existing) + if !existing.contains(n)
            && !imported.drop_last().contains(n) {
            seq!["目标表缺少字段 "@ + n]
        } else {
            Seq::empty()
        }
    }
}

/// Every problem that an append of `imported` into a table with `cs` would meet.
pub open spec fn append_errors(imported: Seq<Seq<char>>, cs: Seq<ExistingColumn>) -> Seq<Seq<char>> {
    existing_errors(imported, cs) + missing_errors(
        imported,
        cs.map_values(|c: ExistingColumn| c.name@),
    )
}

/// Whether an append of the columns `imported` into a table with the columns `cs` meets the
/// documented conditions: each imported column is a column of the table whose type is `text`,
/// `varchar` or `bpchar`, and each column of the table that is not imported is nullable or has
/// a default.
pub open spec fn append_acceptable(imported: Seq<Seq<char>>, cs: Seq<ExistingColumn>) -> bool {
    &&& forall|k: int| 0 <= k < imported.len() ==> exists|q: int| 0 <= q < cs.len() && #[trigger] cs[q].name@ == #[trigger] imported[k]
    &&& forall|q: int|
        0 <= q < cs.len() && imported.contains(#[trigger] cs[q].name@) ==> cs[q].data_type@ == "text"@
            || cs[q].data_type@ == "varchar"@ || cs[q].data_type@ == "bpchar"@
    &&& forall|q: int| 0 <= q < cs.len() && !imported.contains(#[trigger] cs[q].name@) ==> !cs[q].not_null || cs[q].has_default
}

/// Columns of the table that meet the conditions make no problem.
proof fn lemma_existing_errors_empty(imported: Seq<Seq<char>>, cs: Seq<ExistingColumn>)
    requires
        forall|q: int|
            0 <= q < cs.len() && imported.contains(#[trigger] cs[q].name@) ==> cs[q].data_type@ == "text"@
                || cs[q].data_type@ == "varchar"@ || cs[q].data_type@ == "bpchar"@,
        forall|q: int| 0 <= q < cs.len() && !imported.contains(#[trigger] cs[q].name@) ==> !cs[q].not_null || cs[q].has_default,
    ensures
        existing_errors(imported, cs).len() == 0,
    decreases cs.len(),
{
    if cs.len() > 0 {
        let d = cs.drop_last();
        assert forall|q: int| 0 <= q < d.len() && imported.contains(#[trigger] d[q].name@) implies d[q].data_type@ == "text"@
            || d[q].data_type@ == "varchar"@ || d[q].data_type@ == "bpchar"@ by {
            assert(d[q] == cs[q]);
        }
        assert forall|q: int| 0 <= q < d.len() && !imported.contains(#[trigger] d[q].name@) implies !d[q].not_null
            || d[q].has_default by {
            assert(d[q] == cs[q]);
        }
        lemma_existing_errors_empty(imported, d);
        assert(cs.last() == cs[cs.len() - 1]);
    }
}

/// Imported names that all name columns of the table are none of them missing.
proof fn lemma_missing_errors_empty(imported: Seq<Seq<char>>, existing: Seq<Seq<char>>)
    requires
        forall|k: int| 0 <= k < imported.len() ==> existing.contains(#[trigger] imported[k]),
    ensures
        missing_errors(imported, existing).len() == 0,
    decreases imported.len(),
{
    if imported.len() > 0 {
        let d = imported.drop_last();
        assert forall|k: int| 0 <= k < d.len() implies existing.contains(#[trigger] d[k]) by {
            assert(d[k] == imported[k]);
        }
        lemma_missing_errors_empty(d, existing);
        assert(imported.last() == imported[imported.len() - 1]);
    }
}

/// An append that meets the documented conditions has no problem, so it is accepted.
pub proof fn lemma_acceptable_append_has_no_errors(imported: Seq<Seq<char>>, cs: Seq<ExistingColumn>)
    requires
        append_acceptable(imported, cs),
    ensures
        append_errors(imported, cs).len() == 0,
{
    lemma_existing_errors_empty(imported, cs);
    let names = cs.map_values(|c: ExistingColumn| c.name@);
    assert forall|k: int| 0 <= k < imported.len() implies names.contains(#[trigger] imported[k]) by {
        let q = choose|q: int| 0 <= q < cs.len() && #[trigger] cs[q].name@ == #[trigger] imported[k];
        assert(names[q] == imported[k]);
    }
    lemma_missing_errors_empty(imported, names);
}

/// A column's problems come before those of the columns after it.
proof fn lemma_existing_errors_grow(imported: Seq<Seq<char>>, cs: Seq<ExistingColumn>, q: int)
    requires
        0 <= q < cs.len(),
    ensures
        existing_errors(imported, cs).len() >= column_errors(imported, cs[q]).len(),
    decreases cs.len(),
{
    if q < cs.len() - 1 {
        assert(cs.drop_last()[q] == cs[q]);
        lemma_existing_errors_grow(imported, cs.drop_last(), q);
    } else {
        assert(cs.last() == cs[q]);
    }
}

/// An imported column whose type in the table is none of `text`, `varchar` and `bpchar` is a
/// problem, so the append is refused.
pub proof fn lemma_other_types_refused(imported: Seq<Seq<char>>, cs: Seq<ExistingColumn>, q: int)
    requires
        0 <= q < cs.len(),
        imported.contains(cs[q].name@),
        cs[q].data_type@ != "text"@ && cs[q].data_type@ != "varchar"@ && cs[q].data_type@ != "bpchar"@,
    ensures
        append_errors(imported, cs).len() > 0,
{
    lemma_existing_errors_grow(imported, cs, q);
}

/// A column of the table that is not imported, is NOT NULL and has no default is a problem, so
/// the append is refused.
pub proof fn lemma_required_columns_refused(imported: Seq<Seq<char>>, cs: Seq<ExistingColumn>, q: int)
    requires
        0 <= q < cs.len(),
        !imported.contains(cs[q].name@),
        cs[q].not_null,
        !cs[q].has_default,
    ensures
        append_errors(imported, cs).len() > 0,
{
    lemma_existing_errors_grow(imported, cs, q);
}

/// An imported name that no column of the table has is reported once as missing.
proof fn lemma_missing_name_reported(imported: Seq<Seq<char>>, existing: Seq<Seq<char>>, k: int)
    requires
        0 <= k < imported.len(),
        !existing.contains(imported[k]),
    ensures
        missing_errors(imported, existing).len() > 0,
    decreases imported.len(),
{
    let d = imported.drop_last();
    if d.contains(imported[k]) {
        let k2 = choose|k2: int| 0 <= k2 < d.len() && d[k2] == imported[k];
        lemma_missing_name_reported(d, existing, k2);
    } else if k < imported.len() - 1 {
        assert(d[k] == imported[k]);
    } else {
        assert(imported.last() == imported[k]);
    }
}

/// An imported column that the table lacks is a problem, so the append is refused.
pub proof fn lemma_missing_columns_refused(imported: Seq<Seq<char>>, cs: Seq<ExistingColumn>, k: int)
    requires
        0 <= k < imported.len(),
        forall|q: int| 0 <= q < cs.len() ==> #[trigger] cs[q].name@ != imported[k],
    ensures
        append_errors(imported, cs).len() > 0,
{
    let names = cs.map_values(|c: ExistingColumn| c.name@);
    if names.contains(imported[k]) {
        let q = choose|q: int| 0 <= q < names.len() && names[q] == imported[k];
        assert(cs[q].name@ == imported[k]);
    }
    lemma_missing_name_reported(imported, names, k);
}

/// Checks that `imported` can be appended to a table with the columns `existing`: every
/// imported column exists and takes text, and every other column may be left out.
pub fn validate_append(imported: &[IdentifierMapping], existing: &[ExistingColumn]) -> (r: Result<
    (),
    AppError,
>)
    ensures
        ({
            let errs = append_errors(database_texts(imported@), existing@);
            &&& errs.len() == 0 ==> r is Ok
            &&& errs.len() > 0 ==> (r matches Err(AppError::Config(m)) && m@ == "append 前置检查失败: "@
                + joined(errs, "；"@))
        }),
        append_acceptable(database_texts(imported@), existing@) ==> r is Ok,
{
    proof {
        if append_acceptable(database_texts(imported@), existing@) {
            lemma_acceptable_append_has_no_errors(database_texts(imported@), existing@);
        }
    }
    let ghost names = database_texts(imported@);
    let mut imported_names: Vec<String> = Vec::new();
    let mut k: usize = 0;
    while k < imported.len()
        invariant
            k <= imported@.len(),
            names == database_texts(imported@),
            crate::headers::texts(imported_names@) == names.take(k as int),
        decreases imported@.len() - k,
    {
        let ghost prev = imported_names@;
        imported_names.push(imported[k].database.clone());
        proof {
            assert(names[k as int] == imported@[k as int].database@);
            assert(crate::headers::texts(imported_names@) =~= crate::headers::texts(prev).push(
                names[k as int],
            ));
            assert(names.take(k + 1) =~= names.take(k as int).push(names[k as int]));
        }
        k = k + 1;
    }
    proof {
        assert(names.take(imported@.len() as int) =~= names);
        assert(crate::headers::texts(imported_names@) == names);
    }
    let text_type = owned("text");
    let varchar_type = owned("varchar");
    let bpchar_type = owned("bpchar");
    let mut errors: Vec<String> = Vec::new();
    let mut existing_names: Vec<String> = Vec::new();
    let ghost all_existing = existing@.map_values(|c: ExistingColumn| c.name@);
    let mut i: usize = 0;
    while i < existing.len()
        invariant
            i <= existing@.len(),
            crate::headers::texts(imported_names@) == names,
            all_existing == existing@.map_values(|c: ExistingColumn| c.name@),
            text_type@ == "text"@,
            varchar_type@ == "varchar"@,
            bpchar_type@ == "bpchar"@,
            crate::headers::texts(errors@) == existing_errors(names, existing@.take(i as int)),
            crate::headers::texts(existing_names@) == all_existing.take(i as int),
        decreases existing@.len() - i,
    {
        let c = &existing[i];
        let ghost before = crate::headers::texts(errors@);
        let ghost prev_names = existing_names@;
        existing_names.push(c.name.clone());
        proof {
            assert(crate::headers::texts(existing_names@) =~= crate::headers::texts(prev_names).push(
                c.name@,
            ));
            assert(all_existing.take(i + 1) =~= all_existing.take(i as int).push(c.name@));
        }
        let is_imported = crate::headers::contains_text(&imported_names, &c.name);
        let compatible = c.data_type == text_type || c.data_type == varchar_type || c.data_type
            == bpchar_type;
        if is_imported && !compatible {
            let mut m: Vec<char> = Vec::new();
            push_str(&mut m, "目标字段 ");
            push_str(&mut m, c.name.as_str());
            push_str(&mut m, " 类型 ");
            push_str(&mut m, c.data_type.as_str());
            push_str(&mut m, " 与 TEXT 不兼容");
            errors.push(string_of(m.as_slice()));
        }
        let ghost mid = crate::headers::texts(errors@);
        if !is_imported && c.not_null && !c.has_default {
            let mut m: Vec<char> = Vec::new();
            push_str(&mut m, "额外字段 ");
            push_str(&mut m, c.name.as_str());
            push_str(&mut m, " 为 NOT NULL 且没有默认值");
            errors.push(string_of(m.as_slice()));
        }
        proof {
            assert(existing@.take(i + 1).drop_last() =~= existing@.take(i as int));
            assert(existing@.take(i + 1).last() == *c);
            assert(crate::headers::texts(errors@) =~= before + column_errors(names, *c));
        }
        i = i + 1;
    }
    proof {
        assert(existing@.take(existing@.len() as int) =~= existing@);
        assert(all_existing.take(existing@.len() as int) =~= all_existing);
    }
    let mut j: usize = 0;
    let ghost found = crate::headers::texts(errors@);
    while j < imported_names.len()
        invariant
            j <= names.len(),
            crate::headers::texts(imported_names@) == names,
            crate::headers::texts(existing_names@) == all_existing,
            crate::headers::texts(errors@) == found + missing_errors(
                names.take(j as int),
                all_existing,
            ),
        decreases names.len() - j,
    {
        let n = &imported_names[j];
        let ghost before = crate::headers::texts(errors@);
        let mut seen = false;
        let mut p: usize = 0;
        while p < j
            invariant
                p <= j < names.len(),
                crate::headers::texts(imported_names@) == names,
                n@ == names[j as int],
                seen <==> exists|q: int| 0 <= q < p && #[trigger] names[q] == n@,
            decreases j - p,
        {
            if imported_names[p] == *n {
                seen = true;
                proof {
                    assert(names[p as int] == n@);
                }
            }
            p = p + 1;
        }
        proof {
            if seen {
                let q = choose|q: int| 0 <= q < j && #[trigger] names[q] == n@;
                assert(names.take(j as int)[q] == n@);
            }
            if names.take(j as int).contains(n@) {
                let q = choose|q: int| 0 <= q < j && #[trigger] names.take(j as int)[q] == n@;
                assert(names[q] == n@);
            }
        }
        if !seen && !crate::headers::contains_text(&existing_names, n) {
            let mut m: Vec<char> = Vec::new();
            push_str(&mut m, "目标表缺少字段 ");
            push_str(&mut m, n.as_str());
            let ghost prev = errors@;
            errors.push(string_of(m.as_slice()));
            proof {
                assert(crate::headers::texts(errors@) =~= crate::headers::texts(prev).push(
                    "目标表缺少字段 "@ + n@,
                ));
            }
        }
        proof {
            let t = names.take(j + 1);
            assert(t.drop_last() =~= names.take(j as int));
            assert(t.last() == n@);
            assert(crate::headers::texts(errors@) =~= found + missing_errors(t, all_existing));
        }
        j = j + 1;
    }
    proof {
        assert(names.take(names.len() as int) =~= names);
        assert(crate::headers::texts(errors@) =~= append_errors(names, existing@));
    }
    if errors.len() == 0 {
        Ok(())
    } else {
        let mut m: Vec<char> = Vec::new();
        push_str(&mut m, "append 前置检查失败: ");
        push_str(&mut m, join_strings(errors.as_slice(), "；").as_str());
        Err(AppError::Config(string_of(m.as_slice())))
    }
}

/// The next step of preparing the target once it is known whether the table exists.
#[derive(Debug)]
pub enum PrepareStep {
    /// Create the table; the import then reports a new table.
    Create,
    /// Stop with this error.
    Fail(AppError),
    /// Check the existing columns with `validate_append`.
    CheckAppend,
    /// Empty the table with `truncate_sql`, then check its columns.
    TruncateThenCheck,
    /// Drop the table with `drop_sql`, then create it again.
    DropThenCreate,
}

/// The message when the target schema does not exist.
pub open spec fn missing_schema_text(schema: Seq<char>) -> Seq<char> {
    "schema "@ + schema + " 不存在"@
}

/// The error when the target schema does not exist.
pub fn missing_schema_error(target: &TargetTable) -> (r: AppError)
    ensures
        r matches AppError::Config(m) && m@ == missing_schema_text(target.schema@),
{
    let mut m: Vec<char> = Vec::new();
    push_str(&mut m, "schema ");
    push_str(&mut m, target.schema.as_str());
    push_str(&mut m, " 不存在");
    AppError::Config(string_of(m.as_slice()))
}

/// The message when the target exists and the policy is to stop.
pub open spec fn table_exists_text(schema: Seq<char>, table: Seq<char>) -> Seq<char> {
    "目标表 "@ + quoted_target(schema, table) + " 已存在（默认策略 abort）"@
}

/// What to do with the target, given whether the table exists: create it where it does not;
/// else stop, check, empty and check, or drop and create, as `if_exists` says.
pub fn prepare_step(target: &TargetTable, exists: bool) -> (r: PrepareStep)
    ensures
        !exists ==> r is Create,
        exists && target.if_exists == IfExists::Abort ==> (r matches PrepareStep::Fail(
            AppError::Config(m),
        ) && m@ == table_exists_text(target.schema@, target.table@)),
        exists && target.if_exists == IfExists::Append ==> r is CheckAppend,
        exists && target.if_exists == IfExists::Truncate ==> r is TruncateThenCheck,
        exists && target.if_exists == IfExists::Replace ==> r is DropThenCreate,
{
    if !exists {
        return PrepareStep::Create;
    }
    match target.if_exists {
        IfExists::Abort => {
            let mut m: Vec<char> = Vec::new();
            push_str(&mut m, "目标表 ");
            push_str(&mut m, target.quoted().as_str());
            push_str(&mut m, " 已存在（默认策略 abort）");
            PrepareStep::Fail(AppError::Config(string_of(m.as_slice())))
        },
        IfExists::Append => PrepareStep::CheckAppend,
        IfExists::Truncate => PrepareStep::TruncateThenCheck,
        IfExists::Replace => PrepareStep::DropThenCreate,
    }
}

/// The statement that empties the target.
pub fn truncate_sql(target: &TargetTable) -> (r: String)
    ensures
        r@ == "TRUNCATE TABLE "@ + quoted_target(target.schema@, target.table@),
{
    let mut m: Vec<char> = Vec::new();
    push_str(&mut m, "TRUNCATE TABLE ");
    push_str(&mut m, target.quoted().as_str());
    string_of(m.as_slice())
}

/// The statement that drops the target.
pub fn drop_sql(target: &TargetTable) -> (r: String)
    ensures
        r@ == "DROP TABLE "@ + quoted_target(target.schema@, target.table@),
{
    let mut m: Vec<char> = Vec::new();
    push_str(&mut m, "DROP TABLE ");
    push_str(&mut m, target.quoted().as_str());
    string_of(m.as_slice())
}

} // verus!
