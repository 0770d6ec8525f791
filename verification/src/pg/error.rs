//! Errors of the PostgreSQL import core.
use vstd::prelude::*;
use crate::text::{owned, chars_of, push_all, push_str, string_of};

verus! {

/// Everything that can stop an import, with the details as plain text.
#[derive(Debug)]
pub enum AppError {
    /// A stage failed; `context` names the file and sheet, `source` describes the cause.
    Context { stage: String, context: String, source: String },
    InvalidPath(String),
    NoSources,
    EmptyIntersection,
    DuplicateHeaders { source_name: String, headers: Vec<String> },
    RaggedRow { source_name: String, row: u64, expected: usize, actual: usize },
    Encoding { path: String },
    UnsupportedEncoding(String),
    InvalidDelimiter(String),
    Config(String),
    Postgres(String),
    Io(String),
    Csv(String),
    Xlsx(String),
    Excel(String),
    Json(String),
    Cancelled,
}

/// The context text of a failed stage: `（文件=<file>，工作表=<sheet>）` with the parts that
/// are known, or nothing when neither is.
pub open spec fn context_text(file: Option<Seq<char>>, sheet: Option<Seq<char>>) -> Seq<char> {
    match (file, sheet) {
        (None, None) => Seq::empty(),
        (Some(f), None) => "（"@ + "文件="@ + f + "）"@,
        (None, Some(s)) => "（"@ + "工作表="@ + s + "）"@,
        (Some(f), Some(s)) => "（"@ + "文件="@ + f + "，"@ + "工作表="@ + s + "）"@,
    }
}

impl AppError {
    /// The error of stage `stage` about `file` and `sheet`, caused by `source`.
    pub fn context(stage: &str, file: Option<&str>, sheet: Option<&str>, source: &str) -> (r: Self)
        ensures
            r matches AppError::Context { stage: st, context: c, source: so } && st@ == stage@
                && so@ == source@ && c@ == context_text(
                match file {
                    Some(f) => Some(f@),
                    None => None,
                },
                match sheet {
                    Some(s) => Some(s@),
                    None => None,
                },
            ),
    {
        let mut text: Vec<char> = Vec::new();
        match (file, sheet) {
            (None, None) => {},
            (Some(f), None) => {
                push_str(&mut text, "（");
                push_str(&mut text, "文件=");
                push_str(&mut text, f);
                push_str(&mut text, "）");
            },
            (None, Some(s)) => {
                push_str(&mut text, "（");
                push_str(&mut text, "工作表=");
                push_str(&mut text, s);
                push_str(&mut text, "）");
            },
            (Some(f), Some(s)) => {
                push_str(&mut text, "（");
                push_str(&mut text, "文件=");
                push_str(&mut text, f);
                push_str(&mut text, "，");
                push_str(&mut text, "工作表=");
                push_str(&mut text, s);
                push_str(&mut text, "）");
            },
        }
        let ghost expected = context_text(
            match file {
                Some(f) => Some(f@),
                None => None,
            },
            match sheet {
                Some(s) => Some(s@),
                None => None,
            },
        );
        assert(text@ =~= expected);
        AppError::Context { stage: owned(stage), context: string_of(text.as_slice()), source: owned(source) }
    }
}


/// The `Debug` text of a list of strings: the items quoted and escaped, in brackets, comma
/// separated, as `format!("{:?}", ..)` writes a `Vec<String>`.
pub uninterp spec fn debug_list(items: Seq<Seq<char>>) -> Seq<char>;

/// Writes `items` with `format!("{:?}", ..)`; the text is named `debug_list` of the items.
#[verifier::external_body]
fn debug_text(items: &Vec<String>) -> (r: String)
    ensures
        r@ == debug_list(crate::headers::texts(items@)),
{
    format!("{items:?}")
}

/// The message of an error, as the user reads it.
pub open spec fn error_text(e: AppError) -> Seq<char> {
    match e {
        AppError::Context { stage, context, source } => "阶段“"@ + stage@ + "”失败"@ + context@ + ": "@ + source@,
        AppError::InvalidPath(p) => "路径不存在或不可访问: "@ + p@,
        AppError::NoSources => "没有找到可用数据源"@,
        AppError::EmptyIntersection => "交集合并结果没有任何公共字段，已禁止导入"@,
        AppError::DuplicateHeaders { source_name, headers } => "数据源 "@ + source_name@ + " 的表头重复: "@
            + debug_list(crate::headers::texts(headers@)),
        AppError::RaggedRow { source_name, row, expected, actual } => "数据源 "@ + source_name@ + " 第 "@
            + crate::text::decimal(row as nat) + " 行有 "@ + crate::text::decimal(actual as nat) + " 个字段，表头有 "@
            + crate::text::decimal(expected as nat) + " 个字段"@,
        AppError::Encoding { path } => "无法确认文本编码: "@ + path@,
        AppError::UnsupportedEncoding(v) => "不支持的编码“"@ + v@ + "”；可选 auto、utf-8、gbk、gb18030"@,
        AppError::InvalidDelimiter(v) => "不支持的分隔符“"@ + v@ + "”；请使用单个 ASCII 字符、tab 或 \\t"@,
        AppError::Config(m) => "配置错误: "@ + m@,
        AppError::Postgres(m) => "PostgreSQL 错误: "@ + m@,
        AppError::Io(m) => "I/O 错误: "@ + m@,
        AppError::Csv(m) => "CSV/TXT 解析错误: "@ + m@,
        AppError::Xlsx(m) => "XLSX 写入错误: "@ + m@,
        AppError::Excel(m) => "Excel 解析错误: "@ + m@,
        AppError::Json(m) => "序列化错误: "@ + m@,
        AppError::Cancelled => "操作已由用户取消，数据库事务已回滚"@,
    }
}

/// `a` followed by `b`.
fn joined2(a: &str, b: &str) -> (r: String)
    ensures
        r@ == a@ + b@,
{
    let mut m = chars_of(a);
    push_str(&mut m, b);
    string_of(m.as_slice())
}

impl AppError {
    /// The message of the error, as the user reads it.
    pub fn message(&self) -> (r: String)
        ensures
            r@ == error_text(*self),
    {
        match self {
            AppError::Context { stage, context, source } => {
                let mut m = chars_of("阶段“");
                push_str(&mut m, stage.as_str());
                push_str(&mut m, "”失败");
                push_str(&mut m, context.as_str());
                push_str(&mut m, ": ");
                push_str(&mut m, source.as_str());
                string_of(m.as_slice())
            },
            AppError::InvalidPath(p) => joined2("路径不存在或不可访问: ", p.as_str()),
            AppError::NoSources => owned("没有找到可用数据源"),
            AppError::EmptyIntersection => owned("交集合并结果没有任何公共字段，已禁止导入"),
            AppError::DuplicateHeaders { source_name, headers } => {
                let mut m = chars_of("数据源 ");
                push_str(&mut m, source_name.as_str());
                push_str(&mut m, " 的表头重复: ");
                push_str(&mut m, debug_text(headers).as_str());
                string_of(m.as_slice())
            },
            AppError::RaggedRow { source_name, row, expected, actual } => {
                let mut m = chars_of("数据源 ");
                push_str(&mut m, source_name.as_str());
                push_str(&mut m, " 第 ");
                push_str(&mut m, crate::text::decimal_string(*row).as_str());
                push_str(&mut m, " 行有 ");
                push_str(&mut m, crate::text::decimal_string(*actual as u64).as_str());
                push_str(&mut m, " 个字段，表头有 ");
                push_str(&mut m, crate::text::decimal_string(*expected as u64).as_str());
                push_str(&mut m, " 个字段");
                string_of(m.as_slice())
            },
            AppError::Encoding { path } => joined2("无法确认文本编码: ", path.as_str()),
            AppError::UnsupportedEncoding(v) => {
                let mut m = chars_of("不支持的编码“");
                push_str(&mut m, v.as_str());
                push_str(&mut m, "”；可选 auto、utf-8、gbk、gb18030");
                string_of(m.as_slice())
            },
            AppError::InvalidDelimiter(v) => {
                let mut m = chars_of("不支持的分隔符“");
                push_str(&mut m, v.as_str());
                push_str(&mut m, "”；请使用单个 ASCII 字符、tab 或 \\t");
                string_of(m.as_slice())
            },
            AppError::Config(m) => joined2("配置错误: ", m.as_str()),
            AppError::Postgres(m) => joined2("PostgreSQL 错误: ", m.as_str()),
            AppError::Io(m) => joined2("I/O 错误: ", m.as_str()),
            AppError::Csv(m) => joined2("CSV/TXT 解析错误: ", m.as_str()),
            AppError::Xlsx(m) => joined2("XLSX 写入错误: ", m.as_str()),
            AppError::Excel(m) => joined2("Excel 解析错误: ", m.as_str()),
            AppError::Json(m) => joined2("序列化错误: ", m.as_str()),
            AppError::Cancelled => owned("操作已由用户取消，数据库事务已回滚"),
        }
    }
}

} // verus!
