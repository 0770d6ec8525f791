//! What the workbench's commands hand back: the plan shown to the user, update results and
//! the reload requests, and the checks of an output path.
use vstd::prelude::*;
use crate::desktop::config::AppSettings;
use crate::workbench::model::{MergeOptions, SourceTable, build_output_plan, common_header_keys, planned_headers, common_keys};
use crate::headers::texts;
use crate::text::{ascii_lower, owned};

verus! {

/// The state shared by the commands.
pub struct AppState {
    pub cancel: std::sync::Arc<std::sync::atomic::AtomicBool>,
}

/// The settings the front end starts with.
#[derive(Clone, Debug)]
pub struct StateSnapshot {
    pub settings: AppSettings,
}

/// The output columns and the keys that every enabled table has.
#[derive(Debug)]
pub struct PlanSnapshot {
    pub headers: Vec<String>,
    pub common_keys: Vec<String>,
}

/// The newest release and whether it is newer than this version.
#[derive(Clone, Debug)]
pub struct UpdateResultDto {
    pub version: String,
    pub url: String,
    pub newer: bool,
}

/// Why the update check failed.
#[derive(Clone, Debug)]
pub struct UpdateFailedDto {
    pub message: String,
}

/// A table to read again, with its position in the list.
#[derive(Debug)]
pub struct ReloadItem {
    pub index: usize,
    pub table: SourceTable,
}

/// The plan of `tables` under `options` and their common keys.
pub fn plan_snapshot(tables: &[SourceTable], options: &MergeOptions) -> (r: PlanSnapshot)
    ensures
        texts(r.headers@) == planned_headers(tables@, *options),
        texts(r.common_keys@).to_set() == common_keys(tables@),
        texts(r.common_keys@).no_duplicates(),
{
    PlanSnapshot {
        headers: build_output_plan(tables, options).headers,
        common_keys: common_header_keys(tables),
    }
}

/// Whether an extension is `xlsx`, ignoring ASCII case.
pub fn is_xlsx_extension(extension: Option<String>) -> (r: bool)
    ensures
        r == (extension matches Some(e) && ascii_lower(e@) == "xlsx"@),
{
    match extension {
        Some(e) => crate::text::to_ascii_lowercase(e.as_str()) == owned("xlsx"),
        None => false,
    }
}

/// Checks the output path of a merge: it must not be blank and must end in `.xlsx`.
pub fn check_output_path(output: &str) -> (r: Result<String, String>)
    ensures
        crate::text::trim(output@).len() == 0 ==> (r matches Err(m) && m@ == "请先选择输出文件"@),
        crate::text::trim(output@).len() > 0 ==> (r matches Ok(p) && p@ == crate::text::trim(output@))
            || (r matches Err(m) && m@ == "输出文件必须使用 .xlsx 扩展名"@),
{
    let trimmed = crate::text::trim_str(output);
    if trimmed.as_str().is_empty() {
        return Err(owned("请先选择输出文件"));
    }
    if !is_xlsx_extension(crate::paths::path_extension(trimmed.as_str())) {
        return Err(owned("输出文件必须使用 .xlsx 扩展名"));
    }
    Ok(trimmed)
}

} // verus!
