//! The events that the workbench's workers send to its window.
use vstd::prelude::*;
use crate::engine::inspect::CheckIssue;
use crate::workbench::model::SourceTable;

verus! {

/// Progress of a merge.
#[derive(Clone, Debug)]
pub struct MergeProgressDto {
    pub current: u64,
    pub total: u64,
    pub label: String,
}

/// A merge that wrote its output.
#[derive(Clone, Debug)]
pub struct MergeFinishedDto {
    pub output: String,
    pub rows: u64,
    pub sheets: usize,
}

/// A merge that failed.
#[derive(Clone, Debug)]
pub struct MergeFailedDto {
    pub message: String,
}

/// The checks before a merge are done; whether the merge goes on afterwards.
#[derive(Clone, Debug)]
pub struct PreflightDoneDto {
    pub issues: Vec<CheckIssue>,
    pub continues_merge: bool,
}

/// Progress of a scan: files done of the total, and the file being read.
#[derive(Clone, Debug)]
pub struct ScanProgressDto {
    pub done: usize,
    pub total: usize,
    pub name: String,
}

/// A scan that found tables.
#[derive(Clone, Debug)]
pub struct ScanFinishedDto {
    pub tables: Vec<SourceTable>,
    pub warnings: Vec<String>,
}

/// A scan that found nothing readable.
#[derive(Clone, Debug)]
pub struct ScanFailedDto {
    pub message: String,
}

/// A table read again with a new header row.
#[derive(Clone, Debug)]
pub struct TableReloadedDto {
    pub index: usize,
    pub table: SourceTable,
}

/// A table that could not be read again.
#[derive(Clone, Debug)]
pub struct TableReloadFailedDto {
    pub index: usize,
    pub message: String,
}

/// Tables read again together, and how many of them failed.
#[derive(Clone, Debug)]
pub struct TablesReloadedDto {
    pub tables: Vec<TableReloadedDto>,
    pub failures: usize,
}

} // verus!
