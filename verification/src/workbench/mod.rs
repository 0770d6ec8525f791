//! The SheetForge workbench: table model, scanning, merging, inspection and database import.
pub mod model;
pub mod database;
pub mod commands;
pub mod scan;
pub mod xlsx_rows;
pub mod events;
pub mod columns;
