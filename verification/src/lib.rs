//! SheetForge: merging spreadsheet tables and loading the result into PostgreSQL.
pub mod pg;
pub mod text;
pub mod numbers;
pub mod version;
pub mod paths;
pub mod headers;
pub mod workbench;
pub mod desktop;
pub mod engine;
