//! The row engine shared by every merge mode: cells, row mapping, keys, filters and aggregation.
pub mod cell;
pub mod rows;
pub mod aggregate;
pub mod text_index;
pub mod order;
pub mod flow;
pub mod sheets;
pub mod inspect;
pub mod preflight;
pub mod suggestions;
