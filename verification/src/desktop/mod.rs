//! The classic desktop merger: table model, scanning, merging and its small helpers.
pub mod model;
pub mod config;
pub mod app;
pub mod events;
pub mod columns;
pub mod window;
pub mod actions;
pub mod display;
