//! PostgreSQL import core: identifiers, COPY encoders, target tables and connections.
pub mod copy_text;
pub mod error;
pub mod copy_binary;
pub mod identifier;
pub mod table;
pub mod connection;
pub mod config;
