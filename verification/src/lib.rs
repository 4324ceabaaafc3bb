//! A registry of named, lazily created key-value tables over one embedded
//! database, each table optionally equipped with a persisted, block-buffered
//! id sequence, driven through a single-writer command interface.

pub mod command;
pub mod config_query;
pub mod definition;
pub mod error;
pub mod guarantees;
pub mod model;
pub mod sequence;
pub mod store;
pub mod table;
pub mod wire;
