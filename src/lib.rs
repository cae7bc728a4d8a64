//! Directory jumping ranked by frecency: a usage store with bounded decay, a
//! ranking of candidate directories against a query, and the state machine of
//! an interactive picker.

pub mod keys;
pub mod frecency;
pub mod text;
pub mod search;
pub mod ui;
pub mod config;
pub mod jump;
pub mod index;
pub mod history;
