//! A small line search: find the lines of a text in which a query occurs,
//! with or without regard to case.
//!
//! The contracts speak of texts as sequences of characters. [`line`] says
//! what the lines of a text are, [`pattern`] what it means for one text to
//! occur in another, and [`search`] puts the two together. [`config`] holds
//! the settings of one search and the choice between the two searches.

pub mod config;
pub mod encoding;
pub mod fold;
pub mod line;
pub mod pattern;
pub mod search;
pub mod selection;

pub use config::{run, Config, ConfigError};
pub use search::{search, search_case_insensitive};
