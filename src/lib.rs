//! A small line search: find the lines of a text that contain a query, with case taken
//! into account or not.
pub mod config;
pub mod search;
pub mod text;

pub use config::{Config, ConfigError, ConfigView};
pub use search::{search_lines, search_lines_case_insensitive};
pub use text::{contains_query, split_lines};
