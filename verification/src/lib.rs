//! Line-oriented text search over files and directory trees.
//!
//! The crate holds the rules of the search: how command-line tokens become a
//! [`Config`], how a text is cut into lines and which of them hold a query,
//! which paths a walk over the file system visits, and what is printed for a
//! file. It never touches the file system itself: a caller looks at each path
//! that the walk names and hands back what it found there.

pub mod config;
pub mod fold;
pub mod report;
pub mod runs;
pub mod search;
pub mod text;
pub mod walk;

pub use crate::config::{Config, ConfigError};
pub use crate::report::{decimal_text, MatchReport, ReportMode};
pub use crate::search::{scan, search, search_case_insensetive, MatchedLine};
pub use crate::text::{chars_of, find};
pub use crate::walk::{Found, Grep, Walk};
