//! Reading and querying a directory-aware shell history file.
use vstd::prelude::*;

pub mod error;
pub mod query;
pub mod record;
pub mod render;
pub mod store;
pub mod text;

pub use error::HistoryError;
pub use query::{by_directory, by_prefix, dedup_commands};
pub use record::HistoryEntry;
pub use render::{index_lines, render_commands, COMMAND_SEPARATOR, NO_MATCHES};
pub use store::{HistoryFile, DEFAULT_DIRHIST_FILE, DEFAULT_DIRHIST_SIZE, DIRHIST_FILE_ENV};

verus! {

} // verus!
