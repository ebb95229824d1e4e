//! Searching directories for files by name or by contents.
//!
//! A search replaces the `{search}` marker of each configured search string
//! with the text searched for, then keeps the directory entries whose file
//! name contains (or starts with) it, or whose contents contain every
//! configured string, ignoring ASCII case. Contents searches are split into
//! one chunk of entries per core; the results of the chunks, concatenated in
//! order, are the results of the whole search.
//!
//! The library works on entries paired with the text it reads of them (their
//! name or their contents); reading directories and files is left to the
//! caller.
pub mod config_file;
pub mod lib_error;
pub mod search;
pub mod text;
pub mod utils;

pub use search::{search_chunk, search_file_names, to_owned_chunks};
pub use utils::{LastRunInfo, NonZeroUsize, ParseConfig, SearchContents, SearchStrData};
