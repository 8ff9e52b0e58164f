//! Shared-prefix detection over the files of a directory, and a ledger of
//! renames that can be reversed.
pub mod text;
pub mod prefix_finder;
pub mod aggregate;
pub mod pattern;
pub mod select;
pub mod path_extraction;
pub mod rename_db;

pub use aggregate::find_common_prefix;
pub use path_extraction::{deduplicate_paths, extract_paths_from_text};
pub use prefix_finder::{
    extract_prefix_from_filename, remove_prefix, remove_prefix_with_delimiter, CommonPrefix,
    PrefixMode, PrefixOptions, PrefixedPath,
};
pub use rename_db::{generate_operation_id, RenameDatabase, RenameRecord};
pub use select::find_longest_prefix;
