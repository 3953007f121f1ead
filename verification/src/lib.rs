//! Support for generating source files from comments in other source files:
//! comment-block extraction, the walk over a source tree, reference links,
//! and the decision whether a generated file is still up to date.

pub mod comments;
pub mod error;
pub mod files;
pub mod location;
pub mod sync;
pub mod text;

pub use comments::{do_extract_comment_blocks, select_blocks, CommentBlock};
pub use error::Error;
pub use files::{list_rust_files, name_is_hidden, Entry, EntryKind, Walk};
pub use location::{render_link, Location};
pub use sync::{
    add_preamble, ensure_file_contents, normalize_newlines, require_stable_toolchain,
    with_final_newline, SyncOutcome,
};
pub use text::{chars_of, string_of};
