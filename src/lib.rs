//! A bookmark manager's core: a collection of named, tagged URLs kept in
//! name order, the operations that change it, and the lines that display it.

pub mod collection;
pub mod editor;
pub mod error;
pub mod format;
pub mod hostname;
pub mod operations;
pub mod text;

pub use collection::{Bookmark, Collection, Entry};
pub use editor::{edit_command, editor_words, program_and_args, DEFAULT_EDIT_COMMAND};
pub use error::BookmarkError;
pub use format::format_line;
pub use hostname::extract_hostname;
pub use operations::{command_add, command_delete, command_edit, command_list_tags, command_view};
pub use text::name_less;
