//! A virtual filesystem shell over a JSON document tree.
//!
//! The crate models a remotely stored JSON document as a tree of named
//! files and directories, and provides the verified core of an interactive
//! shell over that tree: path navigation, entry creation and removal, name
//! autocompletion, a cursor-addressed text buffer, and the document codec.

pub mod editor;
pub mod json;
pub mod shell;
pub mod text;
pub mod tree;

pub use editor::Direction;
pub use editor::EditorOutcome;
pub use editor::TextBuffer;
pub use editor::editor_key_outcome;
pub use json::decode_document;
pub use json::encode_document;
pub use shell::CommandResult;
pub use shell::ShellKey;
pub use shell::ShellSignal;
pub use shell::Supno;
pub use shell::autocomplete_input;
pub use shell::shell_key_outcome;
pub use text::is_up_token;
pub use text::split_char;
pub use tree::FileOrDirectory;
pub use tree::FileSystem;
pub use tree::ReadOutcome;
pub use tree::add_sentinel;
pub use tree::read_path;
pub use tree::strip_sentinel;
pub use tree::tree_is_wf;
