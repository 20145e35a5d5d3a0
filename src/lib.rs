//! Two-tree comparison and line-level reconciliation of differing files.
use vstd::prelude::*;

pub mod content;
pub mod directory;
pub mod hunk;
pub mod merge;
pub mod paths;
pub mod reconcile;
pub mod text;
pub mod ui;

pub use content::{is_binary_content, same_contents, text_of_contents};
pub use directory::{compare_directories, shared_files, DiffEntry, DiffType, PathEntry};
pub use hunk::{extract_hunks, extract_hunks_with_ops, format_line_with_newline, EditOp, Hunk, HunkChoice};
pub use merge::{apply_file_action, replace_steps, FileAction, FsStep, MergeAction, Side};
pub use paths::RelPath;
pub use reconcile::{apply_choices_with_ops, apply_hunk_choices};
pub use text::split_text;
pub use ui::{
    file_action_for_key, is_whitespace_only_diff, prompt_for_action, prompt_for_hunk_choice,
    visualize_whitespace, HunkUserChoice, UserChoice,
};

verus! {

} // verus!
