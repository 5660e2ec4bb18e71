//! Reading of patch files: `git format-patch` mails and plain `git diff` output.
pub mod text;
pub mod patch;
pub mod format;
pub mod document;
pub mod hunks;
