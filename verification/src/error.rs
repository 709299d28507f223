use vstd::prelude::*;

use crate::text::{append_chars, append_str, chars_of, string_from_chars};

verus! {

/// The ways the library's operations fail.
#[derive(Debug)]
pub enum EnvsyncError {
    /// The main worktree's root cannot be derived from git's answers.
    MainRootUnknown,
    /// A conflict resolution strategy other than `source` or `merge`.
    UnknownStrategy(String),
    /// A linked worktree's `.git` file names no `gitdir: `.
    GitFileUnreadable,
    /// The git directory has no parent.
    GitDirParentMissing,
    /// The git directory's parent has no parent.
    HooksDirMissing,
}

impl EnvsyncError {
    /// The text that describes the error.
    pub open spec fn message_text(&self) -> Seq<char> {
        match self {
            EnvsyncError::MainRootUnknown => "Failed to determine main worktree root"@,
            EnvsyncError::UnknownStrategy(s) => "Unknown strategy: "@ + s@ + ". Use 'source' or 'merge'"@,
            EnvsyncError::GitFileUnreadable => "Failed to parse .git file"@,
            EnvsyncError::GitDirParentMissing => "Failed to find git dir parent"@,
            EnvsyncError::HooksDirMissing => "Failed to find hooks dir"@,
        }
    }

    /// Describes the error.
    pub fn message(&self) -> (r: String)
        ensures
            r@ == self.message_text(),
    {
        let mut out: Vec<char> = Vec::new();
        match self {
            EnvsyncError::MainRootUnknown => {
                append_str(&mut out, "Failed to determine main worktree root");
            },
            EnvsyncError::UnknownStrategy(s) => {
                append_str(&mut out, "Unknown strategy: ");
                let given = chars_of(s.as_str());
                append_chars(&mut out, &given);
                append_str(&mut out, ". Use 'source' or 'merge'");
            },
            EnvsyncError::GitFileUnreadable => {
                append_str(&mut out, "Failed to parse .git file");
            },
            EnvsyncError::GitDirParentMissing => {
                append_str(&mut out, "Failed to find git dir parent");
            },
            EnvsyncError::HooksDirMissing => {
                append_str(&mut out, "Failed to find hooks dir");
            },
        }
        assert(out@ =~= self.message_text());
        string_from_chars(&out)
    }
}

} // verus!
