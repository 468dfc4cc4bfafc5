//! The commit records that the parser produces, together with their
//! mathematical models.
//!
//! Each executable record has a ghost model in which strings are sequences
//! of characters and integers are unbounded; the contracts of the parser are
//! stated over these models.

use vstd::prelude::*;

verus! {

/// One file touched by a commit, with the line counts git reports for it.
///
/// `added` and `deleted` are `-1` when git prints the `-` sentinel for a
/// binary file. `mode` is reserved and currently always empty.
#[derive(Debug, Clone, PartialEq, Eq)]
pub struct FileChange {
    pub file: String,
    pub added: i32,
    pub deleted: i32,
    pub mode: String,
}

/// One parsed commit. `committer` and `branch` are present for future use
/// and are always empty; `date` holds Unix epoch seconds.
#[derive(Debug, Clone, PartialEq, Eq)]
pub struct CocoCommit {
    pub branch: String,
    pub rev: String,
    pub author: String,
    pub committer: String,
    pub date: i64,
    pub message: String,
    pub changes: Vec<FileChange>,
}

/// Model of a [`FileChange`]: its fields as sequences and unbounded integers.
#[verifier::ext_equal]
pub struct ChangeModel {
    pub file: Seq<char>,
    pub added: int,
    pub deleted: int,
    pub mode: Seq<char>,
}

/// Model of a [`CocoCommit`].
#[verifier::ext_equal]
pub struct CommitModel {
    pub branch: Seq<char>,
    pub rev: Seq<char>,
    pub author: Seq<char>,
    pub committer: Seq<char>,
    pub date: int,
    pub message: Seq<char>,
    pub changes: Seq<ChangeModel>,
}

impl View for FileChange {
    type V = ChangeModel;

    open spec fn view(&self) -> ChangeModel {
        ChangeModel {
            file: self.file@,
            added: self.added as int,
            deleted: self.deleted as int,
            mode: self.mode@,
        }
    }
}

impl DeepView for FileChange {
    type V = ChangeModel;

    open spec fn deep_view(&self) -> ChangeModel {
        self.view()
    }
}

impl View for CocoCommit {
    type V = CommitModel;

    open spec fn view(&self) -> CommitModel {
        CommitModel {
            branch: self.branch@,
            rev: self.rev@,
            author: self.author@,
            committer: self.committer@,
            date: self.date as int,
            message: self.message@,
            changes: self.changes.deep_view(),
        }
    }
}

impl DeepView for CocoCommit {
    type V = CommitModel;

    open spec fn deep_view(&self) -> CommitModel {
        self.view()
    }
}

} // verus!
