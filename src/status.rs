//! The kinds of difference between the index and the working tree that a
//! status report lists.

use vstd::prelude::*;
use crate::index::RepoRelativeFilename;

verus! {

pub enum FileOrDir {
    File(RepoRelativeFilename),
    Dir(RepoRelativeFilename),
}

impl FileOrDir {
    /// The path, whether of a file or of a directory.
    pub fn name(&self) -> (r: &RepoRelativeFilename)
        ensures
            r == (match self {
                FileOrDir::File(n) => n,
                FileOrDir::Dir(n) => n,
            }),
    {
        match self {
            FileOrDir::File(n) => n,
            FileOrDir::Dir(n) => n,
        }
    }
}

#[derive(Clone, Copy, PartialEq, Eq, Structural, Debug)]
pub enum StagedChangeType {
    Add,
    Modify,
    Delete,
}

impl StagedChangeType {
    pub open spec fn label_text(self) -> Seq<char> {
        match self {
            StagedChangeType::Add => seq!['n', 'e', 'w', ' ', 'f', 'i', 'l', 'e'],
            StagedChangeType::Modify => seq!['m', 'o', 'd', 'i', 'f', 'i', 'e', 'd'],
            StagedChangeType::Delete => seq!['d', 'e', 'l', 'e', 't', 'e', 'd'],
        }
    }

    /// How a report names the change.
    pub fn label(&self) -> (r: &'static str)
        ensures
            r@ == self.label_text(),
    {
        match self {
            StagedChangeType::Add => {
                proof {
                    reveal_strlit("new file");
                }
                "new file"
            },
            StagedChangeType::Modify => {
                proof {
                    reveal_strlit("modified");
                }
                "modified"
            },
            StagedChangeType::Delete => {
                proof {
                    reveal_strlit("deleted");
                }
                "deleted"
            },
        }
    }
}

#[derive(Clone, Copy, PartialEq, Eq, Structural, Debug)]
pub enum UnstagedChangeType {
    Modify,
    Delete,
}

impl UnstagedChangeType {
    /// The staged change of the same kind.
    pub fn to_staged(&self) -> (r: StagedChangeType)
        ensures
            r == (match self {
                UnstagedChangeType::Modify => StagedChangeType::Modify,
                UnstagedChangeType::Delete => StagedChangeType::Delete,
            }),
    {
        match self {
            UnstagedChangeType::Modify => StagedChangeType::Modify,
            UnstagedChangeType::Delete => StagedChangeType::Delete,
        }
    }

    /// How a report names the change.
    pub fn label(&self) -> (r: &'static str)
        ensures
            r@ == self.to_staged_spec().label_text(),
    {
        self.to_staged().label()
    }

    pub open spec fn to_staged_spec(self) -> StagedChangeType {
        match self {
            UnstagedChangeType::Modify => StagedChangeType::Modify,
            UnstagedChangeType::Delete => StagedChangeType::Delete,
        }
    }
}

/// The differences between the index and the working tree.
pub struct IndexStatus {
    pub staged_changes: Vec<(StagedChangeType, RepoRelativeFilename)>,
    pub unstaged_changes: Vec<(UnstagedChangeType, RepoRelativeFilename)>,
    pub untracked_files: Vec<FileOrDir>,
}

/// How a command ends.
#[derive(Clone, Copy, PartialEq, Eq, Structural, Debug)]
pub enum ExitType {
    Success,
    Fatal,
}

impl ExitType {
    /// The process exit status: zero on success, 128 on a fatal error.
    pub fn code(&self) -> (r: u8)
        ensures
            r == (match self {
                ExitType::Success => 0u8,
                ExitType::Fatal => 128u8,
            }),
    {
        match self {
            ExitType::Success => 0,
            ExitType::Fatal => 128,
        }
    }
}

} // verus!
