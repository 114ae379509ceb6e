//! Restoring a working directory: what to do with each object met while
//! walking from a commit to its tree and blobs. The caller performs each step
//! on the filesystem and walks on.
use vstd::prelude::*;
use crate::error::GitError;
use crate::objects::{bytes_equal_at, copy_range, is_hex_id, GitObject, Kind};
use crate::primitives::{hex_bytes, hex_decode};
use crate::tree::{entry_models, tree_parse, EntryModel, TreeEntry};

verus! {

/// What restoring one object at a target path takes.
#[derive(Debug)]
pub enum RestoreStep {
    /// Write these bytes to the target path, creating or truncating the file.
    WriteFile { contents: Vec<u8> },
    /// Make sure the target path is a directory, then restore each entry's
    /// object at the target path joined with the entry's name.
    MakeDir { entries: Vec<TreeEntry> },
    /// Restore the tree with this raw id at the same target path.
    Follow { id: Vec<u8> },
}

/// `tree ` as bytes.
pub open spec fn tree_prefix() -> Seq<u8> {
    seq![116u8, 114, 101, 101, 32]
}

/// The raw tree id on a commit's first line, when that line is exactly
/// `tree ` followed by 40 hexadecimal digits.
pub open spec fn commit_tree_id(c: Seq<u8>) -> Option<Seq<u8>> {
    if c.len() >= 45 && c.subrange(0, 5) == tree_prefix() && is_hex_id(c.subrange(5, 45)) && (
    c.len() == 45 || c[45] == 10) {
        hex_bytes(c.subrange(5, 45))
    } else {
        None
    }
}

/// The restore step of an object, as kind and contents decide it.
pub open spec fn step_spec(k: Kind, c: Seq<u8>) -> Result<StepModel, GitError> {
    match k {
        Kind::Blob => Ok(StepModel::WriteFile(c)),
        Kind::Tree => match tree_parse(c, 0) {
            Some(es) => Ok(StepModel::MakeDir(es)),
            None => Err(GitError::MalformedTree),
        },
        Kind::Commit => match commit_tree_id(c) {
            Some(id) => Ok(StepModel::Follow(id)),
            None => Err(GitError::MalformedCommit),
        },
    }
}

/// A restore step as plain values.
pub ghost enum StepModel {
    WriteFile(Seq<u8>),
    MakeDir(Seq<EntryModel>),
    Follow(Seq<u8>),
}

impl RestoreStep {
    /// This step as plain values; a tree id as its bytes.
    pub open spec fn model(&self) -> StepModel {
        match self {
            RestoreStep::WriteFile { contents } => StepModel::WriteFile(contents@),
            RestoreStep::MakeDir { entries } => StepModel::MakeDir(entry_models(entries@)),
            RestoreStep::Follow { id } => StepModel::Follow(id@),
        }
    }
}

impl GitObject {
    /// What restoring this object takes: a blob's bytes are written; a
    /// tree's entries are restored inside a directory; a commit leads to the
    /// tree on its first line, `MalformedCommit` if that line is not
    /// `tree <id>`.
    pub fn restore_step(&self) -> (r: Result<RestoreStep, GitError>)
        ensures
            match r {
                Ok(s) => step_spec(self.spec_kind(), self.spec_contents()) == Ok::<StepModel, GitError>(s.model()),
                Err(e) => step_spec(self.spec_kind(), self.spec_contents()) == Err::<StepModel, GitError>(e),
            },
    {
        let k = *self.kind();
        let c = self.contents().as_slice();
        match k {
            Kind::Blob => {
                let contents = copy_range(c, 0, c.len());
                assert(contents@ =~= c@);
                Ok(RestoreStep::WriteFile { contents })
            },
            Kind::Tree => match self.tree_entries() {
                Ok(entries) => Ok(RestoreStep::MakeDir { entries }),
                Err(e) => Err(e),
            },
            Kind::Commit => {
                let n = c.len();
                let prefix: [u8; 5] = [116u8, 114, 101, 101, 32];
                assert(prefix@ =~= tree_prefix());
                if n < 45 || !bytes_equal_at(c, 0, &prefix) {
                    proof {
                        if n >= 45 {
                            assert(c@.subrange(0, 5) != tree_prefix());
                        }
                    }
                    return Err(GitError::MalformedCommit);
                }
                let id = copy_range(c, 5, 45);
                let b = match hex_decode(id.as_slice()) {
                    Some(b) => b,
                    None => {
                        return Err(GitError::MalformedCommit);
                    },
                };
                if b.len() != 20 {
                    return Err(GitError::MalformedCommit);
                }
                if n > 45 && c[45] != 10u8 {
                    return Err(GitError::MalformedCommit);
                }
                Ok(RestoreStep::Follow { id: b })
            },
        }
    }
}

} // verus!
