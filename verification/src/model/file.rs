//! The lightweight, always-resident description of a single changed file.
//!
//! This is what populates the file tree. It holds no diff text: diffs are
//! loaded when a file is selected.

use vstd::prelude::*;

verus! {

/// How a file changed relative to the diff base (HEAD, or the empty tree when
/// the repository has no commits yet).
#[derive(Debug, PartialEq, Eq)]
pub enum ChangeKind {
    Added,
    Modified,
    Deleted,
    Renamed { from: String },
    Untracked,
    TypeChange,
}

/// A change kind as a mathematical value.
pub enum KindModel {
    Added,
    Modified,
    Deleted,
    Renamed(Seq<char>),
    Untracked,
    TypeChange,
}

impl View for ChangeKind {
    type V = KindModel;

    open spec fn view(&self) -> KindModel {
        match self {
            ChangeKind::Added => KindModel::Added,
            ChangeKind::Modified => KindModel::Modified,
            ChangeKind::Deleted => KindModel::Deleted,
            ChangeKind::Renamed { from } => KindModel::Renamed(from@),
            ChangeKind::Untracked => KindModel::Untracked,
            ChangeKind::TypeChange => KindModel::TypeChange,
        }
    }
}

impl KindModel {
    /// The letter of a change kind, as git writes it.
    pub open spec fn glyph(self) -> char {
        match self {
            KindModel::Added => 'A',
            KindModel::Modified => 'M',
            KindModel::Deleted => 'D',
            KindModel::Renamed(_) => 'R',
            KindModel::Untracked => '?',
            KindModel::TypeChange => 'T',
        }
    }
}

impl ChangeKind {
    /// Single-character status glyph shown in the tree (git's own letters).
    pub fn glyph(&self) -> (r: char)
        ensures
            r == self@.glyph(),
    {
        match self {
            ChangeKind::Added => 'A',
            ChangeKind::Modified => 'M',
            ChangeKind::Deleted => 'D',
            ChangeKind::Renamed { .. } => 'R',
            ChangeKind::Untracked => '?',
            ChangeKind::TypeChange => 'T',
        }
    }

    /// Untracked files have no blob in the base, so they need a `--no-index`
    /// diff rather than `git diff <base>`.
    pub fn is_untracked(&self) -> (r: bool)
        ensures
            r == (self@ == KindModel::Untracked),
    {
        matches!(self, ChangeKind::Untracked)
    }
}

impl Clone for ChangeKind {
    fn clone(&self) -> (r: ChangeKind)
        ensures
            r@ == self@,
    {
        match self {
            ChangeKind::Added => ChangeKind::Added,
            ChangeKind::Modified => ChangeKind::Modified,
            ChangeKind::Deleted => ChangeKind::Deleted,
            ChangeKind::Renamed { from } => ChangeKind::Renamed { from: from.clone() },
            ChangeKind::Untracked => ChangeKind::Untracked,
            ChangeKind::TypeChange => ChangeKind::TypeChange,
        }
    }
}

/// One entry in the changed-file list. Cheap to keep around.
#[derive(Debug)]
pub struct ChangedFile {
    /// Repository-relative path (the new path for renames).
    pub path: String,
    pub kind: ChangeKind,
    /// Line counts of the diff; 0 until they are known.
    pub additions: u32,
    pub deletions: u32,
}

/// A changed file as a mathematical value.
#[verifier::ext_equal]
pub struct FileModel {
    pub path: Seq<char>,
    pub kind: KindModel,
    pub additions: u32,
    pub deletions: u32,
}

impl View for ChangedFile {
    type V = FileModel;

    open spec fn view(&self) -> FileModel {
        FileModel {
            path: self.path@,
            kind: self.kind@,
            additions: self.additions,
            deletions: self.deletions,
        }
    }
}

/// The files of a list, as mathematical values.
pub open spec fn file_models(files: Seq<ChangedFile>) -> Seq<FileModel> {
    files.map_values(|f: ChangedFile| f@)
}

impl ChangedFile {
    /// A file whose line counts are not known yet.
    pub fn new(path: String, kind: ChangeKind) -> (r: Self)
        ensures
            r@ == (FileModel { path: path@, kind: kind@, additions: 0, deletions: 0 }),
    {
        Self { path, kind, additions: 0, deletions: 0 }
    }
}

impl Clone for ChangedFile {
    fn clone(&self) -> (r: ChangedFile)
        ensures
            r@ == self@,
    {
        ChangedFile {
            path: self.path.clone(),
            kind: self.kind.clone(),
            additions: self.additions,
            deletions: self.deletions,
        }
    }
}

} // verus!
