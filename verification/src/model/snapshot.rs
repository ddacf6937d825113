//! An immutable result computed by the git worker and handed to the UI.

use vstd::hash_map::StringHashMap;
use vstd::prelude::*;

use crate::git::diff::hash_models;
use crate::model::file::{file_models, ChangedFile, FileModel};
use crate::model::review::{FileHashes, HashesModel};

verus! {

pub struct GitSnapshot {
    pub files: Vec<ChangedFile>,
    /// Current diff hashes for the files the UI asked about (the reviewed set),
    /// used to flip a reviewed chunk back to unreviewed when its content changes
    /// on disk. Unreviewed files are left out.
    pub hashes: StringHashMap<FileHashes>,
}

/// A snapshot as a mathematical value.
#[verifier::ext_equal]
pub struct SnapshotModel {
    pub files: Seq<FileModel>,
    pub hashes: Map<Seq<char>, HashesModel>,
}

impl View for GitSnapshot {
    type V = SnapshotModel;

    open spec fn view(&self) -> SnapshotModel {
        SnapshotModel { files: file_models(self.files@), hashes: hash_models(self.hashes@) }
    }
}

} // verus!
