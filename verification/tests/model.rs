use std::sync::Arc;

use hunkr::cache::{DiffCache, Signature};
use hunkr::model::diff::FileDiff;
use hunkr::model::file::{ChangeKind, ChangedFile};
use hunkr::model::review::{
    chunk_reviewed, derive_file, reviewed_chunk_count, FileHashes, ReviewRecord, ReviewStatus,
};
use hunkr::model::tree::FileTree;
use hunkr::path::{extension, file_name, path_join, split_path};
use hunkr::persist::{HiddenStore, ReviewStore};

// ── reviewed state ─────────────────────────────────────────────────────────

fn rec(chunks: &[u64]) -> ReviewRecord {
    ReviewRecord {
        reviewed_hash: 0,
        reviewed_at: 0,
        reviewed_chunks: chunks.to_vec(),
    }
}

fn fh(whole: u64, chunks: &[u64]) -> FileHashes {
    FileHashes {
        whole,
        chunks: chunks.to_vec(),
    }
}

#[test]
fn file_reviewed_only_when_all_chunks_reviewed() {
    let h = fh(0, &[1, 2, 3]);
    assert_eq!(derive_file(None, Some(&h)), ReviewStatus::Unreviewed);
    assert_eq!(
        derive_file(Some(&rec(&[1, 2])), Some(&h)),
        ReviewStatus::Unreviewed
    );
    assert_eq!(
        derive_file(Some(&rec(&[1, 2, 3])), Some(&h)),
        ReviewStatus::Reviewed
    );
    // A changed chunk (hash 3 → 9) drops the file back to unreviewed.
    assert_eq!(
        derive_file(Some(&rec(&[1, 2, 3])), Some(&fh(0, &[1, 2, 9]))),
        ReviewStatus::Unreviewed
    );
}

#[test]
fn binary_file_falls_back_to_whole_hash() {
    let rec = ReviewRecord {
        reviewed_hash: 42,
        reviewed_at: 0,
        reviewed_chunks: vec![],
    };
    assert_eq!(
        derive_file(Some(&rec), Some(&fh(42, &[]))),
        ReviewStatus::Reviewed
    );
    assert_eq!(
        derive_file(Some(&rec), Some(&fh(43, &[]))),
        ReviewStatus::Unreviewed
    );
}

#[test]
fn counts_reviewed_chunks() {
    let h = fh(0, &[1, 2, 3, 4]);
    assert_eq!(reviewed_chunk_count(Some(&rec(&[1, 3])), Some(&h)), 2);
    assert_eq!(reviewed_chunk_count(None, Some(&h)), 0);
    assert!(chunk_reviewed(Some(&rec(&[1, 3])), 3));
    assert!(!chunk_reviewed(Some(&rec(&[1, 3])), 2));
}

#[test]
fn unknown_hashes_are_unreviewed() {
    assert_eq!(derive_file(Some(&rec(&[1])), None), ReviewStatus::Unreviewed);
    assert_eq!(reviewed_chunk_count(Some(&rec(&[1])), None), 0);
    assert!(!chunk_reviewed(None, 1));
}

// ── the tree ───────────────────────────────────────────────────────────────

fn file(p: &str) -> ChangedFile {
    ChangedFile::new(p.to_string(), ChangeKind::Modified)
}

fn names(tree: &FileTree) -> Vec<&str> {
    tree.visible
        .iter()
        .map(|&n| tree.nodes[n].name.as_str())
        .collect()
}

#[test]
fn groups_by_folder_and_reuses_dirs() {
    let files = vec![file("src/foo.rs"), file("src/bar.rs"), file("README.md")];
    let tree = FileTree::build(&files);
    assert_eq!(names(&tree), vec!["README.md", "src", "bar.rs", "foo.rs"]);
}

#[test]
fn collapse_hides_children() {
    let files = vec![file("src/foo.rs"), file("src/bar.rs")];
    let mut tree = FileTree::build(&files);
    let src = tree
        .nodes
        .iter()
        .position(|n| n.name == "src" && n.file.is_none())
        .unwrap();
    tree.toggle(src);
    assert_eq!(names(&tree), vec!["src"]);
}

#[test]
fn recompute_visible_with_prunes_files_and_empty_folders() {
    let files = vec![file("src/foo.rs"), file("src/bar.rs"), file("README.md")];
    let mut tree = FileTree::build(&files);

    let hidden: std::collections::HashSet<usize> = [0, 1].into_iter().collect();
    tree.recompute_visible_with(|fi| !hidden.contains(&fi));
    assert_eq!(
        names(&tree),
        vec!["README.md"],
        "empty src/ folder should be pruned"
    );

    // The inverse view (only the hidden files) keeps src/ and its two files.
    tree.recompute_visible_with(|fi| hidden.contains(&fi));
    assert_eq!(names(&tree), vec!["src", "bar.rs", "foo.rs"]);
}

#[test]
fn toggling_twice_brings_everything_back() {
    let files = vec![file("a/b/c.rs"), file("a/d.rs"), file("z.rs")];
    let mut tree = FileTree::build(&files);
    let before: Vec<String> = names(&tree).iter().map(|s| s.to_string()).collect();
    let a = tree.nodes.iter().position(|n| n.name == "a").unwrap();
    assert!(tree.is_dir(a));
    tree.toggle(a);
    assert_ne!(names(&tree), before);
    tree.toggle(a);
    assert_eq!(names(&tree), before);
    // Every file has a leaf.
    let mut leaves: Vec<usize> = tree.nodes.iter().filter_map(|n| n.file).collect();
    leaves.sort();
    assert_eq!(leaves, vec![0, 1, 2]);
}

#[test]
fn the_order_of_the_list_does_not_show() {
    let a = vec![file("z.rs"), file("a/b/c.rs"), file("a/d.rs"), file("m.rs")];
    let b = vec![file("a/d.rs"), file("m.rs"), file("z.rs"), file("a/b/c.rs")];
    let rows = |files: &Vec<ChangedFile>| -> Vec<(String, u16, bool, Option<String>)> {
        let tree = FileTree::build(files);
        tree.visible
            .iter()
            .map(|&n| {
                let node = &tree.nodes[n];
                let path = node.file.map(|f| files[f].path.clone());
                (node.name.clone(), node.depth, node.file.is_none(), path)
            })
            .collect()
    };
    assert_eq!(rows(&a), rows(&b));
}

// ── the cache ──────────────────────────────────────────────────────────────

fn diff() -> Arc<FileDiff> {
    Arc::new(FileDiff {
        path: "x".to_string(),
        text: String::new(),
        chunks: Vec::new(),
        is_binary: false,
    })
}

fn sig(n: u64) -> Signature {
    (0, n)
}

#[test]
fn hit_only_on_matching_signature() {
    let mut c = DiffCache::new(4);
    c.put("a".to_string(), sig(1), diff());
    assert!(c.get("a", sig(1)).is_some());
    // Different signature (file changed) → miss.
    assert!(c.get("a", sig(2)).is_none());
}

#[test]
fn evicts_least_recently_used() {
    let mut c = DiffCache::new(2);
    c.put("a".to_string(), sig(1), diff());
    c.put("b".to_string(), sig(1), diff());
    // Touch `a` so `b` becomes the LRU.
    assert!(c.get("a", sig(1)).is_some());
    c.put("d".to_string(), sig(1), diff());
    assert!(c.get("b", sig(1)).is_none(), "b should have been evicted");
    assert!(c.get("a", sig(1)).is_some());
    assert!(c.get("d", sig(1)).is_some());
}

#[test]
fn the_cache_hands_out_the_stored_diff() {
    let mut c = DiffCache::new(1);
    let d = diff();
    c.put("a".to_string(), sig(1), d.clone());
    assert!(Arc::ptr_eq(&c.get("a", sig(1)).unwrap(), &d));
}

// ── stores ─────────────────────────────────────────────────────────────────

#[test]
fn round_trips_through_disk() {
    let mut store = ReviewStore::load("/repo/.git", &Vec::new());
    assert_eq!(store.file(), "/repo/.git/hunkr/review.json");
    assert!(store.reviewed_paths().is_empty());
    store.mark("src/foo.rs", 42, vec![7], 1000);

    // Loading the saved entries sees the record.
    let reloaded = ReviewStore::load("/repo/.git", store.entries());
    let rec = reloaded.get("src/foo.rs").unwrap();
    assert_eq!(rec.reviewed_hash, 42);
    assert_eq!(rec.reviewed_at, 1000);
    assert_eq!(rec.reviewed_chunks, vec![7]);

    let mut store = reloaded;
    store.unmark("src/foo.rs");
    assert!(ReviewStore::load("/repo/.git", store.entries())
        .get("src/foo.rs")
        .is_none());
}

#[test]
fn chunks_are_marked_one_by_one() {
    let mut store = ReviewStore::empty("/repo/.git");
    store.mark_chunk("a.rs", 1, 10, 5);
    store.mark_chunk("a.rs", 1, 11, 6);
    store.mark_chunk("a.rs", 1, 10, 7);
    assert_eq!(store.get("a.rs").unwrap().reviewed_chunks, vec![10, 11]);
    assert_eq!(store.get("a.rs").unwrap().reviewed_at, 7);
    store.unmark_chunk("a.rs", 10);
    assert_eq!(store.get("a.rs").unwrap().reviewed_chunks, vec![11]);
    // A record without chunks is dropped.
    store.unmark_chunk("a.rs", 11);
    assert!(store.get("a.rs").is_none());
    assert!(store.reviewed_paths().is_empty());
}

#[test]
fn the_last_of_two_entries_counts_in_any_order() {
    let a = vec![("x".to_string(), rec(&[1])), ("y".to_string(), rec(&[2]))];
    let b = vec![("y".to_string(), rec(&[2])), ("x".to_string(), rec(&[1]))];
    for entries in [a, b] {
        let store = ReviewStore::load("/g", &entries);
        assert_eq!(store.get("x").unwrap().reviewed_chunks, vec![1]);
        assert_eq!(store.get("y").unwrap().reviewed_chunks, vec![2]);
    }
    let twice = vec![("x".to_string(), rec(&[1])), ("x".to_string(), rec(&[3]))];
    let store = ReviewStore::load("/g", &twice);
    assert_eq!(store.get("x").unwrap().reviewed_chunks, vec![3]);
    assert_eq!(store.entries().len(), 1);
}

#[test]
fn hidden_paths_are_kept_once() {
    let mut hidden = HiddenStore::load("/g", &vec!["a".to_string(), "a".to_string()]);
    assert_eq!(hidden.file(), "/g/hunkr/hidden.json");
    assert_eq!(hidden.entries().len(), 1);
    hidden.hide_path("b");
    assert!(hidden.is_hidden("b"));
    hidden.unhide_path("a");
    assert!(!hidden.is_hidden("a"));
    assert_eq!(hidden.entries(), &vec!["b".to_string()]);
}

// ── paths ──────────────────────────────────────────────────────────────────

#[test]
fn paths_are_taken_apart() {
    assert_eq!(split_path("a//b/./c"), vec!["a", "b", "c"]);
    assert_eq!(path_join("/repo", "src/x"), "/repo/src/x");
    assert_eq!(path_join("/repo/", "x"), "/repo/x");
    assert_eq!(path_join("/repo", "/x"), "/x");
    assert_eq!(file_name("a/b.rs").as_deref(), Some("b.rs"));
    assert_eq!(file_name("a/.."), None);
    assert_eq!(extension("a/b.tar.gz").as_deref(), Some("gz"));
    assert_eq!(extension("a/.bashrc"), None);
    assert_eq!(extension("Makefile"), None);
    assert_eq!(extension("a.b/c"), None);
    assert_eq!(extension("x.").as_deref(), Some(""));
}
