use std::sync::Arc;

use hunkr::git::command::{capture, capture_diff, succeeds, GitOutput};
use hunkr::git::diff::{
    detect_base, diff_args, diff_hashes_for, fetch_file_diff, file_hashes, hash_chunk, hash_text,
    head_args, parse_chunk_header, parse_unified, split_unified, DiffBase,
};
use hunkr::git::numstat::{
    fill_line_counts, numstat_args, parse_numstat_z, tracked_counts, untracked_additions,
};
use hunkr::git::repo::{discover, discover_args, git_dir, git_dir_args};
use hunkr::git::segment::{classify_segment, git_line_path, unquote_path};
use hunkr::git::status::{changed_files, kind_from_xy, parse_status_v2, status_args};
use hunkr::model::diff::{FileDiff, LineKind};
use hunkr::model::file::{ChangeKind, ChangedFile};

fn parse(s: &str) -> FileDiff {
    parse_unified(s.to_string(), "x".to_string())
}

// ── diffs ──────────────────────────────────────────────────────────────────

#[test]
fn parses_chunks_and_line_numbers() {
    let raw = "diff --git a/x b/x\n\
        index 111..222 100644\n\
        --- a/x\n\
        +++ b/x\n\
        @@ -1,3 +1,4 @@\n\
        \x20ctx one\n\
        -old two\n\
        +new two\n\
        +added three\n\
        \x20ctx four\n";
    let d = parse(raw);
    assert_eq!(d.chunks.len(), 1);
    let h = &d.chunks[0];
    assert_eq!(h.lines.len(), 5);
    assert_eq!(h.lines[0].old_no, Some(1));
    assert_eq!(h.lines[0].new_no, Some(1));
    assert_eq!(d.deletions(), 1);
    assert_eq!(d.additions(), 2);
    assert_eq!(d.slice(&h.lines[1].text), "old two");
    assert_eq!(d.slice(&h.lines[2].text), "new two");
}

#[test]
fn detects_binary() {
    let raw = "diff --git a/img.png b/img.png\nBinary files a/img.png and b/img.png differ\n";
    let d = parse(raw);
    assert!(d.is_binary);
    assert!(d.chunks.is_empty());
}

#[test]
fn handles_multiple_chunks() {
    let raw = "@@ -1,1 +1,1 @@\n-a\n+b\n@@ -10,1 +10,1 @@\n-c\n+d\n";
    let d = parse(raw);
    assert_eq!(d.chunks.len(), 2);
    assert_eq!(d.chunks[1].lines[0].old_no, Some(10));
}

#[test]
fn chunk_hash_is_stable_and_content_sensitive() {
    let d = parse("@@ -1,1 +1,1 @@\n-a\n+b\n@@ -10,1 +10,1 @@\n-c\n+d\n");
    let d2 = parse("@@ -1,1 +1,1 @@\n-a\n+b\n@@ -10,1 +10,1 @@\n-c\n+d\n");
    assert_eq!(hash_chunk(&d, &d.chunks[0]), hash_chunk(&d2, &d2.chunks[0]));
    assert_ne!(hash_chunk(&d, &d.chunks[0]), hash_chunk(&d, &d.chunks[1]));
    let edited = parse("@@ -1,1 +1,1 @@\n-a\n+B\n@@ -10,1 +10,1 @@\n-c\n+d\n");
    assert_ne!(
        hash_chunk(&d, &d.chunks[0]),
        hash_chunk(&edited, &edited.chunks[0])
    );
    assert_eq!(
        hash_chunk(&d, &d.chunks[1]),
        hash_chunk(&edited, &edited.chunks[1])
    );
}

#[test]
fn file_hashes_cover_whole_and_each_chunk() {
    let d = parse("@@ -1,1 +1,1 @@\n-a\n+b\n@@ -10,1 +10,1 @@\n-c\n+d\n");
    let fh = file_hashes(&d);
    assert_eq!(fh.whole, hash_text(&d.text));
    assert_eq!(fh.chunks.len(), 2);
    assert_eq!(fh.chunks[0], hash_chunk(&d, &d.chunks[0]));
}

#[test]
fn the_hash_is_seahash() {
    assert_eq!(hash_text("abc"), seahash::hash(b"abc"));
    assert_eq!(hash_text(""), seahash::hash(b""));
    // A chunk's bytes are its header and its lines with their markers.
    let d = parse("@@ -1,1 +1,1 @@ fn f\n-a\n+b\n");
    assert_eq!(
        hash_chunk(&d, &d.chunks[0]),
        seahash::hash(b"@@ -1,1 +1,1 @@ fn f\n-a\n+b")
    );
}

#[test]
fn split_separates_files_and_classifies_kinds() {
    let raw = "diff --git a/src/lib.rs b/src/lib.rs\n\
        index 111..222 100644\n\
        --- a/src/lib.rs\n\
        +++ b/src/lib.rs\n\
        @@ -1,2 +1,2 @@\n\
        \x20keep\n\
        -old\n\
        +new\n\
        diff --git a/new.txt b/new.txt\n\
        new file mode 100644\n\
        index 000..333\n\
        --- /dev/null\n\
        +++ b/new.txt\n\
        @@ -0,0 +1,1 @@\n\
        +hello\n\
        diff --git a/gone.txt b/gone.txt\n\
        deleted file mode 100644\n\
        index 444..000\n\
        --- a/gone.txt\n\
        +++ /dev/null\n\
        @@ -1,1 +0,0 @@\n\
        -bye\n\
        diff --git a/old/name.rs b/new/name.rs\n\
        similarity index 100%\n\
        rename from old/name.rs\n\
        rename to new/name.rs\n";
    let files = split_unified(raw);
    assert_eq!(files.len(), 4);

    assert_eq!(files[0].0.path, "src/lib.rs");
    assert_eq!(files[0].0.kind, ChangeKind::Modified);
    assert_eq!(files[0].0.additions, 1);
    assert_eq!(files[0].0.deletions, 1);

    assert_eq!(files[1].0.path, "new.txt");
    assert_eq!(files[1].0.kind, ChangeKind::Added);
    assert_eq!(files[1].0.additions, 1);

    assert_eq!(files[2].0.path, "gone.txt");
    assert_eq!(files[2].0.kind, ChangeKind::Deleted);
    assert_eq!(files[2].0.deletions, 1);

    assert_eq!(files[3].0.path, "new/name.rs");
    assert_eq!(
        files[3].0.kind,
        ChangeKind::Renamed {
            from: "old/name.rs".to_string()
        }
    );
    assert!(files[3].1.chunks.is_empty());
}

#[test]
fn split_handles_binary_and_mode_only() {
    let raw = "diff --git a/img.png b/img.png\n\
        index 111..222 100644\n\
        Binary files a/img.png and b/img.png differ\n\
        diff --git a/run.sh b/run.sh\n\
        old mode 100644\n\
        new mode 100755\n";
    let files = split_unified(raw);
    assert_eq!(files.len(), 2);
    assert_eq!(files[0].0.path, "img.png");
    assert!(files[0].1.is_binary);
    assert_eq!(files[1].0.path, "run.sh");
    assert_eq!(files[1].0.kind, ChangeKind::Modified);
    assert!(files[1].1.chunks.is_empty());
}

#[test]
fn split_skips_combined_merge_diffs() {
    let raw = "diff --cc merged.rs\n\
        index 111,222..333\n\
        @@@ -1,1 -1,1 +1,1 @@@\n\
        - a\n\
        \x20-b\n\
        ++c\n\
        diff --git a/plain.rs b/plain.rs\n\
        --- a/plain.rs\n\
        +++ b/plain.rs\n\
        @@ -1,1 +1,1 @@\n\
        -x\n\
        +y\n";
    let files = split_unified(raw);
    assert_eq!(files.len(), 1);
    assert_eq!(files[0].0.path, "plain.rs");
}

#[test]
fn split_ignores_show_preamble_and_handles_no_prefix() {
    let raw = "commit deadbeef\n\
        Author: Someone <s@example.com>\n\
        \n\
        \x20   a commit message\n\
        \n\
        diff --git foo.rs foo.rs\n\
        --- foo.rs\n\
        +++ foo.rs\n\
        @@ -1,1 +1,1 @@\n\
        -a\n\
        +b\n";
    let files = split_unified(raw);
    assert_eq!(files.len(), 1);
    assert_eq!(files[0].0.path, "foo.rs");
    assert_eq!(files[0].0.additions, 1);
}

#[test]
fn split_unquotes_quoted_unicode_path() {
    let raw = "diff --git \"a/caf\\303\\251.txt\" \"b/caf\\303\\251.txt\"\n\
        --- \"a/caf\\303\\251.txt\"\n\
        +++ \"b/caf\\303\\251.txt\"\n\
        @@ -1,1 +1,1 @@\n\
        -a\n\
        +b\n";
    let files = split_unified(raw);
    assert_eq!(files.len(), 1);
    assert_eq!(files[0].0.path, "café.txt");
}

#[test]
fn split_empty_input_is_empty() {
    assert!(split_unified("").is_empty());
    assert!(split_unified("commit abc\n\n    no diff here\n").is_empty());
}

#[test]
fn chunk_header_starts() {
    assert_eq!(parse_chunk_header("@@ -10,3 +20,4 @@ fn main()"), (10, 20));
    assert_eq!(parse_chunk_header("@@ -7 +8 @@"), (7, 8));
    assert_eq!(parse_chunk_header("@@ -0,0 +1,2 @@"), (0, 1));
}

#[test]
fn no_newline_marker_has_no_numbers() {
    let d = parse("@@ -1,1 +1,1 @@\n-a\n\\ No newline at end of file\n+b\n");
    let lines = &d.chunks[0].lines;
    assert_eq!(lines[1].kind, LineKind::NoNewline);
    assert_eq!(lines[1].old_no, None);
    assert_eq!(lines[1].new_no, None);
    assert_eq!(lines[2].new_no, Some(1));
    assert_eq!(d.slice(&lines[1].text), "\\ No newline at end of file");
}

#[test]
fn invalid_utf8_in_a_diff_is_replaced() {
    let d = fetch_file_diff("x", b"@@ -1 +1 @@\n+a\xffb\n");
    assert_eq!(d.slice(&d.chunks[0].lines[0].text), "a\u{FFFD}b");
    assert_eq!(d.path, "x");
}

#[test]
fn diff_bases_and_arguments() {
    assert_eq!(detect_base(true), DiffBase::Head);
    assert_eq!(detect_base(false), DiffBase::EmptyTree);
    assert_eq!(DiffBase::Head.as_arg(), "HEAD");
    assert_eq!(
        DiffBase::EmptyTree.as_arg(),
        "4b825dc642cb6eb9a060e54bf8d69288fbee4904"
    );
    assert_eq!(head_args().first().map(String::as_str), Some("rev-parse"));

    let edited = ChangedFile::new("a.rs".to_string(), ChangeKind::Modified);
    let args = diff_args(DiffBase::Head, &edited);
    assert!(args.contains(&"HEAD".to_string()));
    assert_eq!(args.last().unwrap(), "a.rs");
    let fresh = ChangedFile::new("b.rs".to_string(), ChangeKind::Untracked);
    let args = diff_args(DiffBase::Head, &fresh);
    assert!(args.contains(&"--no-index".to_string()));
    assert!(args.contains(&"/dev/null".to_string()));
    assert_eq!(args.last().unwrap(), "b.rs");
}

#[test]
fn hashes_only_for_what_was_fetched() {
    let raw = b"@@ -1,1 +1,1 @@\n-a\n+b\n".to_vec();
    let fetched = vec![
        ("a.rs".to_string(), Some(raw.clone())),
        ("gone.rs".to_string(), None),
    ];
    let hashes = diff_hashes_for(&fetched);
    assert_eq!(hashes.len(), 1);
    let d = fetch_file_diff("a.rs", &raw);
    assert_eq!(hashes.get("a.rs").unwrap().whole, hash_text(&d.text));
    assert_eq!(
        hashes.get("a.rs").unwrap().chunks,
        vec![hash_chunk(&d, &d.chunks[0])]
    );
}

#[test]
fn paths_are_unquoted_and_kinds_classified() {
    assert_eq!(unquote_path("plain name"), "plain name");
    assert_eq!(unquote_path("\"tab\\there\""), "tab\there");
    let (path, kind) = classify_segment("diff --git a/x y b/x y\nold mode 1\nnew mode 2\n");
    assert_eq!(path, "x y");
    assert_eq!(kind, ChangeKind::Modified);
}

#[test]
fn shared_diffs_are_the_parsed_ones() {
    let files = split_unified("diff --git a/x b/x\n--- a/x\n+++ b/x\n@@ -1 +1 @@\n-a\n+b\n");
    let d: &Arc<FileDiff> = &files[0].1;
    assert_eq!(d.path, "x");
    assert_eq!(d.additions(), 1);
}

// ── numstat ────────────────────────────────────────────────────────────────

/// Join entries with NUL separators.
fn z(entries: &[&str]) -> Vec<u8> {
    let mut out = Vec::new();
    for e in entries {
        out.extend_from_slice(e.as_bytes());
        out.push(0);
    }
    out
}

#[test]
fn parses_normal_entries() {
    let raw = z(&["3\t1\tsrc/foo.rs", "10\t0\tnew.txt"]);
    let map = parse_numstat_z(&raw);
    assert_eq!(map.get("src/foo.rs"), Some(&(3, 1)));
    assert_eq!(map.get("new.txt"), Some(&(10, 0)));
}

#[test]
fn parses_rename_keyed_on_new_path() {
    let raw = z(&["2\t2\t", "old/name.rs", "new/name.rs"]);
    let map = parse_numstat_z(&raw);
    assert_eq!(map.get("new/name.rs"), Some(&(2, 2)));
    assert!(!map.contains_key("old/name.rs"));
}

#[test]
fn skips_binary_entries() {
    let raw = z(&["-\t-\timage.png"]);
    let map = parse_numstat_z(&raw);
    assert_eq!(map.len(), 0);
}

#[test]
fn handles_mixed_stream_with_rename() {
    let raw = z(&["5\t0\ta.rs", "7\t3\t", "from.rs", "to.rs", "-\t-\tbin.dat"]);
    let map = parse_numstat_z(&raw);
    assert_eq!(map.get("a.rs"), Some(&(5, 0)));
    assert_eq!(map.get("to.rs"), Some(&(7, 3)));
    assert_eq!(map.len(), 2);
}

#[test]
fn paths_with_spaces_survive() {
    let raw = z(&["1\t1\tdir/a b c.txt"]);
    let map = parse_numstat_z(&raw);
    assert_eq!(map.get("dir/a b c.txt"), Some(&(1, 1)));
}

#[test]
fn untracked_files_count_their_lines() {
    assert_eq!(untracked_additions(b"one\ntwo\n"), Some(2));
    assert_eq!(untracked_additions(b"one\ntwo"), Some(2));
    assert_eq!(untracked_additions(b""), Some(0));
    // A NUL byte means binary.
    assert_eq!(untracked_additions(b"one\0two\n"), None);
}

#[test]
fn counts_are_filled_in() {
    let mut files = vec![
        ChangedFile::new("a.rs".to_string(), ChangeKind::Modified),
        ChangedFile::new("new.rs".to_string(), ChangeKind::Untracked),
        ChangedFile::new("b.rs".to_string(), ChangeKind::Modified),
    ];
    let counts = tracked_counts(Ok(z(&["3\t1\ta.rs"])));
    fill_line_counts(
        &mut files,
        &counts,
        &vec![None, Some(b"x\ny\nz\n".to_vec()), None],
    );
    assert_eq!((files[0].additions, files[0].deletions), (3, 1));
    assert_eq!((files[1].additions, files[1].deletions), (3, 0));
    assert_eq!((files[2].additions, files[2].deletions), (0, 0));
    assert_eq!(tracked_counts(Err("boom".to_string())).len(), 0);
    assert!(numstat_args(DiffBase::Head).contains(&"--numstat".to_string()));
}

// ── status ─────────────────────────────────────────────────────────────────

#[test]
fn parses_ordinary_and_untracked() {
    let raw = b"1 .M N... 100644 100644 100644 abc abc src/foo.rs\0\
                1 A. N... 000000 100644 100644 000 def src/bar.rs\0\
                ? notes.txt\0";
    let files = parse_status_v2(raw);
    assert_eq!(files.len(), 3);
    assert_eq!(files[0].path, "src/foo.rs");
    assert_eq!(files[0].kind, ChangeKind::Modified);
    assert_eq!(files[1].kind, ChangeKind::Added);
    assert_eq!(files[2].kind, ChangeKind::Untracked);
}

#[test]
fn parses_rename_with_trailing_orig_path() {
    let raw = b"2 R. N... 100644 100644 100644 abc abc R100 new name.rs\0old name.rs\0";
    let files = parse_status_v2(raw);
    assert_eq!(files.len(), 1);
    assert_eq!(files[0].path, "new name.rs");
    assert_eq!(
        files[0].kind,
        ChangeKind::Renamed {
            from: "old name.rs".to_string()
        }
    );
}

#[test]
fn path_with_spaces_is_preserved() {
    let raw = b"1 .M N... 100644 100644 100644 abc abc dir/a b c.txt\0";
    let files = parse_status_v2(raw);
    assert_eq!(files[0].path, "dir/a b c.txt");
}

#[test]
fn status_letters_give_kinds() {
    assert_eq!(kind_from_xy(".D"), ChangeKind::Deleted);
    assert_eq!(kind_from_xy("A."), ChangeKind::Added);
    assert_eq!(kind_from_xy("M."), ChangeKind::Modified);
    let files = changed_files(b"? a\0? b\0").unwrap();
    assert_eq!(files.len(), 2);
    assert!(status_args().contains(&"--porcelain=v2".to_string()));
}

// ── running git ────────────────────────────────────────────────────────────

#[test]
fn the_repository_root_is_trimmed() {
    assert_eq!(
        discover("/home/u/repo/src", Ok(b"/home/u/repo\n".to_vec())),
        Ok("/home/u/repo".to_string())
    );
    let err = discover("/tmp", Err("fatal".to_string())).unwrap_err();
    assert!(err.contains("/tmp"), "{err}");
    assert_eq!(git_dir(b"/home/u/repo/.git\n"), "/home/u/repo/.git");
    assert!(discover_args().contains(&"--show-toplevel".to_string()));
    assert!(git_dir_args().contains(&"--absolute-git-dir".to_string()));
}

fn output(code: Option<i32>, stdout: &[u8], stderr: &[u8]) -> GitOutput {
    GitOutput {
        code,
        stdout: stdout.to_vec(),
        stderr: stderr.to_vec(),
    }
}

#[test]
fn exit_codes_decide() {
    let args = vec!["status".to_string()];
    assert_eq!(capture(output(Some(0), b"out", b""), &args), Ok(b"out".to_vec()));
    let err = capture(output(Some(128), b"", b"fatal: no\n"), &args).unwrap_err();
    assert!(err.contains("fatal: no"), "{err}");
    // A diff exits with 1 where there are differences.
    assert_eq!(capture_diff(output(Some(1), b"d", b""), &args), Ok(b"d".to_vec()));
    assert!(capture(output(Some(1), b"d", b""), &args).is_err());
    assert!(capture_diff(output(Some(2), b"", b"bad"), &args).is_err());
    assert!(capture_diff(output(None, b"", b""), &args).is_err());
    assert!(succeeds(Some(output(Some(0), b"", b""))));
    assert!(!succeeds(Some(output(Some(1), b"", b""))));
    assert!(!succeeds(None));
}

#[test]
fn a_changed_marker_changes_the_hash() {
    let a = parse("@@ -1,2 +1,2 @@\n a\n-b\n+c\n");
    let b = parse("@@ -1,2 +1,2 @@\n-a\n b\n+c\n");
    assert_ne!(hash_chunk(&a, &a.chunks[0]), hash_chunk(&b, &b.chunks[0]));
}

#[test]
fn a_folder_named_like_a_side_is_kept() {
    let rest: Vec<char> = "a/a/foo b/a/foo".chars().collect();
    assert_eq!(git_line_path(&rest).as_deref(), Some("a/foo"));
    let rest: Vec<char> = "a/x y b/x y".chars().collect();
    assert_eq!(git_line_path(&rest).as_deref(), Some("x y"));
    let (path, _) = classify_segment("diff --git a/b/run.sh b/b/run.sh\nold mode 1\nnew mode 2\n");
    assert_eq!(path, "b/run.sh");
}

#[test]
fn header_lines_only_move_the_ranges() {
    let head = "diff --git a/x b/x\nindex 1..2\n";
    let body = "@@ -3,1 +4,1 @@\n-a\n+b\n";
    let plain = parse(body);
    let moved = parse(&(head.to_string() + body));
    assert_eq!(plain.chunks.len(), moved.chunks.len());
    assert_eq!(plain.chunks[0].header.start + head.len(), moved.chunks[0].header.start);
    for (a, b) in plain.chunks[0].lines.iter().zip(&moved.chunks[0].lines) {
        assert_eq!((a.kind, a.old_no, a.new_no), (b.kind, b.old_no, b.new_no));
        assert_eq!(a.text.start + head.len(), b.text.start);
        assert_eq!(a.text.end + head.len(), b.text.end);
    }
}

#[test]
fn the_segments_make_the_whole_text() {
    let raw = "diff --git a/x b/x\n--- a/x\n+++ b/x\n@@ -1 +1 @@\n-a\n+b\ndiff --git a/y b/y\nold mode 1\nnew mode 2\n";
    let files = split_unified(raw);
    assert_eq!(files.len(), 2);
    let joined: String = files.iter().map(|(_, d)| d.text.as_str()).collect();
    assert_eq!(joined, raw);
    for (f, d) in &files {
        assert!(d.text.starts_with("diff --git "));
        assert_eq!(d.path, f.path);
        let again = parse_unified(d.text.clone(), f.path.clone());
        assert_eq!(again.chunks.len(), d.chunks.len());
        assert_eq!((f.additions, f.deletions), (again.additions(), again.deletions()));
    }
}
