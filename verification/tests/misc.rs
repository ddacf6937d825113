use hunkr::editor::editor_command;
use hunkr::event::{files_to_hash, latest, refresh_failed, Event};
use hunkr::git::diff::parse_unified;
use hunkr::glyphs::Glyphs;
use hunkr::model::diff::FileDiff;
use hunkr::model::file::{ChangeKind, ChangedFile};
use hunkr::model::review::ReviewStatus;
use hunkr::pager::{piped_files, strip_ansi};
use hunkr::reference::{
    base64_encode, build_hunk_reference, copy, new_line_range, osc52_sequence, CopyMethod, CopyStep,
};
use hunkr::render::sanitize;
use hunkr::render::viewport::{clamp_offset, visible_range};
use hunkr::watch::{is_relevant, Burst, DEBOUNCE_MS};

// ── references ─────────────────────────────────────────────────────────────

fn diff(raw: &str) -> FileDiff {
    parse_unified(raw.to_string(), "src/foo.rs".to_string())
}

#[test]
fn reference_is_path_and_line_range() {
    let raw = "@@ -10,3 +10,4 @@ fn main()\n keep\n-old\n+new\n+extra\n";
    // New-file line numbers present are 10 (keep), 11 (new), 12 (extra).
    assert_eq!(build_hunk_reference(&diff(raw), 0), "src/foo.rs:10-12");
}

#[test]
fn single_line_reference_omits_the_range() {
    let raw = "@@ -5,1 +5,1 @@\n-before\n+after\n";
    assert_eq!(build_hunk_reference(&diff(raw), 0), "src/foo.rs:5");
}

#[test]
fn base64_matches_known_vectors() {
    assert_eq!(base64_encode(b""), "");
    assert_eq!(base64_encode(b"f"), "Zg==");
    assert_eq!(base64_encode(b"fo"), "Zm8=");
    assert_eq!(base64_encode(b"foo"), "Zm9v");
    assert_eq!(base64_encode(b"foobar"), "Zm9vYmFy");
}

#[test]
fn copying_falls_back_to_the_terminal() {
    assert_eq!(osc52_sequence("foo"), "\x1b]52;c;Zm9v\x07");
    assert!(matches!(copy("foo", true), CopyStep::Done(CopyMethod::Clipboard)));
    match copy("foo", false) {
        CopyStep::Terminal(s) => assert_eq!(s, "\x1b]52;c;Zm9v\x07"),
        _ => panic!("expected the escape sequence"),
    }
    assert_ne!(CopyMethod::Clipboard.name(), CopyMethod::Osc52.name());
}

#[test]
fn a_chunk_without_new_lines_has_a_range() {
    let d = diff("@@ -3,1 +2,0 @@\n-gone\n");
    assert_eq!(new_line_range(&d.chunks[0]), (3, 3));
}

// ── text on the screen ─────────────────────────────────────────────────────

#[test]
fn strips_control_and_escape_bytes() {
    let evil = "src/\x1b[31mfoo\x07.rs\tok";
    let clean = sanitize(evil);
    assert!(!clean.contains('\x1b'), "ESC must be removed: {clean:?}");
    assert!(!clean.contains('\x07'), "BEL must be removed: {clean:?}");
    assert!(clean.contains("foo"));
    assert!(clean.contains('\t'), "tab is preserved for the caller");
    assert_eq!(clean, "src/\u{FFFD}[31mfoo\u{FFFD}.rs\tok");
}

#[test]
fn leaves_plain_text_untouched() {
    assert_eq!(sanitize("src/main.rs"), "src/main.rs");
}

#[test]
fn clamp_never_exceeds_max() {
    // 100 rows, viewport 10 → max top offset is 90.
    assert_eq!(clamp_offset(95, 10, 100), 90);
    assert_eq!(clamp_offset(50, 10, 100), 50);
    assert_eq!(clamp_offset(0, 10, 100), 0);
}

#[test]
fn small_content_pins_to_top() {
    // Fewer rows than the viewport → always offset 0.
    assert_eq!(clamp_offset(5, 20, 3), 0);
    assert_eq!(visible_range(5, 20, 3), 0..3);
}

#[test]
fn window_is_height_bounded() {
    assert_eq!(visible_range(40, 10, 100), 40..50);
    // Clamped at the bottom.
    assert_eq!(visible_range(200, 10, 100), 90..100);
}

#[test]
fn status_glyphs() {
    let g = Glyphs::ascii();
    assert_eq!(g.status(ReviewStatus::Reviewed), "[x]");
    assert_eq!(g.status(ReviewStatus::Unreviewed), "[ ]");
    let g = Glyphs::unicode();
    assert_eq!(g.status(ReviewStatus::Reviewed), "✓");
    assert_eq!(g.status(ReviewStatus::Unreviewed), "●");
    assert_eq!(g.partial, "◐");
}

// ── pager mode ─────────────────────────────────────────────────────────────

#[test]
fn colour_is_stripped_from_piped_diffs() {
    assert_eq!(strip_ansi("plain"), "plain");
    assert_eq!(strip_ansi("\x1b[31m-old\x1b[0m"), "-old");
    assert_eq!(strip_ansi("a\x1bb"), "ab");
    assert_eq!(strip_ansi("a\x1b[12"), "a");
    assert_eq!(strip_ansi("é\x1b[1;32mü"), "éü");
    // What is not ASCII is no part of a sequence.
    assert_eq!(strip_ansi("a\x1b[31éb"), "aéb");
}

#[test]
fn piped_diffs_are_parsed_through_colour() {
    let raw = b"\x1b[1mdiff --git a/x b/x\x1b[m\n--- a/x\n+++ b/x\n@@ -1 +1 @@\n\x1b[31m-a\x1b[m\n\x1b[32m+b\x1b[m\n";
    let (files, diffs) = piped_files(raw).unwrap();
    assert_eq!(files.len(), 1);
    assert_eq!(files[0].path, "x");
    let d = diffs.get("x").unwrap();
    assert_eq!(d.slice(&d.chunks[0].lines[1].text), "b");
    assert!(piped_files(b"").is_none());
    assert!(piped_files(b"nothing to see\n").is_none());
}

// ── the editor ─────────────────────────────────────────────────────────────

#[test]
fn editors_are_started_at_the_line_they_accept() {
    let args = |e: &str, l| editor_command(e, "/r/a b.rs", l);
    assert_eq!(
        args("vim", Some(7)).unwrap(),
        vec!["vim", "+7", "/r/a b.rs"]
    );
    assert_eq!(
        args("/usr/bin/nvim -p", Some(7)).unwrap(),
        vec!["/usr/bin/nvim", "-p", "+7", "/r/a b.rs"]
    );
    assert_eq!(
        args("code -w", Some(7)).unwrap(),
        vec!["code", "-w", "/r/a b.rs"]
    );
    assert_eq!(args("vi", None).unwrap(), vec!["vi", "/r/a b.rs"]);
    assert_eq!(args("  ", Some(1)), None);
}

// ── background events ──────────────────────────────────────────────────────

#[test]
fn requests_coalesce_to_the_latest() {
    assert_eq!(latest(1, vec![]), 1);
    assert_eq!(latest(1, vec![2, 3]), 3);
}

#[test]
fn only_reviewed_files_are_hashed() {
    let files = vec![
        ChangedFile::new("a".to_string(), ChangeKind::Modified),
        ChangedFile::new("b".to_string(), ChangeKind::Added),
    ];
    let wanted = files_to_hash(&files, &vec!["b".to_string(), "c".to_string()]);
    assert_eq!(wanted.len(), 1);
    assert_eq!(wanted[0].path, "b");
    assert_eq!(wanted[0].kind, ChangeKind::Added);
    match refresh_failed("no git") {
        Event::Error(text) => assert_eq!(text, "git refresh failed: no git"),
        _ => panic!("expected an error"),
    }
}

// ── watching ───────────────────────────────────────────────────────────────

fn ev(paths: &[&str]) -> Result<Vec<String>, String> {
    Ok(paths.iter().map(|p| p.to_string()).collect())
}

#[test]
fn ignores_index_and_lock_churn() {
    let git = "/repo/.git";
    // `git status` itself touches these — watching them would loop.
    assert!(!is_relevant(&ev(&["/repo/.git/index"]), git));
    assert!(!is_relevant(&ev(&["/repo/.git/index.lock"]), git));
    assert!(!is_relevant(&ev(&["/repo/.git/objects/ab/cdef0123"]), git));
}

#[test]
fn reacts_to_worktree_changes() {
    let git = "/repo/.git";
    assert!(is_relevant(&ev(&["/repo/src/main.rs"]), git));
}

#[test]
fn reacts_to_ref_and_head_updates() {
    let git = "/repo/.git";
    // Commit / checkout / reset / fetch all surface through these paths,
    // and a passive `git status` never touches them.
    assert!(is_relevant(&ev(&["/repo/.git/HEAD"]), git));
    assert!(is_relevant(&ev(&["/repo/.git/refs/heads/main"]), git));
    assert!(is_relevant(&ev(&["/repo/.git/refs/tags/v1"]), git));
    assert!(is_relevant(&ev(&["/repo/.git/packed-refs"]), git));
    assert!(is_relevant(&ev(&["/repo/.git/ORIG_HEAD"]), git));
}

#[test]
fn mixed_burst_with_any_worktree_path_is_relevant() {
    let git = "/repo/.git";
    assert!(is_relevant(
        &ev(&["/repo/.git/index", "/repo/src/main.rs"]),
        git
    ));
}

#[test]
fn pathless_or_errored_events_are_ignored() {
    let git = "/repo/.git";
    assert!(!is_relevant(&ev(&[]), git));
    assert!(!is_relevant(&Err("boom".to_string()), git));
}

#[test]
fn a_burst_ends_with_a_quiet_period() {
    let git = "/repo/.git";
    let mut burst = Burst::open(&ev(&["/repo/.git/index"]), git, 1000);
    assert!(!burst.relevant);
    assert_eq!(burst.remaining(1000), Some(DEBOUNCE_MS));
    burst.absorb(&ev(&["/repo/a"]), git, 1100);
    assert!(burst.relevant);
    burst.absorb(&ev(&["/repo/.git/index.lock"]), git, 1200);
    assert!(burst.relevant);
    // It is over when nothing came for a while.
    assert_eq!(burst.remaining(1000 + DEBOUNCE_MS), Some(200));
    assert_eq!(burst.remaining(1200 + DEBOUNCE_MS), None);
}
