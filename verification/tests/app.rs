use std::collections::HashSet;
use std::sync::Arc;

use hunkr::app::events::TerminalEvent;
use hunkr::app::fuzzy::{fuzzy_filter, fuzzy_score};
use hunkr::app::rows::{build_rows, build_side_rows};
use hunkr::app::state::{
    MIN_DIFF_WIDTH, MIN_TREE_WIDTH, MOUSE_SCROLL_LINES, TOAST_TTL_MS, TREE_RESIZE_STEP,
};
use hunkr::app::types::{
    Clock, Effect, Focus, HighlightRequest, KeyEvent, Mode, MouseEvent, MouseKind, RowRef, SideRow,
    ViewMode,
};
use hunkr::app::App;
use hunkr::config::action::Action;
use hunkr::config::chord::{KeyCode, KeyModifiers};
use hunkr::config::load::{ChordSpec, Config, ConfigSource, RawConfig};
use hunkr::event::Event;
use hunkr::git::diff::{diff_hashes_for, parse_unified, DiffBase};
use hunkr::glyphs::Glyphs;
use hunkr::highlight::FileHighlight;
use hunkr::model::file::{ChangeKind, ChangedFile};
use hunkr::model::review::ReviewStatus;
use hunkr::model::snapshot::GitSnapshot;
use hunkr::pager::piped_files;
use hunkr::persist::HiddenStore;
use hunkr::reference::CopyMethod;
use hunkr::render::style::Color;

const NOW: Clock = Clock { millis: 1000, unix: 50 };

fn file(p: &str) -> ChangedFile {
    ChangedFile::new(p.to_string(), ChangeKind::Modified)
}

fn app(files: Vec<ChangedFile>) -> App {
    App::with_files(
        "/repo".to_string(),
        DiffBase::Head,
        files,
        true,
        Glyphs::unicode(),
        "/home/u/.config/hunkr/config.toml".to_string(),
    )
}

fn key(c: char) -> KeyEvent {
    press(KeyCode::Char(c))
}

fn press(code: KeyCode) -> KeyEvent {
    KeyEvent {
        code,
        modifiers: KeyModifiers::none(),
        release: false,
    }
}

fn shifted(code: KeyCode) -> KeyEvent {
    KeyEvent {
        code,
        modifiers: KeyModifiers::shift_only(),
        release: false,
    }
}

fn current_path(a: &App) -> Option<String> {
    a.current_file_index().map(|i| a.files[i].path.clone())
}

fn visible_paths(a: &App) -> Vec<String> {
    a.tree
        .visible
        .iter()
        .filter_map(|&n| a.tree.nodes[n].file)
        .map(|fi| a.files[fi].path.clone())
        .collect()
}

/// Put a diff of the first file in view.
fn set_diff(a: &mut App, raw: &str, path: &str) {
    a.adopt_diff(0, Arc::new(parse_unified(raw.to_string(), path.to_string())));
    a.focus = Focus::Diff;
}

fn effects(a: &mut App) -> Vec<Effect> {
    let mut out = Vec::new();
    while let Some(e) = a.take_effect() {
        out.push(e);
    }
    out
}

fn highlight_requests(a: &mut App) -> Vec<HighlightRequest> {
    effects(a)
        .into_iter()
        .filter_map(|e| match e {
            Effect::Highlight(r) => Some(r),
            _ => None,
        })
        .collect()
}

fn prefetch_requests(a: &mut App) -> Vec<HighlightRequest> {
    effects(a)
        .into_iter()
        .filter_map(|e| match e {
            Effect::Prefetch(r) => Some(r),
            _ => None,
        })
        .collect()
}

fn dummy() -> Arc<FileHighlight> {
    Arc::new(FileHighlight {
        chunks: Vec::new(),
        add_bg: Color::Reset,
        del_bg: Color::Reset,
    })
}

fn raw_config() -> RawConfig {
    RawConfig {
        view: None,
        reviewed_chunks: None,
        syntax: None,
        theme: None,
        max_lines: None,
        hide_names: Vec::new(),
        hide_patterns: Vec::new(),
        keys: Vec::new(),
    }
}

#[test]
fn apply_files_keeps_cursor_on_same_path() {
    let mut a = app(vec![file("a.rs"), file("src/b.rs")]);
    a.tree_cursor = a.cursor_for_path("src/b.rs").unwrap();

    // A new file appears; the cursor should still sit on src/b.rs.
    a.apply_files(
        vec![file("a.rs"), file("src/b.rs"), file("src/c.rs")],
        &Some("src/b.rs".to_string()),
    );
    assert_eq!(current_path(&a).as_deref(), Some("src/b.rs"));
}

#[test]
fn apply_files_snaps_to_first_when_path_gone() {
    let mut a = app(vec![file("a.rs"), file("b.rs")]);
    a.tree_cursor = a.cursor_for_path("b.rs").unwrap();

    // The selected file disappeared; fall back to the first file.
    a.apply_files(vec![file("a.rs")], &Some("b.rs".to_string()));
    assert_eq!(current_path(&a).as_deref(), Some("a.rs"));
}

#[test]
fn apply_files_leaves_the_shown_file_alone() {
    let mut a = app(vec![file("a.rs"), file("b.rs")]);
    a.diff_file = Some(1);
    a.apply_files(vec![file("b.rs")], &None);
    assert_eq!(a.diff_file, Some(1));
}

#[test]
fn a_new_app_keeps_its_config_path() {
    assert_eq!(app(Vec::new()).config_path, "/home/u/.config/hunkr/config.toml");
}

fn pager(raw: &str) -> App {
    let (files, diffs) = piped_files(raw.as_bytes()).unwrap();
    App::from_diff(
        app(files),
        diffs,
        Config::default(),
        "/x".to_string(),
        Vec::new(),
    )
}

#[test]
fn pager_mode_serves_preloaded_diffs_without_git() {
    let raw = "diff --git a/one.rs b/one.rs\n\
        --- a/one.rs\n\
        +++ b/one.rs\n\
        @@ -1,1 +1,1 @@\n\
        -a\n\
        +b\n\
        diff --git a/two.rs b/two.rs\n\
        --- a/two.rs\n\
        +++ b/two.rs\n\
        @@ -1,1 +1,2 @@\n\
        \x20keep\n\
        +added\n";
    let mut a = pager(raw);
    assert!(!a.live);
    // First file is hydrated on construction.
    assert_eq!(a.diff.as_ref().unwrap().path, "one.rs");

    // Move to the second file → its preloaded diff is served.
    a.dispatch(Action::NextFile, NOW);
    assert_eq!(a.diff.as_ref().unwrap().path, "two.rs");

    // A mutating action is inert in pager mode (no panic, no review record).
    a.dispatch(Action::ToggleChunkReviewed, NOW);
    assert!(a.review.reviewed_paths().is_empty());
    // Nothing of this needed git.
    assert!(!effects(&mut a).iter().any(|e| matches!(e, Effect::Load { .. })));
}

#[test]
fn filter_narrows_to_matching_files_and_esc_clears() {
    let mut a = app(vec![
        file("src/foo.rs"),
        file("src/bar.rs"),
        file("README.md"),
    ]);

    a.on_key(key('/'), NOW); // enter filter mode
    assert_eq!(a.mode, Mode::Filter);
    a.on_key(key('b'), NOW); // query "b" → only src/bar.rs matches
    a.on_key(key('a'), NOW);
    a.on_key(key('r'), NOW);
    assert_eq!(visible_paths(&a), vec!["src/bar.rs"]);

    // Esc cancels the filter and restores the full hierarchical view.
    a.on_key(press(KeyCode::Esc), NOW);
    assert_eq!(a.mode, Mode::Normal);
    assert!(!a.is_filtering());
    assert!(a.tree.visible.len() > 1);
}

#[test]
fn filtering_ignores_case() {
    let mut a = app(vec![file("src/foo.rs"), file("README.md")]);
    a.on_key(key('/'), NOW);
    for c in "rEAd".chars() {
        a.on_key(key(c), NOW);
    }
    assert_eq!(visible_paths(&a), vec!["README.md"]);
    // Enter keeps the filter, backspace edits it.
    a.on_key(press(KeyCode::Backspace), NOW);
    a.on_key(press(KeyCode::Enter), NOW);
    assert_eq!(a.mode, Mode::Normal);
    assert_eq!(a.filter, "rEA");
    assert!(a.is_filtering());
}

#[test]
fn h_hides_selected_file_and_advances_to_next() {
    let mut a = app(vec![file("a.rs"), file("b.rs"), file("c.rs")]);
    a.tree_cursor = a.first_file_cursor().unwrap();
    assert_eq!(current_path(&a).as_deref(), Some("a.rs"));

    a.on_key(key('h'), NOW);

    assert_eq!(a.hidden_count(), 1);
    assert!(a.hidden.is_hidden("a.rs"));
    // a.rs is gone from the sidebar; the selection advanced to the next file.
    assert!(!visible_paths(&a).contains(&"a.rs".to_string()));
    assert_eq!(
        current_path(&a).as_deref(),
        Some("b.rs"),
        "selection should move to the next file after hiding"
    );
    assert!(effects(&mut a).iter().any(|e| matches!(e, Effect::SaveHidden)));
}

#[test]
fn capital_h_shows_hidden_view_and_h_there_unhides() {
    let mut a = app(vec![file("a.rs"), file("b.rs")]);
    a.tree_cursor = a.first_file_cursor().unwrap();
    a.on_key(key('h'), NOW); // hide a.rs
    assert_eq!(a.hidden_count(), 1);

    a.on_key(key('H'), NOW); // enter the hidden-only view
    assert!(a.hidden_view);
    assert_eq!(
        visible_paths(&a),
        vec!["a.rs"],
        "hidden view should show only the hidden file"
    );

    // The same `h` action un-hides here (the selected file is already hidden).
    a.tree_cursor = a.first_file_cursor().unwrap();
    a.on_key(key('h'), NOW);
    assert_eq!(a.hidden_count(), 0);
    assert!(!a.hidden.is_hidden("a.rs"));
    assert!(
        a.tree.visible.is_empty(),
        "nothing left to show once the last hidden file is restored"
    );
}

#[test]
fn hidden_files_stay_hidden_when_toggling_a_folder() {
    let mut a = app(vec![file("src/a.rs"), file("src/b.rs"), file("README.md")]);
    a.tree_cursor = a.cursor_for_path("src/a.rs").unwrap();
    a.on_key(key('h'), NOW); // hide src/a.rs
    assert!(a.hidden.is_hidden("src/a.rs"));
    assert!(!visible_paths(&a).contains(&"src/a.rs".to_string()));

    // Collapse then expand the src/ folder via Enter.
    let src = a
        .tree
        .visible
        .iter()
        .position(|&n| a.tree.nodes[n].name == "src" && a.tree.nodes[n].file.is_none())
        .unwrap();
    a.tree_cursor = src;
    a.on_key(press(KeyCode::Enter), NOW); // collapse
    a.on_key(press(KeyCode::Enter), NOW); // expand

    assert!(
        !visible_paths(&a).contains(&"src/a.rs".to_string()),
        "hidden file must not reappear after toggling its folder"
    );
    assert!(visible_paths(&a).contains(&"src/b.rs".to_string()));
}

#[test]
fn rebound_key_dispatches_through_the_keymap() {
    let mut raw = raw_config();
    raw.keys = vec![
        ("quit".to_string(), ChordSpec::One("x".to_string())),
        ("toggle_view".to_string(), ChordSpec::One("v".to_string())),
    ];
    let (config, warns) = Config::load(ConfigSource::Parsed(raw));
    assert!(warns.is_empty(), "unexpected warnings: {warns:?}");

    let mut a = app(vec![file("a.rs")]);
    a.config = config;
    assert_eq!(a.view, ViewMode::Unified);

    a.on_key(key('v'), NOW); // rebound toggle_view
    assert_eq!(
        a.view,
        ViewMode::SideBySide,
        "rebound key should toggle the view"
    );

    a.on_key(key('s'), NOW); // the old default is no longer bound
    assert_eq!(
        a.view,
        ViewMode::SideBySide,
        "the freed default must not still toggle"
    );

    a.on_key(key('x'), NOW); // rebound quit
    assert!(a.should_quit, "rebound quit key should quit");
}

#[test]
fn toast_shows_then_auto_expires() {
    let mut a = app(vec![file("a.rs")]);
    a.show_toast("copied".to_string(), NOW);
    assert!(a.toast.is_some());

    // Not yet expired → expire_toast leaves it in place.
    a.expire_toast(NOW);
    assert!(
        a.toast.is_some(),
        "a live toast must not be dismissed early"
    );

    // Once its time is over, the next tick clears it and repaints.
    a.dirty = false;
    a.expire_toast(Clock {
        millis: NOW.millis + TOAST_TTL_MS + 1,
        unix: NOW.unix,
    });
    assert!(a.toast.is_none(), "an elapsed toast must auto-dismiss");
    assert!(a.dirty, "dismissing a toast must request a repaint");
}

#[test]
fn config_error_persists_across_keypress_and_clears_on_clean_reload() {
    let mut a = app(vec![file("a.rs")]);

    // A malformed config records a persistent error and keeps the defaults.
    a.reload_config(ConfigSource::Malformed("broken\nat line 1".to_string()));
    assert!(
        a.config_error.is_some(),
        "malformed config should set an error"
    );

    // The error survives a keypress (unlike the transient status message).
    a.on_key(key('j'), NOW);
    assert!(
        a.config_error.is_some(),
        "config error must persist across keypresses until fixed"
    );

    // Fixing the file and reloading clears the error.
    let mut raw = raw_config();
    raw.view = Some("unified".to_string());
    a.reload_config(ConfigSource::Parsed(raw));
    assert!(
        a.config_error.is_none(),
        "a clean reload should clear the error"
    );
}

#[test]
fn config_hide_rule_drops_file_from_sidebar() {
    let mut raw = raw_config();
    raw.hide_patterns = vec!["\\.lock$".to_string()];
    let (config, warns) = Config::load(ConfigSource::Parsed(raw));
    assert!(warns.is_empty(), "unexpected warnings: {warns:?}");

    let mut a = app(vec![file("a.rs"), file("b.lock"), file("c.rs")]);
    a.config = config;
    a.recompute_view();

    assert!(a.is_file_hidden(1), "b.lock should match the config rule");
    assert!(!visible_paths(&a).contains(&"b.lock".to_string()));
    assert_eq!(a.hidden_count(), 1);
    assert_eq!(a.shown_count(), 2);

    // The hidden view reveals the rule-hidden file.
    a.on_key(key('H'), NOW);
    assert_eq!(visible_paths(&a), vec!["b.lock"]);
}

#[test]
fn hidden_files_stay_hidden_across_a_refresh() {
    let mut a = app(vec![file("a.rs"), file("b.rs")]);
    a.tree_cursor = a.first_file_cursor().unwrap();
    a.on_key(key('h'), NOW); // hide a.rs
    assert!(a.hidden.is_hidden("a.rs"));

    // A hot-reload brings the same file list back.
    a.reconcile(GitSnapshot {
        files: vec![file("a.rs"), file("b.rs")],
        hashes: diff_hashes_for(&Vec::new()),
    });

    assert!(
        a.hidden.is_hidden("a.rs"),
        "hide must survive a refresh"
    );
    assert!(
        !visible_paths(&a).contains(&"a.rs".to_string()),
        "hidden file must stay out of the sidebar after a refresh"
    );
}

#[test]
fn side_rows_pair_deletions_with_additions() {
    let raw = "@@ -1,4 +1,4 @@\n ctx\n-old1\n-old2\n+new1\n+new2\n+new3\n";
    let fd = parse_unified(raw.to_string(), "x".to_string());
    let (rows, starts) = build_side_rows(&fd, &vec![]);

    assert_eq!(starts, vec![0]);
    assert!(matches!(rows[0], SideRow::Header(0)));
    // ctx pair + max(2 deletions, 3 additions) = 4 pairs.
    let pairs = rows
        .iter()
        .filter(|r| matches!(r, SideRow::Pair { .. }))
        .count();
    assert_eq!(pairs, 4);
    // The 2 deletions pair with the first 2 additions; the 3rd addition has
    // an empty left cell.
    match rows[4] {
        SideRow::Pair { left, right } => {
            assert!(left.is_none(), "expected empty old side for extra addition");
            assert!(right.is_some());
        }
        _ => panic!("expected a Pair row"),
    }
}

#[test]
fn folded_chunks_keep_their_header_row() {
    let raw = "@@ -1 +1 @@\n-a\n+b\n@@ -9 +9 @@\n c\n";
    let fd = parse_unified(raw.to_string(), "x".to_string());
    let (rows, starts) = build_rows(&fd, &vec![true, false]);
    assert_eq!(
        rows,
        vec![RowRef::Header(0), RowRef::Header(1), RowRef::Line(1, 0)]
    );
    assert_eq!(starts, vec![0, 1]);
    let (rows, starts) = build_side_rows(&fd, &vec![true, false]);
    assert_eq!(rows.len(), 3);
    assert_eq!(starts, vec![0, 1]);
}

#[test]
fn e_requests_editor_at_top_visible_line() {
    let mut a = app(vec![file("src/foo.rs")]);
    a.tree_cursor = a.cursor_for_path("src/foo.rs").unwrap();
    set_diff(&mut a, "@@ -10,2 +20,2 @@\n ctx\n-old\n+new\n", "src/foo.rs");

    a.on_key(key('e'), NOW);
    let req = a.take_editor_request().expect("expected an editor request");
    assert_eq!(req.path, "src/foo.rs");
    // Top of the viewport is the chunk header → first new-file line is 20.
    assert_eq!(req.line, 20);
}

#[test]
fn e_refuses_to_open_a_deleted_file() {
    let mut a = app(vec![ChangedFile::new(
        "gone.rs".to_string(),
        ChangeKind::Deleted,
    )]);
    a.tree_cursor = a.cursor_for_path("gone.rs").unwrap();

    a.on_key(key('e'), NOW);
    assert!(a.take_editor_request().is_none());
    assert!(a.error.is_some());
}

/// A single-file app whose diff has three independent chunks.
fn multi_chunk_app() -> App {
    let mut a = app(vec![file("src/foo.rs")]);
    a.tree_cursor = a.cursor_for_path("src/foo.rs").unwrap();
    let raw = "@@ -1,2 +1,2 @@\n a\n-b\n+B\n\
               @@ -10,2 +10,2 @@\n c\n-d\n+D\n\
               @@ -20,2 +20,2 @@\n e\n-f\n+F\n";
    set_diff(&mut a, raw, "src/foo.rs");
    a
}

#[test]
fn r_marks_current_chunk_collapses_it_and_advances() {
    let mut a = multi_chunk_app();
    assert_eq!(a.current_chunk, 0);

    a.on_key(key('r'), NOW);

    assert!(a.chunk_reviewed(0), "chunk 0 should be reviewed");
    assert!(a.chunk_collapsed[0], "reviewed chunk collapses by default");
    assert_eq!(a.current_chunk, 1, "cursor advances to the next chunk");
    assert_eq!(
        a.review_status(0),
        ReviewStatus::Unreviewed,
        "file isn't done until every chunk is reviewed"
    );
    assert_eq!(a.reviewed_chunk_count(0), (1, 3));
    assert!(effects(&mut a).iter().any(|e| matches!(e, Effect::SaveReview)));
}

#[test]
fn reviewing_every_chunk_completes_the_file() {
    let mut a = multi_chunk_app();
    a.on_key(key('r'), NOW);
    a.on_key(key('r'), NOW);
    a.on_key(key('r'), NOW);

    assert_eq!(a.review_status(0), ReviewStatus::Reviewed);
    assert_eq!(a.reviewed_chunk_count(0), (3, 3));
    assert_eq!(a.reviewed_paths(), vec!["src/foo.rs"]);
    assert_eq!(a.review.get("src/foo.rs").unwrap().reviewed_at, NOW.unix);
}

#[test]
fn capital_r_toggles_the_whole_file() {
    let mut a = multi_chunk_app();

    a.on_key(key('R'), NOW);
    assert_eq!(a.review_status(0), ReviewStatus::Reviewed);
    assert!(a.chunk_collapsed.iter().all(|c| *c), "all chunks collapse");

    a.on_key(key('R'), NOW);
    assert_eq!(a.review_status(0), ReviewStatus::Unreviewed);
    assert!(
        a.chunk_collapsed.iter().all(|c| !*c),
        "un-marking reveals every chunk"
    );
}

#[test]
fn o_expands_all_chunks_without_unreviewing() {
    let mut a = multi_chunk_app();
    a.on_key(key('R'), NOW); // mark whole file → everything collapses
    assert!(a.chunk_collapsed.iter().all(|c| *c));

    a.on_key(key('o'), NOW);

    assert!(
        a.chunk_collapsed.iter().all(|c| !*c),
        "expand-all reveals every chunk"
    );
    assert_eq!(
        a.review_status(0),
        ReviewStatus::Reviewed,
        "expanding must not change reviewed state"
    );
    assert!(a.chunk_reviewed(0));
}

#[test]
fn a_changed_chunk_is_unreviewed_again() {
    let mut a = multi_chunk_app();
    a.on_key(key('R'), NOW);
    let changed = b"@@ -1,2 +1,2 @@\n a\n-b\n+X\n\
               @@ -10,2 +10,2 @@\n c\n-d\n+D\n\
               @@ -20,2 +20,2 @@\n e\n-f\n+F\n";
    a.finish_load(0, None, Ok(changed.to_vec()), &None);
    assert!(!a.chunk_reviewed(0));
    assert!(a.chunk_reviewed(1));
    assert_eq!(a.review_status(0), ReviewStatus::Unreviewed);
    assert_eq!(a.reviewed_chunk_count(0), (2, 3));
}

#[test]
fn question_mark_toggles_help_and_any_key_closes() {
    let mut a = app(vec![file("a.rs")]);
    a.on_key(key('?'), NOW);
    assert_eq!(a.mode, Mode::Help);
    // In help mode, a normally-quit key just closes the overlay.
    a.on_key(key('q'), NOW);
    assert_eq!(a.mode, Mode::Normal);
    assert!(!a.should_quit);
}

#[test]
fn releases_are_ignored() {
    let mut a = app(vec![file("a.rs")]);
    let mut up = key('q');
    up.release = true;
    a.on_key(up, NOW);
    assert!(!a.should_quit);
    a.on_key(key('q'), NOW);
    assert!(a.should_quit);
}

/// A single-file app whose diff has plenty of rows to scroll through.
fn scrollable_diff_app() -> App {
    let mut a = app(vec![file("src/foo.rs")]);
    a.tree_cursor = a.cursor_for_path("src/foo.rs").unwrap();
    let mut raw = String::from("@@ -1,30 +1,30 @@\n");
    for i in 0..30 {
        raw.push_str(&format!(" line{i}\n"));
    }
    set_diff(&mut a, &raw, "src/foo.rs");
    a
}

#[test]
fn shift_arrows_page_the_diff() {
    let mut a = scrollable_diff_app();
    a.diff_height = 5;

    a.on_key(shifted(KeyCode::Down), NOW);
    assert_eq!(
        a.scroll, 5,
        "Shift+Down should page down by the viewport height"
    );

    a.on_key(shifted(KeyCode::Up), NOW);
    assert_eq!(a.scroll, 0, "Shift+Up should page back to the top");
}

#[test]
fn scrolling_stops_at_the_ends() {
    let mut a = scrollable_diff_app();
    a.diff_height = 5;
    a.on_key(key('G'), NOW);
    assert_eq!(a.scroll, 26);
    a.on_key(shifted(KeyCode::Down), NOW);
    assert_eq!(a.scroll, 26);
    a.on_key(key('g'), NOW);
    assert_eq!(a.scroll, 0);
    assert_eq!(a.current_line(), Some(1));
}

fn mouse(kind: MouseKind, column: u16) -> MouseEvent {
    MouseEvent { kind, column }
}

#[test]
fn mouse_wheel_over_diff_scrolls_it() {
    let mut a = scrollable_diff_app();
    a.diff_height = 5;
    a.diff_x = 44;

    a.on_mouse(mouse(MouseKind::ScrollDown, 60));
    assert_eq!(a.scroll, MOUSE_SCROLL_LINES);

    a.on_mouse(mouse(MouseKind::ScrollUp, 60));
    assert_eq!(a.scroll, 0);
}

#[test]
fn mouse_wheel_over_tree_leaves_diff_unscrolled() {
    let mut a = scrollable_diff_app();
    a.diff_height = 5;
    a.diff_x = 44;

    // A wheel notch left of the diff's edge targets the tree, not the diff.
    a.on_mouse(mouse(MouseKind::ScrollUp, 5));
    assert_eq!(a.scroll, 0, "tree-side wheel must not scroll the diff");
}

#[test]
fn angle_keys_resize_the_sidebar() {
    let mut a = app(vec![file("a.rs")]);
    a.body_width = 120;
    let start = a.tree_width;

    a.on_key(key('>'), NOW);
    assert_eq!(a.tree_width, start + TREE_RESIZE_STEP, "> should widen");

    a.on_key(key('<'), NOW);
    assert_eq!(a.tree_width, start, "< should narrow back");
}

#[test]
fn sidebar_resize_clamps_to_bounds() {
    let mut a = app(vec![file("a.rs")]);
    a.body_width = 80;

    // Spam < well past the floor; width should pin to MIN_TREE_WIDTH.
    for _ in 0..200 {
        a.on_key(key('<'), NOW);
    }
    assert_eq!(a.tree_width, MIN_TREE_WIDTH);

    // Spam > past the cap; width should leave MIN_DIFF_WIDTH for the diff.
    for _ in 0..200 {
        a.on_key(key('>'), NOW);
    }
    assert_eq!(a.tree_width, a.body_width - MIN_DIFF_WIDTH);
}

#[test]
fn mouse_drag_on_divider_resizes_sidebar() {
    let mut a = app(vec![file("a.rs")]);
    a.body_width = 120;
    let start = a.tree_width;

    // Press without grabbing the divider: nothing should arm.
    a.on_mouse(mouse(MouseKind::LeftDown, 5));
    a.on_mouse(mouse(MouseKind::LeftDrag, 70));
    assert_eq!(a.tree_width, start, "drag without grabbing must not resize");

    // Grab the divider (tree's right border = tree_width - 1) and drag right.
    a.on_mouse(mouse(MouseKind::LeftDown, start - 1));
    a.on_mouse(mouse(MouseKind::LeftDrag, 70));
    assert_eq!(a.tree_width, 71, "divider should follow the cursor");

    // Releasing the button disarms the drag.
    a.on_mouse(mouse(MouseKind::LeftUp, 70));
    a.on_mouse(mouse(MouseKind::LeftDrag, 30));
    assert_eq!(a.tree_width, 71, "drag after release must not resize");
}

#[test]
fn fuzzy_filter_ranks_subsequence_matches() {
    let themes = vec![
        "Dracula".to_string(),
        "base16-ocean.dark".to_string(),
        "Nord".to_string(),
        "gruvbox-dark".to_string(),
    ];
    // Empty query keeps everything in order.
    assert_eq!(fuzzy_filter("", themes.clone()).len(), 4);
    // "drac" matches only Dracula.
    let m = fuzzy_filter("drac", themes.clone());
    assert_eq!(m, vec!["Dracula".to_string()]);
    // "dark" matches both dark themes; non-matches are dropped.
    let m = fuzzy_filter("dark", themes.clone());
    assert_eq!(m.len(), 2);
    assert!(m.iter().all(|t| t.contains("dark")));
    // A query that matches nothing yields an empty list.
    assert!(fuzzy_filter("zzzz", themes).is_empty());
}

#[test]
fn fuzzy_filter_keeps_every_match() {
    let names: Vec<String> = ["ab", "b", "ab"].iter().map(|s| s.to_string()).collect();
    assert_eq!(fuzzy_filter("a", names), vec!["ab".to_string(), "ab".to_string()]);
}

#[test]
fn scores_prefer_runs_and_early_matches() {
    assert_eq!(fuzzy_score("x", "abc"), None);
    let together = fuzzy_score("ab", "xab").unwrap();
    let apart = fuzzy_score("ab", "xaxb").unwrap();
    assert!(together > apart);
    let early = fuzzy_score("ab", "abxx").unwrap();
    let late = fuzzy_score("ab", "xxab").unwrap();
    assert!(early > late);
}

fn bundled() -> Vec<String> {
    vec![
        "Dracula".to_string(),
        "Nord".to_string(),
        "base16-ocean.dark".to_string(),
    ]
}

#[test]
fn theme_picker_previews_and_cancel_restores() {
    let mut a = app(vec![file("foo.rs")]);
    a.themes = bundled();
    a.active_theme = hunkr::highlight::themes::DEFAULT_THEME.to_string();
    let original = a.active_theme.clone();

    a.on_key(key('T'), NOW);
    assert_eq!(a.mode, Mode::ThemePicker);
    assert!(a.theme_picker.is_some());

    // Type to filter to Dracula and confirm it previews live.
    for c in "drac".chars() {
        a.on_key(key(c), NOW);
    }
    assert_eq!(a.active_theme, "Dracula", "cursor theme previews live");

    // Esc cancels and restores the theme that was active on open.
    a.on_key(press(KeyCode::Esc), NOW);
    assert_eq!(a.mode, Mode::Normal);
    assert!(a.theme_picker.is_none());
    assert_eq!(a.active_theme, original, "cancel restores the prior theme");
}

#[test]
fn theme_picker_commit_applies_and_persists() {
    let mut a = app(vec![file("foo.rs")]);
    a.themes = bundled();

    a.on_key(key('T'), NOW);
    for c in "nord".chars() {
        a.on_key(key(c), NOW);
    }
    // Enter commits the highlighted theme.
    a.on_key(press(KeyCode::Enter), NOW);
    assert_eq!(a.mode, Mode::Normal);
    assert_eq!(a.active_theme, "Nord");
    assert_eq!(a.config.theme.theme, "Nord");

    // It is to be written to the config file.
    assert!(effects(&mut a)
        .iter()
        .any(|e| matches!(e, Effect::SaveTheme(name) if name == "Nord")));
    a.theme_saved("Nord", Ok(()), NOW);
    assert_eq!(a.toast.as_ref().unwrap().text, "theme: Nord");
}

#[test]
fn toggling_view_persists_to_config() {
    let mut a = app(vec![file("foo.rs")]);
    assert_eq!(a.view, ViewMode::Unified);

    // Toggle to side-by-side via the bound key.
    a.on_key(key('s'), NOW);
    assert_eq!(a.view, ViewMode::SideBySide);
    assert!(effects(&mut a)
        .iter()
        .any(|e| matches!(e, Effect::SaveView(ViewMode::SideBySide))));

    // Toggling back persists the new value too.
    a.on_key(key('s'), NOW);
    assert!(effects(&mut a)
        .iter()
        .any(|e| matches!(e, Effect::SaveView(ViewMode::Unified))));
}

#[test]
fn async_highlight_dispatches_and_applies_matching_result() {
    let mut a = app(vec![file("foo.rs")]);
    set_diff(&mut a, "@@ -1,1 +1,1 @@\n-a\n+let x = 1;\n", "foo.rs");
    effects(&mut a);

    // Select a theme not yet cached, so the next recompute dispatches a request
    // rather than serving a cache hit.
    a.start_highlighting(2);
    a.active_theme = "Nord".to_string();
    a.recompute_highlight();

    // The request was dispatched and the highlight cleared so the panel
    // renders flat until the worker replies.
    assert!(a.highlight.is_none(), "highlight cleared while pending");
    let req = highlight_requests(&mut a)
        .pop()
        .expect("a highlight request was sent");
    assert_eq!(req.path, "foo.rs");
    assert_eq!(req.theme, "Nord");

    // A stale generation is ignored (but still cached for later reuse).
    a.apply_highlight(
        &req.path,
        req.theme.clone(),
        req.diff_hash,
        req.generation.wrapping_sub(1),
        dummy(),
    );
    assert!(
        a.highlight.is_none(),
        "stale-generation result must be dropped"
    );

    // A result for a different file is ignored.
    a.apply_highlight(
        "other.rs",
        req.theme.clone(),
        req.diff_hash,
        req.generation,
        dummy(),
    );
    assert!(a.highlight.is_none(), "wrong-path result must be dropped");

    // The matching result is installed.
    a.apply_highlight(
        &req.path,
        req.theme.clone(),
        req.diff_hash,
        req.generation,
        dummy(),
    );
    assert!(a.highlight.is_some(), "matching result must be applied");

    // Revisiting the same file+theme now hits the cache: coloured instantly,
    // no new request dispatched.
    a.recompute_highlight();
    assert!(a.highlight.is_some(), "cache hit should keep it coloured");
    assert!(
        highlight_requests(&mut a).is_empty(),
        "a cache hit must not dispatch another request"
    );
}

#[test]
fn prefetch_warms_all_files_in_parallel() {
    let raw = "diff --git a/a.rs b/a.rs\n--- a/a.rs\n+++ b/a.rs\n@@ -1,1 +1,1 @@\n-a\n+let x = 1;\n\
        diff --git a/b.rs b/b.rs\n--- a/b.rs\n+++ b/b.rs\n@@ -1,1 +1,1 @@\n-b\n+let y = 2;\n\
        diff --git a/c.rs b/c.rs\n--- a/c.rs\n+++ b/c.rs\n@@ -1,1 +1,1 @@\n-c\n+let z = 3;\n";
    let mut a = pager(raw);
    // The first file is in view, and highlighted on load.
    let first = highlight_requests(&mut a).pop().unwrap();
    assert_eq!(first.path, "a.rs");
    a.apply_highlight(
        &first.path,
        first.theme.clone(),
        first.diff_hash,
        first.generation,
        dummy(),
    );
    a.start_highlighting(2);

    // Pump fills the pool up to parallelism (2) — the two not-yet-warm files.
    a.pump_prefetch();
    let sent = prefetch_requests(&mut a);
    assert_eq!(sent.len(), 2, "only `parallelism` jobs in flight");
    let dispatched: HashSet<&str> = sent.iter().map(|r| r.path.as_str()).collect();
    assert_eq!(dispatched, HashSet::from(["b.rs", "c.rs"]));
    assert_eq!(
        sent[0].generation, 0,
        "prefetch must not claim a display generation"
    );

    // One result lands → a slot frees → the next pump has nothing new left
    // (the third file is the one still in flight), and once both are cached
    // prefetch is idle.
    a.apply_highlight(&sent[0].path, sent[0].theme.clone(), sent[0].diff_hash, 0, dummy());
    a.pump_prefetch();
    assert!(
        prefetch_requests(&mut a).is_empty(),
        "nothing new while the last is in flight"
    );
    a.apply_highlight(&sent[1].path, sent[1].theme.clone(), sent[1].diff_hash, 0, dummy());
    a.pump_prefetch();
    assert!(
        prefetch_requests(&mut a).is_empty(),
        "all files warm: prefetch is idle"
    );
}

#[test]
fn y_copies_a_reference_and_says_so() {
    let mut a = multi_chunk_app();
    effects(&mut a);
    a.on_key(key('y'), NOW);
    assert!(effects(&mut a)
        .iter()
        .any(|e| matches!(e, Effect::Copy(text) if text == "src/foo.rs:1-2")));
    a.copy_finished(Ok(CopyMethod::Clipboard), NOW);
    assert!(a.toast.is_some());
    a.copy_finished(Err("no display".to_string()), NOW);
    assert!(a.error.as_ref().unwrap().contains("no display"));
}

#[test]
fn a_refresh_keeps_the_place_in_an_unchanged_diff() {
    let mut a = scrollable_diff_app();
    a.diff_height = 5;
    a.on_key(shifted(KeyCode::Down), NOW);
    effects(&mut a);
    let text = a.diff.as_ref().unwrap().text.clone();
    a.reconcile(GitSnapshot {
        files: vec![file("src/foo.rs"), file("src/new.rs")],
        hashes: diff_hashes_for(&Vec::new()),
    });
    for e in effects(&mut a) {
        if let Effect::Load { file, use_cache, place } = e {
            assert!(!use_cache, "a refresh reads the diff anew");
            assert!(a.begin_load(file, use_cache, Some((1, 2)), &place).is_some());
            a.finish_load(file, Some((1, 2)), Ok(text.clone().into_bytes()), &place);
        }
    }
    assert_eq!(a.scroll, 5);
    assert_eq!(current_path(&a).as_deref(), Some("src/foo.rs"));
    assert_eq!(a.diff.as_ref().unwrap().text, text);
}

#[test]
fn a_viewed_diff_is_served_from_the_cache() {
    let mut a = app(vec![file("a.rs"), file("b.rs")]);
    a.tree_cursor = a.cursor_for_path("a.rs").unwrap();
    let raw = b"@@ -1 +1 @@\n-a\n+b\n".to_vec();
    assert!(a.begin_load(0, true, Some((7, 3)), &None).is_some());
    a.finish_load(0, Some((7, 3)), Ok(raw), &None);
    a.diff_file = None;
    // The same signature needs no git; another one does.
    assert!(a.begin_load(0, true, Some((7, 3)), &None).is_none());
    assert_eq!(a.diff.as_ref().unwrap().path, "a.rs");
    a.diff_file = None;
    assert!(a.begin_load(0, true, Some((7, 4)), &None).is_some());
    a.finish_load(0, Some((7, 4)), Err("boom".to_string()), &None);
    assert!(a.error.as_ref().unwrap().contains("boom"));
}

#[test]
fn a_stored_hidden_set_is_honoured() {
    let mut a = app(vec![file("a.rs"), file("b.rs")]);
    a.hidden = HiddenStore::load("/g", &vec!["b.rs".to_string()]);
    a.recompute_view();
    assert_eq!(visible_paths(&a), vec!["a.rs"]);
    a.hidden_not_saved("disk full");
    assert!(a.error.as_ref().unwrap().contains("disk full"));
    a.review_not_saved("read only");
    assert!(a.error.as_ref().unwrap().contains("read only"));
    a.background_error("watch disabled".to_string());
    assert_eq!(a.error.as_deref(), Some("watch disabled"));
    a.view_not_saved("nope", NOW);
    assert!(a.toast.as_ref().unwrap().text.contains("nope"));
}

#[test]
fn changed_files_ask_for_the_reviewed_ones() {
    let mut a = multi_chunk_app();
    assert_eq!(a.on_event(Event::Fs), Some(Vec::new()));
    a.on_key(key('r'), NOW);
    assert_eq!(a.on_event(Event::Fs), Some(vec!["src/foo.rs".to_string()]));
    assert_eq!(a.on_event(Event::Error("no git".to_string())), None);
    assert_eq!(a.error.as_deref(), Some("no git"));
    // A piped diff has no repository behind it.
    let mut p = pager("diff --git a/x b/x\n--- a/x\n+++ b/x\n@@ -1 +1 @@\n-a\n+b\n");
    assert_eq!(p.on_event(Event::Fs), None);
}

#[test]
fn terminal_events_are_routed() {
    let mut a = scrollable_diff_app();
    a.dirty = false;
    a.on_terminal_event(TerminalEvent::Other, NOW);
    assert!(!a.dirty);
    a.on_terminal_event(TerminalEvent::Resize, NOW);
    assert!(a.dirty);
    a.diff_height = 5;
    a.on_terminal_event(TerminalEvent::Mouse(mouse(MouseKind::ScrollDown, 60)), NOW);
    assert_eq!(a.scroll, MOUSE_SCROLL_LINES);
    a.on_terminal_event(TerminalEvent::Key(key('q')), NOW);
    assert!(a.should_quit);
}

#[test]
fn escape_clears_a_kept_filter() {
    let mut a = app(vec![file("src/foo.rs"), file("README.md")]);
    a.on_key(key('/'), NOW);
    a.on_key(key('f'), NOW);
    a.on_key(press(KeyCode::Enter), NOW);
    assert_eq!(visible_paths(&a), vec!["src/foo.rs"]);
    a.on_key(press(KeyCode::Esc), NOW);
    assert!(!a.is_filtering());
    assert_eq!(visible_paths(&a).len(), 2);
}

#[test]
fn toggling_one_chunk_leaves_the_others() {
    let mut a = multi_chunk_app();
    a.on_key(key('r'), NOW);
    a.on_key(key('r'), NOW);
    assert!(a.chunk_reviewed(0) && a.chunk_reviewed(1) && !a.chunk_reviewed(2));
    a.on_key(key('p'), NOW);
    a.on_key(key('r'), NOW);
    assert!(a.chunk_reviewed(0) && !a.chunk_reviewed(1) && !a.chunk_reviewed(2));
}

#[test]
fn a_refresh_keeps_opened_chunks_open() {
    let mut a = multi_chunk_app();
    a.diff_height = 3;
    a.on_key(key('R'), NOW); // everything folds
    a.on_key(key('o'), NOW); // and is opened again
    a.on_key(key('G'), NOW);
    let (scroll, chunk) = (a.scroll, a.current_chunk);
    assert!(scroll > 3);
    let text = a.diff.as_ref().unwrap().text.clone();
    effects(&mut a);
    a.reconcile(GitSnapshot {
        files: vec![file("a.rs"), file("src/foo.rs")],
        hashes: diff_hashes_for(&Vec::new()),
    });
    for e in effects(&mut a) {
        if let Effect::Load { file, use_cache, place } = e {
            assert!(a.begin_load(file, use_cache, None, &place).is_some());
            a.finish_load(file, None, Ok(text.clone().into_bytes()), &place);
        }
    }
    assert_eq!((a.scroll, a.current_chunk), (scroll, chunk));
    assert!(a.chunk_collapsed.iter().all(|c| !*c));
    assert_eq!(a.review_status(1), ReviewStatus::Reviewed);
}

#[test]
fn the_stores_stay_in_the_git_directory() {
    let mut a = multi_chunk_app();
    a.on_key(key('r'), NOW);
    a.on_key(key('h'), NOW);
    assert_eq!(a.review.file(), "/repo/.git/hunkr/review.json");
    assert_eq!(a.hidden.file(), "/repo/.git/hunkr/hidden.json");
}
