use std::collections::HashSet;
use std::sync::Arc;

use hunkr::app::types::{Clock, Effect, Focus, KeyEvent, Mode, ViewMode};
use hunkr::app::App;
use hunkr::config::action::Action;
use hunkr::config::chord::{KeyCode, KeyModifiers};
use hunkr::config::keymap::KeyMap;
use hunkr::config::load::Config;
use hunkr::git::diff::{parse_unified, DiffBase};
use hunkr::glyphs::Glyphs;
use hunkr::highlight::syntax::{highlight_file, Syntaxes};
use hunkr::highlight::themes::{bundled_themes, theme};
use hunkr::model::diff::LineKind;
use hunkr::model::file::{ChangeKind, ChangedFile};
use hunkr::pager::piped_files;
use hunkr::render::style::Color;
use hunkr::ui::canvas::{centered, inner, Area, Line};
use hunkr::ui::diff_panel::{
    diff_body, diff_title, fit, fmt_no, line_bg, line_marker, push_expanded, side_cell, DiffBody,
    Side,
};
use hunkr::ui::help::{help_view, left_sections, right_sections, HELP_FOOTER, HELP_TITLE};
use hunkr::ui::notification::{config_error_notice, toast_notice, wrap};
use hunkr::ui::screen::{content_height, notices, shown_tree_width};
use hunkr::ui::statusbar::{hints_fit, status_bar};
use hunkr::ui::theme_picker::{picker_view, scroll_start, PICKER_FOOTER, PICKER_TITLE};
use hunkr::ui::tree_panel::{border_color, tree_lines, tree_placeholder, tree_title};

const NOW: Clock = Clock { millis: 0, unix: 0 };
const SCREEN: Area = Area { x: 0, y: 0, width: 120, height: 30 };

fn line_text(line: &Line) -> String {
    line.spans.iter().map(|s| s.text.as_str()).collect()
}

fn lines_text(lines: &[Line]) -> String {
    lines.iter().map(|l| line_text(l) + "\n").collect()
}

fn diff_lines(app: &App) -> Vec<Line> {
    let tree = shown_tree_width(app, SCREEN.width);
    let width = (SCREEN.width - tree - 2) as usize;
    match diff_body(app, width, content_height(SCREEN.height - 1)) {
        DiffBody::Placeholder(text) => vec![Line::styled(text.to_string(), hunkr::ui::canvas::Style::none())],
        DiffBody::Lines(lines) => lines,
    }
}

/// Everything that is on the screen behind the overlays.
fn screen_text(app: &mut App) -> String {
    let tree = shown_tree_width(app, SCREEN.width);
    app.drawn(content_height(SCREEN.height - 1), tree, SCREEN.width);
    let rows = content_height(SCREEN.height - 1);
    let mut out = tree_title(app) + "\n";
    if let Some(text) = tree_placeholder(app) {
        out.push_str(text);
        out.push('\n');
    }
    out.push_str(&lines_text(&tree_lines(app, (tree - 2) as usize, rows)));
    out.push_str(&diff_title(app));
    out.push('\n');
    out.push_str(&lines_text(&diff_lines(app)));
    let bar = status_bar(app, SCREEN.width);
    out.push_str(&bar.left);
    out.push_str(bar.hints.as_deref().unwrap_or(""));
    out
}

fn app(files: Vec<ChangedFile>) -> App {
    App::with_files(
        "/repo".to_string(),
        DiffBase::Head,
        files,
        true,
        Glyphs::unicode(),
        "/home/u/.config/hunkr/config.toml".to_string(),
    )
}

fn one_file(path: &str) -> App {
    app(vec![ChangedFile::new(path.to_string(), ChangeKind::Modified)])
}

fn set_diff(a: &mut App, raw: &str, path: &str) {
    a.adopt_diff(0, Arc::new(parse_unified(raw.to_string(), path.to_string())));
    a.focus = Focus::Diff;
}

fn press(a: &mut App, c: char) {
    let key = KeyEvent {
        code: KeyCode::Char(c),
        modifiers: KeyModifiers::none(),
        release: false,
    };
    a.on_key(key, NOW);
}

#[test]
fn renders_tree_chrome_and_files() {
    let mut a = app(vec![
        ChangedFile::new("README.md".to_string(), ChangeKind::Added),
        ChangedFile::new("src/foo.rs".to_string(), ChangeKind::Modified),
    ]);
    let text = screen_text(&mut a);

    assert!(
        text.contains("Changed files (2)"),
        "tree title missing:\n{text}"
    );
    assert!(text.contains("README.md"), "file row missing:\n{text}");
    assert!(text.contains("src"), "folder row missing:\n{text}");
    // Default glyphs are Unicode: unreviewed ● and a (+) added kind tag.
    assert!(text.contains("●"), "unreviewed glyph missing:\n{text}");
    assert!(text.contains("(+)"), "added kind tag missing:\n{text}");
    // No file selected → diff panel shows its placeholder.
    assert!(
        text.contains("Select a file"),
        "diff placeholder missing:\n{text}"
    );
    // Status bar chrome + review counts (2 unreviewed).
    assert!(text.contains("hunkr"), "status bar missing:\n{text}");
    assert!(text.contains("✓ 0 · ● 2"), "review counts missing:\n{text}");
    assert!(text.contains("q quit"), "key hints missing:\n{text}");
}

#[test]
fn renders_diff_chunk_and_lines() {
    let mut a = one_file("foo.rs");
    let raw = "@@ -1,3 +1,3 @@ fn main()\n keep this line\n-remove me\n+add me\n";
    set_diff(&mut a, raw, "foo.rs");
    let text = screen_text(&mut a);

    assert!(
        text.contains("@@ -1,3 +1,3 @@"),
        "chunk header missing:\n{text}"
    );
    assert!(
        text.contains("keep this line"),
        "context line missing:\n{text}"
    );
    assert!(text.contains("remove me"), "deletion missing:\n{text}");
    assert!(text.contains("add me"), "addition missing:\n{text}");
    // Diff panel title shows the file path; status bar shows chunk position.
    assert!(text.contains("foo.rs"), "diff title missing:\n{text}");
    assert!(text.contains("chunk 1/1"), "chunk counter missing:\n{text}");
}

#[test]
fn untrusted_path_and_content_cannot_inject_escapes() {
    let evil_path = "src/\x1b]0;pwned\x07evil.rs";
    let mut a = one_file(evil_path);
    let raw = "@@ -1,2 +1,2 @@ fn \x1b[31mctx\x1b[0m()\n keep \x1b]0;title\x07\n-old\x1b[1m\n+new\x07\n";
    set_diff(&mut a, raw, evil_path);
    let text = screen_text(&mut a);

    assert!(
        !text.contains('\x1b'),
        "ESC leaked into the buffer:\n{text:?}"
    );
    assert!(
        !text.contains('\x07'),
        "BEL leaked into the buffer:\n{text:?}"
    );
    // The inert replacement char is rendered in its place.
    assert!(text.contains('\u{FFFD}'), "expected sanitized placeholder");
}

#[test]
fn current_chunk_header_is_marked() {
    let mut a = one_file("foo.rs");
    let raw = "@@ -1,1 +1,1 @@ first\n-a\n+b\n@@ -10,1 +10,1 @@ second\n-c\n+d\n";
    set_diff(&mut a, raw, "foo.rs");

    // Advance to the second chunk, as `n` does.
    press(&mut a, 'n');
    let text = screen_text(&mut a);

    let first = text.lines().find(|l| l.contains("first")).unwrap();
    let second = text.lines().find(|l| l.contains("second")).unwrap();
    // The current chunk's header carries the accent bar; the other doesn't.
    assert!(
        second.contains("▌ @@"),
        "current chunk header should be marked:\n{text}"
    );
    assert!(
        !first.contains("▌ @@"),
        "non-current chunk header should not be marked:\n{text}"
    );
}

#[test]
fn renders_side_by_side() {
    let mut a = one_file("foo.rs");
    let raw = "@@ -1,2 +1,2 @@\n keep\n-old line\n+new line\n";
    set_diff(&mut a, raw, "foo.rs");
    a.view = ViewMode::SideBySide;
    let text = screen_text(&mut a);

    assert!(
        text.contains("[side-by-side]"),
        "mode label missing:\n{text}"
    );
    assert!(text.contains("keep"), "context missing:\n{text}");
    // The deleted and added lines sit on the same row, one per side.
    let same_row = text
        .lines()
        .any(|l| l.contains("old line") && l.contains("new line"));
    assert!(same_row, "old/new not rendered side by side:\n{text}");
}

#[test]
fn hiding_a_file_drops_it_from_the_sidebar_and_counts() {
    let mut a = app(vec![
        ChangedFile::new("keep.rs".to_string(), ChangeKind::Modified),
        ChangedFile::new("noise.lock".to_string(), ChangeKind::Modified),
    ]);

    // Move to noise.lock (sorts after keep.rs) and hide it.
    press(&mut a, 'j');
    press(&mut a, 'h');
    let text = screen_text(&mut a);

    assert!(
        text.contains("Changed files (1)"),
        "shown count should drop to 1:\n{text}"
    );
    assert!(text.contains("keep.rs"), "kept file should remain:\n{text}");
    assert!(
        !text.contains("noise.lock"),
        "hidden file must be gone from the sidebar:\n{text}"
    );
    // The hidden file is excluded from the review totals, and a hidden
    // segment reports the count.
    assert!(
        text.contains("● 1"),
        "review count should exclude the hidden file:\n{text}"
    );
    assert!(text.contains("hidden 1"), "hidden count missing:\n{text}");

    // Toggling the hidden view surfaces only the hidden file.
    press(&mut a, 'H');
    let text = screen_text(&mut a);
    assert!(
        text.contains("Hidden files (1)"),
        "hidden-view title missing:\n{text}"
    );
    assert!(
        text.contains("noise.lock"),
        "hidden view should show the hidden file:\n{text}"
    );
    assert!(
        !text.contains("keep.rs"),
        "hidden view should not show shown files:\n{text}"
    );
}

#[test]
fn syntax_highlighting_colours_code_and_tints_added_lines() {
    let mut a = one_file("foo.rs");
    let raw = "@@ -1,2 +1,2 @@\n fn main() {\n-    let x = 1;\n+    let y = compute();\n";
    set_diff(&mut a, raw, "foo.rs");
    // Highlighting is on by default: it is asked for, and shown when it arrives.
    let mut asked = false;
    while let Some(e) = a.take_effect() {
        if let Effect::Highlight(req) = e {
            asked = true;
            let set = Syntaxes::bundled();
            let all = bundled_themes();
            let hl = highlight_file(
                &req.diff,
                &set,
                theme(&all, &req.theme).unwrap(),
                (29, 58, 40),
                (69, 42, 46),
                req.truecolor,
                |fg, _| fg,
            )
            .unwrap();
            a.apply_highlight(&req.path, req.theme, req.diff_hash, req.generation, Arc::new(hl));
        }
    }
    assert!(asked, "highlighting should be on by default");
    assert!(a.highlight.is_some());

    let lines = diff_lines(&a);
    let added = lines
        .iter()
        .find(|l| line_text(l).contains("compute"))
        .expect("added line should be rendered");

    // The added line's code carries the faint green tint background, and the
    // code shows more than one foreground colour (syntax tokens).
    let mut fg_colours = HashSet::new();
    let mut saw_tint = false;
    for span in &added.spans {
        if let Some(Color::Rgb(r, g, b)) = span.style.bg {
            if g > r && g > b {
                saw_tint = true;
            }
        }
        if span.text.trim() != "" {
            fg_colours.insert(format!("{:?}", span.style.fg));
        }
    }
    assert!(
        saw_tint,
        "added line should carry the green tint background"
    );
    assert!(
        fg_colours.len() > 2,
        "expected several syntax foreground colours, saw {fg_colours:?}"
    );
}

#[test]
fn theme_picker_overlay_renders() {
    let mut a = one_file("a.rs");
    press(&mut a, 'T');
    let view = picker_view(SCREEN, a.theme_picker.as_ref().unwrap());
    let text = format!("{PICKER_TITLE}\n{}\n{PICKER_FOOTER}", line_text(&view.search));

    assert!(
        text.contains("Select theme"),
        "picker title missing:\n{text}"
    );
    assert!(text.contains("search:"), "search input missing:\n{text}");
    assert!(text.contains("apply"), "footer hint missing:\n{text}");
    // Without themes the list says so.
    assert!(lines_text(&view.list).contains("(no matching theme)"));
}

#[test]
fn the_picker_marks_the_theme_under_the_cursor() {
    let mut a = one_file("a.rs");
    a.themes = vec!["Dracula".to_string(), "Nord".to_string()];
    a.active_theme = "Nord".to_string();
    press(&mut a, 'T');
    let view = picker_view(SCREEN, a.theme_picker.as_ref().unwrap());
    assert_eq!(lines_text(&view.list), "  Dracula\n▸ Nord\n");
    assert_eq!(view.list[1].style.bg.or(view.list[1].spans[0].style.bg), Some(Color::Cyan));
}

#[test]
fn help_overlay_lists_keybindings() {
    let mut a = one_file("a.rs");
    a.mode = Mode::Help;
    let view = help_view(SCREEN, &a.config.keys);
    let text = format!(
        "{HELP_TITLE}\n{}{}{HELP_FOOTER}",
        lines_text(&view.left),
        lines_text(&view.right)
    );

    assert!(text.contains("Help"), "help title missing:\n{text}");
    assert!(
        text.contains("copy AI reference"),
        "keybinding missing:\n{text}"
    );
    assert!(
        text.contains("press any key to close"),
        "help footer missing:\n{text}"
    );
    assert!(view.layout.left.is_some() && view.layout.right.is_some());
}

#[test]
fn help_lists_every_action() {
    for action in Action::ALL {
        let count = left_sections()
            .iter()
            .chain(right_sections().iter())
            .flat_map(|s| s.rows.iter())
            .filter(|(a, _)| *a == action)
            .count();
        assert_eq!(
            count, 1,
            "action {action:?} should appear exactly once in the help overlay, found {count}"
        );
    }
}

#[test]
fn help_shows_the_bound_chords() {
    let mut keys = KeyMap::defaults();
    keys.rebind(Action::Quit, &vec![(KeyCode::F(9), KeyModifiers::none())]);
    let view = help_view(SCREEN, &keys);
    let text = lines_text(&view.left) + &lines_text(&view.right);
    assert!(text.contains("f9"), "{text}");
}

#[test]
fn wrap_breaks_on_words_and_hard_splits_long_tokens() {
    let out = wrap("parse error at line 2", 10);
    assert!(
        out.iter().all(|l| l.chars().count() <= 10),
        "lines exceed width: {out:?}"
    );
    assert!(out.len() >= 2);

    // A single token longer than the width is hard-split, never dropped.
    let out = wrap("supercalifragilistic", 6);
    assert!(out.iter().all(|l| l.chars().count() <= 6));
    assert_eq!(out.concat(), "supercalifragilistic");
}

#[test]
fn scroll_keeps_cursor_visible() {
    // Small list: no scrolling.
    assert_eq!(scroll_start(3, 5, 12), 0);
    // Cursor within the first window.
    assert_eq!(scroll_start(4, 30, 12), 0);
    // Cursor past the window scrolls down but never past the end.
    assert_eq!(scroll_start(15, 30, 12), 4);
    assert_eq!(scroll_start(29, 30, 12), 18);
}

#[test]
fn columns_are_fitted_exactly() {
    assert_eq!(fit("abc", 5), "abc  ");
    assert_eq!(fit("abcdef", 4), "abcd");
    // A wide character that does not fit leaves a blank.
    assert_eq!(fit("日本", 3), "日 ");
    assert_eq!(fit("", 0), "");
    assert_eq!(fmt_no(Some(7)).trim(), "7");
    assert_eq!(fmt_no(None).trim(), "");
}

#[test]
fn tabs_are_expanded_and_controls_are_inert() {
    let mut out = String::new();
    let mut col: usize = 0;
    let hit = push_expanded(&mut out, "a\tb\x1bc", &mut col, 80);
    assert!(!hit);
    assert!(out.starts_with('a'));
    assert!(out.ends_with("b\u{FFFD}c"));
    assert!(!out.contains('\t'));
    assert_eq!(col, out.chars().count());
    let mut out = String::new();
    let mut col: usize = 0;
    assert!(push_expanded(&mut out, "abcdef", &mut col, 3));
    assert_eq!(out, "abc");
}

#[test]
fn line_colours_follow_the_kind() {
    assert_eq!(line_marker(LineKind::Add).0, '+');
    assert_eq!(line_marker(LineKind::Del).0, '-');
    assert_eq!(line_marker(LineKind::Context).0, ' ');
    let tints = Some((Color::Rgb(1, 2, 3), Color::Rgb(4, 5, 6)));
    assert_eq!(line_bg(LineKind::Add, false, false, tints), Some(Color::Rgb(1, 2, 3)));
    assert_eq!(line_bg(LineKind::Del, false, false, tints), Some(Color::Rgb(4, 5, 6)));
    assert_eq!(line_bg(LineKind::Context, false, false, tints), None);
    assert_ne!(border_color(true), border_color(false));
}

#[test]
fn no_more_rows_than_the_panel_has() {
    let mut a = one_file("foo.rs");
    let mut raw = String::from("@@ -1,500 +1,500 @@\n");
    for i in 0..500 {
        raw.push_str(&format!(" line{i}\n"));
    }
    set_diff(&mut a, &raw, "foo.rs");
    assert_eq!(diff_lines(&a).len(), content_height(SCREEN.height - 1));
    a.scroll = 499;
    assert!(line_text(diff_lines(&a).last().unwrap()).contains("line499"));
}

#[test]
fn narrow_bars_drop_the_hints() {
    let a = one_file("foo.rs");
    assert!(status_bar(&a, 200).hints.is_some());
    assert!(status_bar(&a, 20).hints.is_none());
    assert!(hints_fit("ab", "cd", 5));
    assert!(!hints_fit("ab", "cd", 3));
    // Width counts columns, not characters.
    assert!(!hints_fit("日本", "cd", 5));
}

#[test]
fn notices_stack_in_the_corner() {
    let mut a = one_file("foo.rs");
    a.config_error = Some("bad \x1b[31mthing".to_string());
    a.show_toast("saved".to_string(), NOW);
    let (error, toast) = notices(&a, SCREEN);
    let error = error.unwrap();
    let toast = toast.unwrap();
    assert!(lines_text(&error.body).contains("bad \u{FFFD}[31mthing"));
    assert!(toast.area.y > error.area.y + error.area.height - 1);
    assert!(lines_text(&toast.body).contains("saved"));
    assert_eq!(error.title, " ⚠ Config error ");
    assert_eq!(error.accent, Color::Red);
    assert_eq!(toast.title, " ✓ Copied ");
    assert_eq!(toast.accent, Color::Green);
    // On a screen that is too small there is no room.
    let tiny = Area { x: 0, y: 0, width: 3, height: 2 };
    assert!(toast_notice(tiny, 1, "saved").is_none());
    assert!(config_error_notice(tiny, 1, "bad", "C").is_none());
}

#[test]
fn areas_are_centred_and_framed() {
    let area = Area { x: 0, y: 0, width: 10, height: 8 };
    assert_eq!(centered(area, 4, 2), Area { x: 3, y: 3, width: 4, height: 2 });
    assert_eq!(inner(area), Area { x: 1, y: 1, width: 8, height: 6 });
}

#[test]
fn an_empty_sidebar_says_why() {
    let a = app(Vec::new());
    assert!(tree_placeholder(&a).is_some());
    assert!(tree_placeholder(&one_file("x")).is_none());
}

#[test]
fn the_cursor_row_stays_in_view() {
    let files = (0..50)
        .map(|i| ChangedFile::new(format!("f{i:02}.rs"), ChangeKind::Modified))
        .collect();
    let mut a = app(files);
    for _ in 0..49 {
        press(&mut a, 'j');
    }
    let rows = tree_lines(&a, 40, 10);
    assert_eq!(rows.len(), 10);
    assert!(line_text(rows.last().unwrap()).contains("f49.rs"));
}

#[test]
fn side_cells_fill_their_columns() {
    let fd = parse_unified("@@ -1,2 +1,2 @@\n a\n-b\u{7}\tc\n".to_string(), "x".to_string());
    let columns = |cell, width, current| -> usize {
        side_cell(&fd, cell, width, Side::Old, false, current, &None)
            .iter()
            .map(|s| s.text.chars().count())
            .sum()
    };
    assert_eq!(columns(Some((0, 0)), 20, false), 20);
    assert_eq!(columns(Some((0, 0)), 20, true), 20);
    assert_eq!(columns(Some((0, 1)), 20, false), 20);
    assert_eq!(columns(Some((0, 1)), 9, false), 9);
    assert_eq!(columns(None, 20, false), 20);
    // The gutter is cut where it has no room.
    assert_eq!(columns(Some((0, 0)), 7, false), 7);
    assert_eq!(columns(Some((0, 0)), 3, false), 3);
    assert_eq!(columns(Some((0, 0)), 0, false), 0);
    // The divider of every row is in the same place.
    let mut a = one_file("foo.rs");
    set_diff(&mut a, "@@ -1,3 +1,3 @@\n keep\n-old line\n+new line\n same\n", "foo.rs");
    a.view = ViewMode::SideBySide;
    let places: HashSet<usize> = diff_lines(&a)
        .iter()
        .map(line_text)
        .filter_map(|t| t.chars().position(|c| c == '│'))
        .collect();
    assert_eq!(places.len(), 1);
}

#[test]
fn the_status_bar_says_that_a_pager_is_read_only() {
    let raw = b"diff --git a/x b/x\n--- a/x\n+++ b/x\n@@ -1 +1 @@\n-a\n+b\n";
    let (files, diffs) = piped_files(raw).unwrap();
    let p = App::from_diff(app(files), diffs, Config::default(), "/c".to_string(), Vec::new());
    assert!(status_bar(&p, 120).left.contains("pager (read-only)"));
    assert!(!status_bar(&one_file("x"), 120).left.contains("pager"));
}
