use hunkr::git::diff::parse_unified;
use hunkr::highlight::syntax::{
    can_highlight, detect, first_body_line, highlight_file, Syntaxes, MAX_LINE_BYTES,
};
use hunkr::highlight::themes::{
    bundled_themes, theme, theme_exists, theme_names, DEFAULT_THEME,
};
use hunkr::highlight::{
    clip_regions, font_modifier, resolve_fg, rgb_to_ansi256, supports_truecolor, to_color, Region,
};
use hunkr::model::diff::FileDiff;
use hunkr::render::style::Color;

fn fd(raw: &str, path: &str) -> FileDiff {
    parse_unified(raw.to_string(), path.to_string())
}

/// Leaves every colour as it is.
fn keep(fg: (u8, u8, u8), _bg: (u8, u8, u8)) -> (u8, u8, u8) {
    fg
}

#[test]
fn default_theme_resolves() {
    let set = bundled_themes();
    assert!(theme(&set, DEFAULT_THEME).is_some());
    // Unknown name falls back rather than panicking.
    assert!(theme(&set, "no-such-theme").is_some());
}

#[test]
fn bundled_themes_present() {
    let set = bundled_themes();
    let names = theme_names(&set);
    assert!(names.iter().any(|n| n == DEFAULT_THEME));
    assert!(names.iter().any(|n| n == "Dracula"));
    assert!(names.iter().any(|n| n == "Nord"));
    assert!(theme_exists(&set, "Dracula"));
    assert!(!theme_exists(&set, "definitely-not-a-theme"));
    let mut all = vec![
        "ansi",
        "base16",
        "base16-eighties.dark",
        "base16-mocha.dark",
        "base16-ocean.dark",
        "base16-ocean.light",
        "base16-256",
        "Coldark-Cold",
        "Coldark-Dark",
        "DarkNeon",
        "Dracula",
        "GitHub",
        "gruvbox-dark",
        "gruvbox-light",
        "InspiredGitHub",
        "1337",
        "Monokai Extended",
        "Monokai Extended Bright",
        "Monokai Extended Light",
        "Monokai Extended Origin",
        "Nord",
        "OneHalfDark",
        "OneHalfLight",
        "Solarized (dark)",
        "Solarized (light)",
        "Sublime Snazzy",
        "TwoDark",
        "Visual Studio Dark+",
        "zenburn",
    ];
    all.sort();
    assert_eq!(names, all);
}

#[test]
fn an_unknown_theme_is_the_default_or_the_first() {
    let mut set = bundled_themes();
    let want = theme(&set, DEFAULT_THEME).unwrap().name.clone();
    assert_eq!(theme(&set, "nope").unwrap().name, want);
    set.themes.remove(DEFAULT_THEME);
    let first = theme_names(&set)[0].clone();
    assert_eq!(theme(&set, "nope").unwrap().name, set.themes[&first].name);
    set.themes.clear();
    assert!(theme(&set, "nope").is_none());
}

#[test]
fn detects_rust_by_extension() {
    let set = Syntaxes::bundled();
    let syn = detect(&set, "src/main.rs", None).unwrap();
    assert_eq!(syn.name.to_lowercase(), "rust");
}

#[test]
fn unknown_extension_falls_back_to_plain_text() {
    let set = Syntaxes::bundled();
    let syn = detect(&set, "mystery.zzz", None).unwrap();
    let plain = two_face::syntax::extra_newlines();
    assert_eq!(syn.name, plain.find_syntax_plain_text().name);
}

#[test]
fn file_names_and_first_lines_give_the_syntax() {
    let set = Syntaxes::bundled();
    assert_eq!(detect(&set, "sub/Makefile", None).unwrap().name, "Makefile");
    let script = detect(&set, "run", Some("#!/usr/bin/env python3")).unwrap();
    assert_eq!(script.name, "Python");
}

#[test]
fn the_first_line_with_text_is_the_hint() {
    let d = fd("@@ -1,2 +1,2 @@\n \n+  \n@@ -9 +9 @@\n+#!/bin/sh\n+x\n", "run");
    assert_eq!(first_body_line(&d), Some("#!/bin/sh"));
    let blank = fd("@@ -1 +1 @@\n+ \n", "run");
    assert_eq!(first_body_line(&blank), None);
}

#[test]
fn highlights_rust_chunk_into_token_spans() {
    let raw = "@@ -1,2 +1,2 @@\n fn main() {\n-    let x = 1;\n+    let y = compute();\n";
    let d = fd(raw, "src/main.rs");
    let set = Syntaxes::bundled();
    let all = bundled_themes();
    let theme = theme(&all, DEFAULT_THEME).unwrap();
    let hl = highlight_file(&d, &set, theme, (1, 2, 3), (4, 5, 6), true, keep).unwrap();

    let added = hl.line(0, 2).expect("highlight for the added line");
    assert!(
        added.spans.len() > 1,
        "expected multiple token spans, got {}",
        added.spans.len()
    );
    // Spans stay within the added line's byte range and are non-empty.
    let line = &d.chunks[0].lines[2];
    for (range, _) in &added.spans {
        assert!(range.start >= line.text.start && range.end <= line.text.end);
        assert!(range.start < range.end);
    }
    // The concatenation of span slices reconstructs the line text exactly.
    let joined: String = added
        .spans
        .iter()
        .map(|(r, _)| &d.text[r.clone()])
        .collect();
    assert_eq!(joined, d.slice(&line.text));
    assert_eq!(hl.add_bg, Color::Rgb(1, 2, 3));
    assert_eq!(hl.del_bg, Color::Rgb(4, 5, 6));
    assert!(hl.line(0, 3).is_none());
    assert!(hl.line(1, 0).is_none());
}

#[test]
fn overlong_lines_are_not_highlighted() {
    let with = |n: usize, mark: &str| {
        can_highlight(&fd(&format!("@@ -1 +1 @@\n-a\n{mark}{}\n", "x".repeat(n)), "x.rs"))
    };
    assert!(with(MAX_LINE_BYTES - 1, "+"));
    assert!(!with(MAX_LINE_BYTES, "+"));
    assert!(!with(MAX_LINE_BYTES, " "));
    assert!(with(MAX_LINE_BYTES, "\\"));
    // A line of the greatest length does go through the highlighter.
    let raw = format!("@@ -0,0 +1 @@\n+cat << {}\n", "X".repeat(MAX_LINE_BYTES - 8));
    let d = fd(&raw, "x.sh");
    assert!(can_highlight(&d));
    let set = Syntaxes::bundled();
    let all = bundled_themes();
    let theme = theme(&all, DEFAULT_THEME).unwrap();
    assert!(highlight_file(&d, &set, theme, (0, 0, 0), (0, 0, 0), true, keep).is_some());
}

#[test]
fn no_newline_marker_is_unstyled() {
    let raw = "@@ -1,1 +1,1 @@\n-a\n\\ No newline at end of file\n+b\n";
    let d = fd(raw, "x.rs");
    let set = Syntaxes::bundled();
    let all = bundled_themes();
    let theme = theme(&all, DEFAULT_THEME).unwrap();
    let hl = highlight_file(&d, &set, theme, (0, 0, 0), (0, 0, 0), true, keep).unwrap();
    // The marker line (index 1) produces no styled spans.
    assert!(hl.line(0, 1).unwrap().spans.is_empty());
}

#[test]
fn removed_lines_do_not_disturb_the_added_side() {
    // A comment that is opened on a removed line alone.
    let raw = "@@ -1,2 +1,2 @@\n-/* open\n+let x = 1;\n";
    let plain = "@@ -1,1 +1,1 @@\n+let x = 1;\n";
    let set = Syntaxes::bundled();
    let all = bundled_themes();
    let theme = theme(&all, DEFAULT_THEME).unwrap();
    let run = |raw: &str, line: usize| {
        let d = fd(raw, "x.rs");
        let hl = highlight_file(&d, &set, theme, (0, 0, 0), (0, 0, 0), true, keep).unwrap();
        let styles: Vec<Color> = hl.line(0, line).unwrap().spans.iter().map(|(_, s)| s.fg).collect();
        styles
    };
    assert_eq!(run(raw, 1), run(plain, 0));
}

#[test]
fn tinted_lines_are_lifted() {
    let raw = "@@ -1,2 +1,2 @@\n let a = 1;\n+let b = 2;\n";
    let d = fd(raw, "x.rs");
    let set = Syntaxes::bundled();
    let all = bundled_themes();
    let theme = theme(&all, DEFAULT_THEME).unwrap();
    let white = |_: (u8, u8, u8), _: (u8, u8, u8)| (255, 255, 255);
    let hl = highlight_file(&d, &set, theme, (0, 0, 0), (0, 0, 0), true, white).unwrap();
    let fgs = |l: usize| -> Vec<Color> {
        hl.line(0, l).unwrap().spans.iter().map(|(_, s)| s.fg).collect()
    };
    assert!(fgs(1).iter().all(|c| *c == Color::Rgb(255, 255, 255)));
    assert!(fgs(0).iter().any(|c| *c != Color::Rgb(255, 255, 255)));
}

#[test]
fn quantises_rgb_without_truecolor() {
    // Pure red maps into the colour cube; near-gray into the ramp.
    assert_eq!(to_color((255, 0, 0), false), Color::Indexed(196));
    let gray = to_color((128, 128, 128), false);
    assert!(matches!(gray, Color::Indexed(232..=255)));
}

#[test]
fn palette_entries() {
    assert_eq!(rgb_to_ansi256(0, 0, 0), 16);
    assert_eq!(rgb_to_ansi256(255, 255, 255), 231);
    assert_eq!(rgb_to_ansi256(128, 128, 128), 244);
    assert_eq!(rgb_to_ansi256(0, 255, 0), 46);
    assert_eq!(rgb_to_ansi256(95, 135, 175), 67);
    // Halfway between two steps of the cube, and of the ramp.
    assert_eq!(rgb_to_ansi256(115, 0, 0), 88);
    assert_eq!(rgb_to_ansi256(0, 155, 235), 39);
    assert_eq!(rgb_to_ansi256(123, 123, 123), 243);
    // Halfway between black and the darkest grey.
    assert_eq!(rgb_to_ansi256(4, 4, 4), 16);
    assert_eq!(rgb_to_ansi256(8, 2, 2), 232);
    // Close to a cube cell, and closer to a grey.
    assert_eq!(rgb_to_ansi256(250, 10, 5), 196);
    assert_eq!(rgb_to_ansi256(100, 101, 99), 241);
    assert_eq!(to_color((1, 2, 3), true), Color::Rgb(1, 2, 3));
}

#[test]
fn truecolor_is_advertised_in_any_case() {
    assert!(supports_truecolor(Some("TrueColor")));
    assert!(supports_truecolor(Some("xterm-24bit")));
    assert!(!supports_truecolor(Some("256")));
    assert!(!supports_truecolor(None));
}

fn region(len: usize, alpha: u8) -> Region {
    Region {
        len,
        rgb: (10, 200, 30),
        alpha,
        bold: true,
        italic: false,
        underline: true,
    }
}

#[test]
fn regions_become_spans_of_the_line() {
    let regions = vec![region(3, 255), region(0, 255), region(9, 255), region(1, 255)];
    let colors = vec![Color::Reset; 4];
    let line = clip_regions(&regions, &colors, 100, 10);
    let ranges: Vec<_> = line.spans.iter().map(|(r, _)| r.clone()).collect();
    assert_eq!(ranges, vec![100..103, 103..110]);
}

#[test]
fn token_styles() {
    let m = font_modifier(&region(1, 255));
    assert!(m.bold && !m.italic && m.underlined);
    let r = region(1, 255);
    assert_eq!(resolve_fg(&r, false, (0, 0, 0), true), Color::Rgb(10, 200, 30));
    assert_eq!(resolve_fg(&r, true, (7, 7, 7), true), Color::Rgb(7, 7, 7));
    // A transparent foreground is the terminal's own.
    assert_eq!(resolve_fg(&region(1, 0), true, (7, 7, 7), true), Color::Reset);
}

#[test]
fn every_first_line_pattern_can_be_tried() {
    // A line that no pattern matches is held against all of them.
    let set = Syntaxes::bundled();
    let syn = detect(&set, "mystery", Some("nothing to go by")).unwrap();
    assert_eq!(syn.name, "Plain Text");
    for name in ["TOML", "TypeScript", "Dockerfile"] {
        assert!(two_face::syntax::extra_newlines().find_syntax_by_name(name).is_some());
    }
}
