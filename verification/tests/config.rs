use hunkr::app::types::{ReviewedDisplay, ViewMode};
use hunkr::config::action::Action;
use hunkr::config::chord::{
    chord_to_string, normalize, parse_chord, Chord, KeyCode, KeyModifiers,
};
use hunkr::config::edit::{edit_theme, edit_view};
use hunkr::config::hide_rules::HideRules;
use hunkr::config::keymap::KeyMap;
use hunkr::config::load::{ChordSpec, Config, ConfigSource, RawConfig};
use hunkr::highlight::themes::user_theme_dir;

fn strings(v: Option<&toml::Value>) -> Vec<String> {
    match v {
        Some(v) => v
            .as_array()
            .unwrap()
            .iter()
            .map(|s| s.as_str().unwrap().to_string())
            .collect(),
        None => Vec::new(),
    }
}

/// What a config file with this text says.
fn source(text: &str) -> ConfigSource {
    let table = match toml::from_str::<toml::Table>(text) {
        Ok(t) => t,
        Err(e) => return ConfigSource::Malformed(e.to_string()),
    };
    let text_at = |key: &str| table.get(key).map(|v| v.as_str().unwrap().to_string());
    let hide = table.get("hide").map(|v| v.as_table().unwrap());
    let theme = table.get("theme").map(|v| v.as_table().unwrap());
    let mut keys: Vec<(String, ChordSpec)> = Vec::new();
    if let Some(listed) = table.get("keys") {
        for (name, value) in listed.as_table().unwrap() {
            let spec = match value.as_str() {
                Some(s) => ChordSpec::One(s.to_string()),
                None => ChordSpec::Many(strings(Some(value))),
            };
            keys.push((name.clone(), spec));
        }
    }
    ConfigSource::Parsed(RawConfig {
        view: text_at("view"),
        reviewed_chunks: text_at("reviewed_chunks"),
        syntax: theme.and_then(|t| t.get("syntax")).map(|v| v.as_bool().unwrap()),
        theme: theme
            .and_then(|t| t.get("theme"))
            .map(|v| v.as_str().unwrap().to_string()),
        max_lines: theme
            .and_then(|t| t.get("max_lines"))
            .map(|v| v.as_integer().unwrap() as usize),
        hide_names: strings(hide.and_then(|t| t.get("names"))),
        hide_patterns: strings(hide.and_then(|t| t.get("patterns"))),
        keys,
    })
}

fn chord(s: &str) -> Chord {
    parse_chord(s).unwrap()
}

#[test]
fn action_names_round_trip() {
    for a in Action::ALL {
        assert_eq!(
            Action::from_name(a.name()),
            Some(a),
            "name round-trip for {a:?}"
        );
    }
}

#[test]
fn template_documents_every_action_default() {
    let template = Config::default_template();
    let normalized: Vec<String> = template
        .lines()
        .map(|l| l.split_whitespace().collect::<Vec<_>>().join(" "))
        .collect();
    let km = KeyMap::default();
    for a in Action::ALL {
        let chords = km.chords_for(a);
        let value = if chords.len() == 1 {
            format!("\"{}\"", chords[0])
        } else {
            let quoted: Vec<String> = chords.iter().map(|c| format!("\"{c}\"")).collect();
            format!("[{}]", quoted.join(", "))
        };
        let line = format!("# {} = {value}", a.name());
        assert!(
            normalized.contains(&line),
            "template missing default line: `{line}`"
        );
    }
}

#[test]
fn chord_round_trips() {
    for s in [
        "j",
        "G",
        "ctrl+c",
        "shift+down",
        "<",
        "?",
        "tab",
        "enter",
        "pgup",
        "f5",
    ] {
        let chord = parse_chord(s).unwrap();
        // The display form re-parses to the same normalized chord.
        let back = parse_chord(&chord_to_string(chord)).unwrap();
        assert_eq!(chord, back, "round-trip failed for {s}");
    }
}

#[test]
fn a_blank_key_round_trips() {
    for c in [' ', '\t', '\u{a0}', '\u{3000}'] {
        let chord = (KeyCode::Char(c), KeyModifiers::none());
        assert_eq!(parse_chord(&chord_to_string(chord)), Ok(chord));
    }
}

#[test]
fn shift_on_char_is_normalized_away() {
    let (_, mods) = normalize(KeyCode::Char('H'), KeyModifiers::shift_only());
    assert!(!mods.shift);
    // Shift is preserved for non-character keys (Shift+Down ≠ Down).
    let (_, mods) = normalize(KeyCode::Down, KeyModifiers::shift_only());
    assert!(mods.shift);
}

#[test]
fn chords_that_make_no_sense_are_refused() {
    assert!(parse_chord("").is_err());
    assert!(parse_chord("hyper+x").is_err());
    assert!(parse_chord("nosuchkey").is_err());
    assert_eq!(
        parse_chord("ctrl+c"),
        Ok(normalize(KeyCode::Char('c'), KeyModifiers::control_only()))
    );
}

#[test]
fn missing_file_yields_defaults_no_warnings() {
    let (cfg, warns) = Config::load(ConfigSource::Missing);
    assert_eq!(cfg.view, ViewMode::Unified);
    assert!(warns.is_empty());
    assert_eq!(
        cfg.keys.get((KeyCode::Char('q'), KeyModifiers::none())),
        Some(Action::Quit)
    );
    assert_eq!(cfg.theme.theme, "base16-ocean.dark");
    assert_eq!(cfg.theme.max_lines, 5000);
    assert!(cfg.theme.syntax);
}

#[test]
fn partial_override_keeps_other_defaults() {
    let (cfg, warns) = Config::load(source(
        "view = \"side-by-side\"\n[keys]\ntoggle_view = \"v\"\n",
    ));
    assert!(warns.is_empty(), "unexpected warnings: {warns:?}");
    assert_eq!(cfg.view, ViewMode::SideBySide);
    // toggle_view moved to `v`; the old `s` no longer triggers it.
    assert_eq!(cfg.keys.get(chord("v")), Some(Action::ToggleView));
    assert_eq!(cfg.keys.get(chord("s")), None);
    // Everything else keeps its default.
    assert_eq!(cfg.keys.get(chord("q")), Some(Action::Quit));
    assert_eq!(cfg.keys.get(chord("h")), Some(Action::ToggleHidden));
}

#[test]
fn malformed_toml_falls_back_with_warning() {
    let (cfg, warns) = Config::load(source("this is = = not toml\n"));
    assert_eq!(cfg.view, ViewMode::Unified);
    assert!(!warns.is_empty());
    assert!(warns[0].starts_with("parse error: "), "{warns:?}");
    assert!(!warns[0].contains('\n'), "{warns:?}");
}

#[test]
fn unknown_action_and_bad_regex_warn_but_load() {
    let (_cfg, warns) = Config::load(source(
        "[keys]\nbogus_action = \"x\"\n[hide]\npatterns = [\"[unclosed\"]\n",
    ));
    assert!(warns.iter().any(|w| w.contains("bogus_action")));
    assert!(warns.iter().any(|w| w.contains("hide pattern")));
}

#[test]
fn hide_rules_match_names_and_patterns() {
    let (cfg, warns) = Config::load(source(
        "[hide]\nnames = [\"Cargo.lock\", \"package-lock.json\"]\npatterns = [\"^dist/\", \"\\\\.min\\\\.js$\"]\n",
    ));
    assert!(warns.is_empty(), "unexpected warnings: {warns:?}");
    assert!(cfg.hide.matches("Cargo.lock"));
    // file-name match works for nested paths
    assert!(cfg.hide.matches("frontend/package-lock.json"));
    assert!(cfg.hide.matches("dist/app.js"));
    assert!(cfg.hide.matches("a/b/foo.min.js"));
    assert!(!cfg.hide.matches("src/main.rs"));
}

#[test]
fn list_of_chords_binds_all() {
    let (cfg, warns) = Config::load(source("[keys]\nquit = [\"x\", \"ctrl+d\"]\n"));
    assert!(warns.is_empty(), "unexpected warnings: {warns:?}");
    assert_eq!(cfg.keys.get(chord("x")), Some(Action::Quit));
    assert_eq!(cfg.keys.get(chord("ctrl+d")), Some(Action::Quit));
    // The default `q` was replaced.
    assert_eq!(cfg.keys.get(chord("q")), None);
}

#[test]
fn template_parses_cleanly() {
    let (_cfg, warns) = Config::load(source(&Config::default_template()));
    assert!(
        warns.is_empty(),
        "shipped template must load without warnings: {warns:?}"
    );
}

#[test]
fn every_documented_default_can_be_written_out() {
    // The template with its key lines uncommented binds what is bound anyway.
    let text: String = Config::default_template()
        .lines()
        .skip_while(|l| *l != "# [keys]")
        .map(|l| format!("{}\n", l.trim_start_matches("# ")))
        .collect();
    let (cfg, warns) = Config::load(source(&text));
    assert!(warns.is_empty(), "{warns:?}");
    let km = KeyMap::defaults();
    for a in Action::ALL {
        assert_eq!(cfg.keys.chords_for(a), km.chords_for(a), "{a:?}");
    }
}

#[test]
fn other_settings_are_read_and_checked() {
    let (cfg, warns) = Config::load(source(
        "view = \"sideways\"\nreviewed_chunks = \"dim\"\n[theme]\nsyntax = false\ntheme = \"Nord\"\nmax_lines = 9\n[keys]\nquit = \"nosuchkey\"\n",
    ));
    assert_eq!(cfg.view, ViewMode::Unified);
    assert_eq!(cfg.reviewed_chunks, ReviewedDisplay::Dim);
    assert!(!cfg.theme.syntax);
    assert_eq!(cfg.theme.theme, "Nord");
    assert_eq!(cfg.theme.max_lines, 9);
    assert_eq!(warns.len(), 2, "{warns:?}");
    assert!(warns.iter().any(|w| w.contains("sideways")));
    assert!(warns.iter().any(|w| w.contains("nosuchkey")));
}

#[test]
fn rebinding_takes_the_chord_over() {
    let mut km = KeyMap::defaults();
    km.rebind(Action::Quit, &vec![chord("s")]);
    assert_eq!(km.get(chord("s")), Some(Action::Quit));
    assert_eq!(km.get(chord("q")), None);
    assert_eq!(km.primary(Action::Quit).as_deref(), Some("s"));
    assert_eq!(km.primary(Action::ToggleView), None);
}

#[test]
fn a_pattern_is_searched_for_anywhere() {
    let rules = HideRules {
        names: vec!["src/gen.rs".to_string()],
        patterns: vec!["lock$".to_string()],
    };
    assert!(rules.matches("a/yarn.lock"));
    assert!(rules.matches("src/gen.rs"));
    assert!(!rules.matches("lib/src/gen.rs"));
    assert!(!rules.matches("locksmith"));
}

#[test]
fn config_paths_follow_the_environment() {
    assert_eq!(
        Config::default_path(Some("/x"), Some("/home/u")).as_deref(),
        Some("/x/hunkr/config.toml")
    );
    assert_eq!(
        Config::default_path(Some(""), Some("/home/u")).as_deref(),
        Some("/home/u/.config/hunkr/config.toml")
    );
    assert_eq!(Config::default_path(None, None), None);
    assert_eq!(
        user_theme_dir(None, Some("/home/u")).as_deref(),
        Some("/home/u/.config/hunkr/themes")
    );
    assert_eq!(user_theme_dir(Some("/x"), None).as_deref(), Some("/x/hunkr/themes"));
    assert_eq!(user_theme_dir(None, Some("")), None);
}

#[test]
fn a_saved_setting_reloads() {
    let text = edit_view(&Config::default_template(), ViewMode::SideBySide).unwrap();
    let (cfg, warns) = Config::load(source(&text));
    assert!(warns.is_empty(), "{warns:?}");
    assert_eq!(cfg.view, ViewMode::SideBySide);

    // The other one is kept, and so is what the user wrote.
    let text = edit_theme(&text, "Nord").unwrap();
    let (cfg, warns) = Config::load(source(&text));
    assert!(warns.is_empty(), "{warns:?}");
    assert_eq!(cfg.view, ViewMode::SideBySide);
    assert_eq!(cfg.theme.theme, "Nord");
    assert!(text.contains("# hunkr configuration"));

    let text = edit_view(&text, ViewMode::Unified).unwrap();
    assert_eq!(Config::load(source(&text)).0.view, ViewMode::Unified);
    let mine = "# mine\n[theme]\nsyntax = true # on\n";
    let text = edit_theme(mine, "Dracula").unwrap();
    assert!(text.starts_with(mine), "{text}");
    assert_eq!(Config::load(source(&text)).0.theme.theme, "Dracula");
}

#[test]
fn a_broken_file_is_not_edited() {
    let err = edit_view("this is = = broken\n", ViewMode::Unified).unwrap_err();
    assert!(!err.is_empty() && !err.contains('\n'), "{err}");
    assert!(edit_theme("= =", "Nord").is_err());
    assert_eq!(edit_theme("theme = 3\n", "Nord"), Err("invalid config".to_string()));
}

#[test]
fn display_order_does_not_depend_on_binding_order() {
    let mut a = KeyMap::defaults();
    let mut b = KeyMap::defaults();
    a.rebind(Action::Quit, &vec![chord("ctrl+d"), chord("z"), chord("f2"), chord("x")]);
    b.rebind(Action::Quit, &vec![chord("x"), chord("f2"), chord("z"), chord("ctrl+d")]);
    assert_eq!(a.chords_for(Action::Quit), vec!["x", "z", "f2", "ctrl+d"]);
    assert_eq!(a.chords_for(Action::Quit), b.chords_for(Action::Quit));
}

#[test]
fn plus_is_a_key_like_any_other() {
    assert_eq!(chord("+"), (KeyCode::Char('+'), KeyModifiers::none()));
    assert_eq!(chord("ctrl++"), (KeyCode::Char('+'), KeyModifiers::control_only()));
    assert_eq!(chord_to_string(chord("ctrl++")), "ctrl++");
    assert_eq!(chord(" "), (KeyCode::Char(' '), KeyModifiers::none()));
    assert_eq!(chord(" j "), (KeyCode::Char('j'), KeyModifiers::none()));
    assert!(parse_chord("  ").is_err());
    assert!(parse_chord("++").is_err());
    assert!(parse_chord("ctrl+").is_err());
}
