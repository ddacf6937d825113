//! The resolved configuration, and how the user's file is laid over the defaults.
//!
//! Configuration is layered: sensible defaults are built in
//! ([`Config::default`]) and the user's file overrides only the keys it sets. A
//! missing file is normal (defaults apply silently); a malformed file never stops
//! the program: it falls back to defaults and the problems are returned as
//! warnings for the UI to show.

use vstd::prelude::*;
use vstd::string::*;
use vstd::utf8::*;

use crate::app::types::{ReviewedDisplay, ViewMode};
use crate::config::action::Action;
use crate::config::chord::{chord_of, parse_chord, Chord};
use crate::config::hide_rules::{no_rules, pattern_error, regex_error, HideModel, HideRules};
use crate::config::keymap::{default_map, rebound, KeyMap};
use crate::git::segment::{content_lines, content_range};
use crate::path::{join_of, path_join};
use crate::text::{
    chars_are, chars_of, copy_of, lemma_boundary_at_ascii, lemma_line_is_text_range,
    lemma_take_step, line_ranges, lower_ascii, lowered, opt_string, range_model, slice_str,
    split_lines, strings, trim, trimmed,
};

verus! {

/// The `[theme]` options.
#[derive(Debug)]
pub struct ThemeConfig {
    /// Whether diffs are highlighted at all.
    pub syntax: bool,
    /// The name of the theme.
    pub theme: String,
    /// Diffs with more lines than this are not highlighted.
    pub max_lines: usize,
}

/// Theme options as a mathematical value.
#[verifier::ext_equal]
pub struct ThemeModel {
    pub syntax: bool,
    pub theme: Seq<char>,
    pub max_lines: usize,
}

impl View for ThemeConfig {
    type V = ThemeModel;

    open spec fn view(&self) -> ThemeModel {
        ThemeModel { syntax: self.syntax, theme: self.theme@, max_lines: self.max_lines }
    }
}

/// The number of lines up to which a diff is highlighted by default.
pub const DEFAULT_MAX_LINES: usize = 5000;

/// The built-in theme options.
pub open spec fn default_theme_options() -> ThemeModel {
    ThemeModel { syntax: true, theme: "base16-ocean.dark"@, max_lines: DEFAULT_MAX_LINES }
}

/// The fully-resolved configuration the application runs against.
#[derive(Debug)]
pub struct Config {
    pub view: ViewMode,
    pub reviewed_chunks: ReviewedDisplay,
    pub keys: KeyMap,
    pub hide: HideRules,
    pub theme: ThemeConfig,
}

/// A configuration as a mathematical value.
#[verifier::ext_equal]
pub struct ConfigModel {
    pub view: ViewMode,
    pub reviewed_chunks: ReviewedDisplay,
    pub keys: Map<Chord, Action>,
    pub hide: HideModel,
    pub theme: ThemeModel,
}

impl View for Config {
    type V = ConfigModel;

    open spec fn view(&self) -> ConfigModel {
        ConfigModel {
            view: self.view,
            reviewed_chunks: self.reviewed_chunks,
            keys: self.keys@,
            hide: self.hide@,
            theme: self.theme@,
        }
    }
}

/// The built-in configuration.
pub open spec fn default_config() -> ConfigModel {
    ConfigModel {
        view: ViewMode::Unified,
        reviewed_chunks: ReviewedDisplay::Collapse,
        keys: default_map(),
        hide: no_rules(),
        theme: default_theme_options(),
    }
}

impl Default for Config {
    fn default() -> (r: Self)
        ensures
            r@ == default_config(),
            r.keys.wf(),
    {
        Config {
            view: ViewMode::Unified,
            reviewed_chunks: ReviewedDisplay::Collapse,
            keys: KeyMap::defaults(),
            hide: HideRules::default(),
            theme: ThemeConfig {
                syntax: true,
                theme: copy_of("base16-ocean.dark"),
                max_lines: DEFAULT_MAX_LINES,
            },
        }
    }
}

// ── the file ───────────────────────────────────────────────────────────────

/// A binding value: either a single chord (`"s"`) or a list (`["q", "ctrl+c"]`).
#[derive(Debug)]
pub enum ChordSpec {
    One(String),
    Many(Vec<String>),
}

impl View for ChordSpec {
    type V = Seq<Seq<char>>;

    open spec fn view(&self) -> Seq<Seq<char>> {
        match self {
            ChordSpec::One(s) => seq![s@],
            ChordSpec::Many(v) => strings(v@),
        }
    }
}

/// What the user's file says, before it is checked. `keys` is in the order of
/// the actions' names.
#[derive(Debug)]
pub struct RawConfig {
    pub view: Option<String>,
    pub reviewed_chunks: Option<String>,
    pub syntax: Option<bool>,
    pub theme: Option<String>,
    pub max_lines: Option<usize>,
    pub hide_names: Vec<String>,
    pub hide_patterns: Vec<String>,
    pub keys: Vec<(String, ChordSpec)>,
}

/// A raw configuration as a mathematical value.
#[verifier::ext_equal]
pub struct RawModel {
    pub view: Option<Seq<char>>,
    pub reviewed_chunks: Option<Seq<char>>,
    pub syntax: Option<bool>,
    pub theme: Option<Seq<char>>,
    pub max_lines: Option<usize>,
    pub hide_names: Seq<Seq<char>>,
    pub hide_patterns: Seq<Seq<char>>,
    pub keys: Seq<(Seq<char>, Seq<Seq<char>>)>,
}

impl View for RawConfig {
    type V = RawModel;

    open spec fn view(&self) -> RawModel {
        RawModel {
            view: opt_string(self.view),
            reviewed_chunks: opt_string(self.reviewed_chunks),
            syntax: self.syntax,
            theme: opt_string(self.theme),
            max_lines: self.max_lines,
            hide_names: strings(self.hide_names@),
            hide_patterns: strings(self.hide_patterns@),
            keys: self.keys@.map_values(|e: (String, ChordSpec)| (e.0@, e.1@)),
        }
    }
}

/// What became of reading the user's file.
#[derive(Debug)]
pub enum ConfigSource {
    /// There is no file, or it cannot be read.
    Missing,
    /// The file is no TOML of the expected shape; the parser's message.
    Malformed(String),
    Parsed(RawConfig),
}

// ── values ─────────────────────────────────────────────────────────────────

/// The view that a value of the file names.
pub open spec fn view_of(s: Seq<char>) -> Option<ViewMode> {
    let v = lowered(trim(s));
    if v == "unified"@ || v == "default"@ || v == "stacked"@ {
        Some(ViewMode::Unified)
    } else if v == "side-by-side"@ || v == "side_by_side"@ || v == "sidebyside"@ || v
        == "split"@ {
        Some(ViewMode::SideBySide)
    } else {
        None
    }
}

/// Parse the `view` value.
pub fn parse_view(s: &str) -> (r: Option<ViewMode>)
    ensures
        r == view_of(s@),
{
    let chars = chars_of(s);
    let v = lower_ascii(trimmed(chars.as_slice()));
    let v = v.as_slice();
    if chars_are(v, "unified") || chars_are(v, "default") || chars_are(v, "stacked") {
        Some(ViewMode::Unified)
    } else if chars_are(v, "side-by-side") || chars_are(v, "side_by_side") || chars_are(
        v,
        "sidebyside",
    ) || chars_are(v, "split") {
        Some(ViewMode::SideBySide)
    } else {
        None
    }
}

/// The display of reviewed chunks that a value of the file names.
pub open spec fn reviewed_display_of(s: Seq<char>) -> Option<ReviewedDisplay> {
    let v = lowered(trim(s));
    if v == "collapse"@ || v == "fold"@ || v == "hide"@ {
        Some(ReviewedDisplay::Collapse)
    } else if v == "dim"@ || v == "dimmed"@ || v == "keep"@ {
        Some(ReviewedDisplay::Dim)
    } else {
        None
    }
}

/// Parse the `reviewed_chunks` value.
pub fn parse_reviewed_display(s: &str) -> (r: Option<ReviewedDisplay>)
    ensures
        r == reviewed_display_of(s@),
{
    let chars = chars_of(s);
    let v = lower_ascii(trimmed(chars.as_slice()));
    let v = v.as_slice();
    if chars_are(v, "collapse") || chars_are(v, "fold") || chars_are(v, "hide") {
        Some(ReviewedDisplay::Collapse)
    } else if chars_are(v, "dim") || chars_are(v, "dimmed") || chars_are(v, "keep") {
        Some(ReviewedDisplay::Dim)
    } else {
        None
    }
}

/// The first line of a message.
pub open spec fn first_line_of(s: Seq<char>) -> Seq<char> {
    let lines = content_lines(s);
    if lines.len() > 0 {
        lines[0]
    } else {
        Seq::empty()
    }
}

/// The first line of a multi-line error message (parser and regex errors can be
/// long).
pub fn first_line(s: &str) -> (r: String)
    ensures
        r@ == first_line_of(s@),
{
    let bytes = s.as_bytes();
    let size = bytes.len();
    let lines = split_lines(bytes);
    if lines.len() == 0 {
        assert(line_ranges(bytes@).len() == 0);
        let r = String::new();
        assert(r@ =~= first_line_of(s@));
        return r;
    }
    let (start, end) = lines[0];
    let ghost range = range_model(lines@[0]);
    assert(line_ranges(bytes@)[0] == range);
    let mut stop = end;
    if end < size && start < end && bytes[end - 1] == 0x0d {
        stop = end - 1;
    }
    proof {
        lemma_line_is_text_range(s@, range);
        encode_utf8_valid_utf8(s@);
        if stop < end {
            lemma_boundary_at_ascii(bytes@, stop as int);
        }
        assert(content_range(bytes@, range) == (start as int, stop as int));
    }
    slice_str(s, start, stop).to_owned()
}

// ── warnings ───────────────────────────────────────────────────────────────

fn around(head: &str, what: &str, tail: &str) -> (r: String)
    ensures
        r@ == head@ + what@ + tail@,
{
    let mut s = copy_of(head);
    s.append(what);
    s.append(tail);
    s
}

/// What is said of a value that names nothing.
pub open spec fn unknown_reviewed_chunks(v: Seq<char>) -> Seq<char> {
    "unknown reviewed_chunks `"@ + v + "` (use \"collapse\" or \"dim\")"@
}

pub open spec fn unknown_view(v: Seq<char>) -> Seq<char> {
    "unknown view `"@ + v + "` (use \"unified\" or \"side-by-side\")"@
}

pub open spec fn unknown_action(name: Seq<char>) -> Seq<char> {
    "unknown action `"@ + name + "`"@
}

pub open spec fn bad_pattern(pattern: Seq<char>, message: Seq<char>) -> Seq<char> {
    "bad hide pattern `"@ + pattern + "`: "@ + first_line_of(message)
}

pub open spec fn bad_key(chord: Seq<char>, name: Seq<char>, message: Seq<char>) -> Seq<char> {
    "bad key `"@ + chord + "` for `"@ + name + "`: "@ + message
}

// ── resolving ──────────────────────────────────────────────────────────────

/// A configuration and the warnings so far.
#[verifier::ext_equal]
pub struct LoadModel {
    pub config: ConfigModel,
    pub warnings: Seq<Seq<char>>,
}

/// After the simple values of the file.
pub open spec fn with_values(raw: RawModel) -> LoadModel {
    let base = default_config();
    let a = match raw.reviewed_chunks {
        None => LoadModel { config: base, warnings: Seq::empty() },
        Some(v) => match reviewed_display_of(v) {
            Some(rd) => LoadModel {
                config: ConfigModel { reviewed_chunks: rd, ..base },
                warnings: Seq::empty(),
            },
            None => LoadModel { config: base, warnings: seq![unknown_reviewed_chunks(v)] },
        },
    };
    let b = match raw.view {
        None => a,
        Some(v) => match view_of(v) {
            Some(vm) => LoadModel { config: ConfigModel { view: vm, ..a.config }, ..a },
            None => LoadModel { warnings: a.warnings.push(unknown_view(v)), ..a },
        },
    };
    let theme = ThemeModel {
        syntax: match raw.syntax {
            Some(on) => on,
            None => base.theme.syntax,
        },
        theme: match raw.theme {
            Some(name) => name,
            None => base.theme.theme,
        },
        max_lines: match raw.max_lines {
            Some(n) => n,
            None => base.theme.max_lines,
        },
    };
    LoadModel { config: ConfigModel { theme, ..b.config }, ..b }
}

/// After the first `n` hide patterns: those that are valid are kept.
pub open spec fn with_patterns(
    load: LoadModel,
    patterns: Seq<Seq<char>>,
    errors: Seq<Option<Seq<char>>>,
    n: int,
) -> LoadModel
    decreases n,
{
    if n <= 0 {
        load
    } else {
        let was = with_patterns(load, patterns, errors, n - 1);
        match errors[n - 1] {
            None => LoadModel {
                config: ConfigModel {
                    hide: HideModel {
                        patterns: was.config.hide.patterns.push(patterns[n - 1]),
                        ..was.config.hide
                    },
                    ..was.config
                },
                ..was
            },
            Some(e) => LoadModel {
                warnings: was.warnings.push(bad_pattern(patterns[n - 1], e)),
                ..was
            },
        }
    }
}

/// The chords among the first `n` of `texts` that can be read.
pub open spec fn good_chords(texts: Seq<Seq<char>>, n: int) -> Seq<Chord>
    decreases n,
{
    if n <= 0 {
        Seq::empty()
    } else {
        match chord_of(texts[n - 1]) {
            Ok(c) => good_chords(texts, n - 1).push(c),
            Err(_) => good_chords(texts, n - 1),
        }
    }
}

/// The warnings for those that cannot.
pub open spec fn chord_warnings(name: Seq<char>, texts: Seq<Seq<char>>, n: int) -> Seq<Seq<char>>
    decreases n,
{
    if n <= 0 {
        Seq::empty()
    } else {
        match chord_of(texts[n - 1]) {
            Ok(_) => chord_warnings(name, texts, n - 1),
            Err(e) => chord_warnings(name, texts, n - 1).push(bad_key(texts[n - 1], name, e)),
        }
    }
}

/// `name` is the name of an action.
pub open spec fn is_action_name(name: Seq<char>) -> bool {
    exists|a: Action| #[trigger] a.name_of() == name
}

/// The action with this name.
pub open spec fn action_named(name: Seq<char>) -> Action {
    choose|a: Action| #[trigger] a.name_of() == name
}

/// After one entry of the `[keys]` table.
pub open spec fn with_key(load: LoadModel, name: Seq<char>, texts: Seq<Seq<char>>) -> LoadModel {
    if !is_action_name(name) {
        LoadModel { warnings: load.warnings.push(unknown_action(name)), ..load }
    } else {
        let n = texts.len() as int;
        let chords = good_chords(texts, n);
        LoadModel {
            config: if chords.len() == 0 {
                load.config
            } else {
                ConfigModel {
                    keys: rebound(load.config.keys, action_named(name), chords),
                    ..load.config
                }
            },
            warnings: load.warnings + chord_warnings(name, texts, n),
        }
    }
}

/// After the first `n` entries of the `[keys]` table.
pub open spec fn with_keys(
    load: LoadModel,
    keys: Seq<(Seq<char>, Seq<Seq<char>>)>,
    n: int,
) -> LoadModel
    decreases n,
{
    if n <= 0 {
        load
    } else {
        with_key(with_keys(load, keys, n - 1), keys[n - 1].0, keys[n - 1].1)
    }
}

/// The configuration and warnings of a file, given what is wrong with each of its
/// hide patterns.
pub open spec fn resolved(raw: RawModel, errors: Seq<Option<Seq<char>>>) -> LoadModel {
    let a = with_values(raw);
    let b = LoadModel {
        config: ConfigModel {
            hide: HideModel { names: raw.hide_names, patterns: Seq::empty() },
            ..a.config
        },
        ..a
    };
    let c = with_patterns(b, raw.hide_patterns, errors, raw.hide_patterns.len() as int);
    with_keys(c, raw.keys, raw.keys.len() as int)
}

/// What is wrong with each pattern.
pub open spec fn pattern_errors(patterns: Seq<Seq<char>>) -> Seq<Option<Seq<char>>> {
    patterns.map_values(|p: Seq<char>| regex_error(p))
}

/// The configuration and warnings that a source gives.
pub open spec fn loaded(source: ConfigSource) -> LoadModel {
    match source {
        ConfigSource::Missing => LoadModel { config: default_config(), warnings: Seq::empty() },
        ConfigSource::Malformed(e) => LoadModel {
            config: default_config(),
            warnings: seq!["parse error: "@ + first_line_of(e@)],
        },
        ConfigSource::Parsed(raw) => resolved(raw@, pattern_errors(raw@.hide_patterns)),
    }
}

/// A config file that is missing, or that cannot be read as TOML, leaves every
/// built-in default in place. Only the latter is worth a warning.
pub proof fn law_unreadable_config_keeps_defaults(e: String)
    ensures
        loaded(ConfigSource::Missing).config == default_config(),
        loaded(ConfigSource::Missing).warnings.len() == 0,
        loaded(ConfigSource::Malformed(e)).config == default_config(),
        loaded(ConfigSource::Malformed(e)).warnings.len() == 1,
{
}

/// The values behind a list of optional messages.
pub open spec fn messages(v: Seq<Option<String>>) -> Seq<Option<Seq<char>>> {
    v.map_values(|e: Option<String>| opt_string(e))
}

fn push_warning(warnings: &mut Vec<String>, w: String)
    ensures
        strings(final(warnings)@) == strings(old(warnings)@).push(w@),
{
    let ghost was = warnings@;
    let ghost view = w@;
    warnings.push(w);
    assert(strings(warnings@) =~= strings(was).push(view));
}

impl Config {
    /// The default config path: `$XDG_CONFIG_HOME/hunkr/config.toml`, else
    /// `$HOME/.config/hunkr/config.toml`. `None` only when neither is set (or both
    /// are empty).
    pub fn default_path(xdg: Option<&str>, home: Option<&str>) -> (r: Option<String>)
        ensures
            opt_string(r) == if xdg is Some && xdg->0@.len() > 0 {
                Some(join_of(join_of(xdg->0@, "hunkr"@), "config.toml"@))
            } else if home is Some && home->0@.len() > 0 {
                Some(
                    join_of(
                        join_of(join_of(home->0@, ".config"@), "hunkr"@),
                        "config.toml"@,
                    ),
                )
            } else {
                None
            },
    {
        if let Some(xdg) = xdg {
            if xdg.unicode_len() > 0 {
                return Some(path_join(path_join(xdg, "hunkr").as_str(), "config.toml"));
            }
        }
        if let Some(home) = home {
            if home.unicode_len() > 0 {
                let dir = path_join(path_join(home, ".config").as_str(), "hunkr");
                return Some(path_join(dir.as_str(), "config.toml"));
            }
        }
        None
    }

    /// Overlay what was read onto the built-in defaults. Returns the resolved
    /// config plus any non-fatal warnings (unknown keys, bad regex, parse errors).
    /// A missing file yields the defaults with no warnings.
    pub fn load(source: ConfigSource) -> (r: (Config, Vec<String>))
        ensures
            r.0@ == loaded(source).config,
            strings(r.1@) == loaded(source).warnings,
            r.0.keys.wf(),
    {
        match source {
            ConfigSource::Missing => {
                let warnings: Vec<String> = Vec::new();
                assert(strings(warnings@) =~= Seq::<Seq<char>>::empty());
                (Config::default(), warnings)
            },
            ConfigSource::Malformed(e) => {
                let mut warnings: Vec<String> = Vec::new();
                push_warning(
                    &mut warnings,
                    around("parse error: ", first_line(e.as_str()).as_str(), ""),
                );
                proof {
                    reveal_strlit("");
                    assert("parse error: "@ + first_line_of(e@) + ""@ =~= "parse error: "@
                        + first_line_of(e@));
                    assert(strings(warnings@) =~= seq!["parse error: "@ + first_line_of(e@)]);
                }
                (Config::default(), warnings)
            },
            ConfigSource::Parsed(raw) => {
                let mut errors: Vec<Option<String>> = Vec::new();
                let n = raw.hide_patterns.len();
                let ghost patterns = raw@.hide_patterns;
                for i in 0..n
                    invariant
                        n == raw.hide_patterns@.len(),
                        patterns == strings(raw.hide_patterns@),
                        messages(errors@) == pattern_errors(patterns).take(i as int),
                {
                    assert(patterns[i as int] == raw.hide_patterns@[i as int]@);
                    let e = pattern_error(raw.hide_patterns[i].as_str());
                    let ghost was = errors@;
                    let ghost view = opt_string(e);
                    errors.push(e);
                    assert(messages(errors@) =~= messages(was).push(view));
                    proof {
                        lemma_take_step(pattern_errors(patterns), i as int);
                    }
                }
                assert(pattern_errors(patterns).take(n as int) =~= pattern_errors(patterns));
                Config::resolve(raw, &errors)
            },
        }
    }

    /// Overlay a file that could be parsed onto the built-in defaults, given what
    /// is wrong with each of its hide patterns (nothing for a valid one).
    pub fn resolve(raw: RawConfig, errors: &Vec<Option<String>>) -> (r: (Config, Vec<String>))
        requires
            errors@.len() == raw@.hide_patterns.len(),
        ensures
            r.0@ == resolved(raw@, messages(errors@)).config,
            strings(r.1@) == resolved(raw@, messages(errors@)).warnings,
            r.0.keys.wf(),
    {
        let ghost model = raw@;
        let ghost errs = messages(errors@);
        let mut cfg = Config::default();
        let mut warnings: Vec<String> = Vec::new();
        assert(strings(warnings@) =~= Seq::<Seq<char>>::empty());

        if let Some(v) = &raw.reviewed_chunks {
            match parse_reviewed_display(v.as_str()) {
                Some(rd) => {
                    cfg.reviewed_chunks = rd;
                },
                None => {
                    push_warning(
                        &mut warnings,
                        around(
                            "unknown reviewed_chunks `",
                            v.as_str(),
                            "` (use \"collapse\" or \"dim\")",
                        ),
                    );
                    assert(strings(warnings@) =~= seq![unknown_reviewed_chunks(v@)]);
                },
            }
        }
        if let Some(v) = &raw.view {
            match parse_view(v.as_str()) {
                Some(vm) => {
                    cfg.view = vm;
                },
                None => {
                    push_warning(
                        &mut warnings,
                        around(
                            "unknown view `",
                            v.as_str(),
                            "` (use \"unified\" or \"side-by-side\")",
                        ),
                    );
                },
            }
        }
        if let Some(on) = raw.syntax {
            cfg.theme.syntax = on;
        }
        if let Some(name) = raw.theme {
            cfg.theme.theme = name;
        }
        if let Some(lines) = raw.max_lines {
            cfg.theme.max_lines = lines;
        }
        let ghost a = with_values(model);
        assert(cfg@ =~= a.config);
        assert(strings(warnings@) =~= a.warnings);

        cfg.hide.names = raw.hide_names;
        let ghost b = LoadModel {
            config: ConfigModel {
                hide: HideModel { names: model.hide_names, patterns: Seq::empty() },
                ..a.config
            },
            ..a
        };
        assert(cfg@.hide =~= b.config.hide);
        let n = raw.hide_patterns.len();
        let patterns = raw.hide_patterns;
        for i in 0..n
            invariant
                n == patterns@.len(),
                strings(patterns@) == model.hide_patterns,
                errs == messages(errors@),
                errors@.len() == n,
                cfg.keys.wf(),
                cfg@ == with_patterns(b, model.hide_patterns, errs, i as int).config,
                strings(warnings@) == with_patterns(
                    b,
                    model.hide_patterns,
                    errs,
                    i as int,
                ).warnings,
        {
            let ghost was = with_patterns(b, model.hide_patterns, errs, i as int);
            assert(model.hide_patterns[i as int] == patterns@[i as int]@);
            assert(errs[i as int] == opt_string(errors@[i as int]));
            match &errors[i] {
                None => {
                    let p = patterns[i].clone();
                    let ghost had = cfg.hide.patterns@;
                    let ghost view = p@;
                    cfg.hide.patterns.push(p);
                    assert(cfg@.hide.patterns =~= strings(had).push(view));
                },
                Some(e) => {
                    let mut w = around("bad hide pattern `", patterns[i].as_str(), "`: ");
                    w.append(first_line(e.as_str()).as_str());
                    push_warning(&mut warnings, w);
                },
            }
        }
        let ghost c = with_patterns(b, model.hide_patterns, errs, n as int);
        let m = raw.keys.len();
        let keys = raw.keys;
        for i in 0..m
            invariant
                m == keys@.len(),
                keys@.map_values(|e: (String, ChordSpec)| (e.0@, e.1@)) == model.keys,
                cfg.keys.wf(),
                cfg@ == with_keys(c, model.keys, i as int).config,
                strings(warnings@) == with_keys(c, model.keys, i as int).warnings,
        {
            let ghost was = with_keys(c, model.keys, i as int);
            let name = keys[i].0.as_str();
            assert(model.keys[i as int] == (keys@[i as int].0@, keys@[i as int].1@));
            match Action::from_name(name) {
                None => {
                    push_warning(&mut warnings, around("unknown action `", name, "`"));
                },
                Some(action) => {
                    proof {
                        assert(action.name_of() == name@);
                        crate::config::action::law_names_differ(action, action_named(name@));
                    }
                    let texts: &Vec<String>;
                    let single: Vec<String>;
                    match &keys[i].1 {
                        ChordSpec::One(s) => {
                            let mut v: Vec<String> = Vec::new();
                            v.push(s.clone());
                            assert(strings(v@) =~= seq![s@]);
                            single = v;
                            texts = &single;
                        },
                        ChordSpec::Many(v) => {
                            texts = v;
                        },
                    }
                    let ghost all = strings(texts@);
                    assert(all == model.keys[i as int].1);
                    let mut chords: Vec<Chord> = Vec::new();
                    let ghost start = strings(warnings@);
                    let k = texts.len();
                    assert(start + chord_warnings(name@, all, 0) =~= start);
                    assert(chords@ =~= good_chords(all, 0));
                    for j in 0..k
                        invariant
                            k == texts@.len(),
                            all == strings(texts@),
                            chords@ == good_chords(all, j as int),
                            strings(warnings@) == start + chord_warnings(name@, all, j as int),
                    {
                        assert(all[j as int] == texts@[j as int]@);
                        match parse_chord(texts[j].as_str()) {
                            Ok(ch) => {
                                chords.push(ch);
                            },
                            Err(e) => {
                                let mut w = around("bad key `", texts[j].as_str(), "` for `");
                                w.append(name);
                                w.append("`: ");
                                w.append(e.as_str());
                                push_warning(&mut warnings, w);
                                assert(strings(warnings@) =~= start + chord_warnings(
                                    name@,
                                    all,
                                    j + 1,
                                ));
                            },
                        }
                    }
                    if chords.len() > 0 {
                        cfg.keys.rebind(action, &chords);
                    }
                },
            }
            assert(cfg@ =~= with_keys(c, model.keys, i + 1).config);
        }
        (cfg, warnings)
    }
}

} // verus!
