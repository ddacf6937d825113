//! What the config file changes, and what it leaves as it is built in.

use vstd::prelude::*;

use crate::app::types::{ReviewedDisplay, ViewMode};
use crate::config::action::{law_names_differ, Action};
use crate::config::chord::{
    chord_for, chord_of, key_of, modifiers_of, no_mods, trimmed_chord_of, with_modifier, Chord,
    KeyCode, KeyModifiers,
};
use crate::config::edit::view_name;
use crate::config::hide_rules::{regex_matches, HideModel};
use crate::config::keymap::{action_at, default_map, law_rebind};
use crate::config::load::{
    action_named, default_config, good_chords, is_action_name, resolved, reviewed_display_of,
    unknown_action, unknown_reviewed_chunks, unknown_view, view_of, with_key, with_keys,
    with_patterns, with_values, LoadModel, RawModel,
};
use crate::path::{file_name_of, join_of};
use crate::path_laws::{law_file_name, plain_name};
use crate::text::{lowered, pieces, white_space};
use crate::text_laws::{blank, law_one_piece, law_pieces_part, law_trim};

verus! {

// ── values ─────────────────────────────────────────────────────────────────

/// `s` does not begin or end with white space.
pub open spec fn trimmed_text(s: Seq<char>) -> bool {
    s.len() > 0 ==> !white_space(s[0]) && !white_space(s.last())
}

/// The values of the file are read whatever their case and whatever white space is
/// around them.
pub proof fn law_values_by_name(a: Seq<char>, s: Seq<char>, c: Seq<char>)
    requires
        blank(a),
        blank(c),
        trimmed_text(s),
    ensures
        ({
            let v = lowered(s);
            let view = view_of(a + s + c);
            &&& view == Some(ViewMode::Unified) <==> v == "unified"@ || v == "default"@ || v
                == "stacked"@
            &&& view == Some(ViewMode::SideBySide) <==> (v == "side-by-side"@ || v
                == "side_by_side"@ || v == "sidebyside"@ || v == "split"@) && view
                != Some(ViewMode::Unified)
        }),
        ({
            let v = lowered(s);
            let display = reviewed_display_of(a + s + c);
            &&& display == Some(ReviewedDisplay::Collapse) <==> v == "collapse"@ || v == "fold"@
                || v == "hide"@
            &&& display == Some(ReviewedDisplay::Dim) <==> (v == "dim"@ || v == "dimmed"@ || v
                == "keep"@) && display != Some(ReviewedDisplay::Collapse)
        }),
{
    law_trim(a, s, c);
}

proof fn lemma_patterns(
    load: LoadModel,
    patterns: Seq<Seq<char>>,
    errors: Seq<Option<Seq<char>>>,
    n: int,
)
    requires
        0 <= n <= patterns.len(),
        errors.len() == patterns.len(),
    ensures
        ({
            let r = with_patterns(load, patterns, errors, n);
            &&& r.config.view == load.config.view
            &&& r.config.reviewed_chunks == load.config.reviewed_chunks
            &&& r.config.theme == load.config.theme
            &&& r.config.keys == load.config.keys
            &&& r.config.hide.names == load.config.hide.names
            &&& r.config.hide.patterns == load.config.hide.patterns + valid_among(
                patterns,
                errors,
                n,
            )
            &&& valid_among(patterns, errors, n).len() <= n
            &&& r.warnings.len() == load.warnings.len() + n - valid_among(
                patterns,
                errors,
                n,
            ).len()
            &&& forall|i: int|
                0 <= i < load.warnings.len() ==> #[trigger] r.warnings[i] == load.warnings[i]
        }),
    decreases n,
{
    if n > 0 {
        lemma_patterns(load, patterns, errors, n - 1);
        let had = load.config.hide.patterns;
        let was = valid_among(patterns, errors, n - 1);
        assert((had + was).push(patterns[n - 1]) =~= had + was.push(patterns[n - 1]));
    } else {
        assert(load.config.hide.patterns + valid_among(patterns, errors, 0)
            =~= load.config.hide.patterns);
    }
}

/// The valid ones among the first `n` patterns.
pub open spec fn valid_among(
    patterns: Seq<Seq<char>>,
    errors: Seq<Option<Seq<char>>>,
    n: int,
) -> Seq<Seq<char>>
    decreases n,
{
    if n <= 0 {
        Seq::empty()
    } else if errors[n - 1] is None {
        valid_among(patterns, errors, n - 1).push(patterns[n - 1])
    } else {
        valid_among(patterns, errors, n - 1)
    }
}

proof fn lemma_keys(load: LoadModel, keys: Seq<(Seq<char>, Seq<Seq<char>>)>, n: int)
    ensures
        ({
            let r = with_keys(load, keys, n);
            &&& r.config.view == load.config.view
            &&& r.config.reviewed_chunks == load.config.reviewed_chunks
            &&& r.config.theme == load.config.theme
            &&& r.config.hide == load.config.hide
            &&& r.warnings.len() >= load.warnings.len()
            &&& forall|i: int|
                0 <= i < load.warnings.len() ==> #[trigger] r.warnings[i] == load.warnings[i]
        }),
    decreases n,
{
    if n > 0 {
        lemma_keys(load, keys, n - 1);
    }
}

/// Each value of the file stands in place of the built-in one. A value that is not there,
/// and one that cannot be read, leaves the built-in one, and no value weighs on another.
pub proof fn law_values_override(raw: RawModel, errors: Seq<Option<Seq<char>>>)
    requires
        errors.len() == raw.hide_patterns.len(),
    ensures
        ({
            let c = resolved(raw, errors).config;
            let base = default_config();
            &&& c.view == if raw.view is Some && view_of(raw.view->0) is Some {
                view_of(raw.view->0)->0
            } else {
                base.view
            }
            &&& c.reviewed_chunks == if raw.reviewed_chunks is Some && reviewed_display_of(
                raw.reviewed_chunks->0,
            ) is Some {
                reviewed_display_of(raw.reviewed_chunks->0)->0
            } else {
                base.reviewed_chunks
            }
            &&& raw.syntax is Some ==> c.theme.syntax == raw.syntax->0
            &&& raw.syntax is None ==> c.theme.syntax == base.theme.syntax
            &&& raw.theme is Some ==> c.theme.theme == raw.theme->0
            &&& raw.theme is None ==> c.theme.theme == base.theme.theme
            &&& raw.max_lines is Some ==> c.theme.max_lines == raw.max_lines->0
            &&& raw.max_lines is None ==> c.theme.max_lines == base.theme.max_lines
            &&& c.hide.names == raw.hide_names
            &&& c.hide.patterns == valid_among(
                raw.hide_patterns,
                errors,
                raw.hide_patterns.len() as int,
            )
            &&& raw.keys.len() == 0 ==> c.keys == base.keys
        }),
{
    let a = with_values(raw);
    let b = LoadModel {
        config: crate::config::load::ConfigModel {
            hide: HideModel { names: raw.hide_names, patterns: Seq::empty() },
            ..a.config
        },
        ..a
    };
    let n = raw.hide_patterns.len() as int;
    lemma_patterns(b, raw.hide_patterns, errors, n);
    let c = with_patterns(b, raw.hide_patterns, errors, n);
    lemma_keys(c, raw.keys, raw.keys.len() as int);
    let none = Seq::<Seq<char>>::empty();
    assert(none + valid_among(raw.hide_patterns, errors, n) =~= valid_among(
        raw.hide_patterns,
        errors,
        n,
    ));
}

/// A value that cannot be read is not passed over in silence: it is the first warning
/// that names it.
pub proof fn law_unreadable_values_warn(raw: RawModel, errors: Seq<Option<Seq<char>>>)
    requires
        errors.len() == raw.hide_patterns.len(),
    ensures
        ({
            let w = resolved(raw, errors).warnings;
            let display = raw.reviewed_chunks is Some && reviewed_display_of(
                raw.reviewed_chunks->0,
            ) is None;
            let view = raw.view is Some && view_of(raw.view->0) is None;
            &&& display ==> w.len() > 0 && w[0] == unknown_reviewed_chunks(
                raw.reviewed_chunks->0,
            )
            &&& view ==> w.contains(unknown_view(raw.view->0))
            &&& !display && !view && raw.hide_patterns.len() == 0 && raw.keys.len() == 0
                ==> w.len() == 0
        }),
{
    let a = with_values(raw);
    let b = LoadModel {
        config: crate::config::load::ConfigModel {
            hide: HideModel { names: raw.hide_names, patterns: Seq::empty() },
            ..a.config
        },
        ..a
    };
    let n = raw.hide_patterns.len() as int;
    lemma_patterns(b, raw.hide_patterns, errors, n);
    let c = with_patterns(b, raw.hide_patterns, errors, n);
    lemma_keys(c, raw.keys, raw.keys.len() as int);
    let w = resolved(raw, errors).warnings;
    if raw.view is Some && view_of(raw.view->0) is None {
        let last = a.warnings.len() - 1;
        assert(a.warnings[last] == unknown_view(raw.view->0));
        assert(b.warnings[last] == a.warnings[last]);
        assert(c.warnings[last] == b.warnings[last]);
        assert(w[last] == c.warnings[last]);
    }
    if raw.reviewed_chunks is Some && reviewed_display_of(raw.reviewed_chunks->0) is None {
        assert(a.warnings[0] == unknown_reviewed_chunks(raw.reviewed_chunks->0));
        assert(b.warnings[0] == a.warnings[0]);
        assert(c.warnings[0] == b.warnings[0]);
        assert(w[0] == c.warnings[0]);
    }
}

// ── keys ───────────────────────────────────────────────────────────────────

proof fn lemma_good_chords(texts: Seq<Seq<char>>, n: int, c: Chord)
    requires
        0 <= n <= texts.len(),
    ensures
        good_chords(texts, n).contains(c) <==> exists|i: int|
            0 <= i < n && chord_of(#[trigger] texts[i]) == Ok::<Chord, Seq<char>>(c),
    decreases n,
{
    if n > 0 {
        lemma_good_chords(texts, n - 1, c);
        let was = good_chords(texts, n - 1);
        let now = good_chords(texts, n);
        match chord_of(texts[n - 1]) {
            Ok(d) => {
                assert(now[was.len() as int] == d);
                if was.contains(c) {
                    let i = choose|i: int| 0 <= i < was.len() && was[i] == c;
                    assert(now[i] == c);
                }
                if now.contains(c) {
                    let i = choose|i: int| 0 <= i < now.len() && now[i] == c;
                    if i < was.len() {
                        assert(was[i] == c);
                    }
                }
            },
            Err(_) => {},
        }
    }
}

/// An entry of the `[keys]` table makes its action be triggered by the chords that it
/// lists and by no others; those chords trigger nothing else, and other chords do what
/// they did. An entry without a chord that can be read, and one for no action, changes no
/// key.
pub proof fn law_key_entry(load: LoadModel, action: Action, texts: Seq<Seq<char>>, c: Chord)
    ensures
        ({
            let r = with_key(load, action.name_of(), texts);
            let listed = exists|i: int|
                0 <= i < texts.len() && chord_of(#[trigger] texts[i]) == Ok::<Chord, Seq<char>>(c);
            let some = exists|d: Chord| #[trigger] good_chords(texts, texts.len() as int).contains(d);
            &&& listed ==> action_at(r.config.keys, c) == Some(action)
            &&& some && !listed ==> action_at(r.config.keys, c) != Some(action)
            &&& !listed && action_at(load.config.keys, c) != Some(action) ==> action_at(
                r.config.keys,
                c,
            ) == action_at(load.config.keys, c)
            &&& !some ==> r.config == load.config
        }),
{
    let n = texts.len() as int;
    let chords = good_chords(texts, n);
    lemma_good_chords(texts, n, c);
    assert(is_action_name(action.name_of()));
    law_names_differ(action_named(action.name_of()), action);
    law_rebind(load.config.keys, action, chords, c);
    if chords.len() > 0 {
        assert(chords.contains(chords[0]));
    }
}

/// An entry for no action changes no key, and is named in a warning.
pub proof fn law_unknown_action_warns(load: LoadModel, name: Seq<char>, texts: Seq<Seq<char>>)
    requires
        forall|a: Action| #[trigger] a.name_of() != name,
    ensures
        with_key(load, name, texts).config == load.config,
        with_key(load, name, texts).warnings == load.warnings.push(unknown_action(name)),
{
}

/// The documented key of an action.
pub open spec fn documented_key(action: Action) -> KeyCode {
    match action {
        Action::ScrollDown => KeyCode::Char('j'),
        Action::ScrollUp => KeyCode::Char('k'),
        Action::PageDown => KeyCode::PageDown,
        Action::PageUp => KeyCode::PageUp,
        Action::NextChunk => KeyCode::Char('n'),
        Action::PrevChunk => KeyCode::Char('p'),
        Action::NextFile => KeyCode::Char(']'),
        Action::PrevFile => KeyCode::Char('['),
        Action::NarrowSidebar => KeyCode::Char('<'),
        Action::WidenSidebar => KeyCode::Char('>'),
        Action::ToggleView => KeyCode::Char('s'),
        Action::OpenThemePicker => KeyCode::Char('T'),
        Action::Top => KeyCode::Char('g'),
        Action::Bottom => KeyCode::Char('G'),
        Action::SwitchFocus => KeyCode::Tab,
        Action::Activate => KeyCode::Enter,
        Action::ToggleReviewed => KeyCode::Char('R'),
        Action::ToggleChunkReviewed => KeyCode::Char('r'),
        Action::ExpandAllChunks => KeyCode::Char('o'),
        Action::ToggleHidden => KeyCode::Char('h'),
        Action::ToggleHiddenView => KeyCode::Char('H'),
        Action::CopyReference => KeyCode::Char('y'),
        Action::OpenEditor => KeyCode::Char('e'),
        Action::EditConfig => KeyCode::Char('C'),
        Action::StartFilter => KeyCode::Char('/'),
        Action::Help => KeyCode::Char('?'),
        Action::Quit => KeyCode::Char('q'),
    }
}

/// Without a config file every action is triggered by its documented key. The arrows
/// move like `j` and `k`, with shift they move by a page, and control and `c` quits.
pub proof fn law_documented_keys(action: Action)
    ensures
        action_at(default_map(), (documented_key(action), no_mods())) == Some(action),
        action_at(default_map(), (KeyCode::Down, no_mods())) == Some(Action::ScrollDown),
        action_at(default_map(), (KeyCode::Up, no_mods())) == Some(Action::ScrollUp),
        action_at(
            default_map(),
            (KeyCode::Down, (KeyModifiers { shift: true, ..no_mods() })),
        ) == Some(Action::PageDown),
        action_at(
            default_map(),
            (KeyCode::Up, (KeyModifiers { shift: true, ..no_mods() })),
        ) == Some(Action::PageUp),
        action_at(
            default_map(),
            (KeyCode::Char('c'), (KeyModifiers { control: true, ..no_mods() })),
        ) == Some(Action::Quit),
{
}

// ── hide rules ─────────────────────────────────────────────────────────────

/// A name hides the files with that name in every folder, and the file at that path.
pub proof fn law_hide_by_name(rules: HideModel, base: Seq<char>, name: Seq<char>)
    requires
        plain_name(name),
        rules.names.contains(name),
    ensures
        rules.hides(join_of(base, name)),
        rules.hides(name),
{
    law_file_name(base, name);
}

/// A path is hidden by a name that is the path or its file name, or by a pattern that
/// matches it, and by nothing else. Without rules nothing is hidden.
pub proof fn law_hidden_for_a_reason(rules: HideModel, path: Seq<char>)
    ensures
        rules.hides(path) <==> {
            ||| rules.names.contains(path)
            ||| file_name_of(path) is Some && rules.names.contains(file_name_of(path)->0)
            ||| exists|i: int|
                0 <= i < rules.patterns.len() && regex_matches(#[trigger] rules.patterns[i], path)
        },
        rules.names.len() == 0 && rules.patterns.len() == 0 ==> !rules.hides(path),
{
}

// ── chords ─────────────────────────────────────────────────────────────────

/// A key is named in any case, by its documented name or another one in use; a single
/// character names itself.
pub proof fn law_key_names(k: Seq<char>)
    ensures
        ({
            let v = lowered(k);
            &&& k.len() == 1 ==> key_of(k) == Ok::<KeyCode, Seq<char>>(KeyCode::Char(k[0]))
            &&& v == "enter"@ || v == "return"@ || v == "cr"@ ==> key_of(k) == Ok::<
                KeyCode,
                Seq<char>,
            >(KeyCode::Enter)
            &&& v == "tab"@ ==> key_of(k) == Ok::<KeyCode, Seq<char>>(KeyCode::Tab)
            &&& v == "esc"@ || v == "escape"@ ==> key_of(k) == Ok::<KeyCode, Seq<char>>(
                KeyCode::Esc,
            )
            &&& v == "space"@ ==> key_of(k) == Ok::<KeyCode, Seq<char>>(KeyCode::Char(' '))
            &&& v == "up"@ ==> key_of(k) == Ok::<KeyCode, Seq<char>>(KeyCode::Up)
            &&& v == "down"@ ==> key_of(k) == Ok::<KeyCode, Seq<char>>(KeyCode::Down)
            &&& v == "left"@ ==> key_of(k) == Ok::<KeyCode, Seq<char>>(KeyCode::Left)
            &&& v == "right"@ ==> key_of(k) == Ok::<KeyCode, Seq<char>>(KeyCode::Right)
        }),
{
    reveal_strlit("enter");
    reveal_strlit("return");
    reveal_strlit("cr");
    reveal_strlit("tab");
    reveal_strlit("esc");
    reveal_strlit("escape");
    reveal_strlit("space");
    reveal_strlit("up");
    reveal_strlit("down");
    reveal_strlit("left");
    reveal_strlit("right");
    let v = lowered(k);
    assert(v.len() == k.len());
    if v == "tab"@ {
        assert(v[0] == 't');
    }
}

/// The modifier that a name stands for.
pub open spec fn modifier_named(name: Seq<char>, mods: KeyModifiers) -> bool {
    ||| (name == "ctrl"@ || name == "control"@) && mods == (KeyModifiers {
        control: true,
        ..no_mods()
    })
    ||| name == "shift"@ && mods == (KeyModifiers { shift: true, ..no_mods() })
    ||| (name == "alt"@ || name == "option"@ || name == "meta"@) && mods == (KeyModifiers {
        alt: true,
        ..no_mods()
    })
}

/// A modifier in front of a key, with a `+` between them, is held with that key.
pub proof fn law_modified_key(name: Seq<char>, mods: KeyModifiers, key: Seq<char>)
    requires
        modifier_named(lowered(name), mods),
        !name.contains('+'),
        key.len() > 0,
        !key.contains('+'),
    ensures
        trimmed_chord_of(name.push('+') + key) == match key_of(key) {
            Ok(code) => Ok(chord_for(code, mods)),
            Err(e) => Err(e),
        },
{
    reveal_strlit("ctrl");
    reveal_strlit("control");
    reveal_strlit("shift");
    reveal_strlit("alt");
    reveal_strlit("option");
    reveal_strlit("meta");
    let s = name.push('+') + key;
    let parts = seq![name, key];
    law_pieces_part(name, '+', key);
    law_one_piece(name, '+');
    law_one_piece(key, '+');
    assert(key.contains(key.last()));
    assert(s.last() == key.last());
    assert(pieces(s, '+') =~= parts);
    assert(modifiers_of(parts, 0) == Ok::<KeyModifiers, Seq<char>>(no_mods()));
    assert(parts[0] == name);
    let v = lowered(name);
    assert(with_modifier(no_mods(), v) == Some(mods)) by {
        if v == "shift"@ {
            assert(v[0] == 's');
            assert(v != "ctrl"@ && v != "control"@) by {
                assert("ctrl"@[0] == 'c' && "control"@[0] == 'c');
            }
        } else if v == "alt"@ || v == "option"@ || v == "meta"@ {
            assert(v[0] == 'a' || v[0] == 'o' || v[0] == 'm');
            assert("ctrl"@[0] == 'c' && "control"@[0] == 'c' && "shift"@[0] == 's');
        }
    }
    assert(modifiers_of(parts, 1) == Ok::<KeyModifiers, Seq<char>>(mods));
}

/// The built-in configuration: the unified layout, reviewed chunks folded, nothing
/// hidden, highlighting on.
pub proof fn law_built_in_config(path: Seq<char>)
    ensures
        default_config().view == ViewMode::Unified,
        default_config().reviewed_chunks == ReviewedDisplay::Collapse,
        default_config().keys == default_map(),
        default_config().theme.syntax,
        !default_config().hide.hides(path),
{
}

/// The layout that is written to the file is the one that is read from it.
pub proof fn law_saved_view_reads_back(view: ViewMode)
    ensures
        view_of(view_name(view)) == Some(view),
{
    reveal_strlit("unified");
    reveal_strlit("side-by-side");
    reveal_strlit("default");
    reveal_strlit("stacked");
    let s = view_name(view);
    let e = Seq::<char>::empty();
    assert(lowered(s) =~= s);
    assert(trimmed_text(s));
    law_values_by_name(e, s, e);
    assert(e + s + e =~= s);
    if view == ViewMode::SideBySide {
        assert(s[0] == 's' && s[1] == 'i');
        assert("unified"@[0] == 'u' && "default"@[0] == 'd' && "stacked"@[1] == 't');
    }
}

} // verus!
