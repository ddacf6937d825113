//! The themes that can be chosen.

use two_face::re_exports::syntect;

use syntect::highlighting::{Theme, ThemeSet};

use vstd::prelude::*;
use vstd::string::*;

use crate::highlight::syntax::referent;
use crate::path::{chars_less, join_of, path_join};
use crate::text::strings;

verus! {

/// syntect's set of themes.
#[verifier::external_type_specification]
#[verifier::external_body]
pub struct ExThemeSet(syntect::highlighting::ThemeSet);

/// The theme where none is configured, or an unknown one.
pub const DEFAULT_THEME: &'static str = "base16-ocean.dark";

/// The directory beside the config file where users can drop extra `.tmTheme`
/// files: `$XDG_CONFIG_HOME/hunkr/themes`, else `$HOME/.config/hunkr/themes`. None
/// when neither is set (or both are empty).
pub fn user_theme_dir(xdg: Option<&str>, home: Option<&str>) -> (r: Option<String>)
    ensures
        (match r {
            Some(s) => Some(s@),
            None => None,
        }) == if xdg is Some && xdg->0@.len() > 0 {
            Some(join_of(join_of(xdg->0@, "hunkr"@), "themes"@))
        } else if home is Some && home->0@.len() > 0 {
            Some(join_of(join_of(join_of(home->0@, ".config"@), "hunkr"@), "themes"@))
        } else {
            None
        },
{
    if let Some(xdg) = xdg {
        if xdg.unicode_len() > 0 {
            return Some(path_join(path_join(xdg, "hunkr").as_str(), "themes"));
        }
    }
    if let Some(home) = home {
        if home.unicode_len() > 0 {
            let dir = path_join(path_join(home, ".config").as_str(), "hunkr");
            return Some(path_join(dir.as_str(), "themes"));
        }
    }
    None
}

/// The themes of a set, by their names.
pub uninterp spec fn themes_in(set: ThemeSet) -> Map<Seq<char>, Theme>;

/// The names of the bundled themes.
pub open spec fn bundled_names() -> Seq<Seq<char>> {
    seq![
        "ansi"@,
        "base16"@,
        "base16-eighties.dark"@,
        "base16-mocha.dark"@,
        "base16-ocean.dark"@,
        "base16-ocean.light"@,
        "base16-256"@,
        "Coldark-Cold"@,
        "Coldark-Dark"@,
        "DarkNeon"@,
        "Dracula"@,
        "GitHub"@,
        "gruvbox-dark"@,
        "gruvbox-light"@,
        "InspiredGitHub"@,
        "1337"@,
        "Monokai Extended"@,
        "Monokai Extended Bright"@,
        "Monokai Extended Light"@,
        "Monokai Extended Origin"@,
        "Nord"@,
        "OneHalfDark"@,
        "OneHalfLight"@,
        "Solarized (dark)"@,
        "Solarized (light)"@,
        "Sublime Snazzy"@,
        "TwoDark"@,
        "Visual Studio Dark+"@,
        "zenburn"@,
    ]
}

/// `two_face::theme::extra` as a `ThemeSet`. Its themes are those that
/// `EmbeddedThemeName` lists, under the names that `as_name` gives. What their colours
/// are is not stated.
#[verifier::external_body]
fn extra_themes() -> (r: ThemeSet)
    ensures
        forall|name: Seq<char>| #[trigger]
            themes_in(r).dom().contains(name) <==> bundled_names().contains(name),
{
    ThemeSet::from(&two_face::theme::extra())
}

/// The bundled themes. The default theme is one of them.
pub fn bundled_themes() -> (r: ThemeSet)
    ensures
        forall|name: Seq<char>| #[trigger]
            themes_in(r).dom().contains(name) <==> bundled_names().contains(name),
        themes_in(r).dom().contains(DEFAULT_THEME@),
{
    let r = extra_themes();
    proof {
        assert(bundled_names()[4] == DEFAULT_THEME@);
        assert(bundled_names().contains(DEFAULT_THEME@));
    }
    r
}

/// Looks a name up in `ThemeSet::themes`, a `BTreeMap` from names to themes.
#[verifier::external_body]
fn get_theme<'a>(set: &'a ThemeSet, name: &str) -> (r: Option<&'a Theme>)
    ensures
        referent(r) == (if themes_in(*set).dom().contains(name@) {
            Some(themes_in(*set)[name@])
        } else {
            None
        }),
{
    set.themes.get(name)
}

/// The names are in strictly ascending order.
pub open spec fn ascending(names: Seq<Seq<char>>) -> bool {
    forall|i: int, j: int|
        0 <= i < j < names.len() ==> chars_less(#[trigger] names[i], #[trigger] names[j])
}

/// The keys of `ThemeSet::themes`: a `BTreeMap` hands out each key once, in
/// ascending order, and strings are ordered by their code points.
#[verifier::external_body]
fn theme_keys(set: &ThemeSet) -> (r: Vec<String>)
    ensures
        ascending(strings(r@)),
        forall|name: Seq<char>|
            themes_in(*set).dom().contains(name) <==> #[trigger] strings(r@).contains(name),
{
    set.themes.keys().cloned().collect()
}

/// Every theme name available for selection, sorted.
pub fn theme_names(set: &ThemeSet) -> (r: Vec<String>)
    ensures
        ascending(strings(r@)),
        forall|name: Seq<char>|
            themes_in(*set).dom().contains(name) <==> #[trigger] strings(r@).contains(name),
{
    theme_keys(set)
}

/// Whether a theme name is that of a theme of the set.
pub fn theme_exists(set: &ThemeSet, name: &str) -> (r: bool)
    ensures
        r == themes_in(*set).dom().contains(name@),
{
    get_theme(set, name).is_some()
}

/// The name comes first among the names of the themes.
pub open spec fn first_name(themes: Map<Seq<char>, Theme>, name: Seq<char>) -> bool {
    &&& themes.dom().contains(name)
    &&& forall|other: Seq<char>| #[trigger]
        themes.dom().contains(other) ==> other == name || chars_less(name, other)
}

/// Look up a theme by name, falling back to [`DEFAULT_THEME`], then to the first of
/// the set. None only where the set is empty.
pub fn theme<'a>(set: &'a ThemeSet, name: &str) -> (r: Option<&'a Theme>)
    ensures
        ({
            let themes = themes_in(*set);
            if themes.dom().contains(name@) {
                referent(r) == Some(themes[name@])
            } else if themes.dom().contains(DEFAULT_THEME@) {
                referent(r) == Some(themes[DEFAULT_THEME@])
            } else if exists|other: Seq<char>| #[trigger] themes.dom().contains(other) {
                exists|first: Seq<char>| #[trigger]
                    first_name(themes, first) && referent(r) == Some(themes[first])
            } else {
                r is None
            }
        }),
{
    if let Some(found) = get_theme(set, name) {
        return Some(found);
    }
    if let Some(found) = get_theme(set, DEFAULT_THEME) {
        return Some(found);
    }
    let names = theme_keys(set);
    let ghost themes = themes_in(*set);
    if names.len() == 0 {
        assert forall|other: Seq<char>| !#[trigger] themes.dom().contains(other) by {
            assert(!strings(names@).contains(other));
        }
        return None;
    }
    proof {
        let first = strings(names@)[0];
        assert(strings(names@).contains(first));
        assert forall|other: Seq<char>| #[trigger] themes.dom().contains(other) implies other
            == first || chars_less(first, other) by {
            assert(strings(names@).contains(other));
            let i = choose|i: int| 0 <= i < strings(names@).len() && strings(names@)[i] == other;
        }
        assert(first_name(themes, first));
    }
    get_theme(set, names[0].as_str())
}

} // verus!
