//! Putting the screen together: the width of the sidebar, and the notifications
//! that float above everything.

use vstd::prelude::*;
use vstd::string::*;

use crate::app::session::App;
use crate::app::state::{AppState, MIN_DIFF_WIDTH, MIN_TREE_WIDTH};
use crate::config::action::Action;
use crate::config::chord::Chord;
use crate::config::keymap::chord_names;
use crate::render::viewport::{max_of, min_of};
use crate::text::copy_of;
use crate::render::style::Color;
use crate::ui::canvas::{less, line_models, on_grid, Area};
use crate::ui::notification::{
    config_error_lines, config_error_notice, message_lines, notice_area, notice_columns,
    toast_notice, Notice,
};

verus! {

/// The width of the sidebar on a screen of `body_width` columns: the one that was
/// chosen, as far as both panels keep their minimum.
pub open spec fn sidebar_width(tree_width: u16, body_width: u16) -> int {
    let most = max_of(less(body_width as int, MIN_DIFF_WIDTH as int), MIN_TREE_WIDTH as int);
    max_of(min_of(tree_width as int, most), MIN_TREE_WIDTH as int)
}

/// The width of the sidebar on a screen of `body_width` columns.
pub fn shown_tree_width(app: &App, body_width: u16) -> (r: u16)
    ensures
        r == sidebar_width(app@.tree_width, body_width),
{
    proof {
        reveal(App::state);
    }
    let room = body_width.saturating_sub(MIN_DIFF_WIDTH);
    let most = if room >= MIN_TREE_WIDTH {
        room
    } else {
        MIN_TREE_WIDTH
    };
    if app.tree_width > most {
        most
    } else if app.tree_width < MIN_TREE_WIDTH {
        MIN_TREE_WIDTH
    } else {
        app.tree_width
    }
}

/// The rows of a panel's content: its height without the two border rows.
pub fn content_height(panel_height: u16) -> (r: usize)
    ensures
        r == less(panel_height as int, 2),
{
    panel_height.saturating_sub(2) as usize
}

/// `key` is the key that edits the config, as it is advertised.
pub open spec fn edit_key_label(map: Map<Chord, Action>, key: Seq<char>) -> bool {
    exists|names: Seq<Seq<char>>| #[trigger]
        chord_names(map, Action::EditConfig, names) && key == if names.len() > 0 {
            names[0]
        } else {
            "C"@
        }
}

fn edit_key(app: &App) -> (r: String)
    requires
        app.wf(),
    ensures
        edit_key_label(app@.config.keys, r@),
{
    proof {
        reveal(App::state);
    }
    match app.config.keys.primary(Action::EditConfig) {
        Some(k) => k,
        None => copy_of("C"),
    }
}

/// Where the notification below the config error begins.
pub open spec fn second_top(top: u16, first: Option<Area>) -> u16 {
    match first {
        Some(a) => min_of(top + a.height + 1, u16::MAX as int) as u16,
        None => top,
    }
}

/// The area of the config error, if it is shown.
pub open spec fn error_area(s: AppState, area: Area, key: Seq<char>) -> Option<Area> {
    match s.config_error {
        Some(e) => notice_area(
            area,
            (area.y + 1) as u16,
            config_error_lines(e, key, notice_columns(area)).len() as int,
        ),
        None => None,
    }
}

/// The area of the toast, if it is shown.
pub open spec fn toast_area(s: AppState, area: Area, key: Seq<char>) -> Option<Area> {
    match s.toast {
        Some((text, _)) => notice_area(
            area,
            second_top((area.y + 1) as u16, error_area(s, area, key)),
            message_lines(text, notice_columns(area)).len() as int,
        ),
        None => None,
    }
}

fn has_config_error(app: &App) -> (r: Option<&String>)
    ensures
        match r {
            Some(e) => app@.config_error == Some(e@),
            None => app@.config_error is None,
        },
{
    proof {
        reveal(App::state);
    }
    match &app.config_error {
        Some(e) => Some(e),
        None => None,
    }
}

fn toast_text(app: &App) -> (r: Option<&String>)
    ensures
        match r {
            Some(t) => app@.toast is Some && (app@.toast->0).0 == t@,
            None => app@.toast is None,
        },
{
    proof {
        reveal(App::state);
    }
    match &app.toast {
        Some(t) => Some(&t.text),
        None => None,
    }
}

/// The notifications in the top-right corner: the persistent config error (until
/// fixed), and below it the transient toast.
pub fn notices(app: &App, area: Area) -> (r: (Option<Notice>, Option<Notice>))
    requires
        app.wf(),
        on_grid(area),
        area.y < u16::MAX,
    ensures
        exists|key: Seq<char>| #[trigger]
            edit_key_label(app@.config.keys, key) && {
                &&& (match r.0 {
                    Some(n) => Some(n.area),
                    None => None,
                }) == error_area(app@, area, key)
                &&& r.0 is Some ==> line_models((r.0->0).body@) == config_error_lines(
                    app@.config_error->0,
                    key,
                    notice_columns(area),
                )
                &&& (match r.1 {
                    Some(n) => Some(n.area),
                    None => None,
                }) == toast_area(app@, area, key)
                &&& r.1 is Some ==> line_models((r.1->0).body@) == message_lines(
                    (app@.toast->0).0,
                    notice_columns(area),
                )
            },
        r.0 is Some ==> (r.0->0).title@ == " ⚠ Config error "@ && (r.0->0).accent == Color::Red,
        r.1 is Some ==> (r.1->0).title@ == " ✓ Copied "@ && (r.1->0).accent == Color::Green,
{
    let key = edit_key(app);
    let top = area.y + 1;
    let first = match has_config_error(app) {
        Some(e) => config_error_notice(area, top, e.as_str(), key.as_str()),
        None => None,
    };
    let next = match &first {
        Some(n) => top.saturating_add(n.area.height).saturating_add(1),
        None => top,
    };
    let second = match toast_text(app) {
        Some(t) => toast_notice(area, next, t.as_str()),
        None => None,
    };
    assert(edit_key_label(app@.config.keys, key@));
    (first, second)
}

} // verus!
