//! Bottom status bar: context on the left, key hints on the right.

use vstd::prelude::*;
use vstd::string::*;

use crate::app::session::App;
use crate::app::state::AppState;
use crate::app::types::Mode;
use crate::config::action::Action;
use crate::config::chord::Chord;
use crate::config::keymap::chord_names;
use crate::model::review::ReviewStatus;
use crate::render::{sanitize, sanitized};
use crate::text::{copy_of, decimal, push_char, to_decimal};
use crate::ui::canvas::{text_columns, text_width};

verus! {

// ── the left side ──────────────────────────────────────────────────────────

/// The number of shown files among the first `n` with this review status.
pub open spec fn count_status(s: AppState, status: ReviewStatus, n: int) -> nat
    decreases n,
{
    if n <= 0 {
        0
    } else {
        count_status(s, status, n - 1) + if !s.is_hidden(n - 1) && s.status(n - 1) == status {
            1nat
        } else {
            0nat
        }
    }
}

/// The position among the chunks of the diff in view.
pub open spec fn chunk_label(s: AppState) -> Seq<char> {
    if s.diff is Some && s.diff->0.chunks.len() > 0 {
        "chunk "@ + decimal((s.current_chunk + 1) as nat) + "/"@ + decimal(s.diff->0.chunks.len())
    } else {
        s.glyphs.dash@
    }
}

/// What is shown when there is no message: the mode, counts, hidden files, the
/// position and the filter. Hidden files do not weigh on the counts.
pub open spec fn context_text(s: AppState) -> Seq<char> {
    let sep = s.glyphs.sep@;
    let n = s.files.len() as int;
    let mode = if s.live {
        "hunkr"@
    } else {
        "hunkr"@ + sep + "pager (read-only)"@
    };
    let label = if s.hidden_view {
        mode + sep + "hidden view"@
    } else {
        mode
    };
    let hidden = if s.count_hidden(n) > 0 {
        sep + "hidden "@ + decimal(s.count_hidden(n))
    } else {
        Seq::empty()
    };
    let filter = if s.filter.len() > 0 {
        sep + "filter:"@ + s.filter
    } else {
        Seq::empty()
    };
    " "@ + label + sep + s.glyphs.reviewed@ + " "@ + decimal(
        count_status(s, ReviewStatus::Reviewed, n),
    ) + sep + s.glyphs.unreviewed@ + " "@ + decimal(count_status(s, ReviewStatus::Unreviewed, n))
        + hidden + sep + chunk_label(s) + filter
}

/// The text on the left: the filter while it is edited, else an error, else a
/// message, else the context.
pub open spec fn left_text_of(s: AppState) -> Seq<char> {
    if s.mode == Mode::Filter {
        " filter: "@ + s.filter + seq![s.glyphs.cursor]
    } else if s.error is Some {
        " "@ + s.glyphs.error@ + " "@ + sanitized(s.error->0)
    } else if s.status_msg is Some {
        " "@ + sanitized(s.status_msg->0)
    } else {
        context_text(s)
    }
}

fn write_chunk_label(app: &App) -> (r: String)
    ensures
        r@ == chunk_label(app@),
{
    proof {
        reveal(App::state);
    }
    match &app.diff {
        Some(fd) => {
            let n = fd.chunks.len();
            if n == 0 {
                return copy_of(app.glyphs.dash);
            }
            let mut s = copy_of("chunk ");
            s.append(to_decimal(app.current_chunk as u128 + 1).as_str());
            s.append("/");
            s.append(to_decimal(n as u128).as_str());
            s
        },
        None => copy_of(app.glyphs.dash),
    }
}

fn count_files(app: &App, status: ReviewStatus) -> (r: usize)
    requires
        app.wf(),
    ensures
        r == count_status(app@, status, app@.files.len() as int),
{
    proof {
        reveal(App::state);
    }
    let n = app.files.len();
    let mut count: usize = 0;
    for i in 0..n
        invariant
            app.wf(),
            n == app.files@.len(),
            n == app@.files.len(),
            count <= i,
            count == count_status(app@, status, i as int),
    {
        if !app.is_file_hidden(i) && app.review_status(i) == status {
            count += 1;
        }
    }
    count
}

fn write_context(app: &App) -> (r: String)
    requires
        app.wf(),
    ensures
        r@ == context_text(app@),
{
    let reviewed = count_files(app, ReviewStatus::Reviewed);
    let unreviewed = count_files(app, ReviewStatus::Unreviewed);
    let hidden = app.hidden_count();
    let chunk = write_chunk_label(app);
    let filtering = app.is_filtering();
    proof {
        reveal(App::state);
    }
    let sep = app.glyphs.sep;
    let mut label = copy_of("hunkr");
    if !app.live {
        label.append(sep);
        label.append("pager (read-only)");
    }
    if app.hidden_view {
        label.append(sep);
        label.append("hidden view");
    }
    let mut hidden_part = String::new();
    if hidden > 0 {
        hidden_part.append(sep);
        hidden_part.append("hidden ");
        hidden_part.append(to_decimal(hidden as u128).as_str());
        assert(hidden_part@ =~= sep@ + "hidden "@ + decimal(hidden as nat));
    } else {
        assert(hidden_part@ =~= Seq::<char>::empty());
    }
    let mut filter_part = String::new();
    if filtering {
        filter_part.append(sep);
        filter_part.append("filter:");
        filter_part.append(app.filter.as_str());
        assert(filter_part@ =~= sep@ + "filter:"@ + app@.filter);
    } else {
        assert(filter_part@ =~= Seq::<char>::empty());
    }
    let mut s = copy_of(" ");
    s.append(label.as_str());
    s.append(sep);
    s.append(app.glyphs.reviewed);
    s.append(" ");
    s.append(to_decimal(reviewed as u128).as_str());
    s.append(sep);
    s.append(app.glyphs.unreviewed);
    s.append(" ");
    s.append(to_decimal(unreviewed as u128).as_str());
    s.append(hidden_part.as_str());
    s.append(sep);
    s.append(chunk.as_str());
    s.append(filter_part.as_str());
    s
}

/// The text on the left.
pub fn left_text(app: &App) -> (r: String)
    requires
        app.wf(),
    ensures
        r@ == left_text_of(app@),
{
    proof {
        reveal(App::state);
    }
    if matches!(app.mode, Mode::Filter) {
        // Live filter editing, with a block cursor.
        let mut s = copy_of(" filter: ");
        s.append(app.filter.as_str());
        push_char(&mut s, app.glyphs.cursor);
        assert(s@ =~= " filter: "@ + app@.filter + seq![app.glyphs.cursor]);
        return s;
    }
    if let Some(err) = &app.error {
        // Errors can echo untrusted paths from git.
        let mut s = copy_of(" ");
        s.append(app.glyphs.error);
        s.append(" ");
        s.append(sanitize(err.as_str()).as_str());
        return s;
    }
    if let Some(msg) = &app.status_msg {
        let mut s = copy_of(" ");
        s.append(sanitize(msg.as_str()).as_str());
        return s;
    }
    write_context(app)
}

// ── the hints ──────────────────────────────────────────────────────────────

/// `label` is the key to advertise for `action`: its first chord, or a dash.
pub open spec fn key_label(map: Map<Chord, Action>, action: Action, label: Seq<char>) -> bool {
    exists|names: Seq<Seq<char>>| #[trigger]
        chord_names(map, action, names) && label == if names.len() > 0 {
            names[0]
        } else {
            "—"@
        }
}

/// The actions that the hints name, in order.
pub open spec fn hint_actions() -> Seq<Action> {
    seq![
        Action::NextChunk,
        Action::PrevChunk,
        Action::ToggleView,
        Action::ToggleChunkReviewed,
        Action::ToggleHidden,
        Action::CopyReference,
        Action::Help,
        Action::Quit,
    ]
}

/// The hints with these keys.
pub open spec fn hint_text(sep: Seq<char>, keys: Seq<Seq<char>>) -> Seq<char> {
    " "@ + keys[0] + "/"@ + keys[1] + " chunk"@ + sep + keys[2] + " split"@ + sep + keys[3]
        + " review"@ + sep + keys[4] + " hide"@ + sep + keys[5] + " copy"@ + sep + keys[6]
        + " help"@ + sep + keys[7] + " quit "@
}

/// `keys` are the keys to advertise for the hinted actions.
pub open spec fn hint_keys(map: Map<Chord, Action>, keys: Seq<Seq<char>>) -> bool {
    &&& keys.len() == hint_actions().len()
    &&& forall|i: int| 0 <= i < keys.len() ==> key_label(map, hint_actions()[i], #[trigger] keys[i])
}

/// The key to advertise for `action`.
pub(crate) fn key_for(app: &App, action: Action) -> (r: String)
    requires
        app.wf(),
    ensures
        key_label(app@.config.keys, action, r@),
{
    proof {
        reveal(App::state);
    }
    match app.config.keys.primary(action) {
        Some(k) => k,
        None => copy_of("—"),
    }
}

fn is_editing_filter(app: &App) -> (r: bool)
    ensures
        r == (app@.mode == Mode::Filter),
{
    proof {
        reveal(App::state);
    }
    matches!(app.mode, Mode::Filter)
}

fn separator(app: &App) -> (r: &'static str)
    ensures
        r == app@.glyphs.sep,
{
    proof {
        reveal(App::state);
    }
    app.glyphs.sep
}

/// The key hints, from the live keymap so they track rebound keys.
pub fn hints(app: &App) -> (r: String)
    requires
        app.wf(),
    ensures
        app@.mode == Mode::Filter ==> r@ == " Enter apply"@ + app@.glyphs.sep@ + "Esc cancel "@,
        app@.mode != Mode::Filter ==> exists|keys: Seq<Seq<char>>| #[trigger]
            hint_keys(app@.config.keys, keys) && r@ == hint_text(app@.glyphs.sep@, keys),
{
    let sep = separator(app);
    if is_editing_filter(app) {
        let mut s = copy_of(" Enter apply");
        s.append(sep);
        s.append("Esc cancel ");
        return s;
    }
    let k0 = key_for(app, Action::NextChunk);
    let k1 = key_for(app, Action::PrevChunk);
    let k2 = key_for(app, Action::ToggleView);
    let k3 = key_for(app, Action::ToggleChunkReviewed);
    let k4 = key_for(app, Action::ToggleHidden);
    let k5 = key_for(app, Action::CopyReference);
    let k6 = key_for(app, Action::Help);
    let k7 = key_for(app, Action::Quit);
    let mut s = copy_of(" ");
    s.append(k0.as_str());
    s.append("/");
    s.append(k1.as_str());
    s.append(" chunk");
    s.append(sep);
    s.append(k2.as_str());
    s.append(" split");
    s.append(sep);
    s.append(k3.as_str());
    s.append(" review");
    s.append(sep);
    s.append(k4.as_str());
    s.append(" hide");
    s.append(sep);
    s.append(k5.as_str());
    s.append(" copy");
    s.append(sep);
    s.append(k6.as_str());
    s.append(" help");
    s.append(sep);
    s.append(k7.as_str());
    s.append(" quit ");
    proof {
        let keys = seq![k0@, k1@, k2@, k3@, k4@, k5@, k6@, k7@];
        assert forall|i: int| 0 <= i < keys.len() implies key_label(
            app@.config.keys,
            hint_actions()[i],
            #[trigger] keys[i],
        ) by {
            assert(i == 0 || i == 1 || i == 2 || i == 3 || i == 4 || i == 5 || i == 6 || i == 7);
        }
        assert(hint_keys(app@.config.keys, keys));
        assert(s@ == hint_text(sep@, keys));
    }
    s
}

/// Whether the hints fit alongside the left text: they never clobber it on a
/// narrow terminal.
pub fn hints_fit(left: &str, hints: &str, width: u16) -> (r: bool)
    ensures
        r == (text_columns(left@) + text_columns(hints@) <= width),
{
    let l = text_width(left);
    let h = text_width(hints);
    let room = width as usize;
    l <= room && h <= room - l
}

/// What the bar shows.
#[derive(Debug)]
pub struct StatusBar {
    pub left: String,
    /// None where it does not fit.
    pub hints: Option<String>,
}

/// The status bar on a row of `width` columns.
pub fn status_bar(app: &App, width: u16) -> (r: StatusBar)
    requires
        app.wf(),
    ensures
        r.left@ == left_text_of(app@),
        match r.hints {
            Some(h) => text_columns(r.left@) + text_columns(h@) <= width && (app@.mode
                != Mode::Filter ==> exists|keys: Seq<Seq<char>>| #[trigger]
                hint_keys(app@.config.keys, keys) && h@ == hint_text(app@.glyphs.sep@, keys)) && (
            app@.mode == Mode::Filter ==> h@ == " Enter apply"@ + app@.glyphs.sep@
                + "Esc cancel "@),
            None => if app@.mode == Mode::Filter {
                text_columns(r.left@) + text_columns(
                    " Enter apply"@ + app@.glyphs.sep@ + "Esc cancel "@,
                ) > width
            } else {
                exists|keys: Seq<Seq<char>>| #[trigger]
                    hint_keys(app@.config.keys, keys) && text_columns(r.left@) + text_columns(
                        hint_text(app@.glyphs.sep@, keys),
                    ) > width
            },
        },
{
    let left = left_text(app);
    let h = hints(app);
    if hints_fit(left.as_str(), h.as_str(), width) {
        StatusBar { left, hints: Some(h) }
    } else {
        StatusBar { left, hints: None }
    }
}

} // verus!
