//! What holds of a session from key to key: which file is selected, which diff is used,
//! what the pickers do.

use vstd::prelude::*;
use vstd::utf8::*;

use crate::app::fuzzy::fuzzy_matches;
use crate::app::key_laws::{is_file_row, same_sidebar};
use crate::app::state::{needs_repository, next_leaf, prev_leaf, AppState};
use crate::app::types::{Clock, EffectModel, Focus, KeyEvent, Mode, SideRow, ViewMode};
use crate::app::view_laws::{is_first_no, law_first_number};
use crate::cache::Signature;
use crate::config::action::Action;
use crate::config::chord::{KeyCode, KeyModifiers};
use crate::config::keymap::action_at;
use crate::git::diff::seahash_of;
use crate::model::diff::DiffModel;
use crate::model::file::KindModel;
use crate::model::tree::toggled;
use crate::reference::CopyMethod;

verus! {

// ── the selected file ──────────────────────────────────────────────────────

proof fn lemma_next(s: AppState, i: int)
    requires
        0 <= i,
        s.tree.visible.len() <= usize::MAX,
    ensures
        match next_leaf(s.tree.nodes, s.tree.visible, i) {
            Some(k) => i <= k && is_file_row(s, k as int) && forall|j: int|
                i <= j < k ==> !#[trigger] is_file_row(s, j),
            None => forall|j: int| i <= j ==> !#[trigger] is_file_row(s, j),
        },
    decreases s.tree.visible.len() - i,
{
    if i < s.tree.visible.len() && !is_file_row(s, i) {
        lemma_next(s, i + 1);
    }
}

proof fn lemma_prev(s: AppState, i: int)
    requires
        0 <= i <= s.tree.visible.len() <= usize::MAX,
    ensures
        match prev_leaf(s.tree.nodes, s.tree.visible, i) {
            Some(k) => k < i && is_file_row(s, k as int) && forall|j: int|
                k < j < i ==> !#[trigger] is_file_row(s, j),
            None => forall|j: int| j < i ==> !#[trigger] is_file_row(s, j),
        },
    decreases i,
{
    if i > 0 && !is_file_row(s, i - 1) {
        lemma_prev(s, i - 1);
    }
}

/// When the list has changed under the cursor, the cursor stays on a file, goes down to
/// the nearest one, or up to the nearest one where there is none below.
pub proof fn law_cursor_snaps_to_file(s: AppState, i: int)
    requires
        s.tree_cursor < s.tree.visible.len() <= usize::MAX,
        is_file_row(s, i),
    ensures
        ({
            let r = s.snapped();
            let was = s.tree_cursor as int;
            let at = r.tree_cursor as int;
            &&& is_file_row(s, at)
            &&& r == (AppState { tree_cursor: r.tree_cursor, ..s })
            &&& at >= was ==> forall|j: int| was <= j < at ==> !#[trigger] is_file_row(s, j)
            &&& at < was ==> forall|j: int| at < j ==> !#[trigger] is_file_row(s, j)
        }),
{
    reveal(AppState::snapped);
    lemma_next(s, s.tree_cursor as int);
    lemma_prev(s, s.tree_cursor as int);
    let at = s.snapped().tree_cursor as int;
    if at < s.tree_cursor {
        assert forall|j: int| at < j implies !#[trigger] is_file_row(s, j) by {
            if j >= s.tree_cursor {
                assert(!is_file_row(s, j));
            }
        }
    }
}

/// A session opens with the first file of the list selected.
pub proof fn law_opens_on_first_file(s: AppState, i: int)
    requires
        s.recomputed().tree.visible.len() <= usize::MAX,
        is_file_row(s.recomputed(), i),
    ensures
        ({
            let r = s.opened();
            let at = r.tree_cursor as int;
            &&& r.tree == s.recomputed().tree
            &&& is_file_row(s.recomputed(), at)
            &&& forall|j: int| 0 <= j < at ==> !#[trigger] is_file_row(s.recomputed(), j)
        }),
{
    let a = s.recomputed();
    lemma_next(a, 0);
    reveal(AppState::opened);
    reveal(AppState::on_first_leaf);
    let b = a.on_first_leaf();
    lemma_loads(b, true);
}

/// What loading the selected file leaves alone, and what it asks for.
proof fn lemma_loads(s: AppState, use_cache: bool)
    ensures
        same_sidebar(s.loading(use_cache, None), s),
{
    reveal(AppState::loading);
    reveal(AppState::asking);
    reveal(AppState::restored);
    reveal(AppState::cleared);
    reveal(AppState::adopted);
    reveal(AppState::with_rows);
    reveal(AppState::highlighted);
}

/// Enter on a file goes to its diff and changes nothing else; on a folder it folds or
/// unfolds that folder, and the review state stays.
pub proof fn law_enter_key(s: AppState, now: Clock)
    requires
        s.tree_cursor < s.tree.visible.len(),
    ensures
        ({
            let r = s.dispatched(Action::Activate, now);
            let n = s.tree.visible[s.tree_cursor as int] as int;
            if s.tree.nodes[n].file is Some {
                r == (AppState { focus: Focus::Diff, dirty: true, ..s })
            } else {
                &&& r.tree.nodes == toggled(s.tree, n).nodes
                &&& r.review == s.review
                &&& r.hidden == s.hidden
                &&& r.focus == s.focus
                &&& r.filter == s.filter
            }
        }),
{
    assert(s.dispatched(Action::Activate, now) == s.activated()) by {
        reveal(AppState::dispatched);
    }
    let n = s.tree.visible[s.tree_cursor as int] as int;
    reveal(AppState::activated);
    if s.tree.nodes[n].file is Some {
        reveal(AppState::on_diff);
    } else {
        reveal(AppState::folder_toggled);
        let a = AppState { tree: toggled(s.tree, n), ..s };
        let b = a.recomputed();
        assert(b.tree.nodes == a.tree.nodes && b.review == s.review && b.hidden == s.hidden
            && b.focus == s.focus && b.filter == s.filter) by {
            reveal(AppState::recomputed);
        }
        lemma_loads(b, true);
    }
}

// ── which diff is used ─────────────────────────────────────────────────────

/// A cached diff is used exactly where it may be and was made from the file as it is:
/// same path, same signature. Otherwise nothing changes until git has answered.
pub proof fn law_cache_is_used(
    s: AppState,
    fi: int,
    use_cache: bool,
    sig: Option<Signature>,
)
    requires
        0 <= fi < s.files.len() <= usize::MAX,
    ensures
        ({
            let path = s.files[fi].path;
            let r = s.load_begun(fi, use_cache, sig, None);
            if use_cache && sig is Some && s.cache.entries.contains_key(path)
                && s.cache.entries[path].0 == sig->0 {
                r.diff == Some(s.cache.entries[path].1)
            } else {
                r == s
            }
        }),
{
    reveal(AppState::load_begun);
    reveal(AppState::adopted);
    reveal(AppState::with_rows);
    reveal(AppState::highlighted);
    reveal(AppState::restored);
}

/// In pager mode a file's diff is the piped one, at once, and nothing is asked of git.
pub proof fn law_pager_shows_piped_diff(s: AppState, fi: usize, use_cache: bool)
    requires
        !s.live,
        s.current_file() == Some(fi),
        s.diff_file != Some(fi),
    ensures
        ({
            let path = s.files[fi as int].path;
            let r = s.loading(use_cache, None);
            &&& s.preloaded.contains_key(path) ==> r.diff == Some(s.preloaded[path])
            &&& !s.preloaded.contains_key(path) ==> r.diff is None
            &&& forall|i: int|
                s.outbox.len() <= i < r.outbox.len() ==> !((#[trigger] r.outbox[i]) is Load)
        }),
{
    reveal(AppState::loading);
    reveal(AppState::adopted);
    reveal(AppState::with_rows);
    reveal(AppState::highlighted);
    reveal(AppState::restored);
    reveal(AppState::cleared);
}

/// A file is prefetched with its own diff, in the theme in force, once; a diff that is not
/// to be highlighted is not asked for again.
pub proof fn law_prefetch_request(s: AppState, fi: int, d: DiffModel)
    ensures
        ({
            let path = s.files[fi].path;
            let r = s.prefetched(fi, Some(d));
            if crate::app::state::highlightable(s.config, d) {
                &&& r.prefetch_inflight == s.prefetch_inflight.insert(path)
                &&& r.outbox.len() == s.outbox.len() + 1
                &&& r.outbox.last() matches EffectModel::Prefetch(req) && req.path == path
                    && req.diff == d && req.theme == s.active_theme && req.truecolor
                    == s.truecolor && req.diff_hash == seahash_of(encode_utf8(d.text))
            } else {
                r == (AppState { prefetch_skip: s.prefetch_skip.insert(path), ..s })
            }
        }),
        s.prefetched(fi, None) == (AppState {
            prefetch_skip: s.prefetch_skip.insert(s.files[fi].path),
            ..s
        }),
{
    reveal(AppState::prefetched);
    reveal(AppState::asking);
}

/// A highlight is asked for with the diff in view and the theme in force, under a new
/// tag, exactly where highlighting is on for the diff and none is kept.
pub proof fn law_highlight_request(s: AppState)
    requires
        s.diff is Some,
        s.highlight_gen < u64::MAX,
    ensures
        ({
            let r = s.highlighted();
            let d = s.diff->0;
            &&& !s.config.theme.syntax || d.is_binary ==> r.highlight is None && r.outbox
                == s.outbox
            &&& r.outbox != s.outbox ==> {
                &&& r.highlight_gen == s.highlight_gen + 1
                &&& r.highlight is None
                &&& r.outbox.len() == s.outbox.len() + 1
                &&& r.outbox.last() matches EffectModel::Highlight(req) && req.path == d.path
                    && req.diff == d && req.theme == s.active_theme && req.truecolor
                    == s.truecolor && req.generation == r.highlight_gen && req.diff_hash
                    == seahash_of(encode_utf8(d.text))
            }
            &&& r.outbox == s.outbox ==> r.highlight_gen == s.highlight_gen
            &&& r.diff == s.diff
        }),
{
    reveal(AppState::highlighted);
    let grown = s.outbox.push(EffectModel::Highlight(s.highlight_request()));
    assert(grown.len() == s.outbox.len() + 1);
}

// ── keys in the other modes ────────────────────────────────────────────────

/// A key does what its chord is bound to; a key that is bound to nothing changes nothing
/// but that the message in the bar goes.
pub proof fn law_bound_keys(s: AppState, key: KeyEvent, now: Clock)
    requires
        s.mode == Mode::Normal,
        !key.release,
        s.filter.len() == 0 || key.code != KeyCode::Esc,
    ensures
        ({
            let a = AppState { status_msg: None, ..s };
            let chord = (
                key.code,
                KeyModifiers {
                    shift: key.modifiers.shift && !(key.code is Char),
                    ..key.modifiers
                },
            );
            match action_at(s.config.keys, chord) {
                Some(action) => s.after_key(key, now) == a.dispatched(action, now),
                None => s.after_key(key, now) == a,
            }
        }),
{
    reveal(AppState::after_key);
    reveal(AppState::normal_key);
    let chord = (
        key.code,
        KeyModifiers { shift: key.modifiers.shift && !(key.code is Char), ..key.modifiers },
    );
    assert(crate::config::chord::normalized(key.code, key.modifiers) == chord);
}

/// `s`, to be drawn again.
#[verifier::opaque]
pub open spec fn redrawn(s: AppState) -> AppState {
    AppState { dirty: true, ..s }
}

/// What a key is for in the theme picker.
pub enum PickerKey {
    Cancel,
    Accept,
    Move(int),
    Query(Seq<char>),
    Nothing,
}

/// The keys of the theme picker: a character goes to the end of the query, backspace takes
/// its last one away, the arrows and control with `n` and `p` move, escape cancels and
/// enter accepts.
pub open spec fn picker_use(key: KeyEvent, query: Seq<char>) -> PickerKey {
    match key.code {
        KeyCode::Esc => PickerKey::Cancel,
        KeyCode::Enter => PickerKey::Accept,
        KeyCode::Down => PickerKey::Move(1),
        KeyCode::Up => PickerKey::Move(-1),
        KeyCode::Backspace => PickerKey::Query(query.take(query.len() - 1)),
        KeyCode::Char(c) => if !key.modifiers.control {
            PickerKey::Query(query.push(c))
        } else if c == 'n' {
            PickerKey::Move(1)
        } else if c == 'p' {
            PickerKey::Move(-1)
        } else {
            PickerKey::Nothing
        },
        _ => PickerKey::Nothing,
    }
}

/// In the theme picker a key does what it is for, and the screen is drawn again.
pub proof fn law_picker_keys(s: AppState, key: KeyEvent, now: Clock)
    requires
        s.mode == Mode::ThemePicker,
        s.theme_picker is Some,
        !key.release,
        key.code == KeyCode::Backspace ==> s.theme_picker->0.query.len() > 0,
    ensures
        match picker_use(key, s.theme_picker->0.query) {
            PickerKey::Cancel => s.after_key(key, now) == redrawn(s.picker_closed(true)),
            PickerKey::Accept => s.after_key(key, now) == redrawn(s.picker_closed(false)),
            PickerKey::Move(by) => s.after_key(key, now) == redrawn(s.picker_moved(by)),
            PickerKey::Query(q) => s.after_key(key, now) == redrawn(s.picker_queried(q)),
            PickerKey::Nothing => s.after_key(key, now) == redrawn(s),
        },
{
    lemma_picker_key(s, key, now);
    let query = s.theme_picker->0.query;
    if query.len() > 0 {
        assert(query.take(query.len() - 1) =~= query.drop_last());
    }
    assert(s.query() == query);
    reveal(AppState::picker_pressed);
}

proof fn lemma_picker_key(s: AppState, key: KeyEvent, now: Clock)
    requires
        s.mode == Mode::ThemePicker,
        !key.release,
    ensures
        s.after_key(key, now) == redrawn(s.picker_pressed(key)),
{
    assert(s.after_key(key, now) == s.picker_key(key)) by {
        reveal(AppState::after_key);
    }
    reveal(AppState::picker_key);
    reveal(redrawn);
}

proof fn lemma_queried(s: AppState, query: Seq<char>)
    requires
        s.theme_picker is Some,
    ensures
        s.picker_queried(query).theme_picker == Some(
            crate::app::types::PickerModel {
                query,
                matches: fuzzy_matches(query, s.themes),
                cursor: 0,
                ..s.theme_picker->0
            },
        ),
{
    reveal(AppState::picker_queried);
    reveal(AppState::previewed);
    reveal(AppState::highlighted);
}

/// A query lists the themes that it finds, best first, with the first one selected and
/// shown.
pub proof fn law_query_lists_themes(s: AppState, query: Seq<char>)
    requires
        s.theme_picker is Some,
    ensures
        ({
            let r = s.picker_queried(query);
            let p = r.theme_picker->0;
            &&& r.theme_picker is Some
            &&& p.query == query
            &&& p.matches == fuzzy_matches(query, s.themes)
            &&& p.cursor == 0
            &&& p.original == s.theme_picker->0.original
            &&& p.matches.len() > 0 ==> r.active_theme == p.matches[0]
            &&& p.matches.len() == 0 ==> r.active_theme == s.active_theme
        }),
{
    lemma_queried(s, query);
    reveal(AppState::picker_queried);
    reveal(AppState::previewed);
    reveal(AppState::highlighted);
}

/// The picker opens on the theme in force, with all themes listed.
pub proof fn law_picker_opens(s: AppState, now: Clock, i: int)
    requires
        0 <= i < s.themes.len() <= usize::MAX,
        s.themes[i] == s.active_theme,
        s.themes.no_duplicates(),
    ensures
        ({
            let r = s.dispatched(Action::OpenThemePicker, now);
            let p = r.theme_picker->0;
            &&& r.mode == Mode::ThemePicker
            &&& r.theme_picker is Some
            &&& p.query.len() == 0
            &&& p.matches == s.themes
            &&& p.cursor == i
            &&& p.original == s.active_theme
            &&& r.active_theme == s.active_theme
        }),
{
    assert(s.dispatched(Action::OpenThemePicker, now) == s.picker_opened()) by {
        reveal(AppState::dispatched);
    }
    reveal(AppState::picker_opened);
    lemma_theme_index(s, 0, i);
}

proof fn lemma_theme_index(s: AppState, from: int, i: int)
    requires
        0 <= from <= i < s.themes.len() <= usize::MAX,
        s.themes[i] == s.active_theme,
        s.themes.no_duplicates(),
    ensures
        s.theme_index(from) == Some(i as usize),
    decreases i - from,
{
    if from < i {
        assert(s.themes[from] != s.themes[i]);
        lemma_theme_index(s, from + 1, i);
    }
}

// ── messages ───────────────────────────────────────────────────────────────

/// A copy that worked says so in a toast and leaves no error; one that failed is an error
/// with the reason, and no toast.
pub proof fn law_copy_is_confirmed(s: AppState, method: CopyMethod, why: Seq<char>, now: Clock)
    ensures
        s.copied(Ok(method), now).toast is Some,
        s.copied(Ok(method), now).error == s.error,
        s.copied(Err(why), now).toast == s.toast,
        s.copied(Err(why), now).error == Some("copy failed: "@ + why),
{
    reveal(AppState::copied);
    reveal(AppState::toasting);
}

/// Side by side the editor opens at the new line of the row at the top, at its old line
/// where it has no new one, and at the first line of a chunk at its header.
pub proof fn law_editor_side_by_side(s: AppState, fi: usize, now: Clock)
    requires
        s.live,
        s.view == ViewMode::SideBySide,
        s.current_file() == Some(fi),
        s.files[fi as int].kind != KindModel::Deleted,
        s.diff is Some,
        s.scroll < s.side_rows.len(),
    ensures
        ({
            let r = s.dispatched(Action::OpenEditor, now);
            let chunks = s.diff->0.chunks;
            &&& r.pending_editor is Some
            &&& (r.pending_editor->0).0 == s.files[fi as int].path
            &&& match s.side_rows[s.scroll as int] {
                SideRow::Header(h) => exists|n: Option<u32>| #[trigger]
                    is_first_no(chunks[h as int].lines, n) && (r.pending_editor->0).1
                        == match n {
                        Some(n) => n,
                        None => 1,
                    },
                SideRow::Pair { left, right } => {
                    let new = match right {
                        Some((h, l)) => chunks[h as int].lines[l as int].new_no,
                        None => None,
                    };
                    let old = match left {
                        Some((h, l)) => chunks[h as int].lines[l as int].old_no,
                        None => None,
                    };
                    &&& new is Some ==> (r.pending_editor->0).1 == new->0
                    &&& new is None && old is Some ==> (r.pending_editor->0).1 == old->0
                    &&& new is None && old is None ==> (r.pending_editor->0).1 == 1
                },
            }
        }),
{
    assert(s.dispatched(Action::OpenEditor, now) == s.opening_editor()) by {
        reveal(AppState::dispatched);
    }
    reveal(AppState::opening_editor);
    match s.side_rows[s.scroll as int] {
        SideRow::Header(h) => {
            law_first_number(s.diff->0.chunks[h as int]);
            assert(is_first_no(s.diff->0.chunks[h as int].lines, s.top_line()));
        },
        SideRow::Pair { left, right } => {},
    }
}

// ── pager mode ─────────────────────────────────────────────────────────────

/// Reviewing, hiding, the editor and the config file need a repository, so they do nothing
/// in pager mode but to say so. All other keys work there as ever.
pub proof fn law_pager_keys(s: AppState, action: Action, now: Clock)
    ensures
        needs_repository(action) <==> action == Action::ToggleReviewed || action
            == Action::ToggleChunkReviewed || action == Action::ToggleHidden || action
            == Action::ToggleHiddenView || action == Action::OpenEditor || action
            == Action::EditConfig,
        !s.live && needs_repository(action) ==> s.dispatched(action, now).toast is Some,
        !s.live && needs_repository(action) ==> s.dispatched(action, now).review == s.review,
        !s.live && needs_repository(action) ==> s.dispatched(action, now).hidden == s.hidden,
        !s.live && needs_repository(action) ==> s.dispatched(action, now).pending_editor
            == s.pending_editor,
        !s.live && needs_repository(action) ==> s.dispatched(action, now).outbox == s.outbox,
{
    crate::app::laws::law_pager_is_read_only_if(s, action, now);
}

/// A diff is highlighted while it is text and its lines, all chunks together, are no more
/// than the limit.
pub proof fn law_highlight_limit(s: AppState, d: DiffModel, n: int)
    requires
        0 <= n < d.chunks.len(),
    ensures
        crate::app::state::line_count(d.chunks, 0) == 0,
        crate::app::state::line_count(d.chunks, n + 1) == crate::app::state::line_count(
            d.chunks,
            n,
        ) + d.chunks[n].lines.len(),
        d.is_binary ==> !crate::app::state::highlightable(s.config, d),
        !d.is_binary ==> (crate::app::state::highlightable(s.config, d)
            <==> crate::app::state::line_count(d.chunks, d.chunks.len() as int)
            <= s.config.theme.max_lines),
{
}

// ── a new session ──────────────────────────────────────────────────────────

/// A session starts in the layout and the theme of its configuration, with nothing else
/// changed.
pub proof fn law_session_starts_configured(
    s: AppState,
    config: crate::config::load::ConfigModel,
    path: Seq<char>,
    themes: Seq<Seq<char>>,
)
    ensures
        ({
            let r = s.configured(config, path, themes);
            &&& r.config == config
            &&& r.view == config.view
            &&& r.active_theme == config.theme.theme
            &&& r.config_path == path
            &&& r.themes == themes
            &&& r.files == s.files
            &&& r.review == s.review
            &&& r.hidden == s.hidden
        }),
{
    reveal(AppState::configured);
}

/// git's answer for a file to prefetch is kept under the signature of the file, where
/// that is known, and prefetched; without an answer the file is skipped.
pub proof fn law_prefetched_diff_is_kept(
    s: AppState,
    fi: int,
    sig: Option<Signature>,
    bytes: Seq<u8>,
    why: Seq<char>,
)
    ensures
        ({
            let path = s.files[fi].path;
            let d = crate::git::diff::parse_model(crate::text::utf8_lossy(bytes), path);
            let r = s.prefetch_finished(fi, sig, Ok(bytes));
            &&& sig is Some ==> r.cache == s.cache.after_put(path, sig->0, d)
            &&& sig is None ==> r.cache == s.cache
            &&& s.prefetch_finished(fi, sig, Err(why)) == (AppState {
                prefetch_skip: s.prefetch_skip.insert(path),
                ..s
            })
        }),
{
    reveal(AppState::prefetch_finished);
    reveal(AppState::caching);
    reveal(AppState::prefetched);
    reveal(AppState::asking);
}

/// A cached diff is prefetched only where it was made from the file as it is.
pub proof fn law_prefetch_uses_cache(s: AppState, fi: int, sig: Signature)
    ensures
        ({
            let path = s.files[fi].path;
            let hit = s.cache.entries.contains_key(path) && s.cache.entries[path].0 == sig;
            &&& !hit ==> s.prefetch_begun(fi, Some(sig)) == s
            &&& s.prefetch_begun(fi, None) == s
            &&& hit ==> s.prefetch_begun(fi, Some(sig)) == (AppState {
                cache: s.cache.after_get(path, sig),
                ..s
            }).prefetched(fi, Some(s.cache.entries[path].1))
        }),
{
    reveal(AppState::prefetch_begun);
}

} // verus!
