//! Keys, actions, and the answers to effects.


use vstd::prelude::*;
use vstd::slice::slice_subrange;
use vstd::string::*;

use crate::app::fuzzy::fuzzy_filter;
use crate::app::rows::{first_line_no, lemma_side_rows, lemma_unified_rows};
use crate::app::session::{opt_picker, App};
use crate::app::state::{or_zero, rows_ok, without_last, AppState, TOAST_TTL_MS};
use crate::app::types::{
    Clock, EditorRequest, Effect, Focus, KeyEvent, Mode, PickerModel, RowRef, SideRow, ThemePicker,
    Toast, ViewMode,
};
use crate::config::action::Action;
use crate::config::chord::{normalize, KeyCode};
use crate::config::load::{loaded, Config, ConfigSource};
use crate::model::file::{ChangeKind, KindModel};
use crate::reference::{build_hunk_reference, CopyMethod};
use crate::text::{
    chars_of, copy_of, join, lemma_take_step, opt_string, push_char, same, string_of, strings,
};

verus! {

/// A copy of a list of strings.
pub(crate) fn copy_strings(v: &Vec<String>) -> (r: Vec<String>)
    ensures
        strings(r@) == strings(v@),
{
    let mut out: Vec<String> = Vec::new();
    let n = v.len();
    for i in 0..n
        invariant
            n == v@.len(),
            strings(out@) == strings(v@).take(i as int),
    {
        let s = v[i].clone();
        let ghost was = out@;
        let ghost view = s@;
        out.push(s);
        assert(strings(out@) =~= strings(was).push(view));
        proof {
            lemma_take_step(strings(v@), i as int);
        }
    }
    assert(strings(v@).take(n as int) =~= strings(v@));
    out
}

/// `s` without its last character.
fn drop_last_char(s: &str) -> (r: String)
    ensures
        r@ == without_last(s@),
{
    let chars = chars_of(s);
    let n = chars.len();
    if n == 0 {
        return copy_of(s);
    }
    let head = slice_subrange(chars.as_slice(), 0, n - 1);
    assert(head@ =~= s@.drop_last());
    string_of(head)
}

impl App {
    // ── messages ───────────────────────────────────────────────────────────

    /// Flash a transient top-right toast.
    pub fn show_toast(&mut self, text: String, now: Clock)
        requires
            old(self).wf(),
        ensures
            final(self)@ == old(self)@.toasting(text@, now),
            final(self).wf(),
    {
        proof {
            reveal(App::state);
            reveal(AppState::toasting);
        }
        let expires_at = now.millis.saturating_add(TOAST_TTL_MS);
        self.toast = Some(Toast { text, expires_at });
        self.dirty = true;
    }

    /// Clear the toast once its lifetime has elapsed.
    pub fn expire_toast(&mut self, now: Clock)
        requires
            old(self).wf(),
        ensures
            final(self)@ == old(self)@.toast_expired(now),
            final(self).wf(),
    {
        proof {
            reveal(App::state);
            reveal(AppState::toast_expired);
        }
        let over = match &self.toast {
            Some(t) => now.millis >= t.expires_at,
            None => false,
        };
        if over {
            self.toast = None;
            self.dirty = true;
            return;
        }
    }

    // ── the reference ──────────────────────────────────────────────────────

    /// The reference of the current chunk.
    fn current_reference(&self) -> (r: Option<String>)
        ensures
            (match r {
                Some(s) => Some(s@),
                None => None,
            }) == self@.reference(),
    {
        proof {
            reveal(App::state);
        }
        match &self.diff {
            Some(fd) => {
                let n = fd.chunks.len();
                if n == 0 {
                    return None;
                }
                let h = if self.current_chunk < n {
                    self.current_chunk
                } else {
                    n - 1
                };
                Some(build_hunk_reference(fd, h))
            },
            None => None,
        }
    }

    /// Copy a reference for the current chunk to the clipboard.
    pub(crate) fn copy_reference(&mut self)
        requires
            old(self).wf(),
        ensures
            final(self)@ == old(self)@.copying(),
            final(self).wf(),
    {
        proof {
            reveal(AppState::copying);
        }
        match self.current_reference() {
            Some(text) => {
                self.ask(Effect::Copy(text));
                self.set_dirty();
            },
            None => {
                self.set_error(copy_of("no chunk to copy"));
                self.set_dirty();
            },
        }
    }

    /// A copy ended up on the clipboard, or failed.
    pub fn copy_finished(&mut self, result: Result<CopyMethod, String>, now: Clock)
        requires
            old(self).wf(),
        ensures
            final(self)@ == old(self)@.copied(
                crate::config::chord::result_model(result),
                now,
            ),
            final(self).wf(),
    {
        proof {
            reveal(AppState::copied);
        }
        match result {
            Ok(method) => {
                let mut text = copy_of("AI reference · ");
                text.append(method.name());
                self.show_toast(text, now);
            },
            Err(e) => {
                let mut text = copy_of("copy failed: ");
                text.append(e.as_str());
                self.set_error(text);
                self.set_dirty();
            },
        }
    }

    /// The view mode could not be written to the config file: it still applies
    /// for this session.
    pub fn view_not_saved(&mut self, why: &str, now: Clock)
        requires
            old(self).wf(),
        ensures
            final(self)@ == old(self)@.toasting("view not saved: "@ + why@, now),
            final(self).wf(),
    {
        let mut text = copy_of("view not saved: ");
        text.append(why);
        self.show_toast(text, now);
    }

    /// The theme was written to the config file, or could not be.
    pub fn theme_saved(&mut self, name: &str, result: Result<(), String>, now: Clock)
        requires
            old(self).wf(),
        ensures
            final(self)@ == old(self)@.theme_saved(
                name@,
                crate::config::chord::result_model(result),
                now,
            ),
            final(self).wf(),
    {
        proof {
            reveal(AppState::theme_saved);
        }
        match result {
            Ok(_) => {
                let mut text = copy_of("theme: ");
                text.append(name);
                self.show_toast(text, now);
            },
            Err(e) => {
                let mut text = copy_of("theme set (not saved: ");
                text.append(e.as_str());
                text.append(")");
                self.show_toast(text, now);
            },
        }
    }

    // ── the editor ─────────────────────────────────────────────────────────

    /// The new-file line number at the top of the diff viewport (falling back to
    /// the old-file number for deletions), used as the editor's target line.
    pub fn current_line(&self) -> (r: Option<u32>)
        requires
            self.wf(),
        ensures
            r == self@.top_line(),
    {
        proof {
            reveal(App::state);
            reveal(rows_ok);
        }
        let fd = match &self.diff {
            Some(d) => d,
            None => {
                return None;
            },
        };
        proof {
            let chunks = fd@.chunks;
            assert forall|h: int| 0 <= h < chunks.len() implies (#[trigger] chunks[h]).lines.len()
                <= usize::MAX by {
                assert(chunks[h] == fd.chunks@[h]@);
                assert(fd.chunks@[h].lines.len() <= usize::MAX);
            }
            assert(fd.chunks.len() <= usize::MAX);
            lemma_unified_rows(chunks, self@.chunk_collapsed, chunks.len() as int);
            lemma_side_rows(chunks, self@.chunk_collapsed, chunks.len() as int);
        }
        match self.view {
            ViewMode::Unified => {
                if self.scroll >= self.diff_rows.len() {
                    return None;
                }
                match self.diff_rows[self.scroll] {
                    RowRef::Header(h) => first_line_no(&fd.chunks[h]),
                    RowRef::Line(h, l) => {
                        let line = &fd.chunks[h].lines[l];
                        match line.new_no {
                            Some(n) => Some(n),
                            None => line.old_no,
                        }
                    },
                }
            },
            ViewMode::SideBySide => {
                if self.scroll >= self.side_rows.len() {
                    return None;
                }
                match self.side_rows[self.scroll] {
                    SideRow::Header(h) => first_line_no(&fd.chunks[h]),
                    SideRow::Pair { left, right } => {
                        if let Some((h, l)) = right {
                            if let Some(n) = fd.chunks[h].lines[l].new_no {
                                return Some(n);
                            }
                        }
                        match left {
                            Some((h, l)) => fd.chunks[h].lines[l].old_no,
                            None => None,
                        }
                    },
                }
            },
        }
    }

    /// The request to open file `fi`; none where it was deleted.
    fn editor_request(&self, fi: usize) -> (r: Option<EditorRequest>)
        requires
            self.wf(),
            fi < self@.files.len(),
        ensures
            r is None <==> self@.files[fi as int].kind == KindModel::Deleted,
            r is Some ==> r->0@ == (
                self@.files[fi as int].path,
                match self@.top_line() {
                    Some(n) => n,
                    None => 1,
                },
            ),
    {
        proof {
            reveal(App::state);
        }
        if matches!(self.files[fi].kind, ChangeKind::Deleted) {
            return None;
        }
        let line = match self.current_line() {
            Some(n) => n,
            None => 1,
        };
        Some(EditorRequest { path: self.files[fi].path.clone(), line })
    }

    fn set_editor_request(&mut self, request: EditorRequest)
        requires
            old(self).wf(),
        ensures
            final(self)@ == (AppState { pending_editor: Some(request@), ..old(self)@ }),
            final(self).wf(),
    {
        proof {
            reveal(App::state);
        }
        self.pending_editor = Some(request);
    }

    /// Ask for the selected file to be opened in the editor, at the line at the
    /// top of the diff viewport.
    pub(crate) fn open_in_editor(&mut self)
        requires
            old(self).wf(),
        ensures
            final(self)@ == old(self)@.opening_editor(),
            final(self).wf(),
    {
        proof {
            reveal(AppState::opening_editor);
        }
        let fi = match self.current_file_index() {
            Some(fi) => fi,
            None => {
                return;
            },
        };
        match self.editor_request(fi) {
            Some(request) => {
                self.set_editor_request(request);
            },
            None => {
                self.set_error(copy_of("file was deleted; nothing to open"));
                self.set_dirty();
            },
        }
    }

    /// Take a pending editor request, if any.
    pub fn take_editor_request(&mut self) -> (r: Option<EditorRequest>)
        requires
            old(self).wf(),
        ensures
            crate::app::session::opt_editor(r) == old(self)@.pending_editor,
            final(self)@ == (AppState { pending_editor: None, ..old(self)@ }),
            final(self).wf(),
    {
        proof {
            reveal(App::state);
        }
        self.pending_editor.take()
    }

    // ── config ─────────────────────────────────────────────────────────────

    /// Take a pending "edit config" request, if any.
    pub fn take_config_edit_request(&mut self) -> (r: bool)
        requires
            old(self).wf(),
        ensures
            r == old(self)@.pending_config_edit,
            final(self)@ == (AppState { pending_config_edit: false, ..old(self)@ }),
            final(self).wf(),
    {
        proof {
            reveal(App::state);
        }
        let pending = self.pending_config_edit;
        self.pending_config_edit = false;
        pending
    }

    fn set_config(&mut self, config: Config)
        requires
            old(self).wf(),
            config.keys.wf(),
        ensures
            final(self)@ == (AppState { config: config@, ..old(self)@ }),
            final(self).wf(),
    {
        proof {
            reveal(App::state);
        }
        self.config = config;
    }

    fn set_messages(&mut self, config_error: Option<String>, status: Option<String>)
        requires
            old(self).wf(),
        ensures
            final(self)@ == (AppState {
                config_error: opt_string(config_error),
                status_msg: opt_string(status),
                dirty: true,
                ..old(self)@
            }),
            final(self).wf(),
    {
        proof {
            reveal(App::state);
        }
        self.config_error = config_error;
        self.status_msg = status;
        self.dirty = true;
    }

    /// Apply the config as it was read again: rebuild the keymap and hide rules,
    /// then recompute the sidebar. The current diff view is left as it is. A clean
    /// load clears any prior config error; a broken one keeps the defaults in
    /// effect and records the problem.
    pub fn reload_config(&mut self, source: ConfigSource)
        requires
            old(self).wf(),
        ensures
            final(self)@ == old(self)@.config_reloaded(loaded(source)),
            final(self).wf(),
    {
        proof {
            reveal(AppState::config_reloaded);
        }
        let (config, warnings) = Config::load(source);
        self.set_config(config);
        self.recompute_view();
        self.snap_cursor_to_file();
        self.ensure_diff_loaded();
        if warnings.len() == 0 {
            self.set_messages(None, Some(copy_of("config reloaded")));
        } else {
            self.set_messages(Some(join(&warnings, "; ")), None);
        }
    }

    // ── the theme picker ───────────────────────────────────────────────────

    /// The place of the active theme in the list.
    fn active_theme_index(&self) -> (r: usize)
        ensures
            r == or_zero(self@.theme_index(0)),
    {
        proof {
            reveal(App::state);
        }
        let n = self.themes.len();
        let mut i: usize = 0;
        while i < n
            invariant
                n == self.themes@.len(),
                self@.themes == strings(self.themes@),
                self@.active_theme == self.active_theme@,
                self@.theme_index(0) == self@.theme_index(i as int),
            decreases n - i,
        {
            assert(self@.themes[i as int] == self.themes@[i as int]@);
            if same(self.themes[i].as_str(), self.active_theme.as_str()) {
                return i;
            }
            i += 1;
        }
        0
    }

    /// Open the theme picker, seeded with every available theme and the cursor on
    /// the currently active one.
    pub(crate) fn open_theme_picker(&mut self)
        requires
            old(self).wf(),
        ensures
            final(self)@ == old(self)@.picker_opened(),
            final(self).wf(),
    {
        let cursor = self.active_theme_index();
        proof {
            reveal(App::state);
            reveal(AppState::picker_opened);
        }
        let matches = copy_strings(&self.themes);
        let picker = ThemePicker {
            query: String::new(),
            matches,
            cursor,
            original: self.active_theme.clone(),
        };
        assert(picker@.query =~= Seq::<char>::empty());
        self.theme_picker = Some(picker);
        self.mode = Mode::ThemePicker;
        self.dirty = true;
    }

    /// The theme that the picker is on.
    fn picked_theme(&self) -> (r: Option<String>)
        ensures
            opt_string(r) == self@.picked(),
    {
        proof {
            reveal(App::state);
        }
        match &self.theme_picker {
            Some(p) => {
                if p.cursor < p.matches.len() {
                    assert(p@.matches[p.cursor as int] == p.matches@[p.cursor as int]@);
                    Some(p.matches[p.cursor].clone())
                } else {
                    None
                }
            },
            None => None,
        }
    }

    fn is_active_theme(&self, name: &str) -> (r: bool)
        ensures
            r == (name@ == self@.active_theme),
    {
        proof {
            reveal(App::state);
        }
        same(name, self.active_theme.as_str())
    }

    fn set_active_theme(&mut self, name: String)
        requires
            old(self).wf(),
        ensures
            final(self)@ == (AppState { active_theme: name@, ..old(self)@ }),
            final(self).wf(),
    {
        proof {
            reveal(App::state);
        }
        self.active_theme = name;
    }

    /// Apply the picked theme to the diff in view as a preview.
    fn preview_theme_at_cursor(&mut self)
        requires
            old(self).wf(),
        ensures
            final(self)@ == old(self)@.previewed(),
            final(self).wf(),
    {
        proof {
            reveal(AppState::previewed);
        }
        if let Some(name) = self.picked_theme() {
            if !self.is_active_theme(name.as_str()) {
                self.set_active_theme(name);
                self.recompute_highlight();
                return;
            }
        }
    }

    /// The picker with its cursor moved by one row.
    fn moved_picker(&self, down: bool) -> (r: Option<ThemePicker>)
        ensures
            r is Some <==> self@.theme_picker is Some && self@.theme_picker->0.matches.len() > 0,
            r is Some ==> r->0@ == (PickerModel {
                cursor: crate::render::viewport::max_of(
                    crate::render::viewport::min_of(
                        self@.theme_picker->0.cursor + if down {
                            1int
                        } else {
                            -1int
                        },
                        self@.theme_picker->0.matches.len() - 1,
                    ),
                    0,
                ) as usize,
                ..self@.theme_picker->0
            }),
    {
        proof {
            reveal(App::state);
        }
        match &self.theme_picker {
            Some(p) => {
                let n = p.matches.len();
                if n == 0 {
                    return None;
                }
                let cursor = if down {
                    if p.cursor < n - 1 {
                        p.cursor + 1
                    } else {
                        n - 1
                    }
                } else if p.cursor == 0 {
                    0
                } else if p.cursor - 1 < n - 1 {
                    p.cursor - 1
                } else {
                    n - 1
                };
                Some(
                    ThemePicker {
                        query: p.query.clone(),
                        matches: copy_strings(&p.matches),
                        cursor,
                        original: p.original.clone(),
                    },
                )
            },
            None => None,
        }
    }

    fn set_picker(&mut self, picker: Option<ThemePicker>)
        requires
            old(self).wf(),
        ensures
            final(self)@ == (AppState { theme_picker: opt_picker(picker), ..old(self)@ }),
            final(self).wf(),
    {
        proof {
            reveal(App::state);
        }
        self.theme_picker = picker;
    }

    /// Move the picker cursor by one row, clamped, then preview that theme.
    fn move_theme_cursor(&mut self, down: bool)
        requires
            old(self).wf(),
        ensures
            final(self)@ == old(self)@.picker_moved(
                if down {
                    1int
                } else {
                    -1int
                },
            ),
            final(self).wf(),
    {
        proof {
            reveal(AppState::picker_moved);
        }
        if let Some(p) = self.moved_picker(down) {
            self.set_picker(Some(p));
            self.preview_theme_at_cursor();
            return;
        }
    }

    /// The picker with another query: the themes ranked against it.
    fn queried_picker(&self, query: String) -> (r: Option<ThemePicker>)
        ensures
            r is Some <==> self@.theme_picker is Some,
            r is Some ==> r->0@ == (PickerModel {
                query: query@,
                matches: crate::app::fuzzy::fuzzy_matches(query@, self@.themes),
                cursor: 0,
                ..self@.theme_picker->0
            }),
    {
        proof {
            reveal(App::state);
        }
        match &self.theme_picker {
            Some(p) => {
                let matches = fuzzy_filter(query.as_str(), copy_strings(&self.themes));
                Some(ThemePicker { query, matches, cursor: 0, original: p.original.clone() })
            },
            None => None,
        }
    }

    /// Rank the theme list against a query and preview the top match.
    fn refilter_themes(&mut self, query: String)
        requires
            old(self).wf(),
        ensures
            final(self)@ == old(self)@.picker_queried(query@),
            final(self).wf(),
    {
        proof {
            reveal(AppState::picker_queried);
        }
        if let Some(p) = self.queried_picker(query) {
            self.set_picker(Some(p));
            self.preview_theme_at_cursor();
            return;
        }
    }

    /// The theme that was active when the picker was opened.
    fn original_theme(&self) -> (r: Option<String>)
        ensures
            r is Some <==> self@.theme_picker is Some,
            r is Some ==> r->0@ == self@.theme_picker->0.original,
    {
        proof {
            reveal(App::state);
        }
        match &self.theme_picker {
            Some(p) => Some(p.original.clone()),
            None => None,
        }
    }

    fn current_theme(&self) -> (r: String)
        ensures
            r@ == self@.active_theme,
    {
        proof {
            reveal(App::state);
        }
        self.active_theme.clone()
    }

    fn set_config_theme(&mut self, name: String)
        requires
            old(self).wf(),
        ensures
            final(self)@ == old(self)@.with_config_theme(name@),
            final(self).wf(),
    {
        proof {
            reveal(App::state);
            reveal(AppState::with_config_theme);
        }
        self.config.theme.theme = name;
    }

    fn drop_picker(&mut self)
        requires
            old(self).wf(),
        ensures
            final(self)@ == old(self)@.without_picker(),
            final(self).wf(),
    {
        proof {
            reveal(App::state);
            reveal(AppState::without_picker);
        }
        self.theme_picker = None;
    }

    fn apply_theme(&mut self, name: String)
        requires
            old(self).wf(),
        ensures
            final(self)@ == old(self)@.with_theme(name@),
            final(self).wf(),
    {
        proof {
            reveal(AppState::with_theme);
        }
        self.set_active_theme(name);
        self.recompute_highlight();
    }

    fn back_to_normal(&mut self)
        requires
            old(self).wf(),
        ensures
            final(self)@ == old(self)@.back_to_normal(),
            final(self).wf(),
    {
        proof {
            reveal(App::state);
            reveal(AppState::back_to_normal);
        }
        self.mode = Mode::Normal;
        self.dirty = true;
    }

    fn cancel_theme_picker(&mut self, original: String)
        requires
            old(self).wf(),
            old(self)@.theme_picker is Some,
            original@ == old(self)@.theme_picker->0.original,
        ensures
            final(self)@ == old(self)@.picker_cancelled(),
            final(self).wf(),
    {
        proof {
            reveal(AppState::picker_cancelled);
        }
        if self.is_active_theme(original.as_str()) {
            self.drop_picker();
            self.back_to_normal();
            return;
        }
        self.drop_picker();
        self.apply_theme(original);
        self.back_to_normal();
    }

    fn accept_theme(&mut self)
        requires
            old(self).wf(),
        ensures
            final(self)@ == old(self)@.picker_accepted(),
            final(self).wf(),
    {
        proof {
            reveal(AppState::picker_accepted);
        }
        let chosen = match self.picked_theme() {
            Some(name) => name,
            None => self.current_theme(),
        };
        self.drop_picker();
        self.set_config_theme(chosen.clone());
        self.apply_theme(chosen.clone());
        self.ask(Effect::SaveTheme(chosen));
        self.back_to_normal();
    }

    /// Close the picker. On `cancel`, restore the theme that was active when it
    /// opened; otherwise keep the picked theme and have it saved.
    fn close_theme_picker(&mut self, cancel: bool)
        requires
            old(self).wf(),
        ensures
            final(self)@ == old(self)@.picker_closed(cancel),
            final(self).wf(),
    {
        proof {
            reveal(AppState::picker_closed);
        }
        let original = match self.original_theme() {
            Some(name) => name,
            None => {
                self.set_mode(Mode::Normal);
                return;
            },
        };
        if cancel {
            self.cancel_theme_picker(original);
            return;
        }
        self.accept_theme();
    }

    /// The picker's query.
    fn picker_query(&self) -> (r: String)
        ensures
            r@ == self@.query(),
    {
        proof {
            reveal(App::state);
        }
        match &self.theme_picker {
            Some(p) => p.query.clone(),
            None => {
                let r = String::new();
                assert(r@ =~= Seq::<char>::empty());
                r
            },
        }
    }

    /// Key handling for the theme picker: type to fuzzy-filter, arrows (or
    /// Ctrl-n/p) to move with live preview, Enter to apply and save, Esc to cancel
    /// and restore the previous theme.
    fn on_key_theme_picker(&mut self, key: KeyEvent)
        requires
            old(self).wf(),
        ensures
            final(self)@ == old(self)@.picker_key(key),
            final(self).wf(),
    {
        proof {
            reveal(AppState::picker_key);
        }
        self.press_in_picker(key);
        self.set_dirty();
    }

    fn press_in_picker(&mut self, key: KeyEvent)
        requires
            old(self).wf(),
        ensures
            final(self)@ == old(self)@.picker_pressed(key),
            final(self).wf(),
    {
        proof {
            reveal(AppState::picker_pressed);
        }
        let ctrl = key.modifiers.control;
        match key.code {
            KeyCode::Esc => self.close_theme_picker(true),
            KeyCode::Enter => self.close_theme_picker(false),
            KeyCode::Down => self.move_theme_cursor(true),
            KeyCode::Up => self.move_theme_cursor(false),
            KeyCode::Backspace => {
                let query = drop_last_char(self.picker_query().as_str());
                self.refilter_themes(query);
            },
            KeyCode::Char(c) => {
                if ctrl && c == 'n' {
                    self.move_theme_cursor(true);
                } else if ctrl && c == 'p' {
                    self.move_theme_cursor(false);
                } else if !ctrl {
                    let mut query = self.picker_query();
                    push_char(&mut query, c);
                    self.refilter_themes(query);
                }
            },
            _ => {},
        }
    }

    // ── the filter ─────────────────────────────────────────────────────────

    fn put_filter(&mut self, filter: String)
        requires
            old(self).wf(),
        ensures
            final(self)@ == (AppState { filter: filter@, ..old(self)@ }),
            final(self).wf(),
    {
        proof {
            reveal(App::state);
        }
        self.filter = filter;
    }

    fn get_filter(&self) -> (r: String)
        ensures
            r@ == self@.filter,
    {
        proof {
            reveal(App::state);
        }
        self.filter.clone()
    }

    /// Apply a filter: rebuild the view, jump to the first row, and load its diff.
    fn set_filter(&mut self, filter: String)
        requires
            old(self).wf(),
        ensures
            final(self)@ == old(self)@.with_filter(filter@),
            final(self).wf(),
    {
        proof {
            reveal(AppState::with_filter);
        }
        self.put_filter(filter);
        self.recompute_view();
        self.set_cursor(0);
        self.ensure_diff_loaded();
    }

    fn clear_filter(&mut self)
        requires
            old(self).wf(),
        ensures
            final(self)@ == old(self)@.with_filter(Seq::empty()),
            final(self).wf(),
    {
        let none = String::new();
        assert(none@ =~= Seq::<char>::empty());
        self.set_filter(none);
    }

    /// Editing the filter query.
    fn on_key_filter(&mut self, key: KeyEvent)
        requires
            old(self).wf(),
        ensures
            final(self)@ == old(self)@.filter_key(key),
            final(self).wf(),
    {
        proof {
            reveal(AppState::filter_key);
        }
        self.press_in_filter(key);
        self.set_dirty();
    }

    fn press_in_filter(&mut self, key: KeyEvent)
        requires
            old(self).wf(),
        ensures
            final(self)@ == old(self)@.filter_pressed(key),
            final(self).wf(),
    {
        proof {
            reveal(AppState::filter_pressed);
        }
        match key.code {
            KeyCode::Esc => {
                self.clear_filter();
                self.set_mode(Mode::Normal);
            },
            KeyCode::Enter => {
                // The filter stays applied.
                self.set_mode(Mode::Normal);
            },
            KeyCode::Backspace => {
                let filter = drop_last_char(self.get_filter().as_str());
                self.set_filter(filter);
            },
            KeyCode::Char(c) => {
                let mut filter = self.get_filter();
                push_char(&mut filter, c);
                self.set_filter(filter);
            },
            _ => {},
        }
    }

    // ── keys ───────────────────────────────────────────────────────────────

    fn clear_status(&mut self)
        requires
            old(self).wf(),
        ensures
            final(self)@ == (AppState { status_msg: None, ..old(self)@ }),
            final(self).wf(),
    {
        proof {
            reveal(App::state);
        }
        self.status_msg = None;
    }

    fn find_action(&self, key: KeyEvent) -> (r: Option<Action>)
        requires
            self.wf(),
        ensures
            r == self@.bound_action(key),
    {
        proof {
            reveal(App::state);
        }
        self.config.keys.get(normalize(key.code, key.modifiers))
    }

    fn filter_is_active(&self) -> (r: bool)
        ensures
            r == (self@.filter.len() > 0),
    {
        self.is_filtering()
    }

    fn on_key_normal(&mut self, key: KeyEvent, now: Clock)
        requires
            old(self).wf(),
        ensures
            final(self)@ == old(self)@.normal_key(key, now),
            final(self).wf(),
    {
        proof {
            reveal(AppState::normal_key);
        }
        self.clear_status();
        // Esc clears an active filter. It isn't a rebindable action (Esc is the
        // universal "cancel"), so it comes before the keymap.
        if matches!(key.code, KeyCode::Esc) && self.filter_is_active() {
            self.clear_filter();
            self.set_dirty();
            return;
        }
        if let Some(action) = self.find_action(key) {
            self.dispatch(action, now);
            return;
        }
    }

    fn get_mode(&self) -> (r: Mode)
        ensures
            r == self@.mode,
    {
        proof {
            reveal(App::state);
        }
        self.mode
    }

    /// Handle a key.
    pub fn on_key(&mut self, key: KeyEvent, now: Clock)
        requires
            old(self).wf(),
        ensures
            final(self)@ == old(self)@.after_key(key, now),
            final(self).wf(),
    {
        proof {
            reveal(AppState::after_key);
        }
        // Some terminals report releases too.
        if key.release {
            return;
        }
        match self.get_mode() {
            Mode::Help => {
                // Any key closes the help overlay.
                self.set_mode(Mode::Normal);
                self.set_dirty();
            },
            Mode::Filter => self.on_key_filter(key),
            Mode::ThemePicker => self.on_key_theme_picker(key),
            Mode::Normal => self.on_key_normal(key, now),
        }
    }

    fn get_focus(&self) -> (r: Focus)
        ensures
            r == self@.focus,
    {
        proof {
            reveal(App::state);
        }
        self.focus
    }

    fn set_focus(&mut self, focus: Focus)
        requires
            old(self).wf(),
        ensures
            final(self)@ == (AppState { focus, dirty: true, ..old(self)@ }),
            final(self).wf(),
    {
        proof {
            reveal(App::state);
        }
        self.focus = focus;
        self.dirty = true;
    }

    fn request_config_edit(&mut self)
        requires
            old(self).wf(),
        ensures
            final(self)@ == (AppState { pending_config_edit: true, ..old(self)@ }),
            final(self).wf(),
    {
        proof {
            reveal(App::state);
        }
        self.pending_config_edit = true;
    }

    fn request_quit(&mut self)
        requires
            old(self).wf(),
        ensures
            final(self)@ == (AppState { should_quit: true, ..old(self)@ }),
            final(self).wf(),
    {
        proof {
            reveal(App::state);
        }
        self.should_quit = true;
    }

    fn is_live(&self) -> (r: bool)
        ensures
            r == self@.live,
    {
        proof {
            reveal(App::state);
        }
        self.live
    }

    /// Perform a bound [`Action`]. Movement actions depend on the focus
    /// (`ScrollDown` moves the tree cursor when the tree is focused, and scrolls
    /// the diff otherwise). Pager mode is a read-only viewer: actions that change
    /// reviewed or hidden state, open the editor, or edit the config are answered
    /// with a brief hint.
    pub fn dispatch(&mut self, action: Action, now: Clock)
        requires
            old(self).wf(),
        ensures
            final(self)@ == old(self)@.dispatched(action, now),
            final(self).wf(),
    {
        proof {
            reveal(AppState::dispatched);
        }
        if !self.is_live() && matches!(
            action,
            Action::ToggleReviewed | Action::ToggleChunkReviewed | Action::ToggleHidden
            | Action::ToggleHiddenView | Action::OpenEditor | Action::EditConfig
        ) {
            self.show_toast(copy_of("read-only (pager mode)"), now);
            return;
        }
        match action {
            Action::ScrollDown => match self.get_focus() {
                Focus::Tree => self.cursor_down(),
                Focus::Diff => self.scroll_down(1),
            },
            Action::ScrollUp => match self.get_focus() {
                Focus::Tree => self.cursor_up(),
                Focus::Diff => self.scroll_up(1),
            },
            Action::PageDown => {
                let rows = self.height();
                self.scroll_down(rows);
            },
            Action::PageUp => {
                let rows = self.height();
                self.scroll_up(rows);
            },
            Action::NextChunk => self.next_chunk(),
            Action::PrevChunk => self.prev_chunk(),
            Action::NextFile => self.next_file(),
            Action::PrevFile => self.prev_file(),
            Action::NarrowSidebar => self.narrow_tree(),
            Action::WidenSidebar => self.widen_tree(),
            Action::ToggleView => self.toggle_view(),
            Action::OpenThemePicker => self.open_theme_picker(),
            Action::Top => self.scroll_to_top(),
            Action::Bottom => self.scroll_to_bottom(),
            Action::SwitchFocus => match self.get_focus() {
                Focus::Tree => self.set_focus(Focus::Diff),
                Focus::Diff => self.set_focus(Focus::Tree),
            },
            Action::Activate => self.activate(),
            Action::ToggleReviewed => self.toggle_reviewed(now),
            Action::ToggleChunkReviewed => self.toggle_chunk_reviewed(now),
            Action::ExpandAllChunks => self.expand_all_chunks(),
            Action::ToggleHidden => self.toggle_hidden(),
            Action::ToggleHiddenView => self.toggle_hidden_view(),
            Action::CopyReference => self.copy_reference(),
            Action::OpenEditor => self.open_in_editor(),
            Action::EditConfig => self.request_config_edit(),
            Action::StartFilter => {
                self.set_mode(Mode::Filter);
                self.set_dirty();
            },
            Action::Help => {
                self.set_mode(Mode::Help);
                self.set_dirty();
            },
            Action::Quit => self.request_quit(),
        }
    }
}

} // verus!
