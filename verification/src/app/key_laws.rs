//! What the keys do, told by what changes and what stays.

use vstd::prelude::*;

use crate::app::state::{chunk_at, next_leaf, prev_leaf, AppState};
use crate::app::types::{
    Clock, EffectModel, Focus, Mode, MouseEvent, MouseKind, ReviewedDisplay, ViewMode,
};
use crate::config::action::Action;

verus! {

// ── scrolling ──────────────────────────────────────────────────────────────

/// The rows of the viewport: one at least.
pub open spec fn page(s: AppState) -> int {
    if s.diff_height > 0 {
        s.diff_height as int
    } else {
        1
    }
}

/// `to` is where a viewport that is to be at `want` ends up: there, unless that is in
/// front of the first row or leaves empty rows behind the last one.
pub open spec fn lands(s: AppState, want: int, to: int) -> bool {
    let rows = s.row_count() as int;
    if rows <= page(s) || want <= 0 {
        to == 0
    } else if want + page(s) >= rows {
        to + page(s) == rows
    } else {
        to == want
    }
}

/// `c` is the chunk at the top of the viewport: the last one whose header is not below
/// the top row.
pub open spec fn at_top(starts: Seq<usize>, scroll: usize, c: usize) -> bool {
    if starts.len() == 0 || starts[0] > scroll {
        c == 0
    } else {
        &&& c < starts.len()
        &&& forall|j: int| 0 <= j <= c ==> #[trigger] starts[j] <= scroll
        &&& c + 1 < starts.len() ==> starts[c + 1] > scroll
    }
}

proof fn lemma_at_top(starts: Seq<usize>, scroll: usize, i: int, last: usize)
    requires
        0 <= i <= starts.len() <= usize::MAX,
        i > 0 ==> last == i - 1,
        i == 0 ==> last == 0,
        forall|j: int| 0 <= j < i ==> #[trigger] starts[j] <= scroll,
    ensures
        at_top(starts, scroll, chunk_at(starts, scroll, i, last)),
    decreases starts.len() - i,
{
    if i < starts.len() && starts[i] <= scroll {
        lemma_at_top(starts, scroll, i + 1, i as usize);
    }
}

proof fn lemma_scrolled(s: AppState, delta: int)
    requires
        s.row_count() <= usize::MAX,
        s.starts().len() <= usize::MAX,
    ensures
        ({
            let r = s.scrolled(delta);
            &&& lands(s, s.scroll + delta, r.scroll as int)
            &&& at_top(s.starts(), r.scroll, r.current_chunk)
            &&& r == (AppState {
                scroll: r.scroll,
                current_chunk: r.current_chunk,
                dirty: true,
                ..s
            })
        }),
{
    reveal(AppState::scrolled);
    reveal(AppState::synced);
    lemma_at_top(s.starts(), s.scrolled(delta).scroll, 0, 0);
}

/// Where a scrolling key is to take the viewport.
pub open spec fn scroll_target(s: AppState, action: Action) -> Option<int> {
    match action {
        Action::ScrollDown => if s.focus == Focus::Diff {
            Some(s.scroll + 1)
        } else {
            None
        },
        Action::ScrollUp => if s.focus == Focus::Diff {
            Some(s.scroll - 1)
        } else {
            None
        },
        Action::PageDown => Some(s.scroll + page(s)),
        Action::PageUp => Some(s.scroll - page(s)),
        Action::Top => Some(0),
        Action::Bottom => Some(s.row_count() as int),
        _ => None,
    }
}

/// The scrolling keys move the viewport by a row, by a page, or to an end, as far as
/// there are rows. The current chunk is the one at the top, and nothing else changes.
pub proof fn law_scroll_keys(s: AppState, action: Action, now: Clock)
    requires
        s.row_count() <= usize::MAX,
        s.starts().len() <= usize::MAX,
        scroll_target(s, action) is Some,
    ensures
        ({
            let r = s.dispatched(action, now);
            &&& lands(s, scroll_target(s, action)->0, r.scroll as int)
            &&& at_top(s.starts(), r.scroll, r.current_chunk)
            &&& r == (AppState {
                scroll: r.scroll,
                current_chunk: r.current_chunk,
                dirty: true,
                ..s
            })
        }),
{
    let most = if s.row_count() > page(s) {
        s.row_count() - page(s)
    } else {
        0
    };
    lemma_dispatched_scroll(s, action, now);
    lemma_scrolled(s, 1);
    lemma_scrolled(s, -1);
    lemma_scrolled(s, page(s));
    lemma_scrolled(s, -page(s));
    lemma_scrolled_to(s, 0);
    lemma_scrolled_to(s, most);
}

proof fn lemma_scrolled_to(s: AppState, row: int)
    requires
        s.starts().len() <= usize::MAX,
        0 <= row <= usize::MAX,
    ensures
        ({
            let r = s.scrolled_to(row);
            &&& r.scroll == row
            &&& at_top(s.starts(), r.scroll, r.current_chunk)
            &&& r == (AppState {
                scroll: r.scroll,
                current_chunk: r.current_chunk,
                dirty: true,
                ..s
            })
        }),
{
    reveal(AppState::scrolled_to);
    reveal(AppState::synced);
    lemma_at_top(s.starts(), s.scrolled_to(row).scroll, 0, 0);
}

proof fn lemma_dispatched_scroll(s: AppState, action: Action, now: Clock)
    requires
        scroll_target(s, action) is Some,
    ensures
        ({
            let r = s.dispatched(action, now);
            let rows = s.row_count() as int;
            match action {
                Action::ScrollDown => r == s.scrolled(1),
                Action::ScrollUp => r == s.scrolled(-1),
                Action::PageDown => r == s.scrolled(page(s)),
                Action::PageUp => r == s.scrolled(-page(s)),
                Action::Top => r == s.scrolled_to(0),
                Action::Bottom => r == s.scrolled_to(
                    if rows > page(s) {
                        rows - page(s)
                    } else {
                        0
                    },
                ),
                _ => true,
            }
        }),
{
    reveal(AppState::dispatched);
}

/// The wheel over the diff scrolls it by three rows, up or down.
pub proof fn law_wheel_scrolls(s: AppState, ev: MouseEvent)
    requires
        s.row_count() <= usize::MAX,
        s.starts().len() <= usize::MAX,
        ev.column >= s.diff_x,
        ev.kind == MouseKind::ScrollDown || ev.kind == MouseKind::ScrollUp,
    ensures
        ({
            let r = s.after_mouse(ev);
            let by: int = if ev.kind == MouseKind::ScrollDown {
                3
            } else {
                -3
            };
            &&& lands(s, s.scroll + by, r.scroll as int)
            &&& at_top(s.starts(), r.scroll, r.current_chunk)
            &&& r == (AppState {
                scroll: r.scroll,
                current_chunk: r.current_chunk,
                dirty: true,
                ..s
            })
        }),
{
    reveal(AppState::after_mouse);
    lemma_scrolled(s, 3);
    lemma_scrolled(s, -3);
}

// ── chunks ─────────────────────────────────────────────────────────────────

/// The header of the current chunk is in view: at the top, or as near to it as the
/// last rows allow.
pub open spec fn header_in_view(s: AppState) -> bool {
    let starts = s.starts();
    s.current_chunk < starts.len() ==> lands(
        s,
        starts[s.current_chunk as int] as int,
        s.scroll as int,
    )
}

/// The chunk keys go to the next chunk and the one before, stop at the last and the
/// first, and bring the header of the chunk into view. Nothing else changes.
pub proof fn law_chunk_keys(s: AppState, now: Clock)
    requires
        s.row_count() <= usize::MAX,
        s.starts().len() <= usize::MAX,
        s.current_chunk < s.starts().len(),
    ensures
        ({
            let r = s.dispatched(Action::NextChunk, now);
            &&& r.current_chunk == if s.current_chunk + 1 < s.starts().len() {
                s.current_chunk + 1
            } else {
                s.current_chunk as int
            }
            &&& header_in_view(r)
            &&& r == (AppState {
                scroll: r.scroll,
                current_chunk: r.current_chunk,
                dirty: true,
                ..s
            })
        }),
        ({
            let r = s.dispatched(Action::PrevChunk, now);
            &&& r.current_chunk == if s.current_chunk > 0 {
                s.current_chunk - 1
            } else {
                0
            }
            &&& header_in_view(r)
            &&& r == (AppState {
                scroll: r.scroll,
                current_chunk: r.current_chunk,
                dirty: true,
                ..s
            })
        }),
{
    reveal(AppState::dispatched);
    reveal(AppState::on_next_chunk);
    reveal(AppState::on_prev_chunk);
    reveal(AppState::at_current_chunk);
}

/// Switching the layout switches it, in the configuration too, which is to be saved;
/// the current chunk stays, with its header in view.
pub proof fn law_view_key(s: AppState, now: Clock)
    requires
        s.diff_rows.len() <= usize::MAX,
        s.side_rows.len() <= usize::MAX,
    ensures
        ({
            let r = s.dispatched(Action::ToggleView, now);
            &&& r.view != s.view
            &&& r.config.view == r.view
            &&& r.outbox == s.outbox.push(EffectModel::SaveView(r.view))
            &&& header_in_view(r)
            &&& r == (AppState {
                view: r.view,
                config: crate::config::load::ConfigModel { view: r.view, ..s.config },
                scroll: r.scroll,
                outbox: r.outbox,
                dirty: true,
                ..s
            })
        }),
{
    assert(s.dispatched(Action::ToggleView, now) == s.view_toggled()) by {
        reveal(AppState::dispatched);
    }
    let view = match s.view {
        ViewMode::Unified => ViewMode::SideBySide,
        ViewMode::SideBySide => ViewMode::Unified,
    };
    let a = AppState {
        view,
        config: crate::config::load::ConfigModel { view, ..s.config },
        ..s
    };
    reveal(AppState::view_toggled);
    lemma_at_current_chunk(a);
    reveal(AppState::asking);
}

proof fn lemma_at_current_chunk(s: AppState)
    requires
        s.row_count() <= usize::MAX,
    ensures
        header_in_view(s.at_current_chunk()),
        s.at_current_chunk() == (AppState {
            scroll: s.at_current_chunk().scroll,
            dirty: true,
            ..s
        }),
{
    reveal(AppState::at_current_chunk);
}

// ── the first unreviewed chunk ─────────────────────────────────────────────

proof fn lemma_next_unreviewed(s: AppState, i: int)
    requires
        0 <= i,
        s.chunk_hashes.len() <= usize::MAX,
    ensures
        match s.next_unreviewed(i) {
            Some(h) => {
                &&& i <= h < s.chunk_hashes.len()
                &&& !s.is_chunk_reviewed(h as int)
                &&& forall|j: int| i <= j < h ==> #[trigger] s.is_chunk_reviewed(j)
            },
            None => forall|j: int|
                i <= j < s.chunk_hashes.len() ==> #[trigger] s.is_chunk_reviewed(j),
        },
    decreases s.chunk_hashes.len() - i,
{
    if i < s.chunk_hashes.len() && s.is_chunk_reviewed(i) {
        lemma_next_unreviewed(s, i + 1);
    }
}

/// Marking a chunk goes on to the first chunk behind it that is not reviewed, with its
/// header in view; where all of them are, and where a mark is taken back, the view
/// stays.
pub proof fn law_mark_goes_on(s: AppState, h: int, now: Clock)
    requires
        s.wf(),
        s.diff is Some,
        0 <= h < s.chunk_hashes.len() <= usize::MAX,
    ensures
        ({
            let r = s.chunk_toggled_at(h, now);
            let next = r.current_chunk as int;
            if s.is_chunk_reviewed(h) || (forall|j: int|
                h < j < s.chunk_hashes.len() ==> #[trigger] r.is_chunk_reviewed(j)) {
                next == s.current_chunk && r.scroll == s.scroll
            } else {
                &&& h < next < s.chunk_hashes.len()
                &&& !r.is_chunk_reviewed(next)
                &&& forall|j: int| h < j < next ==> #[trigger] r.is_chunk_reviewed(j)
                &&& r.row_count() <= usize::MAX ==> header_in_view(r)
            }
        }),
{
    let hash = s.chunk_hashes[h];
    let mark = !s.is_chunk_reviewed(h);
    let a = s.chunk_marked(hash, mark, now).chunk_folded(h, mark);
    let r = s.chunk_toggled_at(h, now);
    lemma_marked_and_folded(s, h, mark, now);
    reveal(AppState::chunk_toggled_at);
    if mark {
        lemma_next_unreviewed(a, h + 1);
        reveal(AppState::advanced);
        match a.next_unreviewed(h + 1) {
            Some(next) => {
                let b = AppState { current_chunk: next, ..a };
                assert(r == (AppState { dirty: true, ..b.at_current_chunk() }));
                assert(b.at_current_chunk().review == a.review && b.at_current_chunk().diff
                    == a.diff && b.at_current_chunk().chunk_hashes == a.chunk_hashes
                    && b.at_current_chunk().current_chunk == next && b.at_current_chunk().view
                    == b.view && b.at_current_chunk().diff_rows == b.diff_rows
                    && b.at_current_chunk().side_rows == b.side_rows) by {
                    reveal(AppState::at_current_chunk);
                }
                assert(r.row_count() == b.row_count());
                if r.row_count() <= usize::MAX {
                    lemma_at_current_chunk(b);
                }
                assert forall|j: int| #[trigger]
                    r.is_chunk_reviewed(j) == a.is_chunk_reviewed(j) by {}
                assert(!r.is_chunk_reviewed(next as int));
            },
            None => {
                assert forall|j: int| #[trigger]
                    r.is_chunk_reviewed(j) == a.is_chunk_reviewed(j) by {}
            },
        }
    }
}

proof fn lemma_marked_and_folded(s: AppState, h: int, mark: bool, now: Clock)
    requires
        s.diff is Some,
        0 <= h < s.chunk_hashes.len(),
    ensures
        ({
            let a = s.chunk_marked(s.chunk_hashes[h], mark, now).chunk_folded(h, mark);
            &&& a.diff == s.diff
            &&& a.chunk_hashes == s.chunk_hashes
            &&& a.current_chunk == s.current_chunk
            &&& a.scroll == s.scroll
            &&& a.view == s.view
        }),
{
    reveal(AppState::chunk_marked);
    reveal(AppState::asking);
    reveal(AppState::refreshed_hashes);
    reveal(AppState::chunk_folded);
    reveal(AppState::with_rows);
}

/// The review key acts on the current chunk, and on the whole file where the diff has
/// no chunks. Either way what is marked is to be saved.
pub proof fn law_review_keys(s: AppState, now: Clock)
    requires
        s.live,
        s.diff is Some,
        s.current_file() is Some,
    ensures
        s.chunk_hashes.len() > 0 && s.current_chunk < s.chunk_hashes.len() ==> s.dispatched(
            Action::ToggleChunkReviewed,
            now,
        ) == s.chunk_toggled_at(s.current_chunk as int, now),
        s.chunk_hashes.len() == 0 ==> s.dispatched(Action::ToggleChunkReviewed, now)
            == s.dispatched(Action::ToggleReviewed, now),
        s.dispatched(Action::ToggleReviewed, now).outbox == s.outbox.push(
            EffectModel::SaveReview,
        ),
        s.chunk_hashes.len() > 0 ==> s.dispatched(Action::ToggleChunkReviewed, now).outbox
            == s.outbox.push(EffectModel::SaveReview),
{
    reveal(AppState::dispatched);
    reveal(AppState::chunk_toggled);
    reveal(AppState::file_toggled);
    reveal(AppState::file_marked);
    reveal(AppState::file_unmarked);
    reveal(AppState::all_collapsed);
    reveal(AppState::with_rows);
    reveal(AppState::asking);
    reveal(AppState::chunk_toggled_at);
    reveal(AppState::chunk_marked);
    reveal(AppState::refreshed_hashes);
    reveal(AppState::chunk_folded);
    reveal(AppState::advanced);
    reveal(AppState::at_current_chunk);
}

/// Marking the whole file in view folds every chunk where reviewed chunks are folded,
/// and taking the mark back unfolds every chunk.
pub proof fn law_file_mark_folds(s: AppState, fi: usize, now: Clock, h: int)
    requires
        s.live,
        s.diff is Some,
        s.current_file() == Some(fi),
        s.diff_file == Some(fi),
        0 <= h < s.chunk_collapsed.len(),
    ensures
        ({
            let r = s.dispatched(Action::ToggleReviewed, now);
            let was = s.status(fi as int) == crate::model::review::ReviewStatus::Reviewed;
            &&& r.chunk_collapsed.len() == s.chunk_collapsed.len()
            &&& was ==> !r.chunk_collapsed[h]
            &&& !was && s.config.reviewed_chunks == ReviewedDisplay::Collapse
                ==> r.chunk_collapsed[h]
            &&& !was && s.config.reviewed_chunks == ReviewedDisplay::Dim ==> r.chunk_collapsed[h]
                == s.chunk_collapsed[h]
        }),
{
    reveal(AppState::dispatched);
    reveal(AppState::file_toggled);
    reveal(AppState::file_marked);
    reveal(AppState::file_unmarked);
    reveal(AppState::all_collapsed);
    reveal(AppState::with_rows);
    reveal(AppState::asking);
}

// ── files ──────────────────────────────────────────────────────────────────

/// Row `i` of the sidebar is a file.
pub open spec fn is_file_row(s: AppState, i: int) -> bool {
    0 <= i < s.tree.visible.len() && s.tree.nodes[s.tree.visible[i] as int].file is Some
}

proof fn lemma_next_leaf(s: AppState, i: int)
    requires
        0 <= i,
        s.tree.visible.len() <= usize::MAX,
    ensures
        match next_leaf(s.tree.nodes, s.tree.visible, i) {
            Some(k) => i <= k && is_file_row(s, k as int) && forall|j: int|
                i <= j < k ==> !#[trigger] is_file_row(s, j),
            None => forall|j: int| i <= j ==> !#[trigger] is_file_row(s, j),
        },
    decreases s.tree.visible.len() - i,
{
    if i < s.tree.visible.len() && !is_file_row(s, i) {
        lemma_next_leaf(s, i + 1);
    }
}

proof fn lemma_prev_leaf(s: AppState, i: int)
    requires
        0 <= i <= s.tree.visible.len() <= usize::MAX,
    ensures
        match prev_leaf(s.tree.nodes, s.tree.visible, i) {
            Some(k) => k < i && is_file_row(s, k as int) && forall|j: int|
                k < j < i ==> !#[trigger] is_file_row(s, j),
            None => forall|j: int| j < i ==> !#[trigger] is_file_row(s, j),
        },
    decreases i,
{
    if i > 0 && !is_file_row(s, i - 1) {
        lemma_prev_leaf(s, i - 1);
    }
}

/// What loading leaves alone: all that the sidebar is made of.
pub open spec fn same_sidebar(a: AppState, b: AppState) -> bool {
    &&& a.tree == b.tree
    &&& a.tree_cursor == b.tree_cursor
    &&& a.filter == b.filter
    &&& a.hidden == b.hidden
    &&& a.hidden_view == b.hidden_view
    &&& a.config == b.config
    &&& a.review == b.review
    &&& a.focus == b.focus
    &&& a.mode == b.mode
    &&& a.view == b.view
    &&& a.live == b.live
}

proof fn lemma_loading(s: AppState, use_cache: bool)
    ensures
        same_sidebar(s.loading(use_cache, None), s),
        s.live && s.current_file() is Some && s.diff_file != s.current_file() ==> s.loading(
            use_cache,
            None,
        ) == (AppState {
            outbox: s.outbox.push(
                EffectModel::Load { file: s.current_file()->0, use_cache, place: None },
            ),
            ..s
        }),
        s.current_file() is Some && s.diff_file == s.current_file() ==> s.loading(use_cache, None)
            == s,
        s.current_file() is None ==> s.loading(use_cache, None).diff is None,
{
    reveal(AppState::loading);
    reveal(AppState::asking);
    reveal(AppState::restored);
    reveal(AppState::cleared);
    reveal(AppState::adopted);
    reveal(AppState::with_rows);
    reveal(AppState::highlighted);
}

/// `r` is `s` with the cursor on row `i`, and the diff of the file there asked for.
pub open spec fn moved_to(s: AppState, r: AppState, i: int) -> bool {
    let a = AppState { tree_cursor: i as usize, ..s };
    &&& same_sidebar(r, a)
    &&& r.dirty
    &&& s.live && a.current_file() is Some && s.diff_file != a.current_file() ==> r.outbox
        == s.outbox.push(
        EffectModel::Load { file: a.current_file()->0, use_cache: true, place: None },
    )
    &&& a.current_file() is Some && s.diff_file == a.current_file() ==> r.outbox == s.outbox
        && r.diff == s.diff
}

proof fn lemma_at_row(s: AppState, i: int)
    ensures
        moved_to(s, s.at_row(i), i),
{
    reveal(AppState::at_row);
    lemma_loading(AppState { tree_cursor: i as usize, ..s }, true);
}

/// The file keys go to the nearest file below the cursor and above it; where there is
/// none, nothing happens.
pub proof fn law_file_keys(s: AppState, now: Clock)
    requires
        s.tree.visible.len() <= usize::MAX,
        s.tree_cursor < s.tree.visible.len(),
    ensures
        ({
            let r = s.dispatched(Action::NextFile, now);
            let at = r.tree_cursor as int;
            if forall|j: int| s.tree_cursor < j ==> !#[trigger] is_file_row(s, j) {
                r == s
            } else {
                &&& moved_to(s, r, at)
                &&& s.tree_cursor < at
                &&& is_file_row(s, at)
                &&& forall|j: int| s.tree_cursor < j < at ==> !#[trigger] is_file_row(s, j)
            }
        }),
        ({
            let r = s.dispatched(Action::PrevFile, now);
            let at = r.tree_cursor as int;
            if forall|j: int| j < s.tree_cursor ==> !#[trigger] is_file_row(s, j) {
                r == s
            } else {
                &&& moved_to(s, r, at)
                &&& at < s.tree_cursor
                &&& is_file_row(s, at)
                &&& forall|j: int| at < j < s.tree_cursor ==> !#[trigger] is_file_row(s, j)
            }
        }),
{
    reveal(AppState::dispatched);
    reveal(AppState::on_next_file);
    reveal(AppState::on_prev_file);
    let n = s.tree_cursor as int;
    lemma_next_leaf(s, n + 1);
    lemma_prev_leaf(s, n);
    match next_leaf(s.tree.nodes, s.tree.visible, n + 1) {
        Some(k) => {
            lemma_at_row(s, k as int);
            assert(is_file_row(s, k as int));
        },
        None => {},
    }
    match prev_leaf(s.tree.nodes, s.tree.visible, n) {
        Some(k) => {
            lemma_at_row(s, k as int);
            assert(is_file_row(s, k as int));
        },
        None => {},
    }
}

/// In the sidebar, the arrow keys and the wheel move the cursor by one row, and stop at
/// both ends.
pub proof fn law_cursor_keys(s: AppState, now: Clock, ev: MouseEvent)
    requires
        s.tree.visible.len() <= usize::MAX,
        s.focus == Focus::Tree,
    ensures
        ({
            let r = s.dispatched(Action::ScrollDown, now);
            if s.tree_cursor + 1 < s.tree.visible.len() {
                moved_to(s, r, s.tree_cursor + 1)
            } else {
                r == s
            }
        }),
        ({
            let r = s.dispatched(Action::ScrollUp, now);
            if s.tree_cursor > 0 {
                moved_to(s, r, s.tree_cursor - 1)
            } else {
                r == s
            }
        }),
        ev.column < s.diff_x && ev.kind == MouseKind::ScrollDown ==> s.after_mouse(ev)
            == s.dispatched(Action::ScrollDown, now),
        ev.column < s.diff_x && ev.kind == MouseKind::ScrollUp ==> s.after_mouse(ev)
            == s.dispatched(Action::ScrollUp, now),
{
    reveal(AppState::dispatched);
    reveal(AppState::after_mouse);
    reveal(AppState::cursor_moved_down);
    reveal(AppState::cursor_moved_up);
    lemma_at_row(s, s.tree_cursor + 1);
    lemma_at_row(s, s.tree_cursor - 1);
}

// ── small keys ─────────────────────────────────────────────────────────────

/// The keys that change one thing change that thing alone.
pub proof fn law_small_keys(s: AppState, now: Clock)
    ensures
        s.dispatched(Action::Quit, now) == (AppState { should_quit: true, ..s }),
        s.dispatched(Action::Help, now) == (AppState { mode: Mode::Help, dirty: true, ..s }),
        s.dispatched(Action::StartFilter, now) == (AppState {
            mode: Mode::Filter,
            dirty: true,
            ..s
        }),
        s.live ==> s.dispatched(Action::EditConfig, now) == (AppState {
            pending_config_edit: true,
            ..s
        }),
        s.dispatched(Action::SwitchFocus, now).focus != s.focus,
        s.dispatched(Action::SwitchFocus, now) == (AppState {
            focus: s.dispatched(Action::SwitchFocus, now).focus,
            dirty: true,
            ..s
        }),
{
    reveal(AppState::dispatched);
}

/// The sidebar is to be as wide as `want`, within what the terminal allows.
pub open spec fn width_for(s: AppState, want: int, w: int) -> bool {
    let most = if s.body_width >= 36 {
        s.body_width - 20
    } else {
        16
    };
    if want <= 16 {
        w == 16
    } else if want >= most {
        w == most
    } else {
        w == want
    }
}

/// The width keys make the sidebar two columns narrower or wider, and dragging the
/// divider puts it under the mouse, never below the least width and never at the cost
/// of the diff's.
pub proof fn law_width_keys(s: AppState, now: Clock, ev: MouseEvent)
    requires
        s.tree_width < 0xfff0,
        ev.column < 0xfff0,
    ensures
        width_for(
            s,
            s.tree_width - 2,
            s.dispatched(Action::NarrowSidebar, now).tree_width as int,
        ),
        width_for(
            s,
            s.tree_width + 2,
            s.dispatched(Action::WidenSidebar, now).tree_width as int,
        ),
        ev.kind == MouseKind::LeftDrag && s.dragging_divider ==> width_for(
            s,
            ev.column + 1,
            s.after_mouse(ev).tree_width as int,
        ),
        ev.kind == MouseKind::LeftDrag && !s.dragging_divider ==> s.after_mouse(ev) == s,
        ev.kind == MouseKind::LeftDown ==> s.after_mouse(ev) == (AppState {
            dragging_divider: s.dragging_divider || ev.column == s.tree_width || ev.column + 1
                == s.tree_width || (s.tree_width == 0 && ev.column == 0),
            ..s
        }),
        ev.kind == MouseKind::LeftUp ==> s.after_mouse(ev) == (AppState {
            dragging_divider: false,
            ..s
        }),
{
    reveal(AppState::dispatched);
    reveal(AppState::after_mouse);
    reveal(AppState::with_tree_width);
}

} // verus!
