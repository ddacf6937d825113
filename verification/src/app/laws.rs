//! What holds of the application, whatever happens to it.

use std::sync::Arc;

use vstd::prelude::*;

use crate::app::rows::{chunk_rows, unified_rows, unified_starts};
use crate::app::state::{
    chunk_at, leaf_of_path, needs_repository, or_else, or_zero, rows_ok, tree_ok, AppState, MIN_DIFF_WIDTH, MIN_TREE_WIDTH, TOAST_TTL_MS,
};
use crate::app::types::{
    Clock, EffectModel, KeyEvent, Mode, PlaceModel, ReviewedDisplay, RowRef,
};
use crate::cache::Signature;
use crate::config::action::Action;
use crate::config::chord::KeyCode;
use crate::git::diff::parse_model;
use crate::highlight::FileHighlight;
use crate::model::diff::HunkModel;
use crate::model::file::FileModel;
use crate::model::review::{chunk_is_reviewed, ReviewStatus};
use crate::model::snapshot::SnapshotModel;
use crate::model::tree::{child_shown, tree_of, visible_rows};
use crate::model::tree_laws::{is_child, law_visible_rows, opens};
use crate::persist::{lemma_without_chunk, unmark_chunk_in, with_chunk, without_chunk};
use crate::render::viewport::{max_of, max_offset};
use crate::text::utf8_lossy;

verus! {

// ── the sidebar ────────────────────────────────────────────────────────────

/// Every file that is listed belongs to the list in view: no hidden file in the
/// normal list, and only hidden ones in the hidden view.
pub open spec fn lists_only_kept(s: AppState) -> bool {
    forall|i: int|
        #![trigger s.tree.visible[i]]
        0 <= i < s.tree.visible.len() && s.tree.nodes[s.tree.visible[i] as int].file is Some
            ==> s.is_hidden(s.tree.nodes[s.tree.visible[i] as int].file->0 as int)
            == s.hidden_view
}

proof fn lemma_filtered_kept(s: AppState, n: int)
    requires
        0 <= n <= s.tree.nodes.len(),
        s.tree.nodes.len() <= usize::MAX,
    ensures
        forall|i: int|
            0 <= i < s.filtered(n).len() ==> s.keeps(#[trigger] s.filtered(n)[i] as int)
                && s.filtered(n)[i] < n,
    decreases n,
{
    if n > 0 {
        lemma_filtered_kept(s, n - 1);
        let was = s.filtered(n - 1);
        let now = s.filtered(n);
        assert forall|i: int| 0 <= i < now.len() implies s.keeps(#[trigger] now[i] as int)
            && now[i] < n by {
            if i < was.len() {
                assert(now[i] == was[i]);
            }
        }
    }
}

/// Hidden files stay out of the sidebar whenever it is worked out anew: with or
/// without a filter, and whatever is folded.
pub proof fn law_hidden_files_stay_hidden(s: AppState)
    requires
        s.wf(),
        s.tree.nodes.len() <= usize::MAX,
    ensures
        lists_only_kept(s.recomputed()),
{
    reveal(tree_ok);
    reveal(AppState::recomputed);
    let r = s.recomputed();
    let rows = r.tree.visible;
    assert forall|fi: int| r.is_hidden(fi) == s.is_hidden(fi) by {}
    if s.filter.len() > 0 {
        lemma_filtered_kept(s, s.tree.nodes.len() as int);
    } else {
        let root = s.tree.root as int;
        assert(rows == visible_rows(s.tree.nodes, root, s.kept()));
        assert forall|i: int|
            #![trigger rows[i]]
            0 <= i < rows.len() && r.tree.nodes[rows[i] as int].file is Some implies r.is_hidden(
            r.tree.nodes[rows[i] as int].file->0 as int,
        ) == r.hidden_view by {
            let c = rows[i] as int;
            crate::model::tree_laws::lemma_rows_in_arena(
                s.tree.nodes,
                root,
                s.tree.nodes[root].children.len() as int,
                s.kept(),
            );
            law_visible_rows(s.tree.nodes, root, s.kept(), c);
            assert(rows.contains(c as usize));
            let p = choose|p: int|
                #[trigger] is_child(s.tree.nodes, p, c) && child_shown(
                    s.tree.nodes,
                    p,
                    c,
                    s.kept(),
                ) && opens(s.tree.nodes, root, rows, p);
            assert(child_shown(s.tree.nodes, p, c, s.kept()));
            assert(s.kept()(c));
        }
    }
}

/// Loading a diff leaves the sidebar alone.
proof fn lemma_loading_frame(s: AppState, use_cache: bool, place: Option<PlaceModel>)
    requires
        crate::model::tree::leaves_below(s.tree.nodes, s.files.len() as int),
        forall|i: int|
            0 <= i < s.tree.visible.len() ==> #[trigger] s.tree.visible[i] < s.tree.nodes.len(),
    ensures
        s.loading(use_cache, place).tree == s.tree,
        s.loading(use_cache, place).hidden == s.hidden,
        s.loading(use_cache, place).hidden_view == s.hidden_view,
        s.loading(use_cache, place).config == s.config,
        s.loading(use_cache, place).files.len() == s.files.len(),
        forall|i: int|
            0 <= i < s.files.len() ==> (#[trigger] s.loading(use_cache, place).files[i]).path
                == s.files[i].path,
        s.loading(use_cache, place).review == s.review,
        s.loading(use_cache, place).tree_cursor == s.tree_cursor,
{
    reveal(AppState::loading);
    reveal(AppState::adopted);
    reveal(AppState::with_rows);
    reveal(AppState::highlighted);
    reveal(AppState::restored);
    reveal(AppState::refolded);
    reveal(AppState::cleared);
    reveal(AppState::asking);
    if s.current_file() is Some {
        assert(s.tree.visible[s.tree_cursor as int] < s.tree.nodes.len());
        assert(s.current_file()->0 < s.files.len());
    }
}

proof fn lemma_kept_after_loading(s: AppState)
    requires
        lists_only_kept(s),
        crate::model::tree::leaves_below(s.tree.nodes, s.files.len() as int),
        forall|i: int| 0 <= i < s.tree.visible.len() ==> #[trigger] s.tree.visible[i] < s.tree.nodes.len(),
    ensures
        lists_only_kept(s.loading(true, None)),
{
    lemma_loading_frame(s, true, None);
    let r = s.loading(true, None);
    assert forall|i: int|
        #![trigger r.tree.visible[i]]
        0 <= i < r.tree.visible.len() && r.tree.nodes[r.tree.visible[i] as int].file is Some implies
        r.is_hidden(r.tree.nodes[r.tree.visible[i] as int].file->0 as int) == r.hidden_view by {
        let n = s.tree.visible[i] as int;
        assert(s.tree.visible[i] < s.tree.nodes.len());
        let fi = s.tree.nodes[n].file->0 as int;
        assert(fi < s.files.len());
        assert(r.files[fi].path == s.files[fi].path);
    }
}

/// Folding or unfolding a folder does not bring hidden files back.
pub proof fn law_fold_keeps_hidden(s: AppState, n: int)
    requires
        s.wf(),
        0 <= n < s.tree.nodes.len() <= usize::MAX,
    ensures
        lists_only_kept(s.folder_toggled(n)),
{
    reveal(AppState::folder_toggled);
    reveal(tree_ok);
    let a = AppState { tree: crate::model::tree::toggled(s.tree, n), ..s };
    crate::app::navigate::lemma_toggle_keeps_leaves(s.tree, n, s.files.len());
    crate::model::tree_laws::lemma_toggle_wf(s.tree, n);
    law_hidden_files_stay_hidden(a);
    crate::model::tree_laws::lemma_rows_in_arena(
        a.tree.nodes,
        a.tree.root as int,
        a.tree.nodes[a.tree.root as int].children.len() as int,
        a.kept(),
    );
    lemma_filtered_kept(a, a.tree.nodes.len() as int);
    reveal(AppState::recomputed);
    lemma_kept_after_loading(a.recomputed());
    let b = a.recomputed().loading(true, None);
    let r = AppState { dirty: true, ..b };
    assert(s.folder_toggled(n) == r);
    assert forall|fi: int| #[trigger] r.is_hidden(fi) == b.is_hidden(fi) by {}
}

/// Working the sidebar out anew, moving the cursor to a file and loading it.
proof fn lemma_sidebar_follows(a: AppState)
    requires
        a.wf(),
        a.tree.nodes.len() <= usize::MAX,
    ensures
        ({
            let r = a.recomputed().snapped().loading(true, None);
            lists_only_kept(r) && r.hidden == a.hidden
        }),
{
    law_hidden_files_stay_hidden(a);
    let m = a.recomputed();
    let b = m.snapped();
    assert(b == (AppState { tree_cursor: b.tree_cursor, ..m })) by {
        reveal(AppState::snapped);
    }
    assert(crate::model::tree::leaves_below(m.tree.nodes, m.files.len() as int) && m.hidden
        == a.hidden && forall|i: int|
        0 <= i < m.tree.visible.len() ==> #[trigger] m.tree.visible[i] < m.tree.nodes.len()) by {
        reveal(AppState::recomputed);
        reveal(tree_ok);
        crate::model::tree_laws::lemma_rows_in_arena(
            a.tree.nodes,
            a.tree.root as int,
            a.tree.nodes[a.tree.root as int].children.len() as int,
            a.kept(),
        );
        lemma_filtered_kept(a, a.tree.nodes.len() as int);
    }
    assert forall|i: int| #[trigger] b.is_hidden(i) == m.is_hidden(i) by {}
    assert(lists_only_kept(b));
    lemma_loading_frame(b, true, None);
    lemma_kept_after_loading(b);
}

/// Hiding acts on the file under the cursor alone: it is hidden, or no longer
/// hidden, and every other file stays as it was. The sidebar follows.
pub proof fn law_hide_flips_one_file(s: AppState, fi: usize)
    requires
        s.wf(),
        s.tree.nodes.len() <= usize::MAX,
        s.current_file() == Some(fi),
    ensures
        ({
            let path = s.files[fi as int].path;
            let r = s.hidden_toggled();
            &&& r.hidden.contains(path) == !s.hidden.contains(path)
            &&& forall|other: Seq<char>|
                other != path ==> #[trigger] r.hidden.contains(other) == s.hidden.contains(other)
            &&& lists_only_kept(r)
        }),
{
    let path = s.files[fi as int].path;
    let hidden = if s.hidden.contains(path) {
        s.hidden.remove(path)
    } else {
        s.hidden.insert(path)
    };
    let a = (AppState { hidden, ..s }).asking(crate::app::types::EffectModel::SaveHidden);
    assert(a.wf() && a.hidden == hidden && a.tree == s.tree) by {
        reveal(AppState::asking);
    }
    lemma_sidebar_follows(a);
    let c = a.recomputed().snapped().loading(true, None);
    let r = s.hidden_toggled();
    assert(r == (AppState { dirty: true, ..c })) by {
        reveal(AppState::hidden_toggled);
    }
    assert forall|i: int| #[trigger] r.is_hidden(i) == c.is_hidden(i) by {}
}

/// A refresh neither forgets what is hidden nor brings it back, and it keeps the
/// review records.
pub proof fn law_refresh_keeps_hidden(s: AppState, snapshot: SnapshotModel)
    requires
        s.wf(),
        tree_ok(tree_of(snapshot.files), snapshot.files.len()),
        tree_of(snapshot.files).nodes.len() <= usize::MAX,
    ensures
        s.reconciled(snapshot).hidden == s.hidden,
        s.reconciled(snapshot).review == s.review,
        lists_only_kept(s.reconciled(snapshot)),
{
    let x = AppState {
        hashes: snapshot.hashes,
        files: snapshot.files,
        tree: tree_of(snapshot.files),
        prefetch_skip: Set::empty(),
        ..s
    };
    let w = (AppState { hashes: snapshot.hashes, ..s }).with_files(
        snapshot.files,
        s.place().path,
    );
    let a = AppState { diff_file: None, ..w };
    law_hidden_files_stay_hidden(x);
    let m = x.recomputed();
    assert(w == (AppState { tree_cursor: w.tree_cursor, ..m })) by {
        reveal(AppState::with_files);
    }
    assert(crate::model::tree::leaves_below(m.tree.nodes, m.files.len() as int) && m.hidden
        == s.hidden && m.review == s.review && forall|i: int|
        0 <= i < m.tree.visible.len() ==> #[trigger] m.tree.visible[i] < m.tree.nodes.len()) by {
        reveal(AppState::recomputed);
        reveal(tree_ok);
        crate::model::tree_laws::lemma_rows_in_arena(
            x.tree.nodes,
            x.tree.root as int,
            x.tree.nodes[x.tree.root as int].children.len() as int,
            x.kept(),
        );
        lemma_filtered_kept(x, x.tree.nodes.len() as int);
    }
    assert forall|i: int| #[trigger] a.is_hidden(i) == m.is_hidden(i) by {}
    assert(lists_only_kept(a));
    let place = Some(s.place());
    lemma_loading_frame(a, false, place);
    let c = a.loading(false, place);
    assert forall|i: int|
        #![trigger c.tree.visible[i]]
        0 <= i < c.tree.visible.len() && c.tree.nodes[c.tree.visible[i] as int].file is Some implies
        c.is_hidden(c.tree.nodes[c.tree.visible[i] as int].file->0 as int) == c.hidden_view by {
        let n = a.tree.visible[i] as int;
        let fi = a.tree.nodes[n].file->0 as int;
        assert(a.tree.visible[i] < a.tree.nodes.len());
        assert(fi < a.files.len());
        assert(c.files[fi].path == a.files[fi].path);
    }
    let r = s.reconciled(snapshot);
    assert(r == (AppState { dirty: true, ..c })) by {
        reveal(AppState::reconciled);
    }
    assert forall|i: int| #[trigger] r.is_hidden(i) == c.is_hidden(i) by {}
}

// ── modes ──────────────────────────────────────────────────────────────────

/// Any key closes the help overlay, and does nothing else.
pub proof fn law_any_key_closes_help(s: AppState, key: KeyEvent, now: Clock)
    requires
        s.mode == Mode::Help,
        !key.release,
    ensures
        s.after_key(key, now) == (AppState { mode: Mode::Normal, dirty: true, ..s }),
{
    reveal(AppState::after_key);
}

/// Escape ends the filter: while it is edited, and later.
pub proof fn law_escape_clears_filter(s: AppState, key: KeyEvent, now: Clock)
    requires
        s.mode == Mode::Filter || s.mode == Mode::Normal,
        key.code == KeyCode::Esc,
        !key.release,
        s.filter.len() > 0,
    ensures
        s.after_key(key, now).filter.len() == 0,
        s.after_key(key, now).mode == Mode::Normal,
{
    reveal(AppState::after_key);
    reveal(AppState::filter_key);
    reveal(AppState::filter_pressed);
    reveal(AppState::normal_key);
    lemma_filter_set(s, Seq::empty());
    lemma_filter_set(AppState { status_msg: None, ..s }, Seq::empty());
}

proof fn lemma_filter_set(s: AppState, filter: Seq<char>)
    ensures
        s.with_filter(filter).filter == filter,
        s.with_filter(filter).mode == s.mode,
{
    reveal(AppState::with_filter);
    reveal(AppState::recomputed);
    lemma_loading_keeps_mode(
        AppState { tree_cursor: 0, ..(AppState { filter, ..s }).recomputed() },
    );
}

proof fn lemma_loading_keeps_mode(s: AppState)
    ensures
        s.loading(true, None).filter == s.filter,
        s.loading(true, None).mode == s.mode,
{
    reveal(AppState::loading);
    reveal(AppState::adopted);
    reveal(AppState::with_rows);
    reveal(AppState::highlighted);
    reveal(AppState::restored);
    reveal(AppState::refolded);
    reveal(AppState::cleared);
    reveal(AppState::asking);
}

/// A toast stays for its time, then goes by itself.
pub proof fn law_toast_goes_by_itself(s: AppState, text: Seq<char>, now: Clock, later: Clock)
    requires
        now.millis + TOAST_TTL_MS <= u64::MAX,
    ensures
        s.toasting(text, now).toast_expired(later).toast is Some <==> later.millis < now.millis
            + TOAST_TTL_MS,
{
    reveal(AppState::toasting);
    reveal(AppState::toast_expired);
}

// ── reviewing ──────────────────────────────────────────────────────────────

/// Marking a chunk makes it reviewed, and unmarking it makes it unreviewed.
pub proof fn law_mark_chunk(s: AppState, h: int, mark: bool, now: Clock)
    requires
        s.wf(),
        s.diff is Some,
        0 <= h < s.chunk_hashes.len(),
    ensures
        s.chunk_marked(s.chunk_hashes[h], mark, now).is_chunk_reviewed(h) == mark,
{
    reveal(AppState::chunk_marked);
    reveal(AppState::asking);
    reveal(AppState::refreshed_hashes);
    let hash = s.chunk_hashes[h];
    let path = s.diff->0.path;
    let r = s.chunk_marked(hash, mark, now);
    if mark {
        let record = with_chunk(
            s.record(path),
            crate::git::diff::seahash_of(vstd::utf8::encode_utf8(s.diff->0.text)),
            hash,
            now.unix,
        );
        let chunks = match s.record(path) {
            Some(r) => r.reviewed_chunks,
            None => Seq::empty(),
        };
        assert(chunks.push(hash)[chunks.len() as int] == hash);
        assert(record.reviewed_chunks.contains(hash));
        assert(r.record(path) == Some(record));
    } else {
        assert(r.review == unmark_chunk_in(s.review, path, hash));
        if s.review.contains_key(path) {
            crate::persist::lemma_without_chunk(s.review[path].reviewed_chunks, hash);
        }
    }
}

/// Marking a whole file reviewed makes it reviewed; doing it again makes it
/// unreviewed. The files at other paths stay as they were.
pub proof fn law_toggle_file(s: AppState, fi: usize, now: Clock, other: int)
    requires
        s.current_file() == Some(fi),
        s.status(fi as int) == ReviewStatus::Reviewed || s.diff is Some,
    ensures
        (s.file_toggled(now).status(fi as int) == ReviewStatus::Reviewed) == (s.status(fi as int)
            != ReviewStatus::Reviewed),
        s.files[other].path != s.files[fi as int].path ==> s.file_toggled(now).status(other)
            == s.status(other),
{
    reveal(AppState::file_toggled);
    reveal(AppState::file_marked);
    reveal(AppState::file_unmarked);
    reveal(AppState::all_collapsed);
    reveal(AppState::with_rows);
    reveal(AppState::asking);
    let r = s.file_toggled(now);
    let path = s.files[fi as int].path;
    assert(r.files == s.files);
    if s.status(fi as int) != ReviewStatus::Reviewed {
        let fh = s.current_hashes();
        assert(r.hashes_of(path) == Some(fh));
        assert forall|i: int| 0 <= i < fh.chunks.len() implies chunk_is_reviewed(
            r.record(path),
            #[trigger] fh.chunks[i],
        ) by {
            assert(fh.chunks.contains(fh.chunks[i]));
        }
    }
}

proof fn lemma_other_chunk(s: AppState, hash: u64, mark: bool, now: Clock, other: int)
    requires
        s.diff is Some,
    ensures
        0 <= other < s.chunk_hashes.len() && s.chunk_hashes[other] != hash ==> s.chunk_marked(
            hash,
            mark,
            now,
        ).is_chunk_reviewed(other) == s.is_chunk_reviewed(other),
{
    reveal(AppState::chunk_marked);
    reveal(AppState::asking);
    reveal(AppState::refreshed_hashes);
    let path = s.diff->0.path;
    let had = match s.record(path) {
        Some(r) => r.reviewed_chunks,
        None => Seq::empty(),
    };
    lemma_without_chunk(had, hash);
    if 0 <= other < s.chunk_hashes.len() && s.chunk_hashes[other] != hash {
        let x = s.chunk_hashes[other];
        assert(had.push(hash).contains(x) <==> had.contains(x)) by {
            if had.contains(x) {
                let i = choose|i: int| 0 <= i < had.len() && had[i] == x;
                assert(had.push(hash)[i] == x);
            }
            if had.push(hash).contains(x) {
                let i = choose|i: int| 0 <= i < had.len() + 1 && had.push(hash)[i] == x;
                assert(had[i] == x);
            }
        }
        assert(without_chunk(had, hash).contains(x) <==> had.contains(x));
    }
}

/// Toggling a chunk flips its reviewed state and that of no chunk with other
/// content. Neither the diff nor the chunks themselves change.
pub proof fn law_toggle_chunk(s: AppState, h: int, now: Clock, other: int)
    requires
        s.wf(),
        s.diff is Some,
        0 <= h < s.chunk_hashes.len(),
    ensures
        s.chunk_toggled_at(h, now).is_chunk_reviewed(h) == !s.is_chunk_reviewed(h),
        0 <= other < s.chunk_hashes.len() && s.chunk_hashes[other] != s.chunk_hashes[h]
            ==> s.chunk_toggled_at(h, now).is_chunk_reviewed(other) == s.is_chunk_reviewed(other),
        s.chunk_toggled_at(h, now).diff == s.diff,
        s.chunk_toggled_at(h, now).chunk_hashes == s.chunk_hashes,
        s.config.reviewed_chunks == ReviewedDisplay::Collapse ==> s.chunk_toggled_at(
            h,
            now,
        ).chunk_collapsed == s.chunk_collapsed.update(h, !s.is_chunk_reviewed(h)),
        s.config.reviewed_chunks != ReviewedDisplay::Collapse ==> s.chunk_toggled_at(
            h,
            now,
        ).chunk_collapsed == s.chunk_collapsed,
{
    let mark = !s.is_chunk_reviewed(h);
    law_mark_chunk(s, h, mark, now);
    lemma_other_chunk(s, s.chunk_hashes[h], mark, now, other);
    reveal(AppState::chunk_toggled_at);
    reveal(AppState::chunk_marked);
    reveal(AppState::asking);
    reveal(AppState::refreshed_hashes);
    reveal(AppState::chunk_folded);
    reveal(AppState::with_rows);
    reveal(AppState::advanced);
    reveal(AppState::at_current_chunk);
}

/// Opening every chunk unfolds all of them and changes nothing that is reviewed.
pub proof fn law_expand_keeps_review(s: AppState)
    requires
        s.wf(),
    ensures
        s.expanded().review == s.review,
        s.expanded().hashes == s.hashes,
        forall|h: int|
            0 <= h < s.expanded().chunk_collapsed.len() ==> !(
            #[trigger] s.expanded().chunk_collapsed[h]),
        forall|h: int| #[trigger]
            s.expanded().is_chunk_reviewed(h) == s.is_chunk_reviewed(h),
{
    reveal(AppState::expanded);
    reveal(AppState::all_collapsed);
    reveal(AppState::with_rows);
    let r = s.expanded();
    assert forall|h: int| #[trigger] r.is_chunk_reviewed(h) == s.is_chunk_reviewed(h) by {
        assert(r.record(r.diff->0.path) == s.record(s.diff->0.path) || s.diff is None);
    }
    assert forall|h: int| 0 <= h < r.chunk_collapsed.len() implies !(
    #[trigger] r.chunk_collapsed[h]) by {
        if !(exists|k: int| 0 <= k < s.chunk_collapsed.len() && #[trigger] s.chunk_collapsed[k]) {
            assert(r.chunk_collapsed == s.chunk_collapsed);
        }
    }
}

// ── rows ───────────────────────────────────────────────────────────────────

/// Every chunk's header is the row that is said to be its first, and headers come
/// in order.
pub proof fn law_starts_are_headers(chunks: Seq<HunkModel>, collapsed: Seq<bool>, h: int, n: int)
    requires
        0 <= h < n <= chunks.len(),
        chunks.len() <= usize::MAX,
        unified_rows(chunks, collapsed, n).len() <= usize::MAX,
    ensures
        unified_rows(chunks, collapsed, h).len() < unified_rows(chunks, collapsed, n).len(),
        unified_starts(chunks, collapsed)[h] == unified_rows(chunks, collapsed, h).len(),
        unified_rows(chunks, collapsed, n)[unified_starts(chunks, collapsed)[h] as int]
            == RowRef::Header(h as usize),
    decreases n,
{
    let rows = unified_rows(chunks, collapsed, n);
    let was = unified_rows(chunks, collapsed, n - 1);
    let new = chunk_rows(chunks, collapsed, n - 1);
    assert(rows == was + new);
    if h < n - 1 {
        law_starts_are_headers(chunks, collapsed, h, n - 1);
        let at = unified_rows(chunks, collapsed, h).len() as int;
        assert(rows[at] == was[at]);
    } else {
        assert(new[0] == RowRef::Header(h as usize));
        assert(rows[was.len() as int] == new[0]);
    }
}

/// The chunk at the top of the viewport is the last one whose header is not below
/// the top.
pub proof fn law_chunk_at(starts: Seq<usize>, scroll: usize, i: int, last: usize)
    requires
        0 <= i <= starts.len() <= usize::MAX,
        i > 0 ==> last == i - 1,
        i == 0 ==> last == 0,
        forall|j: int| 0 <= j < i ==> #[trigger] starts[j] <= scroll,
    ensures
        ({
            let c = chunk_at(starts, scroll, i, last);
            &&& starts.len() > 0 ==> c < starts.len()
            &&& starts.len() > 0 && starts[0] <= scroll ==> starts[c as int] <= scroll
            &&& c + 1 < starts.len() && starts[0] <= scroll ==> starts[c + 1] > scroll
        }),
    decreases starts.len() - i,
{
    if i < starts.len() && starts[i] <= scroll {
        law_chunk_at(starts, scroll, i + 1, i as usize);
    }
}

/// Scrolling never leaves the rows: the offset stays at most at the place where
/// the last row is at the bottom.
pub proof fn law_scroll_in_range(s: AppState, delta: int)
    requires
        s.row_count() <= usize::MAX,
    ensures
        s.scrolled(delta).scroll <= max_offset(s.height(), s.row_count() as int),
        s.scrolled(delta).diff == s.diff,
{
    reveal(AppState::scrolled);
    reveal(AppState::synced);
}

// ── layout ─────────────────────────────────────────────────────────────────

/// The sidebar is never narrower than its minimum, and leaves the diff its
/// minimum where the terminal is wide enough for both.
pub proof fn law_sidebar_bounds(s: AppState, w: int)
    ensures
        MIN_TREE_WIDTH <= s.with_tree_width(w).tree_width,
        s.with_tree_width(w).tree_width <= s.max_tree_width(),
        s.body_width >= MIN_TREE_WIDTH + MIN_DIFF_WIDTH ==> s.with_tree_width(w).tree_width
            + MIN_DIFF_WIDTH <= s.body_width,
{
    reveal(AppState::with_tree_width);
}

// ── themes ─────────────────────────────────────────────────────────────────

/// Opening the picker remembers the theme; moving and searching in it keep what
/// was remembered and do not touch the configuration.
pub proof fn law_picker_remembers(s: AppState, delta: int, query: Seq<char>)
    ensures
        s.picker_opened().theme_picker is Some,
        s.picker_opened().theme_picker->0.original == s.active_theme,
        s.theme_picker is Some ==> {
            &&& s.picker_moved(delta).theme_picker is Some
            &&& s.picker_moved(delta).theme_picker->0.original == s.theme_picker->0.original
            &&& s.picker_moved(delta).config == s.config
            &&& s.picker_queried(query).theme_picker is Some
            &&& s.picker_queried(query).theme_picker->0.original == s.theme_picker->0.original
            &&& s.picker_queried(query).config == s.config
        },
{
    reveal(AppState::picker_opened);
    reveal(AppState::picker_moved);
    reveal(AppState::picker_queried);
    reveal(AppState::previewed);
    reveal(AppState::highlighted);
}

/// Cancelling the picker restores the remembered theme and leaves the
/// configuration alone.
pub proof fn law_cancel_restores_theme(s: AppState)
    requires
        s.theme_picker is Some,
    ensures
        s.picker_closed(true).active_theme == s.theme_picker->0.original,
        s.picker_closed(true).config == s.config,
        s.picker_closed(true).theme_picker is None,
        s.picker_closed(true).mode == Mode::Normal,
{
    reveal(AppState::picker_closed);
    reveal(AppState::picker_cancelled);
    reveal(AppState::without_picker);
    reveal(AppState::with_theme);
    reveal(AppState::back_to_normal);
    reveal(AppState::highlighted);
}

// ── pager mode ─────────────────────────────────────────────────────────────

/// In pager mode nothing is marked, hidden, opened or asked for by an action that
/// needs a repository.
pub proof fn law_pager_is_read_only(s: AppState, action: Action, now: Clock)
    requires
        !s.live,
        needs_repository(action),
    ensures
        s.dispatched(action, now) == (AppState {
            toast: s.dispatched(action, now).toast,
            dirty: true,
            ..s
        }),
{
    reveal(AppState::dispatched);
    reveal(AppState::toasting);
}

// ── highlights ─────────────────────────────────────────────────────────────

/// A highlight that was asked for before the latest request is kept, but what is
/// shown does not change.
pub proof fn law_stale_highlight_is_not_shown(
    s: AppState,
    path: Seq<char>,
    theme: Seq<char>,
    hash: u64,
    generation: u64,
    highlight: Arc<FileHighlight>,
)
    requires
        generation != s.highlight_gen,
    ensures
        s.highlight_arrived(path, theme, hash, generation, highlight).highlight == s.highlight,
        s.highlight_arrived(path, theme, hash, generation, highlight).highlight_cache[path] == (
            theme,
            hash,
            highlight,
        ),
{
    reveal(AppState::highlight_arrived);
    reveal(AppState::keeping_highlight);
}

/// A highlight that arrived for the diff in view is found again as long as the
/// diff and the theme stay the same.
pub proof fn law_highlight_is_reused(
    s: AppState,
    hash: u64,
    generation: u64,
    highlight: Arc<FileHighlight>,
)
    requires
        s.diff is Some,
        hash == crate::git::diff::seahash_of(vstd::utf8::encode_utf8(s.diff->0.text)),
        s.should_highlight(),
    ensures
        s.highlight_arrived(
            s.diff->0.path,
            s.active_theme,
            hash,
            generation,
            highlight,
        ).highlighted().highlight == Some(highlight),
{
    reveal(AppState::highlight_arrived);
    reveal(AppState::keeping_highlight);
    reveal(AppState::highlighted);
}

// ── the stores ─────────────────────────────────────────────────────────────

/// Both stores are backed by the files that they were backed by.
pub open spec fn same_backing(a: AppState, b: AppState) -> bool {
    a.review_file == b.review_file && a.hidden_file == b.hidden_file
}

proof fn lemma_loading_backing(s: AppState, use_cache: bool, place: Option<PlaceModel>)
    ensures
        same_backing(s.loading(use_cache, place), s),
{
    reveal(AppState::loading);
    reveal(AppState::adopted);
    reveal(AppState::with_rows);
    reveal(AppState::highlighted);
    reveal(AppState::restored);
    reveal(AppState::refolded);
    reveal(AppState::cleared);
    reveal(AppState::asking);
}

proof fn lemma_list_backing(s: AppState)
    ensures
        same_backing(s.recomputed(), s),
        same_backing(s.snapped(), s),
        same_backing(s.on_first_leaf(), s),
        same_backing(s.at_current_chunk(), s),
        same_backing(s.synced(), s),
{
    reveal(AppState::recomputed);
    reveal(AppState::snapped);
    reveal(AppState::on_first_leaf);
    reveal(AppState::at_current_chunk);
    reveal(AppState::synced);
}

proof fn lemma_review_backing(s: AppState, h: int, now: Clock)
    ensures
        same_backing(s.chunk_toggled_at(h, now), s),
        same_backing(s.file_toggled(now), s),
        same_backing(s.expanded(), s),
{
    reveal(AppState::chunk_toggled_at);
    reveal(AppState::chunk_marked);
    reveal(AppState::refreshed_hashes);
    reveal(AppState::chunk_folded);
    reveal(AppState::advanced);
    reveal(AppState::at_current_chunk);
    reveal(AppState::file_toggled);
    reveal(AppState::file_marked);
    reveal(AppState::file_unmarked);
    reveal(AppState::expanded);
    reveal(AppState::all_collapsed);
    reveal(AppState::with_rows);
    reveal(AppState::asking);
}

proof fn lemma_hide_backing(s: AppState)
    ensures
        same_backing(s.hidden_toggled(), s),
        same_backing(s.hidden_view_toggled(), s),
{
    if s.current_file() is Some {
        let path = s.files[s.current_file()->0 as int].path;
        let hidden = if s.hidden.contains(path) {
            s.hidden.remove(path)
        } else {
            s.hidden.insert(path)
        };
        let a = (AppState { hidden, ..s }).asking(EffectModel::SaveHidden);
        assert(same_backing(a, s)) by {
            reveal(AppState::asking);
        }
        lemma_list_backing(a);
        lemma_list_backing(a.recomputed());
        lemma_loading_backing(a.recomputed().snapped(), true, None);
    }
    reveal(AppState::hidden_toggled);
    let v = AppState { hidden_view: !s.hidden_view, ..s };
    lemma_list_backing(v);
    lemma_list_backing(v.recomputed());
    lemma_loading_backing(v.recomputed().on_first_leaf(), true, None);
    reveal(AppState::hidden_view_toggled);
}

proof fn lemma_row_backing(s: AppState, i: int)
    ensures
        same_backing(s.at_row(i), s),
{
    lemma_loading_backing(AppState { tree_cursor: i as usize, ..s }, true, None);
    reveal(AppState::at_row);
}

proof fn lemma_moves_backing(s: AppState)
    ensures
        same_backing(s.cursor_moved_down(), s),
        same_backing(s.cursor_moved_up(), s),
        same_backing(s.on_next_file(), s),
        same_backing(s.on_prev_file(), s),
        same_backing(s.activated(), s),
{
    assert forall|i: int| same_backing(#[trigger] s.at_row(i), s) by {
        lemma_row_backing(s, i);
    }
    reveal(AppState::cursor_moved_down);
    reveal(AppState::cursor_moved_up);
    reveal(AppState::on_next_file);
    reveal(AppState::on_prev_file);
    reveal(AppState::activated);
    reveal(AppState::on_diff);
    if s.node_at_cursor() is Some {
        let n = s.node_at_cursor()->0 as int;
        let a = AppState { tree: crate::model::tree::toggled(s.tree, n), ..s };
        lemma_list_backing(a);
        lemma_loading_backing(a.recomputed(), true, None);
        reveal(AppState::folder_toggled);
    }
}

proof fn lemma_scroll_backing(s: AppState, delta: int, row: int)
    ensures
        same_backing(s.scrolled(delta), s),
        same_backing(s.scrolled_to(row), s),
        same_backing(s.on_next_chunk(), s),
        same_backing(s.on_prev_chunk(), s),
        same_backing(s.view_toggled(), s),
{
    reveal(AppState::scrolled);
    reveal(AppState::scrolled_to);
    reveal(AppState::synced);
    reveal(AppState::on_next_chunk);
    reveal(AppState::on_prev_chunk);
    reveal(AppState::view_toggled);
    reveal(AppState::at_current_chunk);
    reveal(AppState::asking);
}

/// Whatever action is carried out, reviewed and hidden state stay backed by the files
/// that they were read from.
pub proof fn law_stores_stay_backed(s: AppState, action: Action, now: Clock)
    ensures
        s.dispatched(action, now).review_file == s.review_file,
        s.dispatched(action, now).hidden_file == s.hidden_file,
{
    lemma_moves_backing(s);
    lemma_hide_backing(s);
    assert forall|h: int| same_backing(#[trigger] s.chunk_toggled_at(h, now), s) by {
        lemma_review_backing(s, h, now);
    }
    lemma_review_backing(s, 0, now);
    assert forall|d: int| same_backing(#[trigger] s.scrolled(d), s) by {
        lemma_scroll_backing(s, d, 0);
    }
    assert forall|row: int| same_backing(#[trigger] s.scrolled_to(row), s) by {
        lemma_scroll_backing(s, 0, row);
    }
    lemma_scroll_backing(s, 0, 0);
    reveal(AppState::dispatched);
    reveal(AppState::chunk_toggled);
    reveal(AppState::with_tree_width);
    reveal(AppState::picker_opened);
    reveal(AppState::toasting);
    reveal(AppState::copying);
    reveal(AppState::asking);
    reveal(AppState::opening_editor);
}

// ── refresh ────────────────────────────────────────────────────────────────

/// What a load that finds the diff of `place` unchanged leaves as it was. `bytes` is
/// git's answer for the file that is selected.
pub proof fn law_refresh_keeps_place(
    s: AppState,
    fi: usize,
    sig: Option<Signature>,
    bytes: Seq<u8>,
    place: PlaceModel,
)
    requires
        s.current_file() == Some(fi),
        fi < s.files.len(),
        place.path == Some(s.files[fi as int].path),
        place.text == Some(utf8_lossy(bytes)),
    ensures
        ({
            let d = parse_model(utf8_lossy(bytes), s.files[fi as int].path);
            let r = s.load_finished(
                fi as int,
                sig,
                Ok::<Seq<u8>, Seq<char>>(bytes),
                Some(place),
            );
            &&& r.diff == Some(d)
            &&& r.scroll == place.scroll
            &&& r.current_chunk == place.chunk
            &&& place.collapsed.len() == d.chunks.len() ==> r.chunk_collapsed == place.collapsed
            &&& r.tree == s.tree
            &&& r.tree_cursor == s.tree_cursor
            &&& r.hidden == s.hidden
            &&& r.review == s.review
            &&& r.filter == s.filter
            &&& r.view == s.view
            &&& r.files.len() == s.files.len()
            &&& r.files[fi as int].path == s.files[fi as int].path
        }),
{
    let d = parse_model(utf8_lossy(bytes), s.files[fi as int].path);
    let a = s.caching(s.files[fi as int].path, sig, d);
    assert(a == (AppState { cache: a.cache, ..s })) by {
        reveal(AppState::caching);
    }
    let b = a.adopted(fi as int, d);
    assert(b.diff == Some(d) && b.tree == s.tree && b.tree_cursor == s.tree_cursor
        && b.files.len() == s.files.len() && b.files[fi as int].path == s.files[fi as int].path
        && b.hidden == s.hidden && b.review == s.review && b.filter == s.filter && b.view
        == s.view && b.chunk_collapsed.len() == d.chunks.len()) by {
        reveal(AppState::adopted);
        reveal(AppState::with_rows);
        reveal(AppState::highlighted);
    }
    assert(b.is_back_at(Some(place)));
    reveal(AppState::load_finished);
    reveal(AppState::restored);
    reveal(AppState::refolded);
    reveal(AppState::with_rows);
}

/// The list that a refresh makes names nodes of the new tree, and these name files.
proof fn lemma_refreshed_list(s: AppState, files: Seq<FileModel>, keep: Option<Seq<char>>)
    requires
        tree_ok(tree_of(files), files.len()),
        tree_of(files).nodes.len() <= usize::MAX,
    ensures
        ({
            let a = s.with_files(files, keep);
            &&& a.files == files
            &&& crate::model::tree::leaves_below(a.tree.nodes, files.len() as int)
            &&& forall|i: int|
                0 <= i < a.tree.visible.len() ==> #[trigger] a.tree.visible[i]
                    < a.tree.nodes.len()
        }),
{
    reveal(AppState::with_files);
    reveal(AppState::recomputed);
    reveal(tree_ok);
    let x = AppState {
        files,
        tree: tree_of(files),
        prefetch_skip: Set::empty(),
        ..s
    };
    crate::model::tree_laws::lemma_rows_in_arena(
        x.tree.nodes,
        x.tree.root as int,
        x.tree.nodes[x.tree.root as int].children.len() as int,
        x.kept(),
    );
    lemma_filtered_kept(x, x.tree.nodes.len() as int);
}

/// A row lists the file at `path`.
pub open spec fn lists_path(s: AppState, path: Seq<char>, i: int) -> bool {
    let n = s.tree.visible[i] as int;
    &&& 0 <= i < s.tree.visible.len()
    &&& s.tree.nodes[n].file is Some
    &&& s.files[s.tree.nodes[n].file->0 as int].path == path
}

proof fn lemma_leaf_of_path(s: AppState, path: Seq<char>, i: int, k: int)
    requires
        0 <= i <= k,
        lists_path(s, path, k),
        s.tree.visible.len() <= usize::MAX,
    ensures
        ({
            let found = leaf_of_path(s.tree.nodes, s.tree.visible, s.files, path, i);
            found is Some && lists_path(s, path, found->0 as int)
        }),
    decreases k - i,
{
    if i < k && !lists_path(s, path, i) {
        lemma_leaf_of_path(s, path, i + 1, k);
    }
}

/// A refresh is not noticed where nothing changed for the selected file: if its path
/// is still listed and its diff is the same, byte for byte, then the selection stays
/// on it, and the scroll position, the current chunk, the folds, the hidden files,
/// the filter and the view are what they were.
pub proof fn law_refresh_keeps_view(
    s: AppState,
    snapshot: SnapshotModel,
    path: Seq<char>,
    row: int,
    sig: Option<Signature>,
    bytes: Seq<u8>,
)
    requires
        s.wf(),
        s.live,
        s.place().path == Some(path),
        s.diff == Some(parse_model(utf8_lossy(bytes), path)),
        tree_ok(tree_of(snapshot.files), snapshot.files.len()),
        tree_of(snapshot.files).nodes.len() <= usize::MAX,
        s.reconciled(snapshot).tree.visible.len() <= usize::MAX,
        lists_path(s.reconciled(snapshot), path, row),
    ensures
        ({
            let t = s.reconciled(snapshot);
            let fi = t.current_file()->0;
            let r = t.load_finished(
                fi as int,
                sig,
                Ok::<Seq<u8>, Seq<char>>(bytes),
                Some(s.place()),
            );
            &&& t.current_file() is Some
            &&& t.files == snapshot.files
            &&& t.outbox == s.outbox.push(
                EffectModel::Load { file: fi, use_cache: false, place: Some(s.place()) },
            )
            &&& r.current_file() == Some(fi)
            &&& r.files[fi as int].path == path
            &&& r.scroll == s.scroll
            &&& r.current_chunk == s.current_chunk
            &&& r.chunk_collapsed == s.chunk_collapsed
            &&& r.hidden == s.hidden
            &&& r.review == s.review
            &&& r.filter == s.filter
            &&& r.view == s.view
        }),
{
    let place = s.place();
    let x = (AppState { hashes: snapshot.hashes, ..s });
    let w = x.with_files(snapshot.files, place.path);
    let a = AppState { diff_file: None, ..w };
    let t = s.reconciled(snapshot);
    reveal(AppState::reconciled);
    assert(a.files == snapshot.files && a.diff_file is None && a.live && a.outbox == s.outbox
        && a.hidden == s.hidden && a.review == s.review && a.filter == s.filter && a.view
        == s.view && a.scroll == s.scroll && (a.tree_cursor == or_zero(
        or_else(
            leaf_of_path(a.tree.nodes, a.tree.visible, a.files, path, 0),
            a.first_leaf(),
        ),
    ))) by {
        reveal(AppState::with_files);
        reveal(AppState::recomputed);
    }
    lemma_refreshed_list(x, snapshot.files, place.path);
    lemma_loading_frame(a, false, Some(place));
    let n = a.tree.visible[row] as int;
    assert(a.tree.visible[row] < a.tree.nodes.len());
    assert(a.tree.nodes[n].file->0 < a.files.len());
    assert(lists_path(a, path, row));
    lemma_leaf_of_path(a, path, 0, row);
    let at = leaf_of_path(a.tree.nodes, a.tree.visible, a.files, path, 0)->0;
    assert(a.tree_cursor == at);
    let fi = a.current_file()->0;
    assert(a.current_file() is Some && a.files[fi as int].path == path);
    assert(t == (AppState {
        dirty: true,
        outbox: s.outbox.push(
            EffectModel::Load { file: fi, use_cache: false, place: Some(place) },
        ),
        ..a
    })) by {
        reveal(AppState::loading);
        reveal(AppState::asking);
    }
    assert(a.tree.visible[at as int] < a.tree.nodes.len());
    law_refresh_keeps_place(t, fi, sig, bytes, place);
    assert(s.chunk_collapsed.len() == s.diff->0.chunks.len()) by {
        reveal(rows_ok);
    }
}

// ── prefetch ───────────────────────────────────────────────────────────────

/// The listed files from row `i` on that need a prefetch job.
pub open spec fn cold_rows(s: AppState, i: int) -> nat
    decreases s.tree.visible.len() - i,
{
    if i < 0 || i >= s.tree.visible.len() {
        0
    } else {
        let file = s.tree.nodes[s.tree.visible[i] as int].file;
        cold_rows(s, i + 1) + if file is Some && !s.is_warm(s.files[file->0 as int].path) {
            1nat
        } else {
            0nat
        }
    }
}

proof fn lemma_cold(s: AppState, i: int)
    requires
        0 <= i,
    ensures
        cold_rows(s, i) == 0 <==> s.next_cold(i) is None,
        cold_rows(s, i) <= max_of(s.tree.visible.len() - i, 0),
    decreases s.tree.visible.len() - i,
{
    if i < s.tree.visible.len() {
        lemma_cold(s, i + 1);
    }
}

proof fn lemma_cold_shrinks(a: AppState, b: AppState, i: int)
    requires
        0 <= i,
        a.tree == b.tree,
        a.files == b.files,
        forall|p: Seq<char>| #[trigger] a.is_warm(p) ==> b.is_warm(p),
    ensures
        cold_rows(b, i) <= cold_rows(a, i),
        a.next_cold(i) is Some && b.is_warm(a.files[a.next_cold(i)->0 as int].path) ==> cold_rows(
            b,
            i,
        ) < cold_rows(a, i),
    decreases a.tree.visible.len() - i,
{
    if i < a.tree.visible.len() {
        lemma_cold_shrinks(a, b, i + 1);
    }
}

proof fn lemma_pumped(s: AppState, n: nat)
    requires
        !s.live,
        cold_rows(s, 0) <= n,
    ensures
        s.pumped(n).prefetch_target() is None,
    decreases n,
{
    lemma_cold(s, 0);
    if s.prefetch_target() is Some {
        let fi = s.prefetch_target()->0 as int;
        reveal(AppState::prefetched);
        reveal(AppState::asking);
        let next = s.prefetched(fi, s.preloaded_diff(fi));
        lemma_cold_shrinks(s, next, 0);
        lemma_pumped(next, (n - 1) as nat);
    }
}

/// In pager mode a pump leaves no file behind: when it is done, the jobs in flight
/// are as many as allowed, or every listed file is warm, in flight, or skipped.
pub proof fn law_pump_is_complete(s: AppState)
    requires
        !s.live,
    ensures
        s.pumped(s.tree.visible.len()).prefetch_target() is None,
{
    lemma_cold(s, 0);
    lemma_pumped(s, s.tree.visible.len());
}

/// What an action that needs a repository does in pager mode: it says that it cannot.
pub proof fn law_pager_is_read_only_if(s: AppState, action: Action, now: Clock)
    ensures
        !s.live && needs_repository(action) ==> s.dispatched(action, now) == s.toasting(
            "read-only (pager mode)"@,
            now,
        ) && s.dispatched(action, now) == (AppState {
            toast: s.dispatched(action, now).toast,
            dirty: true,
            ..s
        }) && s.dispatched(action, now).toast is Some,
{
    if !s.live && needs_repository(action) {
        law_pager_is_read_only(s, action, now);
        assert(s.dispatched(action, now) == s.toasting("read-only (pager mode)"@, now)) by {
            reveal(AppState::dispatched);
        }
        reveal(AppState::toasting);
    }
}

} // verus!
