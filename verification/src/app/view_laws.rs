//! What is shown of a diff and of the list of files, and what is asked for.

use std::sync::Arc;

use vstd::prelude::*;
use vstd::utf8::*;

use crate::app::key_laws::{is_file_row, same_sidebar};
use crate::app::rows::{
    chunk_rows, first_new_no, first_no, first_old_no, folded, line_rows, pair_rows, paired_row,
    paired_rows, run_length, side_chunk_rows, side_rows_of, side_starts_of, unified_rows,
    unified_starts,
};
use crate::app::state::{leaf_of_path, next_leaf, AppState};
use crate::app::types::{
    Clock, EffectModel, KeyEvent, Mode, ReviewedDisplay, RowRef, SideRow, ViewMode,
};
use crate::config::action::Action;
use crate::config::chord::KeyCode;
use crate::config::load::LoadModel;
use crate::git::diff::{chunk_bytes, hashes_model, parse_model, seahash_of};
use crate::highlight::FileHighlight;
use crate::model::diff::{count_in_chunks, low_bits, DiffLine, DiffModel, HunkModel, LineKind};
use crate::model::file::{FileModel, KindModel};
use crate::model::review::{chunk_is_reviewed, ReviewStatus};
use crate::persist::{law_mark_adds_one_chunk, with_chunk};
use crate::text::{occurs_at, unicode_lower};
use crate::text_laws::law_first_occurrence;

verus! {

// ── the unified rows ───────────────────────────────────────────────────────

/// Every chunk has a header row, and behind it one row for each of its lines, in order,
/// unless it is folded; the rows of the next chunk follow.
pub proof fn law_unified_rows(chunks: Seq<HunkModel>, collapsed: Seq<bool>, h: int, n: int)
    requires
        0 <= h < n <= chunks.len(),
    ensures
        ({
            let rows = unified_rows(chunks, collapsed, n);
            let at = unified_rows(chunks, collapsed, h).len() as int;
            let next = unified_rows(chunks, collapsed, h + 1).len() as int;
            let shut = h < collapsed.len() && collapsed[h];
            &&& unified_rows(chunks, collapsed, 0).len() == 0
            &&& at < next <= rows.len()
            &&& rows[at] == RowRef::Header(h as usize)
            &&& shut ==> next == at + 1
            &&& !shut ==> next == at + 1 + chunks[h].lines.len()
            &&& !shut ==> forall|l: int|
                0 <= l < chunks[h].lines.len() ==> #[trigger] rows[at + 1 + l] == RowRef::Line(
                    h as usize,
                    l as usize,
                )
        }),
    decreases n,
{
    let rows = unified_rows(chunks, collapsed, n);
    let was = unified_rows(chunks, collapsed, n - 1);
    let new = chunk_rows(chunks, collapsed, n - 1);
    let at = unified_rows(chunks, collapsed, h).len() as int;
    let next = unified_rows(chunks, collapsed, h + 1).len() as int;
    assert(rows == was + new);
    assert(new[0] == RowRef::Header((n - 1) as usize));
    if h < n - 1 {
        law_unified_rows(chunks, collapsed, h, n - 1);
        assert(rows[at] == was[at]);
        if !folded(collapsed, h) {
            assert forall|l: int| 0 <= l < chunks[h].lines.len() implies #[trigger] rows[at + 1 + l]
                == RowRef::Line(h as usize, l as usize) by {
                assert(rows[at + 1 + l] == was[at + 1 + l]);
            }
        }
    } else {
        assert(rows[at] == new[0]);
        if !folded(collapsed, h) {
            assert forall|l: int| 0 <= l < chunks[h].lines.len() implies #[trigger] rows[at + 1 + l]
                == RowRef::Line(h as usize, l as usize) by {
                assert(rows[at + 1 + l] == new[1 + l]);
                assert(new[1 + l] == line_rows(h, chunks[h].lines.len())[l]);
            }
        }
    }
}

// ── side by side ───────────────────────────────────────────────────────────

/// The lines in front of `i` on one side: those that are not of the other side alone.
pub open spec fn side_lines(lines: Seq<DiffLine>, i: int, left: bool) -> Seq<usize>
    decreases i,
{
    if i <= 0 {
        Seq::empty()
    } else if lines[i - 1].kind == if left {
        LineKind::Add
    } else {
        LineKind::Del
    } {
        side_lines(lines, i - 1, left)
    } else {
        side_lines(lines, i - 1, left).push((i - 1) as usize)
    }
}

/// The lines that the rows show on one side, from the top down; empty cells left out.
pub open spec fn shown_side(rows: Seq<SideRow>, left: bool) -> Seq<usize>
    decreases rows.len(),
{
    if rows.len() == 0 {
        Seq::empty()
    } else {
        let was = shown_side(rows.drop_last(), left);
        match rows.last() {
            SideRow::Header(_) => was,
            SideRow::Pair { left: l, right: r } => match if left {
                l
            } else {
                r
            } {
                Some((_, i)) => was.push(i),
                None => was,
            },
        }
    }
}

proof fn lemma_shown_add(a: Seq<SideRow>, b: Seq<SideRow>, left: bool)
    ensures
        shown_side(a + b, left) == shown_side(a, left) + shown_side(b, left),
    decreases b.len(),
{
    if b.len() == 0 {
        assert(a + b =~= a);
        assert(shown_side(a, left) + shown_side(b, left) =~= shown_side(a, left));
    } else {
        assert((a + b).drop_last() =~= a + b.drop_last());
        assert((a + b).last() == b.last());
        lemma_shown_add(a, b.drop_last(), left);
        assert(shown_side(a + b, left) =~= shown_side(a, left) + shown_side(b, left));
    }
}

/// The lines `from..to`, one behind the other.
spec fn run_of(from: int, to: int) -> Seq<usize> {
    Seq::new((if to >= from { to - from } else { 0 }) as nat, |k: int| (from + k) as usize)
}

proof fn lemma_shown_pairs(h: int, from: int, dels: int, adds: int, k: int)
    requires
        0 <= dels,
        0 <= adds,
        0 <= k <= paired_rows(h, from, dels, adds).len(),
    ensures
        shown_side(paired_rows(h, from, dels, adds).take(k), true) == run_of(
            from,
            from + if k < dels {
                k
            } else {
                dels
            },
        ),
        shown_side(paired_rows(h, from, dels, adds).take(k), false) == run_of(
            from + dels,
            from + dels + if k < adds {
                k
            } else {
                adds
            },
        ),
    decreases k,
{
    let rows = paired_rows(h, from, dels, adds);
    if k == 0 {
        assert(rows.take(0) =~= Seq::<SideRow>::empty());
        assert(run_of(from, from) =~= Seq::<usize>::empty());
        assert(run_of(from + dels, from + dels) =~= Seq::<usize>::empty());
    } else {
        lemma_shown_pairs(h, from, dels, adds, k - 1);
        assert(rows.take(k).drop_last() =~= rows.take(k - 1));
        assert(rows.take(k).last() == paired_row(h, from, dels, adds, k - 1));
        if k <= dels {
            assert(run_of(from, from + k) =~= run_of(from, from + k - 1).push(
                (from + k - 1) as usize,
            ));
        }
        if k <= adds {
            assert(run_of(from + dels, from + dels + k) =~= run_of(
                from + dels,
                from + dels + k - 1,
            ).push((from + dels + k - 1) as usize));
        }
    }
}

proof fn lemma_run(lines: Seq<DiffLine>, kind: LineKind, i: int)
    requires
        0 <= i <= lines.len(),
    ensures
        0 <= run_length(lines, kind, i),
        i + run_length(lines, kind, i) <= lines.len(),
        forall|j: int| i <= j < i + run_length(lines, kind, i) ==> (#[trigger] lines[j]).kind
            == kind,
    decreases lines.len() - i,
{
    if i < lines.len() && lines[i].kind == kind {
        lemma_run(lines, kind, i + 1);
    }
}

/// A run of one kind is on its side, or on the other one not at all.
proof fn lemma_side_run(lines: Seq<DiffLine>, i: int, j: int, left: bool)
    requires
        0 <= i <= j <= lines.len(),
        (forall|k: int|
            i <= k < j ==> (#[trigger] lines[k]).kind == if left {
                LineKind::Add
            } else {
                LineKind::Del
            }) || (forall|k: int|
            i <= k < j ==> (#[trigger] lines[k]).kind != if left {
                LineKind::Add
            } else {
                LineKind::Del
            }),
    ensures
        side_lines(lines, j, left) == side_lines(lines, i, left) + (if i < j && lines[i].kind
            == if left {
            LineKind::Add
        } else {
            LineKind::Del
        } {
            Seq::empty()
        } else {
            run_of(i, j)
        }),
    decreases j - i,
{
    let other = if left {
        LineKind::Add
    } else {
        LineKind::Del
    };
    if i == j {
        assert(side_lines(lines, i, left) + run_of(i, i) =~= side_lines(lines, i, left));
    } else {
        lemma_side_run(lines, i, j - 1, left);
        assert(lines[i].kind == other <==> lines[j - 1].kind == other);
        if lines[i].kind != other {
            assert(run_of(i, j) =~= run_of(i, j - 1).push((j - 1) as usize));
            assert(side_lines(lines, j, left) =~= side_lines(lines, i, left) + run_of(i, j));
        } else if i == j - 1 {
            assert(side_lines(lines, i, left) + Seq::<usize>::empty() =~= side_lines(
                lines,
                i,
                left,
            ) + run_of(i, i));
        }
    }
}

proof fn lemma_pairs_in_order(h: int, lines: Seq<DiffLine>, i: int, left: bool)
    requires
        0 <= i <= lines.len(),
    ensures
        side_lines(lines, i, left) + shown_side(pair_rows(h, lines, i), left) == side_lines(
            lines,
            lines.len() as int,
            left,
        ),
    decreases lines.len() - i,
{
    let rows = pair_rows(h, lines, i);
    let all = side_lines(lines, lines.len() as int, left);
    let had = side_lines(lines, i, left);
    if i == lines.len() {
        assert(had + shown_side(rows, left) =~= had);
    } else if lines[i].kind == LineKind::Context || lines[i].kind == LineKind::NoNewline {
        lemma_pairs_in_order(h, lines, i + 1, left);
        let row = SideRow::Pair {
            left: Some((h as usize, i as usize)),
            right: Some((h as usize, i as usize)),
        };
        let tail = pair_rows(h, lines, i + 1);
        lemma_shown_add(seq![row], tail, left);
        assert(seq![row].drop_last() =~= Seq::<SideRow>::empty());
        assert(shown_side(Seq::<SideRow>::empty(), left) =~= Seq::<usize>::empty());
        assert(shown_side(seq![row], left) =~= seq![i as usize]);
        assert(had + shown_side(rows, left) =~= had.push(i as usize) + shown_side(tail, left));
    } else {
        lemma_run(lines, LineKind::Del, i);
        let dels = run_length(lines, LineKind::Del, i);
        lemma_run(lines, LineKind::Add, i + dels);
        let adds = run_length(lines, LineKind::Add, i + dels);
        assert(dels + adds > 0) by {
            if lines[i].kind == LineKind::Del {
                lemma_run(lines, LineKind::Del, i + 1);
            } else {
                lemma_run(lines, LineKind::Add, i + 1);
            }
        }
        let mid = i + dels;
        let end = mid + adds;
        lemma_pairs_in_order(h, lines, end, left);
        let head = paired_rows(h, i, dels, adds);
        let tail = pair_rows(h, lines, end);
        assert(rows == head + tail);
        lemma_shown_add(head, tail, left);
        lemma_shown_pairs(h, i, dels, adds, head.len() as int);
        assert(head.take(head.len() as int) =~= head);
        lemma_side_run(lines, i, mid, left);
        lemma_side_run(lines, mid, end, left);
        let none = Seq::<usize>::empty();
        if left {
            assert(shown_side(head, true) == run_of(i, mid));
            assert(side_lines(lines, end, left) =~= had + run_of(i, mid)) by {
                assert(run_of(mid, mid) =~= none);
            }
        } else {
            assert(shown_side(head, false) == run_of(mid, end));
            assert(side_lines(lines, end, left) =~= had + run_of(mid, end)) by {
                assert(run_of(i, i) =~= none);
            }
        }
        assert(had + (shown_side(head, left) + shown_side(tail, left)) =~= (had + shown_side(
            head,
            left,
        )) + shown_side(tail, left));
    }
}

/// Read from the top down, the left side of a chunk is its old lines and the right side
/// its new ones, in order and without gaps.
pub proof fn law_sides_in_order(h: int, lines: Seq<DiffLine>)
    ensures
        shown_side(pair_rows(h, lines, 0), true) == side_lines(lines, lines.len() as int, true),
        shown_side(pair_rows(h, lines, 0), false) == side_lines(lines, lines.len() as int, false),
{
    lemma_pairs_in_order(h, lines, 0, true);
    lemma_pairs_in_order(h, lines, 0, false);
    let none = Seq::<usize>::empty();
    assert(side_lines(lines, 0, true) =~= none);
    assert(side_lines(lines, 0, false) =~= none);
    assert(none + shown_side(pair_rows(h, lines, 0), true) =~= shown_side(
        pair_rows(h, lines, 0),
        true,
    ));
    assert(none + shown_side(pair_rows(h, lines, 0), false) =~= shown_side(
        pair_rows(h, lines, 0),
        false,
    ));
}

/// A deletion stands beside the addition that replaces it: in the rows of `dels` deleted
/// lines from `from` on and the `adds` added lines behind them, the k-th of both share a
/// row, and a cell is empty only where its side has no k-th line.
pub proof fn law_replacements_share_rows(h: int, from: int, dels: int, adds: int, k: int)
    requires
        0 <= dels,
        0 <= adds,
        0 <= k,
        k < dels || k < adds,
    ensures
        k < paired_rows(h, from, dels, adds).len(),
        k < dels && k < adds ==> paired_rows(h, from, dels, adds)[k] == (SideRow::Pair {
            left: Some((h as usize, (from + k) as usize)),
            right: Some((h as usize, (from + dels + k) as usize)),
        }),
        dels <= k ==> paired_rows(h, from, dels, adds)[k] == (SideRow::Pair {
            left: None,
            right: Some((h as usize, (from + dels + k) as usize)),
        }),
        adds <= k ==> paired_rows(h, from, dels, adds)[k] == (SideRow::Pair {
            left: Some((h as usize, (from + k) as usize)),
            right: None,
        }),
{
}

// ── a diff comes into view ─────────────────────────────────────────────────

/// A diff that comes into view is shown from its top. Its counts become those of the
/// file, and each of its chunks is folded exactly where it is reviewed and reviewed
/// chunks are folded. What is reviewed, hidden and listed stays.
pub proof fn law_diff_comes_into_view(s: AppState, fi: int, d: DiffModel, h: int)
    requires
        0 <= fi < s.files.len() <= usize::MAX,
        0 <= h < d.chunks.len(),
        d.path == s.files[fi].path,
    ensures
        ({
            let r = s.adopted(fi, d);
            &&& r.diff == Some(d)
            &&& r.diff_file == Some(fi as usize)
            &&& r.scroll == 0
            &&& r.current_chunk == 0
            &&& r.error is None
            &&& r.chunk_hashes.len() == d.chunks.len()
            &&& r.chunk_hashes[h] == seahash_of(chunk_bytes(d.text, d.chunks[h]))
            &&& r.chunk_collapsed.len() == d.chunks.len()
            &&& r.chunk_collapsed[h] <==> r.is_chunk_reviewed(h) && s.config.reviewed_chunks
                == ReviewedDisplay::Collapse
            &&& r.files.len() == s.files.len()
            &&& forall|j: int|
                0 <= j < s.files.len() && j != fi ==> #[trigger] r.files[j] == s.files[j]
            &&& r.files[fi].path == s.files[fi].path
            &&& r.files[fi].kind == s.files[fi].kind
            &&& r.files[fi].additions == low_bits(count_in_chunks(d.chunks, LineKind::Add))
            &&& r.files[fi].deletions == low_bits(count_in_chunks(d.chunks, LineKind::Del))
            &&& s.record(d.path) is Some ==> r.hashes_of(d.path) == Some(hashes_model(d))
            &&& same_sidebar(r, s)
        }),
{
    reveal(AppState::adopted);
    reveal(AppState::with_rows);
    reveal(AppState::highlighted);
    let r = s.adopted(fi, d);
    assert(hashes_model(d).chunks[h] == seahash_of(chunk_bytes(d.text, d.chunks[h])));
    assert(r.record(d.path) == s.record(s.files[fi].path));
}

/// git's answer for a file comes into view as it was parsed; where git failed, there is
/// no diff, and the error says why.
pub proof fn law_load_shows_answer(
    s: AppState,
    fi: int,
    bytes: Seq<u8>,
    why: Seq<char>,
    sig: Option<crate::cache::Signature>,
)
    requires
        0 <= fi < s.files.len() <= usize::MAX,
    ensures
        s.load_finished(fi, sig, Ok(bytes), None).diff == Some(
            parse_model(crate::text::utf8_lossy(bytes), s.files[fi].path),
        ),
        s.load_finished(fi, sig, Err(why), None).diff is None,
        s.load_finished(fi, sig, Err(why), None).error == Some("diff failed: "@ + why),
        s.load_finished(fi, sig, Err(why), None).chunk_hashes.len() == 0,
        same_sidebar(s.load_finished(fi, sig, Err(why), None), s),
{
    reveal(AppState::load_finished);
    reveal(AppState::caching);
    reveal(AppState::adopted);
    reveal(AppState::with_rows);
    reveal(AppState::highlighted);
    reveal(AppState::restored);
    reveal(AppState::cleared);
}

// ── the editor and the clipboard ───────────────────────────────────────────

/// The number of a line in the new file (`new`) or the old one.
pub open spec fn side_no(l: DiffLine, new: bool) -> Option<u32> {
    if new {
        l.new_no
    } else {
        l.old_no
    }
}

/// Line `i` is the first that has a number on a side.
pub open spec fn first_with_no(lines: Seq<DiffLine>, new: bool, i: int) -> bool {
    &&& 0 <= i < lines.len()
    &&& side_no(lines[i], new) is Some
    &&& forall|j: int| 0 <= j < i ==> side_no(#[trigger] lines[j], new) is None
}

/// `n` is the first number of a chunk: that of its first line in the new file, else of
/// its first line in the old one.
pub open spec fn is_first_no(lines: Seq<DiffLine>, n: Option<u32>) -> bool {
    if exists|i: int| #[trigger] first_with_no(lines, true, i) {
        exists|i: int| #[trigger] first_with_no(lines, true, i) && n == lines[i].new_no
    } else if exists|i: int| #[trigger] first_with_no(lines, false, i) {
        exists|i: int| #[trigger] first_with_no(lines, false, i) && n == lines[i].old_no
    } else {
        n is None
    }
}

proof fn lemma_first_no(lines: Seq<DiffLine>, new: bool, i: int)
    requires
        0 <= i <= lines.len(),
        forall|j: int| 0 <= j < i ==> side_no(#[trigger] lines[j], new) is None,
    ensures
        ({
            let found = if new {
                first_new_no(lines, i)
            } else {
                first_old_no(lines, i)
            };
            if found is Some {
                exists|k: int| #[trigger]
                    first_with_no(lines, new, k) && side_no(lines[k], new) == found
            } else {
                forall|k: int| !#[trigger] first_with_no(lines, new, k)
            }
        }),
    decreases lines.len() - i,
{
    if i < lines.len() {
        if side_no(lines[i], new) is None {
            lemma_first_no(lines, new, i + 1);
        } else {
            assert(first_with_no(lines, new, i));
        }
    }
}

/// The first number of a chunk.
pub proof fn law_first_number(chunk: HunkModel)
    ensures
        is_first_no(chunk.lines, first_no(chunk)),
{
    lemma_first_no(chunk.lines, true, 0);
    lemma_first_no(chunk.lines, false, 0);
}

/// The line number of a line: in the new file, else in the old one.
pub open spec fn number_of_line(l: DiffLine) -> Option<u32> {
    if l.new_no is Some {
        l.new_no
    } else {
        l.old_no
    }
}

/// `n` is the number of the row at the top of the unified diff.
pub open spec fn top_number(s: AppState, n: Option<u32>) -> bool {
    if s.diff is None || s.scroll >= s.diff_rows.len() {
        n is None
    } else {
        match s.diff_rows[s.scroll as int] {
            RowRef::Header(h) => is_first_no(s.diff->0.chunks[h as int].lines, n),
            RowRef::Line(h, l) => n == number_of_line(
                s.diff->0.chunks[h as int].lines[l as int],
            ),
        }
    }
}

/// The editor is asked for on the selected file, at the line at the top of the diff, and
/// at the first line where the row there has no number. A deleted file is not opened.
pub proof fn law_editor_key(s: AppState, fi: usize, now: Clock)
    requires
        s.live,
        s.view == ViewMode::Unified,
        s.current_file() == Some(fi),
    ensures
        ({
            let r = s.dispatched(Action::OpenEditor, now);
            let file = s.files[fi as int];
            if file.kind == KindModel::Deleted {
                r.pending_editor == s.pending_editor && r.error is Some
            } else {
                exists|n: Option<u32>|
                    #[trigger] top_number(s, n) && r.pending_editor == Some(
                        (
                            file.path,
                            match n {
                                Some(n) => n,
                                None => 1,
                            },
                        ),
                    )
            }
        }),
{
    assert(s.dispatched(Action::OpenEditor, now) == s.opening_editor()) by {
        reveal(AppState::dispatched);
    }
    reveal(AppState::opening_editor);
    let n = s.top_line();
    if s.diff is Some && s.scroll < s.diff_rows.len() {
        match s.diff_rows[s.scroll as int] {
            RowRef::Header(h) => {
                law_first_number(s.diff->0.chunks[h as int]);
            },
            RowRef::Line(h, l) => {},
        }
    }
    assert(top_number(s, n));
}

/// Copying asks for the reference of the current chunk of the diff in view to be put on
/// the clipboard: its path, and the range of the chunk. Without a chunk it says so.
pub proof fn law_copy_key(s: AppState, now: Clock)
    ensures
        ({
            let r = s.dispatched(Action::CopyReference, now);
            if s.diff is Some && s.current_chunk < s.diff->0.chunks.len() {
                r == (AppState {
                    outbox: s.outbox.push(
                        EffectModel::Copy(
                            crate::reference::reference_text(
                                s.diff->0.path,
                                crate::reference::chunk_span(
                                    s.diff->0.chunks[s.current_chunk as int],
                                ),
                            ),
                        ),
                    ),
                    dirty: true,
                    ..s
                })
            } else {
                s.diff is None || s.diff->0.chunks.len() == 0 ==> r.outbox == s.outbox
                    && r.error is Some
            }
        }),
{
    assert(s.dispatched(Action::CopyReference, now) == s.copying()) by {
        reveal(AppState::dispatched);
    }
    reveal(AppState::copying);
    reveal(AppState::asking);
}

// ── the list of files ──────────────────────────────────────────────────────

/// The path of leaf `n` holds the filter, whatever the case of both.
pub open spec fn path_holds_filter(s: AppState, n: int) -> bool {
    let path = unicode_lower(s.files[s.tree.nodes[n].file->0 as int].path);
    let filter = unicode_lower(s.filter);
    exists|i: int| #[trigger] occurs_at(path, filter, i)
}

proof fn lemma_filtered(s: AppState, n: int)
    requires
        0 <= n <= s.tree.nodes.len() <= usize::MAX,
    ensures
        ({
            let rows = s.filtered(n);
            &&& forall|k: int|
                #![trigger s.tree.nodes[k]]
                0 <= k < n ==> (rows.contains(k as usize) <==> s.tree.nodes[k].file is Some
                    && s.is_hidden(s.tree.nodes[k].file->0 as int) == s.hidden_view
                    && path_holds_filter(s, k))
            &&& forall|i: int| 0 <= i < rows.len() ==> #[trigger] rows[i] < n
            &&& forall|i: int, j: int|
                0 <= i < j < rows.len() ==> #[trigger] rows[i] < #[trigger] rows[j]
        }),
    decreases n,
{
    if n > 0 {
        lemma_filtered(s, n - 1);
        let was = s.filtered(n - 1);
        let rows = s.filtered(n);
        let path = unicode_lower(s.files[s.tree.nodes[n - 1].file->0 as int].path);
        law_first_occurrence(path, unicode_lower(s.filter), 0);
        assert(s.matches_filter(n - 1) <==> path_holds_filter(s, n - 1)) by {
            if path_holds_filter(s, n - 1) {
                let i = choose|i: int| #[trigger] occurs_at(path, unicode_lower(s.filter), i);
                assert(0 <= i);
            }
        }
        assert forall|i: int| 0 <= i < rows.len() implies #[trigger] rows[i] < n by {
            if i < was.len() {
                assert(rows[i] == was[i]);
            }
        }
        assert forall|i: int, j: int| 0 <= i < j < rows.len() implies #[trigger] rows[i]
            < #[trigger] rows[j] by {
            assert(rows[i] == was[i]);
            if j < was.len() {
                assert(rows[j] == was[j]);
            }
        }
        assert forall|k: int|
            #![trigger s.tree.nodes[k]]
            0 <= k < n implies (rows.contains(k as usize) <==> s.tree.nodes[k].file is Some
            && s.is_hidden(s.tree.nodes[k].file->0 as int) == s.hidden_view && path_holds_filter(
            s,
            k,
        )) by {
            if was.contains(k as usize) {
                let i = choose|i: int| 0 <= i < was.len() && was[i] == k as usize;
                assert(rows[i] == k as usize);
            }
            if rows.contains(k as usize) {
                let i = choose|i: int| 0 <= i < rows.len() && rows[i] == k as usize;
                if i < was.len() {
                    assert(was[i] == k as usize);
                }
            }
            if k == n - 1 && s.keeps(n - 1) && s.matches_filter(n - 1) {
                assert(rows[was.len() as int] == k as usize);
            }
        }
    }
}

/// With a filter, the sidebar lists exactly the files of the list in view whose path
/// holds the filter, whatever the case; each once, in the order of the tree.
pub proof fn law_filter_lists_matches(s: AppState, k: int)
    requires
        s.filter.len() > 0,
        0 <= k < s.tree.nodes.len() <= usize::MAX,
    ensures
        ({
            let rows = s.recomputed().tree.visible;
            &&& rows.contains(k as usize) <==> s.tree.nodes[k].file is Some && s.is_hidden(
                s.tree.nodes[k].file->0 as int,
            ) == s.hidden_view && path_holds_filter(s, k)
            &&& forall|i: int, j: int|
                0 <= i < j < rows.len() ==> #[trigger] rows[i] < #[trigger] rows[j]
        }),
{
    reveal(AppState::recomputed);
    lemma_filtered(s, s.tree.nodes.len() as int);
    assert(s.tree.nodes[k] == s.tree.nodes[k]);
}

/// Working out the sidebar anew keeps the cursor where it is, or puts it on the last row
/// where the list has become shorter; nothing but the list and the cursor changes.
pub proof fn law_cursor_stays_in_list(s: AppState)
    requires
        s.sidebar_rows().len() <= usize::MAX,
    ensures
        ({
            let r = s.recomputed();
            let rows = r.tree.visible;
            &&& s.tree_cursor < rows.len() ==> r.tree_cursor == s.tree_cursor
            &&& s.tree_cursor >= rows.len() && rows.len() > 0 ==> r.tree_cursor + 1 == rows.len()
            &&& rows.len() == 0 ==> r.tree_cursor == 0
            &&& r == (AppState {
                tree: crate::model::tree::TreeModel { visible: rows, ..s.tree },
                tree_cursor: r.tree_cursor,
                ..s
            })
        }),
{
    reveal(AppState::recomputed);
}

/// The number of hidden files counts each of them once.
pub proof fn law_hidden_count(s: AppState, n: int)
    requires
        0 <= n,
    ensures
        s.count_hidden(n) == Seq::new(n as nat, |i: int| i).filter(|i: int| s.is_hidden(i)).len(),
    decreases n,
{
    reveal(Seq::filter);
    if n > 0 {
        law_hidden_count(s, n - 1);
        assert(Seq::new(n as nat, |i: int| i).drop_last() =~= Seq::new(
            (n - 1) as nat,
            |i: int| i,
        ));
    }
}

/// Row `i` of the sidebar is the file at `path`.
pub open spec fn is_row_of(s: AppState, i: int, path: Seq<char>) -> bool {
    is_file_row(s, i) && s.files[s.tree.nodes[s.tree.visible[i] as int].file->0 as int].path == path
}

proof fn lemma_leaf_of_path(s: AppState, path: Seq<char>, i: int)
    requires
        0 <= i,
        s.tree.visible.len() <= usize::MAX,
    ensures
        match leaf_of_path(s.tree.nodes, s.tree.visible, s.files, path, i) {
            Some(k) => i <= k && is_row_of(s, k as int, path),
            None => forall|j: int| i <= j ==> !#[trigger] is_row_of(s, j, path),
        },
    decreases s.tree.visible.len() - i,
{
    if i < s.tree.visible.len() && !is_row_of(s, i, path) {
        lemma_leaf_of_path(s, path, i + 1);
    }
}

proof fn lemma_first_leaf(s: AppState, i: int)
    requires
        0 <= i,
        s.tree.visible.len() <= usize::MAX,
    ensures
        match next_leaf(s.tree.nodes, s.tree.visible, i) {
            Some(k) => i <= k && is_file_row(s, k as int) && forall|j: int|
                i <= j < k ==> !#[trigger] is_file_row(s, j),
            None => forall|j: int| i <= j ==> !#[trigger] is_file_row(s, j),
        },
    decreases s.tree.visible.len() - i,
{
    if i < s.tree.visible.len() && !is_file_row(s, i) {
        lemma_first_leaf(s, i + 1);
    }
}

/// With a new list of files the cursor stays on the file that it was on, wherever that
/// is listed now; where it is not listed any more, it goes to the first file.
pub proof fn law_cursor_stays_on_file(s: AppState, files: Seq<FileModel>, path: Seq<char>)
    requires
        s.with_files(files, Some(path)).tree.visible.len() <= usize::MAX,
    ensures
        ({
            let r = s.with_files(files, Some(path));
            let at = r.tree_cursor as int;
            &&& r.files == files
            &&& (exists|i: int| is_row_of(r, i, path)) ==> is_row_of(r, at, path)
            &&& !(exists|i: int| is_row_of(r, i, path)) && (exists|i: int| is_file_row(r, i))
                ==> is_file_row(r, at) && forall|j: int|
                0 <= j < at ==> !#[trigger] is_file_row(r, j)
            &&& r.review == s.review
            &&& r.hidden == s.hidden
            &&& r.filter == s.filter
            &&& r.hidden_view == s.hidden_view
        }),
{
    reveal(AppState::with_files);
    let r = s.with_files(files, Some(path));
    assert(r.files == files) by {
        reveal(AppState::recomputed);
    }
    assert(r.review == s.review && r.hidden == s.hidden && r.filter == s.filter && r.hidden_view
        == s.hidden_view) by {
        reveal(AppState::recomputed);
    }
    lemma_leaf_of_path(r, path, 0);
    lemma_first_leaf(r, 0);
    if exists|i: int| is_row_of(r, i, path) {
        let i = choose|i: int| is_row_of(r, i, path);
        assert(is_row_of(r, i, path));
    }
    if exists|i: int| is_file_row(r, i) {
        let i = choose|i: int| is_file_row(r, i);
        assert(is_file_row(r, i));
    }
}

// ── typing ─────────────────────────────────────────────────────────────────

/// The keys of the filter: a character goes to its end, backspace takes its last one
/// away, escape empties it and ends the mode, enter keeps it and ends the mode.
pub proof fn law_filter_keys(s: AppState, key: KeyEvent, now: Clock)
    requires
        s.mode == Mode::Filter,
        !key.release,
    ensures
        ({
            let r = s.after_key(key, now);
            match key.code {
                KeyCode::Char(c) => r.filter == s.filter.push(c) && r.mode == Mode::Filter,
                KeyCode::Backspace => (s.filter.len() > 0 ==> r.filter == s.filter.drop_last())
                    && (s.filter.len() == 0 ==> r.filter == s.filter) && r.mode == Mode::Filter,
                KeyCode::Esc => r.filter.len() == 0 && r.mode == Mode::Normal,
                KeyCode::Enter => r.filter == s.filter && r.mode == Mode::Normal && r.tree
                    == s.tree,
                _ => r == (AppState { dirty: true, ..s }),
            }
        }),
        s.after_key(key, now).review == s.review,
        s.after_key(key, now).hidden == s.hidden,
        s.after_key(key, now).should_quit == s.should_quit,
{
    reveal(AppState::after_key);
    reveal(AppState::filter_key);
    reveal(AppState::filter_pressed);
    lemma_with_filter(s, Seq::empty());
    lemma_with_filter(s, crate::app::state::without_last(s.filter));
    match key.code {
        KeyCode::Char(c) => {
            lemma_with_filter(s, s.filter.push(c));
        },
        _ => {},
    }
}

proof fn lemma_with_filter(s: AppState, filter: Seq<char>)
    ensures
        ({
            let r = s.with_filter(filter);
            &&& r.filter == filter
            &&& r.mode == s.mode
            &&& r.review == s.review
            &&& r.hidden == s.hidden
            &&& r.should_quit == s.should_quit
            &&& r.tree_cursor == 0
            &&& r.tree == (AppState { filter, ..s }).recomputed().tree
        }),
{
    reveal(AppState::with_filter);
    reveal(AppState::recomputed);
    reveal(AppState::loading);
    reveal(AppState::asking);
    reveal(AppState::restored);
    reveal(AppState::cleared);
    reveal(AppState::adopted);
    reveal(AppState::with_rows);
    reveal(AppState::highlighted);
}

/// Releasing a key does nothing.
pub proof fn law_release_does_nothing(s: AppState, key: KeyEvent, now: Clock)
    requires
        key.release,
    ensures
        s.after_key(key, now) == s,
{
    reveal(AppState::after_key);
}

// ── the theme picker ───────────────────────────────────────────────────────

/// In the picker the arrows move by one theme, held at both ends, and the theme that
/// they come to is shown at once.
pub proof fn law_picker_moves(s: AppState, delta: int)
    requires
        s.theme_picker is Some,
        s.theme_picker->0.cursor < s.theme_picker->0.matches.len() <= usize::MAX,
    ensures
        ({
            let p = s.theme_picker->0;
            let r = s.picker_moved(delta);
            let q = r.theme_picker->0;
            let want = p.cursor + delta;
            &&& r.theme_picker is Some
            &&& q.matches == p.matches
            &&& q.query == p.query
            &&& want < 0 ==> q.cursor == 0
            &&& want >= p.matches.len() ==> q.cursor + 1 == p.matches.len()
            &&& 0 <= want < p.matches.len() ==> q.cursor == want
            &&& r.active_theme == p.matches[q.cursor as int]
        }),
{
    reveal(AppState::picker_moved);
    reveal(AppState::previewed);
    reveal(AppState::highlighted);
}

/// Choosing a theme closes the picker, keeps the theme, in the configuration too, and asks
/// for it to be saved.
pub proof fn law_accept_keeps_theme(s: AppState)
    requires
        s.theme_picker is Some,
        s.theme_picker->0.cursor < s.theme_picker->0.matches.len(),
    ensures
        ({
            let name = s.theme_picker->0.matches[s.theme_picker->0.cursor as int];
            let r = s.picker_closed(false);
            &&& r.theme_picker is None
            &&& r.mode == Mode::Normal
            &&& r.active_theme == name
            &&& r.config.theme.theme == name
            &&& r.outbox.len() > 0 && r.outbox.last() == EffectModel::SaveTheme(name)
        }),
{
    reveal(AppState::picker_closed);
    reveal(AppState::picker_accepted);
    reveal(AppState::without_picker);
    reveal(AppState::with_config_theme);
    reveal(AppState::with_theme);
    reveal(AppState::highlighted);
    reveal(AppState::asking);
    reveal(AppState::back_to_normal);
}

// ── hiding ─────────────────────────────────────────────────────────────────

/// The key for the hidden files switches between the two lists, each of which holds
/// exactly the files that the other does not.
pub proof fn law_hidden_view_key(s: AppState, now: Clock)
    requires
        s.live,
    ensures
        ({
            let r = s.dispatched(Action::ToggleHiddenView, now);
            &&& r.hidden_view != s.hidden_view
            &&& r.hidden == s.hidden
            &&& r.review == s.review
            &&& r.tree.nodes == s.tree.nodes
            &&& r.files.len() == s.files.len()
        }),
{
    assert(s.dispatched(Action::ToggleHiddenView, now) == s.hidden_view_toggled()) by {
        reveal(AppState::dispatched);
    }
    reveal(AppState::hidden_view_toggled);
    reveal(AppState::recomputed);
    reveal(AppState::on_first_leaf);
    reveal(AppState::loading);
    reveal(AppState::asking);
    reveal(AppState::restored);
    reveal(AppState::cleared);
    reveal(AppState::adopted);
    reveal(AppState::with_rows);
    reveal(AppState::highlighted);
}

// ── highlights and the configuration ───────────────────────────────────────

/// A highlight that was asked for last, for the diff in view, is shown as soon as it
/// arrives.
pub proof fn law_awaited_highlight_is_shown(
    s: AppState,
    theme: Seq<char>,
    hash: u64,
    highlight: Arc<FileHighlight>,
)
    requires
        s.diff is Some,
    ensures
        ({
            let r = s.highlight_arrived(
                s.diff->0.path,
                theme,
                hash,
                s.highlight_gen,
                highlight,
            );
            &&& r.highlight == Some(highlight)
            &&& r.dirty
            &&& !r.prefetch_inflight.contains(s.diff->0.path)
        }),
{
    reveal(AppState::highlight_arrived);
    reveal(AppState::keeping_highlight);
}

/// A configuration that is read again is in force at once. Without a warning the bar says
/// so and no error is left; with warnings all of them are shown.
pub proof fn law_reload_is_in_force(s: AppState, load: LoadModel)
    ensures
        ({
            let r = s.config_reloaded(load);
            &&& r.config == load.config
            &&& r.review == s.review
            &&& r.hidden == s.hidden
            &&& load.warnings.len() == 0 ==> r.config_error is None && r.status_msg == Some(
                "config reloaded"@,
            )
            &&& load.warnings.len() == 1 ==> r.config_error == Some(load.warnings[0])
            &&& load.warnings.len() > 0 ==> r.config_error is Some && r.status_msg is None
        }),
{
    reveal(AppState::config_reloaded);
    let a = AppState { config: load.config, ..s };
    lemma_reopened(a);
}

proof fn lemma_reopened(s: AppState)
    ensures
        ({
            let r = s.recomputed().snapped().loading(true, None);
            &&& r.config == s.config
            &&& r.review == s.review
            &&& r.hidden == s.hidden
        }),
{
    reveal(AppState::recomputed);
    reveal(AppState::snapped);
    reveal(AppState::loading);
    reveal(AppState::asking);
    reveal(AppState::restored);
    reveal(AppState::cleared);
    reveal(AppState::adopted);
    reveal(AppState::with_rows);
    reveal(AppState::highlighted);
}

// ── the review of a file ───────────────────────────────────────────────────

/// Marking the last chunk that is left makes the file reviewed.
pub proof fn law_last_chunk_completes_file(s: AppState, fi: int, h: int, now: Clock)
    requires
        s.wf(),
        s.diff is Some,
        s.diff->0.path == s.files[fi].path,
        0 <= h < s.chunk_hashes.len(),
        !s.is_chunk_reviewed(h),
        forall|j: int|
            0 <= j < s.chunk_hashes.len() && j != h ==> #[trigger] s.is_chunk_reviewed(j),
    ensures
        s.chunk_toggled_at(h, now).status(fi) == ReviewStatus::Reviewed,
{
    let hash = s.chunk_hashes[h];
    let path = s.diff->0.path;
    let a = s.chunk_marked(hash, true, now);
    let r = s.chunk_toggled_at(h, now);
    assert(a.files == s.files && a.hashes_of(path) == Some(s.current_hashes()) && a.record(path)
        == Some(
        with_chunk(s.record(path), seahash_of(encode_utf8(s.diff->0.text)), hash, now.unix),
    )) by {
        reveal(AppState::chunk_marked);
        reveal(AppState::asking);
        reveal(AppState::refreshed_hashes);
    }
    assert(r.files == a.files && r.hashes == a.hashes && r.review == a.review) by {
        reveal(AppState::chunk_toggled_at);
        reveal(AppState::chunk_folded);
        reveal(AppState::with_rows);
        reveal(AppState::advanced);
        reveal(AppState::at_current_chunk);
    }
    let chunks = s.chunk_hashes;
    assert forall|j: int| 0 <= j < chunks.len() implies chunk_is_reviewed(
        a.record(path),
        #[trigger] chunks[j],
    ) by {
        law_mark_adds_one_chunk(
            s.record(path),
            seahash_of(encode_utf8(s.diff->0.text)),
            hash,
            now.unix,
            chunks[j],
        );
        if j != h {
            assert(s.is_chunk_reviewed(j));
        }
    }
    assert(s.current_hashes().chunks == chunks);
}

// ── folding and hiding ─────────────────────────────────────────────────────

/// Side by side too, every chunk has a header row, and behind it the rows of its lines
/// unless it is folded; the rows of the next chunk follow.
pub proof fn law_side_rows(chunks: Seq<HunkModel>, collapsed: Seq<bool>, h: int, n: int)
    requires
        0 <= h < n <= chunks.len(),
    ensures
        ({
            let rows = side_rows_of(chunks, collapsed, n);
            let at = side_rows_of(chunks, collapsed, h).len() as int;
            let next = side_rows_of(chunks, collapsed, h + 1).len() as int;
            let shut = h < collapsed.len() && collapsed[h];
            &&& side_rows_of(chunks, collapsed, 0).len() == 0
            &&& at < next <= rows.len()
            &&& rows[at] == SideRow::Header(h as usize)
            &&& shut ==> next == at + 1
            &&& !shut ==> rows.subrange(at + 1, next) == pair_rows(h, chunks[h].lines, 0)
        }),
    decreases n,
{
    let rows = side_rows_of(chunks, collapsed, n);
    let was = side_rows_of(chunks, collapsed, n - 1);
    let new = side_chunk_rows(chunks, collapsed, n - 1);
    let at = side_rows_of(chunks, collapsed, h).len() as int;
    let next = side_rows_of(chunks, collapsed, h + 1).len() as int;
    assert(rows == was + new);
    assert(new[0] == SideRow::Header((n - 1) as usize));
    if h < n - 1 {
        law_side_rows(chunks, collapsed, h, n - 1);
        assert(rows[at] == was[at]);
        assert(rows.subrange(at + 1, next) =~= was.subrange(at + 1, next));
    } else {
        assert(rows[at] == new[0]);
        if !folded(collapsed, h) {
            assert(rows.subrange(at + 1, next) =~= pair_rows(h, chunks[h].lines, 0));
        }
    }
}

/// The places of the chunks are the rows of their headers, in both layouts.
pub proof fn law_places_of_chunks(chunks: Seq<HunkModel>, collapsed: Seq<bool>, h: int)
    requires
        0 <= h < chunks.len(),
        unified_rows(chunks, collapsed, chunks.len() as int).len() <= usize::MAX,
        side_rows_of(chunks, collapsed, chunks.len() as int).len() <= usize::MAX,
    ensures
        unified_starts(chunks, collapsed).len() == chunks.len(),
        unified_rows(
            chunks,
            collapsed,
            chunks.len() as int,
        )[unified_starts(chunks, collapsed)[h] as int] == RowRef::Header(h as usize),
        side_starts_of(chunks, collapsed).len() == chunks.len(),
        side_rows_of(
            chunks,
            collapsed,
            chunks.len() as int,
        )[side_starts_of(chunks, collapsed)[h] as int] == SideRow::Header(h as usize),
{
    law_unified_rows(chunks, collapsed, h, chunks.len() as int);
    law_side_rows(chunks, collapsed, h, chunks.len() as int);
}

/// A file is hidden by hand or by a rule of the configuration; either is enough.
pub proof fn law_hidden_by_hand_or_rule(s: AppState, fi: int)
    ensures
        s.hidden.contains(s.files[fi].path) ==> s.is_hidden(fi),
        s.config.hide.hides(s.files[fi].path) ==> s.is_hidden(fi),
        !s.hidden.contains(s.files[fi].path) && !s.config.hide.hides(s.files[fi].path)
            ==> !s.is_hidden(fi),
{
}

/// Hiding a file, and showing it again, is to be saved.
pub proof fn law_hiding_is_saved(s: AppState, now: Clock)
    requires
        s.live,
        s.current_file() is Some,
    ensures
        s.dispatched(Action::ToggleHidden, now).outbox.len() > s.outbox.len(),
        s.dispatched(Action::ToggleHidden, now).outbox[s.outbox.len() as int]
            == EffectModel::SaveHidden,
{
    assert(s.dispatched(Action::ToggleHidden, now) == s.hidden_toggled()) by {
        reveal(AppState::dispatched);
    }
    reveal(AppState::hidden_toggled);
    let fi = s.current_file()->0;
    let path = s.files[fi as int].path;
    let a = AppState {
        hidden: if s.hidden.contains(path) {
            s.hidden.remove(path)
        } else {
            s.hidden.insert(path)
        },
        ..s
    };
    let b = a.asking(EffectModel::SaveHidden);
    assert(b.outbox == s.outbox.push(EffectModel::SaveHidden)) by {
        reveal(AppState::asking);
    }
    let c = b.recomputed().snapped();
    assert(c.outbox == b.outbox) by {
        reveal(AppState::recomputed);
        reveal(AppState::snapped);
    }
    lemma_loading_adds(c);
}

/// `b` is `a` with more behind it.
spec fn goes_on(a: Seq<EffectModel>, b: Seq<EffectModel>) -> bool {
    b == a || exists|e: EffectModel| b == #[trigger] a.push(e)
}

proof fn lemma_adopting_adds(s: AppState, fi: int, d: DiffModel)
    ensures
        goes_on(s.outbox, s.adopted(fi, d).outbox),
{
    reveal(AppState::adopted);
    reveal(AppState::with_rows);
    reveal(AppState::highlighted);
}

proof fn lemma_loading_adds(s: AppState)
    ensures
        s.loading(true, None).outbox.len() >= s.outbox.len(),
        forall|i: int|
            0 <= i < s.outbox.len() ==> #[trigger] s.loading(true, None).outbox[i] == s.outbox[i],
{
    let r = s.loading(true, None);
    reveal(AppState::loading);
    match s.current_file() {
        None => {
            reveal(AppState::restored);
            reveal(AppState::cleared);
            assert(r.outbox == s.outbox);
        },
        Some(fi) => {
            let path = s.files[fi as int].path;
            if s.diff_file == Some(fi) {
                reveal(AppState::restored);
                assert(r.outbox == s.outbox);
            } else if s.live {
                reveal(AppState::asking);
                assert(goes_on(s.outbox, r.outbox));
            } else if s.preloaded.contains_key(path) {
                lemma_adopting_adds(s, fi as int, s.preloaded[path]);
                reveal(AppState::restored);
                assert(r.outbox == s.adopted(fi as int, s.preloaded[path]).outbox);
            } else {
                reveal(AppState::restored);
                reveal(AppState::cleared);
                assert(r.outbox == s.outbox);
            }
        },
    }
    assert(goes_on(s.outbox, r.outbox));
}

} // verus!
