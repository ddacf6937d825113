//! What the panels show.

use vstd::prelude::*;
use vstd::utf8::*;

use crate::app::rows::folded;
use crate::app::state::AppState;
use crate::app::types::{Mode, PickerModel, RowRef, SideRow};
use crate::git::diff_laws::lemma_slices_join;
use crate::model::diff::{DiffLine, LineKind};
use crate::model::file::KindModel;
use crate::model::review::{chunk_is_reviewed, HashesModel, RecordModel, ReviewStatus};
use crate::render::sanitized;
use crate::render::style::Color;
use crate::text::{
    begins, control_char, decimal, lemma_decimal_round_trip, occurs_at, text_range, text_slice,
    words,
};
use crate::text_laws::{law_number_round_trip, law_one_word, law_words_part, solid};
use crate::ui::canvas::{
    colored, columns_of, less, no_style, repeated, span_of, text_columns, SpanModel, Style,
};
use crate::ui::diff_panel::{
    cell_spans, chrome_of, content_bg, content_spans, diff_title_of, dims, expanded, filled_spans,
    fitted, fitting, gutter_of, hidden_lines, hidden_suffix, highlight_spans, lead_span, marker_of,
    number_text, placeholder_of, right_aligned, side_gutter, side_line, side_lines_of, side_marks,
    tints_of, token_spans, token_style, tokens_of, total_columns, unified_line, unified_lines_of,
    Side, Token,
};
use crate::ui::notification::{message_lines, wrapped};
use crate::ui::screen::sidebar_width;
use crate::ui::statusbar::{chunk_label, context_text, count_status, left_text_of};
use crate::ui::theme_picker::{law_cursor_is_visible, list_start, picker_lines};
use crate::ui::tree_panel::{
    count_spans, file_spans, folder_spans, kind_tag, progress_spans, row_indent, status_marker,
    tree_line, tree_lines_of, tree_title_of,
};

verus! {

// ── text in columns ────────────────────────────────────────────────────────

/// `s` holds no tab and no other control character.
pub open spec fn printable(s: Seq<char>) -> bool {
    forall|i: int| 0 <= i < s.len() ==> !control_char(#[trigger] s[i]) && s[i] != '\t'
}

/// The column behind some text, for characters that take no less than no column.
proof fn lemma_total_nonnegative(s: Seq<char>)
    ensures
        total_columns(s) >= 0,
    decreases s.len(),
{
    if s.len() > 0 {
        lemma_total_nonnegative(s.skip(1));
    }
}

/// Printable text that has room is shown as it is.
pub proof fn law_text_is_shown(s: Seq<char>, col: int, most: int)
    requires
        printable(s),
        col + total_columns(s) <= most,
    ensures
        expanded(s, col, most) == (s, col + total_columns(s), false),
    decreases s.len(),
{
    if s.len() > 0 {
        let rest = s.skip(1);
        assert forall|i: int| 0 <= i < rest.len() implies !control_char(#[trigger] rest[i])
            && rest[i] != '\t' by {
            assert(rest[i] == s[i + 1]);
        }
        assert(!control_char(s[0]) && s[0] != '\t');
        lemma_total_nonnegative(rest);
        law_text_is_shown(rest, col + columns_of(s[0]), most);
        assert(seq![s[0]] + rest =~= s);
    } else {
        assert(s =~= Seq::<char>::empty());
    }
}

/// A tab goes to the next of the stops, which are four columns apart: it shows at least
/// one blank and at most four.
pub proof fn law_tab_stops(rest: Seq<char>, col: int, most: int, k: int)
    requires
        0 <= col,
        1 <= k <= 4,
        (col + k) % 4 == 0,
        col + k <= most,
    ensures
        ({
            let (text, end, full) = expanded(seq!['\t'] + rest, col, most);
            let (tail, tail_end, tail_full) = expanded(rest, col + k, most);
            &&& text == repeated(' ', k) + tail
            &&& end == tail_end
            &&& full == tail_full
        }),
{
    let s = seq!['\t'] + rest;
    assert(s.skip(1) =~= rest);
    assert(4 - col % 4 == k) by (nonlinear_arith)
        requires
            0 <= col,
            1 <= k <= 4,
            (col + k) % 4 == 0,
    {}
}

/// Text in two pieces is shown as in one: the second goes on in the column where the
/// first one ended, unless there was no room for the first.
pub proof fn law_pieces_line_up(a: Seq<char>, b: Seq<char>, col: int, most: int)
    ensures
        ({
            let (x, mid, hit) = expanded(a, col, most);
            let (y, end, full) = expanded(b, mid, most);
            expanded(a + b, col, most) == if hit {
                (x, mid, hit)
            } else {
                (x + y, end, full)
            }
        }),
    decreases a.len(),
{
    let s = a + b;
    if a.len() == 0 {
        assert(s =~= b);
        let y = expanded(b, col, most).0;
        assert(Seq::<char>::empty() + y =~= y);
    } else {
        let rest = a.skip(1);
        assert(s.skip(1) =~= rest + b);
        assert(s[0] == a[0]);
        if a[0] == '\t' {
            let spaces = 4 - col % 4;
            if spaces <= most - col {
                law_pieces_line_up(rest, b, col + spaces, most);
                let x = expanded(rest, col + spaces, most);
                let y = expanded(b, x.1, most).0;
                assert(repeated(' ', spaces) + (x.0 + y) =~= (repeated(' ', spaces) + x.0) + y);
            }
        } else if control_char(a[0]) {
            if col < most {
                law_pieces_line_up(rest, b, col + 1, most);
                let x = expanded(rest, col + 1, most);
                let y = expanded(b, x.1, most).0;
                assert(seq!['\u{FFFD}'] + (x.0 + y) =~= (seq!['\u{FFFD}'] + x.0) + y);
            }
        } else {
            let w = columns_of(a[0]);
            if col + w <= most {
                law_pieces_line_up(rest, b, col + w, most);
                let x = expanded(rest, col + w, most);
                let y = expanded(b, x.1, most).0;
                assert(seq![a[0]] + (x.0 + y) =~= (seq![a[0]] + x.0) + y);
            }
        }
    }
}

/// A control character other than a tab is shown as one replacement character.
pub proof fn law_control_is_replaced(c: char, rest: Seq<char>, col: int, most: int)
    requires
        control_char(c),
        c != '\t',
        col < most,
    ensures
        ({
            let (text, end, full) = expanded(seq![c] + rest, col, most);
            let (tail, tail_end, tail_full) = expanded(rest, col + 1, most);
            text == seq!['\u{FFFD}'] + tail && end == tail_end && full == tail_full
        }),
{
    assert((seq![c] + rest).skip(1) =~= rest);
}

proof fn lemma_fitting_all(s: Seq<char>, used: int, width: int)
    requires
        used + total_columns(s) <= width,
    ensures
        fitting(s, used, width) == (s, used + total_columns(s)),
    decreases s.len(),
{
    if s.len() > 0 {
        lemma_total_nonnegative(s.skip(1));
        lemma_fitting_all(s.skip(1), used + columns_of(s[0]), width);
        assert(seq![s[0]] + s.skip(1) =~= s);
    } else {
        assert(s =~= Seq::<char>::empty());
    }
}

proof fn lemma_fitting_cut(a: Seq<char>, c: char, b: Seq<char>, used: int, width: int)
    requires
        used + total_columns(a) <= width,
        used + total_columns(a) + columns_of(c) > width,
    ensures
        fitting(a.push(c) + b, used, width) == (a, used + total_columns(a)),
    decreases a.len(),
{
    let s = a.push(c) + b;
    if a.len() == 0 {
        assert(s[0] == c);
        assert(a =~= Seq::<char>::empty());
    } else {
        assert(s[0] == a[0]);
        assert(s.skip(1) =~= a.skip(1).push(c) + b);
        lemma_total_nonnegative(a.skip(1));
        lemma_fitting_cut(a.skip(1), c, b, used + columns_of(a[0]), width);
        assert(seq![a[0]] + a.skip(1) =~= a);
    }
}

/// Text that has room is shown whole, with blanks behind it; other text is cut in front
/// of the first character that has none.
pub proof fn law_fit(a: Seq<char>, c: char, b: Seq<char>, width: int)
    requires
        total_columns(a) <= width,
    ensures
        fitted(a, width) == a + repeated(' ', width - total_columns(a)),
        total_columns(a) + columns_of(c) > width ==> fitted(a.push(c) + b, width) == a + repeated(
            ' ',
            width - total_columns(a),
        ),
{
    lemma_fitting_all(a, 0, width);
    if total_columns(a) + columns_of(c) > width {
        lemma_fitting_cut(a, c, b, 0, width);
    }
}

// ── the diff ───────────────────────────────────────────────────────────────

/// The panel shows the rows from the scroll position on, as many as it has lines, and
/// each of them as itself; near the end it shows the last ones.
pub proof fn law_panel_shows_rows(s: AppState, width: int, height: int, k: int)
    requires
        height >= 0,
        0 <= k < height,
        width >= 4,
    ensures
        s.scroll + height <= s.diff_rows.len() ==> {
            let lines = unified_lines_of(s, width, height);
            lines.len() == height && lines[k] == unified_line(s, s.diff_rows[s.scroll + k], width)
        },
        s.scroll + height > s.diff_rows.len() >= height ==> {
            let lines = unified_lines_of(s, width, height);
            lines.len() == height && lines[k] == unified_line(
                s,
                s.diff_rows[s.diff_rows.len() - height + k],
                width,
            )
        },
        s.diff_rows.len() < height && k < s.diff_rows.len() ==> {
            let lines = unified_lines_of(s, width, height);
            lines.len() == s.diff_rows.len() && lines[k] == unified_line(s, s.diff_rows[k], width)
        },
        s.scroll + height <= s.side_rows.len() ==> {
            let lines = side_lines_of(s, width, height);
            lines.len() == height && lines[k] == side_line(s, s.side_rows[s.scroll + k], width)
        },
        s.side_rows.len() < height && k < s.side_rows.len() ==> {
            let lines = side_lines_of(s, width, height);
            lines.len() == s.side_rows.len() && lines[k] == side_line(s, s.side_rows[k], width)
        },
{
}

proof fn lemma_blank_words(n: int, rest: Seq<char>)
    ensures
        words(repeated(' ', n) + rest) == words(rest),
    decreases n,
{
    let all = repeated(' ', n) + rest;
    if n <= 0 {
        assert(all =~= rest);
    } else {
        lemma_blank_words(n - 1, rest);
        let e = Seq::<char>::empty();
        let tail = repeated(' ', n - 1) + rest;
        assert(all =~= e.push(' ') + tail);
        law_words_part(e, ' ', tail);
        law_one_word(e);
        assert(Seq::<Seq<char>>::empty() + words(tail) =~= words(tail));
    }
}

/// A number, or nothing, as a list of words.
pub open spec fn number_words(n: Option<u32>) -> Seq<Seq<char>> {
    match n {
        Some(n) => seq![decimal(n as nat)],
        None => Seq::empty(),
    }
}

proof fn lemma_number_words(n: Option<u32>, rest: Seq<char>)
    ensures
        words(right_aligned(number_text(n), 5) + (seq![' '] + rest)) == number_words(n) + words(
            rest,
        ),
{
    let t = number_text(n);
    let pad = repeated(' ', 5 - t.len());
    let tail = t + (seq![' '] + rest);
    assert(right_aligned(t, 5) + (seq![' '] + rest) =~= pad + tail);
    lemma_blank_words(5 - t.len(), tail);
    assert(tail =~= t.push(' ') + rest);
    law_words_part(t, ' ', rest);
    match n {
        Some(v) => {
            law_number_round_trip(v);
            lemma_decimal_round_trip(v as nat);
            law_one_word(t);
        },
        None => {
            assert(t =~= Seq::<char>::empty());
            law_one_word(t);
        },
    }
}

/// The gutter of a line shows its number in the old file, its number in the new file,
/// and the mark of its kind, each where there is one.
pub proof fn law_gutter(line: DiffLine)
    ensures
        words(gutter_of(line)) == number_words(line.old_no) + (number_words(line.new_no) + (
        match line.kind {
            LineKind::Add => seq![seq!['+']],
            LineKind::Del => seq![seq!['-']],
            LineKind::Context => Seq::empty(),
            LineKind::NoNewline => seq![seq!['\\']],
        })),
{
    reveal_strlit(" ");
    let mark = marker_of(line.kind).0;
    let e = Seq::<char>::empty();
    let last = seq![mark, ' '];
    let mid = right_aligned(number_text(line.new_no), 5) + (seq![' '] + last);
    assert(" "@ =~= seq![' ']);
    assert(gutter_of(line) =~= right_aligned(number_text(line.old_no), 5) + (seq![' '] + mid));
    lemma_number_words(line.old_no, mid);
    lemma_number_words(line.new_no, last);
    let m = seq![mark];
    assert(last =~= m.push(' ') + e);
    law_words_part(m, ' ', e);
    law_one_word(e);
    if line.kind == LineKind::Context {
        assert(m =~= e.push(' ') + e);
        law_words_part(e, ' ', e);
        assert(words(last) =~= Seq::<Seq<char>>::empty());
    } else {
        assert(solid(m));
        law_one_word(m);
        assert(words(last) =~= seq![m]);
    }
}

/// Added and removed rows have their own tints, unless they are dimmed; the rows of the
/// current chunk have a wash where they have no tint.
pub proof fn law_row_background(kind: LineKind, current: bool, add: Color, del: Color)
    ensures
        content_bg(LineKind::Add, current, false, Some((add, del))) == Some(add),
        content_bg(LineKind::Del, current, false, Some((add, del))) == Some(del),
        content_bg(kind, current, true, Some((add, del))) == content_bg(
            kind,
            current,
            true,
            None,
        ),
        content_bg(kind, true, true, None) is Some,
        content_bg(kind, false, true, None) is None,
        content_bg(kind, true, false, None) is Some,
        content_bg(kind, false, false, None) is None,
{
}

// ── the list of files ──────────────────────────────────────────────────────

/// A chunk of a file is reviewed.
pub open spec fn some_reviewed(record: Option<RecordModel>, chunks: Seq<u64>) -> bool {
    exists|i: int| 0 <= i < chunks.len() && chunk_is_reviewed(record, #[trigger] chunks[i])
}

/// A chunk of a file is not reviewed.
pub open spec fn some_unreviewed(record: Option<RecordModel>, chunks: Seq<u64>) -> bool {
    exists|i: int| 0 <= i < chunks.len() && !chunk_is_reviewed(record, #[trigger] chunks[i])
}

proof fn lemma_some_counted(record: Option<RecordModel>, chunks: Seq<u64>)
    ensures
        crate::model::review::count_reviewed(record, chunks) > 0 <==> some_reviewed(
            record,
            chunks,
        ),
    decreases chunks.len(),
{
    if chunks.len() > 0 {
        let was = chunks.drop_last();
        lemma_some_counted(record, was);
        if some_reviewed(record, was) {
            let i = choose|i: int|
                0 <= i < was.len() && chunk_is_reviewed(record, #[trigger] was[i]);
            assert(chunk_is_reviewed(record, chunks[i]));
        }
        if some_reviewed(record, chunks) {
            let i = choose|i: int|
                0 <= i < chunks.len() && chunk_is_reviewed(record, #[trigger] chunks[i]);
            if i < was.len() {
                assert(chunk_is_reviewed(record, was[i]));
            }
        }
        if chunk_is_reviewed(record, chunks.last()) {
            assert(chunk_is_reviewed(record, chunks[chunks.len() - 1]));
        }
    }
}

/// The mark of a file says how far its review is: all of its chunks, some of them, or
/// none.
pub proof fn law_review_mark(s: AppState, fi: int, hashes: HashesModel)
    requires
        s.hashes_of(s.files[fi].path) == Some(hashes),
        hashes.chunks.len() > 0,
    ensures
        ({
            let record = s.record(s.files[fi].path);
            let some = some_reviewed(record, hashes.chunks);
            let left = some_unreviewed(record, hashes.chunks);
            &&& some && !left ==> status_marker(s, fi) == (s.glyphs.reviewed@, Color::Green)
            &&& some && left ==> status_marker(s, fi) == (s.glyphs.partial@, Color::Yellow)
            &&& !some ==> status_marker(s, fi) == (s.glyphs.unreviewed@, Color::DarkGray)
            &&& some || left
        }),
{
    let record = s.record(s.files[fi].path);
    lemma_some_counted(record, hashes.chunks);
    assert(chunk_is_reviewed(record, hashes.chunks[0]) || !chunk_is_reviewed(
        record,
        hashes.chunks[0],
    ));
    if !some_unreviewed(record, hashes.chunks) {
        assert forall|i: int| 0 <= i < hashes.chunks.len() implies chunk_is_reviewed(
            record,
            #[trigger] hashes.chunks[i],
        ) by {}
    } else {
        let i = choose|i: int|
            0 <= i < hashes.chunks.len() && !chunk_is_reviewed(record, #[trigger] hashes.chunks[i]);
        assert(!chunk_is_reviewed(record, hashes.chunks[i]));
    }
}

/// The progress of a file is shown exactly while its review is under way, as the chunks
/// that are done out of all of them.
pub proof fn law_progress(done: u32, all: u32)
    ensures
        ({
            let spans = progress_spans((done as nat, all as nat));
            &&& spans.len() > 0 <==> 0 < done < all
            &&& spans.len() > 0 ==> {
                let text = spans.last().text;
                let first = crate::text::before(text, '/');
                &&& crate::text::number_of(first) == Some(done)
                &&& crate::text::number_of(text.skip(first.len() as int + 1)) == Some(all)
            }
        }),
{
    if 0 < done < all {
        reveal_strlit("/");
        let a = decimal(done as nat);
        let b = decimal(all as nat);
        let text = a + "/"@ + b;
        law_number_round_trip(done);
        law_number_round_trip(all);
        lemma_decimal_round_trip(done as nat);
        assert(!a.contains('/')) by {
            if a.contains('/') {
                let i = choose|i: int| 0 <= i < a.len() && a[i] == '/';
                assert(crate::text::digit(a[i]));
            }
        }
        assert(text =~= a.push('/') + b);
        crate::text_laws::law_before(a, '/', b);
        assert(text.skip(a.len() as int + 1) =~= b);
        assert(progress_spans((done as nat, all as nat)).last().text == text);
    }
}

/// Every file counts once in the bar: as reviewed, as unreviewed, or as hidden.
pub proof fn law_counts_add_up(s: AppState, n: int)
    requires
        0 <= n,
    ensures
        count_status(s, ReviewStatus::Reviewed, n) + count_status(s, ReviewStatus::Unreviewed, n)
            + s.count_hidden(n) == n,
        count_status(s, ReviewStatus::Reviewed, n) == Seq::new(n as nat, |i: int| i).filter(
            |i: int| !s.is_hidden(i) && s.status(i) == ReviewStatus::Reviewed,
        ).len(),
    decreases n,
{
    reveal(Seq::filter);
    if n > 0 {
        law_counts_add_up(s, n - 1);
        assert(Seq::new(n as nat, |i: int| i).drop_last() =~= Seq::new(
            (n - 1) as nat,
            |i: int| i,
        ));
    }
}

/// The sidebar shows the rows of the list in order, one line each, from the top down or
/// from where the cursor's row is the last one in view.
pub proof fn law_sidebar_shows_rows(s: AppState, width: int, height: int, k: int)
    requires
        0 <= k < tree_lines_of(s, width, height).len(),
        height > 0,
    ensures
        s.tree_cursor < height ==> tree_lines_of(s, width, height)[k] == tree_line(s, k, width),
        s.tree_cursor >= height ==> tree_lines_of(s, width, height)[k] == tree_line(
            s,
            s.tree_cursor - height + 1 + k,
            width,
        ),
{
}

/// A row is indented by two columns for each folder that it is in; a filtered list is
/// flat.
pub proof fn law_indent(s: AppState, n: int)
    ensures
        s.filter.len() > 0 ==> row_indent(s, n).len() == 0,
        s.filter.len() == 0 ==> row_indent(s, n).len() == 2 * s.tree.nodes[n].depth,
        forall|i: int| 0 <= i < row_indent(s, n).len() ==> #[trigger] row_indent(s, n)[i] == ' ',
{
}

// ── highlighted text ───────────────────────────────────────────────────────

/// The text of spans, one behind the other.
pub open spec fn spans_text(spans: Seq<SpanModel>) -> Seq<char>
    decreases spans.len(),
{
    if spans.len() == 0 {
        Seq::empty()
    } else {
        spans[0].text + spans_text(spans.skip(1))
    }
}

/// The tokens stand one behind the other, and each is a range of the text.
pub open spec fn in_a_row(text: Seq<char>, tokens: Seq<Token>) -> bool {
    &&& forall|i: int|
        0 <= i < tokens.len() ==> text_range(
            text,
            (#[trigger] tokens[i]).0.start as int,
            tokens[i].0.end as int,
        )
    &&& forall|i: int|
        0 < i < tokens.len() ==> (#[trigger] tokens[i]).0.start == tokens[i - 1].0.end
}

/// Colours do not change the text: what the tokens of a line show is what the line shows
/// without them.
pub proof fn law_tokens_show_the_line(
    text: Seq<char>,
    tokens: Seq<Token>,
    i: int,
    col: int,
    most: int,
    dimmed: bool,
    bg: Option<Color>,
)
    requires
        in_a_row(text, tokens),
        0 <= i < tokens.len(),
    ensures
        ({
            let start = tokens[i].0.start as int;
            let end = tokens.last().0.end as int;
            let (shown, at, _) = expanded(text_slice(text, start, end), col, most);
            let (spans, last) = token_spans(text, tokens, i, col, most, dimmed, bg);
            &&& text_range(text, start, end)
            &&& spans_text(spans) == shown
            &&& last == at
        }),
    decreases tokens.len() - i,
{
    let r = tokens[i].0;
    let start = r.start as int;
    let mid = r.end as int;
    let end = tokens.last().0.end as int;
    let piece = text_slice(text, start, mid);
    let (out, col2, hit) = expanded(piece, col, most);
    let here = if out.len() > 0 {
        seq![span_of(out, token_style(tokens[i], dimmed, bg))]
    } else {
        Seq::empty()
    };
    lemma_one_text(here, out);
    if i == tokens.len() - 1 {
        let (rest, last) = token_spans(text, tokens, i + 1, col2, most, dimmed, bg);
        assert(here + rest =~= here);
    } else {
        law_tokens_show_the_line(text, tokens, i + 1, col2, most, dimmed, bg);
        assert(tokens[i + 1].0.start == tokens[i].0.end);
        lemma_slices_join(text, start, mid, end);
        let rest_text = text_slice(text, mid, end);
        law_pieces_line_up(piece, rest_text, col, most);
        if !hit {
            let rest = token_spans(text, tokens, i + 1, col2, most, dimmed, bg).0;
            lemma_text_add(here, rest);
        }
    }
}

proof fn lemma_one_text(here: Seq<SpanModel>, out: Seq<char>)
    requires
        out.len() > 0 ==> here.len() == 1 && here[0].text == out,
        out.len() == 0 ==> here.len() == 0,
    ensures
        spans_text(here) == out,
{
    if out.len() > 0 {
        assert(here.skip(1) =~= Seq::<SpanModel>::empty());
        assert(spans_text(here.skip(1)) =~= Seq::<char>::empty());
        assert(out + Seq::<char>::empty() =~= out);
    } else {
        assert(out =~= Seq::<char>::empty());
    }
}

proof fn lemma_text_add(a: Seq<SpanModel>, b: Seq<SpanModel>)
    ensures
        spans_text(a + b) == spans_text(a) + spans_text(b),
    decreases a.len(),
{
    if a.len() == 0 {
        assert(a + b =~= b);
        assert(Seq::<char>::empty() + spans_text(b) =~= spans_text(b));
    } else {
        assert((a + b).skip(1) =~= a.skip(1) + b);
        lemma_text_add(a.skip(1), b);
        assert(a[0].text + (spans_text(a.skip(1)) + spans_text(b)) =~= spans_text(a) + spans_text(
            b,
        ));
    }
}

proof fn lemma_cell_number(n: Option<u32>, rest: Seq<char>)
    ensures
        words(right_aligned(number_text(n), 4) + (seq![' '] + rest)) == number_words(n) + words(
            rest,
        ),
{
    let t = number_text(n);
    let pad = repeated(' ', 4 - t.len());
    let tail = t + (seq![' '] + rest);
    assert(right_aligned(t, 4) + (seq![' '] + rest) =~= pad + tail);
    lemma_blank_words(4 - t.len(), tail);
    assert(tail =~= t.push(' ') + rest);
    law_words_part(t, ' ', rest);
    match n {
        Some(v) => {
            law_number_round_trip(v);
            lemma_decimal_round_trip(v as nat);
            law_one_word(t);
        },
        None => {
            assert(t =~= Seq::<char>::empty());
            law_one_word(t);
        },
    }
}

/// Side by side, the gutter on the left shows the number in the old file and marks what
/// was deleted, that on the right the number in the new file and what was added.
pub proof fn law_side_gutter(line: DiffLine, side: Side)
    ensures
        words(side_gutter(line, side)) == match side {
            Side::Old => number_words(line.old_no) + (if line.kind == LineKind::Del {
                seq![seq!['-']]
            } else {
                Seq::empty()
            }),
            Side::New => number_words(line.new_no) + (if line.kind == LineKind::Add {
                seq![seq!['+']]
            } else {
                Seq::empty()
            }),
        },
{
    reveal_strlit(" ");
    let (no, mark, _) = side_marks(line, side);
    let e = Seq::<char>::empty();
    let last = seq![mark, ' '];
    assert(" "@ =~= seq![' ']);
    assert(side_gutter(line, side) =~= right_aligned(number_text(no), 4) + (seq![' '] + last));
    lemma_cell_number(no, last);
    let m = seq![mark];
    assert(last =~= m.push(' ') + e);
    law_words_part(m, ' ', e);
    law_one_word(e);
    if mark == ' ' {
        assert(m =~= e.push(' ') + e);
        law_words_part(e, ' ', e);
        assert(words(last) =~= Seq::<Seq<char>>::empty());
    } else {
        assert(solid(m));
        law_one_word(m);
        assert(words(last) =~= seq![m]);
    }
}

// ── the bar ────────────────────────────────────────────────────────────────

/// The bar shows the filter while it is edited, else an error where there is one, else a
/// message; none of them can carry an escape sequence.
pub proof fn law_bar_says_what_matters(s: AppState)
    ensures
        s.mode == Mode::Filter ==> s.filter.len() > 0 ==> occurs_at(
            left_text_of(s),
            s.filter,
            9,
        ),
        s.mode != Mode::Filter && s.error is Some ==> ends_with(
            left_text_of(s),
            sanitized(s.error->0),
        ),
        s.mode != Mode::Filter && s.error is None && s.status_msg is Some ==> ends_with(
            left_text_of(s),
            sanitized(s.status_msg->0),
        ),
{
    reveal_strlit(" filter: ");
    reveal_strlit(" ");
    let t = left_text_of(s);
    if s.mode == Mode::Filter {
        assert(t.subrange(9, 9 + s.filter.len() as int) =~= s.filter);
    } else if s.error is Some {
        let e = sanitized(s.error->0);
        assert(t.skip(t.len() - e.len()) =~= e);
    } else if s.status_msg is Some {
        let m = sanitized(s.status_msg->0);
        assert(t.skip(t.len() - m.len()) =~= m);
    }
}

/// `t` ends with `p`.
pub open spec fn ends_with(t: Seq<char>, p: Seq<char>) -> bool {
    p.len() <= t.len() && t.skip(t.len() - p.len()) == p
}

// ── a row of the sidebar ───────────────────────────────────────────────────

/// A file row names its file: by its name in the tree, by its path in a filtered list,
/// with nothing in it that a terminal would act on.
pub proof fn law_file_row(s: AppState, n: int, fi: int)
    ensures
        ({
            let spans = file_spans(s, n, fi);
            &&& spans.len() >= 2
            &&& spans[0].text == status_marker(s, fi).0 + " "@
            &&& s.filter.len() == 0 ==> spans[1].text == sanitized(s.tree.nodes[n].name)
            &&& s.filter.len() > 0 ==> spans[1].text == sanitized(s.files[fi].path)
        }),
{
}

/// The counts of a file are its added lines, then its deleted ones, each behind its sign;
/// a file without any has none.
pub proof fn law_count_spans(added: u32, deleted: u32)
    ensures
        ({
            let spans = count_spans(added, deleted);
            &&& spans.len() > 0 <==> added > 0 || deleted > 0
            &&& spans.len() > 0 ==> {
                &&& spans.len() == 4
                &&& spans[1].text[0] == '+'
                &&& crate::text::number_of(spans[1].text.skip(1)) == Some(added)
                &&& spans[3].text[0] == '-'
                &&& crate::text::number_of(spans[3].text.skip(1)) == Some(deleted)
            }
        }),
{
    reveal_strlit("+");
    reveal_strlit("-");
    law_number_round_trip(added);
    law_number_round_trip(deleted);
    assert(("+"@ + decimal(added as nat)).skip(1) =~= decimal(added as nat));
    assert(("-"@ + decimal(deleted as nat)).skip(1) =~= decimal(deleted as nat));
}

/// A new file has a plus behind its name, a deleted one a minus, a renamed one an `R`; a
/// modified one has nothing.
pub proof fn law_kind_tags(from: Seq<char>)
    ensures
        kind_tag(KindModel::Modified) is None,
        kind_tag(KindModel::Added) == kind_tag(KindModel::Untracked),
        (kind_tag(KindModel::Added)->0).0[2] == '+',
        (kind_tag(KindModel::Deleted)->0).0[2] == '-',
        (kind_tag(KindModel::Renamed(from))->0).0[2] == 'R',
        (kind_tag(KindModel::TypeChange)->0).0[2] == 'T',
{
    reveal_strlit(" (+)");
    reveal_strlit(" (-)");
    reveal_strlit(" (");
    reveal_strlit(")");
}

/// A folder shows whether it is open.
pub proof fn law_folder_row(s: AppState, n: int)
    ensures
        s.tree.nodes[n].collapsed ==> folder_spans(s, n)[0].text[0] == s.glyphs.folder_closed,
        !s.tree.nodes[n].collapsed ==> folder_spans(s, n)[0].text[0] == s.glyphs.folder_open,
{
    reveal_strlit(" ");
    reveal_strlit("/");
}

// ── a row of the diff ──────────────────────────────────────────────────────

/// The tokens are those of the line: in a row, from its start to its end.
pub open spec fn cover_line(text: Seq<char>, line: DiffLine, tokens: Seq<Token>) -> bool {
    &&& tokens.len() > 0
    &&& in_a_row(text, tokens)
    &&& tokens[0].0.start == line.text.start
    &&& tokens.last().0.end == line.text.end
}

/// The text of the line, tabs expanded, in at most `most` columns.
pub open spec fn shown_line(text: Seq<char>, line: DiffLine, most: int) -> Seq<char> {
    expanded(text_slice(text, line.text.start as int, line.text.end as int), 0, most).0
}

/// `t` is `front`, and nothing but blanks behind it.
pub open spec fn padded_out(t: Seq<char>, front: Seq<char>) -> bool {
    exists|n: int| t == front + #[trigger] repeated(' ', n)
}

/// Without a highlight the whole line is one token.
pub proof fn law_plain_line_is_covered(text: Seq<char>, line: DiffLine, fg: Color)
    requires
        text_range(text, line.text.start as int, line.text.end as int),
    ensures
        cover_line(text, line, tokens_of(text, line, Seq::empty(), fg)),
{
}

/// A row of the unified view shows the bar of the current chunk, the gutter of its line,
/// and the text of the line, as far as it has room; behind it there are at most blanks.
pub proof fn law_unified_row_text(s: AppState, h: usize, l: usize, width: int)
    requires
        ({
            let d = s.diff->0;
            let line = d.chunks[h as int].lines[l as int];
            cover_line(
                d.text,
                line,
                tokens_of(
                    d.text,
                    line,
                    highlight_spans(s.highlight, h as int, l as int),
                    marker_of(line.kind).1,
                ),
            )
        }),
    ensures
        ({
            let d = s.diff->0;
            let line = d.chunks[h as int].lines[l as int];
            let gutter = gutter_of(line);
            let room = width - 1 - text_columns(gutter);
            let most = if room > 0 {
                room
            } else {
                0
            };
            let bar = if h == s.current_chunk {
                s.glyphs.chunk_bar
            } else {
                ' '
            };
            padded_out(
                spans_text(unified_line(s, RowRef::Line(h, l), width).spans),
                seq![bar] + gutter + shown_line(d.text, line, most),
            )
        }),
{
    let d = s.diff->0;
    let line = d.chunks[h as int].lines[l as int];
    let current = h == s.current_chunk;
    let dimmed = dims(s) && s.is_chunk_reviewed(h as int);
    let bg = content_bg(line.kind, current, dimmed, tints_of(s.highlight));
    let gutter = gutter_of(line);
    let tokens = tokens_of(
        d.text,
        line,
        highlight_spans(s.highlight, h as int, l as int),
        marker_of(line.kind).1,
    );
    let most = less(width, 1 + text_columns(gutter));
    law_tokens_show_the_line(d.text, tokens, 0, 0, most, dimmed, bg);
    let (spans, end) = token_spans(d.text, tokens, 0, 0, most, dimmed, bg);
    let content = content_spans(d.text, tokens, dimmed, bg, most);
    let lead = lead_span(current, s.glyphs);
    let gutter_span = span_of(
        gutter,
        Style { bg: chrome_of(current), ..colored(Color::DarkGray) },
    );
    let front = seq![lead, gutter_span];
    let shown = shown_line(d.text, line, most);
    lemma_two_texts(lead, gutter_span);
    lemma_text_add(front, content);
    lemma_padding(spans, bg is Some, most - end, Style { bg, ..no_style() });
    let n = if bg is Some && end < most {
        most - end
    } else {
        0
    };
    assert(spans_text(content) == shown + repeated(' ', n));
    assert(unified_line(s, RowRef::Line(h, l), width).spans == front + content);
    let all = spans_text(unified_line(s, RowRef::Line(h, l), width).spans);
    assert(all == (lead.text + gutter) + (shown + repeated(' ', n)));
    assert(all =~= (lead.text + gutter + shown) + repeated(' ', n));
}

proof fn lemma_two_texts(a: SpanModel, b: SpanModel)
    ensures
        spans_text(seq![a, b]) == a.text + b.text,
{
    let two = seq![a, b];
    let one = seq![b];
    assert(two.skip(1) =~= one);
    assert(one.skip(1) =~= Seq::<SpanModel>::empty());
    assert(spans_text(one.skip(1)) =~= Seq::<char>::empty());
    assert(spans_text(one) == b.text + spans_text(one.skip(1)));
    assert(b.text + Seq::<char>::empty() =~= b.text);
    assert(spans_text(two) == a.text + spans_text(two.skip(1)));
}

proof fn lemma_padding(spans: Seq<SpanModel>, on: bool, n: int, style: Style)
    ensures
        spans_text(spans.push(span_of(repeated(' ', n), style))) == spans_text(spans) + repeated(
            ' ',
            n,
        ),
        spans_text(spans) == spans_text(spans) + repeated(' ', 0),
{
    let pad = span_of(repeated(' ', n), style);
    let one = seq![pad];
    assert(one.skip(1) =~= Seq::<SpanModel>::empty());
    assert(spans_text(one.skip(1)) =~= Seq::<char>::empty());
    assert(pad.text + Seq::<char>::empty() =~= pad.text);
    lemma_text_add(spans, one);
    assert(spans.push(pad) =~= spans + one);
    assert(spans_text(spans) =~= spans_text(spans) + repeated(' ', 0));
}

/// One side of a row shows the gutter of its line and its text, as far as there is room,
/// and blanks behind them; a side without a line shows blanks.
pub proof fn law_cell_text(
    s: AppState,
    h: usize,
    l: usize,
    width: int,
    side: Side,
    dimmed: bool,
    current: bool,
)
    requires
        width >= 0,
        ({
            let d = s.diff->0;
            let line = d.chunks[h as int].lines[l as int];
            cover_line(
                d.text,
                line,
                tokens_of(
                    d.text,
                    line,
                    highlight_spans(s.highlight, h as int, l as int),
                    side_marks(line, side).2,
                ),
            )
        }),
    ensures
        ({
            let d = s.diff->0;
            let line = d.chunks[h as int].lines[l as int];
            let gutter = side_gutter(line, side);
            let cell = cell_spans(d, Some((h, l)), width, side, dimmed, current, s.highlight);
            let empty = cell_spans(d, None, width, side, dimmed, current, s.highlight);
            &&& gutter.len() <= width ==> padded_out(
                spans_text(cell),
                gutter + shown_line(d.text, line, width - gutter.len()),
            )
            &&& spans_text(empty) == repeated(' ', width)
        }),
{
    let d = s.diff->0;
    let line = d.chunks[h as int].lines[l as int];
    let gutter = side_gutter(line, side);
    let (no, mark, color) = side_marks(line, side);
    let bg = content_bg(line.kind, current, dimmed, tints_of(s.highlight));
    let tokens = tokens_of(
        d.text,
        line,
        highlight_spans(s.highlight, h as int, l as int),
        color,
    );
    let empty = cell_spans(d, None, width, side, dimmed, current, s.highlight);
    assert(empty.skip(1) =~= Seq::<SpanModel>::empty());
    assert(spans_text(empty.skip(1)) =~= Seq::<char>::empty());
    assert(empty[0].text + Seq::<char>::empty() =~= repeated(' ', width));
    if gutter.len() <= width {
        let most = width - gutter.len();
        law_tokens_show_the_line(d.text, tokens, 0, 0, most, dimmed, bg);
        let (spans, end) = token_spans(d.text, tokens, 0, 0, most, dimmed, bg);
        let content = filled_spans(d.text, tokens, dimmed, bg, most);
        let fg = if dimmed {
            Color::DarkGray
        } else {
            color
        };
        let g = span_of(gutter, Style { bg, ..colored(fg) });
        let front = seq![g];
        assert(front.skip(1) =~= Seq::<SpanModel>::empty());
        assert(spans_text(front.skip(1)) =~= Seq::<char>::empty());
        assert(gutter + Seq::<char>::empty() =~= gutter);
        lemma_text_add(front, content);
        lemma_padding(spans, true, most - end, Style { bg, ..no_style() });
        let n = if end < most {
            most - end
        } else {
            0
        };
        let shown = shown_line(d.text, line, most);
        assert(spans_text(content) == shown + repeated(' ', n));
        let cell = cell_spans(d, Some((h, l)), width, side, dimmed, current, s.highlight);
        assert(cell == front + content);
        assert(spans_text(cell) =~= (gutter + shown) + repeated(' ', n));
    }
}

/// The header row of a chunk shows the bar of the current chunk, the mark of a reviewed
/// one, the header of the chunk as git writes it, and how many lines are folded away.
pub proof fn law_header_row_text(s: AppState, h: usize, width: int)
    ensures
        ({
            let d = s.diff->0;
            let header = d.chunks[h as int].header;
            let bar = if h == s.current_chunk {
                s.glyphs.chunk_bar
            } else {
                ' '
            };
            let mark = if s.is_chunk_reviewed(h as int) {
                s.glyphs.reviewed@ + seq![' ']
            } else {
                Seq::empty()
            };
            let text = sanitized(
                text_slice(d.text, header.start as int, header.end as int),
            );
            let row = spans_text(unified_line(s, RowRef::Header(h), width).spans);
            let shut = h < s.chunk_collapsed.len() && s.chunk_collapsed[h as int];
            let said = seq![bar, ' '] + mark + text;
            &&& !shut ==> row == fitted(said, width)
            &&& shut ==> exists|more: Seq<char>| #[trigger]
                starts_with_number(more, d.chunks[h as int].lines.len()) && row == fitted(
                    said + more,
                    width,
                )
            &&& row == spans_text(side_line(s, SideRow::Header(h), width).spans)
        }),
{
    reveal_strlit(" ");
    reveal_strlit("   ");
    let d = s.diff->0;
    let row = unified_line(s, RowRef::Header(h), width).spans;
    assert(row.skip(1) =~= Seq::<SpanModel>::empty());
    assert(spans_text(row.skip(1)) =~= Seq::<char>::empty());
    assert(row[0].text + Seq::<char>::empty() =~= row[0].text);
    let header = d.chunks[h as int].header;
    let text = sanitized(text_slice(d.text, header.start as int, header.end as int));
    let bar = if h == s.current_chunk {
        s.glyphs.chunk_bar
    } else {
        ' '
    };
    let mark = if s.is_chunk_reviewed(h as int) {
        s.glyphs.reviewed@ + seq![' ']
    } else {
        Seq::empty()
    };
    let said = seq![bar, ' '] + mark + text;
    let more = hidden_suffix(hidden_lines(s, h as int));
    assert(" "@ =~= seq![' ']);
    assert(seq![bar] + " "@ =~= seq![bar, ' ']);
    assert(seq![bar] + " "@ + mark + text + more =~= said + more);
    if !folded(s.chunk_collapsed, h as int) {
        assert(said + more =~= said);
    } else {
        let n = d.chunks[h as int].lines.len();
        if n > 0 {
            let tail = " "@ + if n == 1 {
                "line"@
            } else {
                "lines"@
            };
            assert(more =~= "   "@ + decimal(n) + tail);
            assert("   "@ =~= repeated(' ', 3));
            let front = repeated(' ', 3) + decimal(n);
            assert(more.take(front.len() as int) =~= front);
        }
        assert(starts_with_number(more, n));
    }
}

/// Three blanks and the number, where there is one to tell.
pub open spec fn starts_with_number(t: Seq<char>, n: nat) -> bool {
    if n == 0 {
        t.len() == 0
    } else {
        begins(t, repeated(' ', 3) + decimal(n))
    }
}

// ── titles, hints and overlays ─────────────────────────────────────────────

/// The panel has no rows to show exactly where there is no diff, the diff is binary, or it
/// has no chunks in view; each has a hint of its own.
pub proof fn law_placeholders(s: AppState)
    ensures
        placeholder_of(s) is None <==> s.diff is Some && !s.diff->0.is_binary && s.diff_rows.len()
            > 0,
        s.diff is None ==> placeholder_of(s) == Some("Select a file to view its diff"@),
        s.diff is Some && s.diff->0.is_binary ==> placeholder_of(s) == Some(
            "Binary file - no textual diff"@,
        ),
{
}

/// The title of the diff names its file, with nothing in it that a terminal would act on.
pub proof fn law_diff_title(s: AppState)
    requires
        s.diff is Some,
    ensures
        diff_title_of(s)[0] == ' ',
        occurs_at(diff_title_of(s), sanitized(s.diff->0.path), 1),
{
    reveal_strlit(" ");
    let path = sanitized(s.diff->0.path);
    let t = diff_title_of(s);
    assert(t.subrange(1, 1 + path.len() as int) =~= path);
}

/// The title of the sidebar counts the files of the list in view.
pub proof fn law_sidebar_title(s: AppState)
    ensures
        ({
            let n = s.files.len() as int;
            let hidden = s.count_hidden(n);
            let shown = (n - hidden) as nat;
            &&& s.hidden_view ==> exists|k: int| #[trigger]
                occurs_at(tree_title_of(s), decimal(hidden), k)
            &&& !s.hidden_view ==> exists|k: int| #[trigger]
                occurs_at(tree_title_of(s), decimal(shown), k)
        }),
{
    let n = s.files.len() as int;
    let t = tree_title_of(s);
    law_counts_add_up(s, n);
    if s.hidden_view {
        let d = decimal(s.count_hidden(n));
        let k = " Hidden files ("@.len() as int;
        assert(t.subrange(k, k + d.len() as int) =~= d);
        assert(occurs_at(t, d, k));
    } else {
        let d = decimal((n - s.count_hidden(n)) as nat);
        let k = " Changed files ("@.len() as int;
        assert(t.subrange(k, k + d.len() as int) =~= d);
        assert(occurs_at(t, d, k));
    }
}

/// On a screen the sidebar has the width that was chosen, within what the screen allows.
pub proof fn law_sidebar_width(tree_width: u16, body_width: u16)
    ensures
        ({
            let most = if body_width >= 36 {
                body_width - 20
            } else {
                16
            };
            let w = sidebar_width(tree_width, body_width);
            &&& tree_width <= 16 ==> w == 16
            &&& tree_width > 16 && tree_width >= most ==> w == most
            &&& 16 < tree_width < most ==> w == tree_width
        }),
{
}

/// The picker lists the themes that match, in order, in a window that holds the selected
/// one; where none matches it says so.
pub proof fn law_picker_lines(p: PickerModel, visible: int, k: int)
    requires
        0 < visible,
        p.cursor < p.matches.len(),
        0 <= k < picker_lines(p, visible).len(),
    ensures
        ({
            let start = list_start(p.cursor as int, p.matches.len() as int, visible);
            let row = picker_lines(p, visible)[k];
            &&& start + k < p.matches.len()
            &&& row.spans.len() == 1
            &&& ends_with(row.spans[0].text, p.matches[start + k])
            &&& (row.spans[0].text[0] == '▸') == (start + k == p.cursor)
        }),
{
    reveal_strlit("▸ ");
    reveal_strlit("  ");
    let start = list_start(p.cursor as int, p.matches.len() as int, visible);
    law_cursor_is_visible(p.cursor as int, p.matches.len() as int, visible);
    let name = p.matches[start + k];
    let t = picker_lines(p, visible)[k].spans[0].text;
    assert(t.skip(t.len() - name.len()) =~= name);
}

/// A notification shows its message line by line, each behind a blank, with nothing in it
/// that a terminal would act on.
pub proof fn law_message_lines(message: Seq<char>, columns: int, k: int)
    requires
        0 <= k < message_lines(message, columns).len(),
    ensures
        message_lines(message, columns).len() == wrapped(sanitized(message), columns).len(),
        message_lines(message, columns)[k].spans.len() == 1,
        message_lines(message, columns)[k].spans[0].text == seq![' '] + wrapped(
            sanitized(message),
            columns,
        )[k],
{
}

/// The bar tells how many files are reviewed and how many are not, hidden ones left out,
/// and the place among the chunks; a filter in force is named at its end.
pub proof fn law_bar_context(s: AppState)
    ensures
        ({
            let n = s.files.len() as int;
            let t = context_text(s);
            let done = s.glyphs.reviewed@ + " "@ + decimal(
                count_status(s, ReviewStatus::Reviewed, n),
            );
            let left = s.glyphs.unreviewed@ + " "@ + decimal(
                count_status(s, ReviewStatus::Unreviewed, n),
            );
            &&& exists|k: int| #[trigger] occurs_at(t, done, k)
            &&& exists|k: int| #[trigger] occurs_at(t, left, k)
            &&& exists|k: int| #[trigger] occurs_at(t, chunk_label(s), k)
            &&& s.filter.len() > 0 ==> ends_with(t, s.filter)
        }),
{
    let n = s.files.len() as int;
    let t = context_text(s);
    let sep = s.glyphs.sep@;
    let mode = if s.live {
        "hunkr"@
    } else {
        "hunkr"@ + sep + "pager (read-only)"@
    };
    let label = if s.hidden_view {
        mode + sep + "hidden view"@
    } else {
        mode
    };
    let hidden = if s.count_hidden(n) > 0 {
        sep + "hidden "@ + decimal(s.count_hidden(n))
    } else {
        Seq::empty()
    };
    let filter = if s.filter.len() > 0 {
        sep + "filter:"@ + s.filter
    } else {
        Seq::empty()
    };
    let d1 = decimal(count_status(s, ReviewStatus::Reviewed, n));
    let d2 = decimal(count_status(s, ReviewStatus::Unreviewed, n));
    lemma_bar(
        " "@,
        label,
        sep,
        s.glyphs.reviewed@,
        d1,
        s.glyphs.unreviewed@,
        d2,
        hidden,
        chunk_label(s),
        filter,
    );
    if s.filter.len() > 0 {
        assert(filter.skip(filter.len() - s.filter.len()) =~= s.filter);
        lemma_ends(t, filter, s.filter);
    }
}

proof fn lemma_ends(t: Seq<char>, filter: Seq<char>, p: Seq<char>)
    requires
        ends_with(t, filter),
        ends_with(filter, p),
    ensures
        ends_with(t, p),
{
    let x = t.skip(t.len() - p.len());
    let m = t.len() - filter.len();
    let n = filter.len() - p.len();
    assert forall|i: int| 0 <= i < p.len() implies #[trigger] x[i] == p[i] by {
        assert(t.skip(m)[n + i] == filter[n + i]);
        assert(filter.skip(n)[i] == p[i]);
    }
    assert(x =~= p);
}

/// The parts of the bar stand in it.
proof fn lemma_bar(
    sp: Seq<char>,
    label: Seq<char>,
    sep: Seq<char>,
    g1: Seq<char>,
    d1: Seq<char>,
    g2: Seq<char>,
    d2: Seq<char>,
    hidden: Seq<char>,
    chunk: Seq<char>,
    filter: Seq<char>,
)
    ensures
        ({
            let t = sp + label + sep + g1 + sp + d1 + sep + g2 + sp + d2 + hidden + sep + chunk
                + filter;
            &&& exists|k: int| #[trigger] occurs_at(t, g1 + sp + d1, k)
            &&& exists|k: int| #[trigger] occurs_at(t, g2 + sp + d2, k)
            &&& exists|k: int| #[trigger] occurs_at(t, chunk, k)
            &&& ends_with(t, filter)
        }),
{
    let t = sp + label + sep + g1 + sp + d1 + sep + g2 + sp + d2 + hidden + sep + chunk + filter;
    let a = sp + label + sep;
    let b = a + g1 + sp + d1;
    let c = b + sep;
    let d = c + g2 + sp + d2;
    let e = d + hidden + sep;
    let f = e + chunk;
    assert(b =~= a + (g1 + sp + d1));
    assert(d =~= c + (g2 + sp + d2));
    assert(t == f + filter);
    lemma_in_front(a, g1 + sp + d1, b, t);
    lemma_in_front(c, g2 + sp + d2, d, t);
    lemma_in_front(e, chunk, f, t);
    assert(t.skip(t.len() - filter.len()) =~= filter);
}

/// What ends a text that another one begins with stands in that one.
proof fn lemma_in_front(a: Seq<char>, p: Seq<char>, b: Seq<char>, t: Seq<char>)
    requires
        b == a + p,
        b.len() <= t.len(),
        forall|i: int| 0 <= i < b.len() ==> #[trigger] t[i] == b[i],
    ensures
        occurs_at(t, p, a.len() as int),
{
    let k = a.len() as int;
    let part = t.subrange(k, k + p.len());
    assert forall|i: int| 0 <= i < p.len() implies part[i] == p[i] by {
        assert(t[k + i] == b[k + i]);
    }
    assert(part =~= p);
}

/// The place among the chunks is the number of the current one, counted from one, out of
/// all of them.
pub proof fn law_chunk_label(s: AppState)
    requires
        s.diff is Some,
        s.diff->0.chunks.len() > 0,
    ensures
        chunk_label(s) == "chunk "@ + (decimal((s.current_chunk + 1) as nat) + "/"@ + decimal(
            s.diff->0.chunks.len(),
        )),
{
    assert(chunk_label(s) =~= "chunk "@ + (decimal((s.current_chunk + 1) as nat) + "/"@ + decimal(
        s.diff->0.chunks.len(),
    )));
}

} // verus!
