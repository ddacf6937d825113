//! Right panel: the virtualized diff, in unified or side-by-side layout.
//!
//! Only the visible window of rows is turned into lines, so the cost of a frame is
//! bounded by the viewport height no matter how large the diff is.

use std::ops::Range;
use std::sync::Arc;

use vstd::prelude::*;
use vstd::string::*;
use vstd::utf8::*;

use crate::app::rows::{folded, lemma_side_rows, lemma_unified_rows, row_ok, side_row_ok};
use crate::app::session::App;
use crate::app::state::{diff_ok, rows_ok, AppState};
use crate::app::types::{ReviewedDisplay, RowRef, SideRow, ViewMode};
use crate::cache::share;
use crate::glyphs::Glyphs;
use crate::highlight::{spans_at, FileHighlight, StyledLine, SynStyle};
use crate::model::diff::{DiffLine, DiffModel, FileDiff, LineKind};
use crate::render::style::{plain_text, Color, Modifier};
use crate::render::viewport::{clamped, min_of, visible_range};
use crate::render::{sanitize, sanitized};
use crate::text::{
    chars_of, control_char, copy_of, decimal, digit, is_control, lemma_decimal_round_trip,
    lemma_take_step, push_char, slice_str, string_of, text_range, text_slice, to_decimal,
};
use crate::ui::canvas::{
    append_spans, bold_colored, char_string, colored, columns, columns_of, less, line_models,
    line_of, no_style, push_line, push_span, repeat_char, repeated, span_models, span_of,
    styled_line, text_columns, text_width, Line, LineModel, Span, SpanModel, Style,
};

verus! {

/// Tab stop width used when expanding tabs for display.
pub const TAB_WIDTH: usize = 4;

/// Background fill behind the current chunk's header row: the brightest part of
/// the active block.
pub open spec fn current_header_bg() -> Color {
    Color::Indexed(238)
}

/// Subtler fill behind the current chunk's body rows, so the whole chunk reads as
/// one active block without washing out the `+`/`-` colours.
pub open spec fn current_body_bg() -> Color {
    Color::Indexed(236)
}

// ── text ───────────────────────────────────────────────────────────────────

/// What `s` shows from column `col` on, up to column `most`: the text, the column
/// behind it, and whether there was no room for all of it. Tabs are spaces up to
/// the next tab stop; other control characters are U+FFFD.
pub open spec fn expanded(s: Seq<char>, col: int, most: int) -> (Seq<char>, int, bool)
    decreases s.len(),
{
    if s.len() == 0 {
        (Seq::empty(), col, false)
    } else if s[0] == '\t' {
        let spaces = TAB_WIDTH - col % (TAB_WIDTH as int);
        if spaces > most - col {
            (repeated(' ', most - col), most, true)
        } else {
            let (out, end, hit) = expanded(s.skip(1), col + spaces, most);
            (repeated(' ', spaces) + out, end, hit)
        }
    } else if control_char(s[0]) {
        if col >= most {
            (Seq::empty(), col, true)
        } else {
            let (out, end, hit) = expanded(s.skip(1), col + 1, most);
            (seq!['\u{FFFD}'] + out, end, hit)
        }
    } else {
        let w = columns_of(s[0]);
        if col + w > most {
            (Seq::empty(), col, true)
        } else {
            let (out, end, hit) = expanded(s.skip(1), col + w, most);
            (seq![s[0]] + out, end, hit)
        }
    }
}

/// Expand `s` into `out` for display, advancing the shared display column `col`
/// and stopping before it would exceed `max_cols`. Tabs expand to the next tab
/// stop (so columns line up across token boundaries via the shared `col`); every
/// other control character is replaced with the single-width replacement
/// character, so untrusted text can carry no escape sequence to the terminal.
///
/// Returns `true` if the column budget was reached (the caller should stop
/// emitting further tokens for this line).
pub fn push_expanded(out: &mut String, s: &str, col: &mut usize, max_cols: usize) -> (hit: bool)
    requires
        *old(col) <= max_cols,
    ensures
        ({
            let (text, end, full) = expanded(s@, *old(col) as int, max_cols as int);
            &&& final(out)@ == old(out)@ + text
            &&& *final(col) == end
            &&& hit == full
        }),
        *final(col) <= max_cols,
{
    let chars = chars_of(s);
    let n = chars.len();
    let ghost before = out@;
    let ghost all = expanded(s@, *col as int, max_cols as int);
    let mut i: usize = 0;
    let mut at: usize = *col;
    assert(chars@.skip(0) =~= chars@);
    assert(out@ + all.0 =~= before + all.0);
    while i < n
        invariant
            n == chars@.len(),
            chars@ == s@,
            i <= n,
            at <= max_cols,
            before == old(out)@,
            all == expanded(s@, *old(col) as int, max_cols as int),
            out@ + expanded(chars@.skip(i as int), at as int, max_cols as int).0 == before + all.0,
            expanded(chars@.skip(i as int), at as int, max_cols as int).1 == all.1,
            expanded(chars@.skip(i as int), at as int, max_cols as int).2 == all.2,
        decreases n - i,
    {
        let ghost rest = chars@.skip(i as int);
        let ghost was = out@;
        let c = chars[i];
        assert(rest[0] == c);
        assert(rest.skip(1) =~= chars@.skip(i + 1));
        if c == '\t' {
            let spaces = TAB_WIDTH - at % TAB_WIDTH;
            let room = max_cols - at;
            if spaces > room {
                out.append(repeat_char(' ', room).as_str());
                *col = max_cols;
                return true;
            }
            out.append(repeat_char(' ', spaces).as_str());
            proof {
                let tail = expanded(rest.skip(1), at + spaces, max_cols as int).0;
                assert(was + (repeated(' ', spaces as int) + tail) =~= out@ + tail);
            }
            at += spaces;
        } else if is_control(c) {
            if at >= max_cols {
                assert(was + Seq::<char>::empty() =~= was);
                *col = at;
                return true;
            }
            push_char(out, '\u{FFFD}');
            proof {
                let tail = expanded(rest.skip(1), at + 1, max_cols as int).0;
                assert(was + (seq!['\u{FFFD}'] + tail) =~= out@ + tail);
            }
            at += 1;
        } else {
            let w = columns(c);
            if w > max_cols - at {
                assert(was + Seq::<char>::empty() =~= was);
                *col = at;
                return true;
            }
            push_char(out, c);
            proof {
                let tail = expanded(rest.skip(1), at + w, max_cols as int).0;
                assert(was + (seq![c] + tail) =~= out@ + tail);
            }
            at += w;
        }
        i += 1;
    }
    assert(chars@.skip(n as int) =~= Seq::<char>::empty());
    assert(out@ + Seq::<char>::empty() =~= out@);
    *col = at;
    false
}

/// Expanded text has no control character, so nothing in it is an escape sequence
/// to the terminal, and it never runs past its columns.
pub proof fn law_expanded(s: Seq<char>, col: int, most: int)
    requires
        0 <= col <= most,
    ensures
        forall|i: int|
            0 <= i < expanded(s, col, most).0.len() ==> !control_char(
                #[trigger] expanded(s, col, most).0[i],
            ),
        col <= expanded(s, col, most).1 <= most,
    decreases s.len(),
{
    if s.len() > 0 {
        let all = expanded(s, col, most).0;
        if s[0] == '\t' {
            let spaces = TAB_WIDTH - col % (TAB_WIDTH as int);
            if spaces <= most - col {
                law_expanded(s.skip(1), col + spaces, most);
                let tail = expanded(s.skip(1), col + spaces, most).0;
                let head = repeated(' ', spaces);
                assert forall|i: int| 0 <= i < all.len() implies !control_char(
                    #[trigger] all[i],
                ) by {
                    if i < head.len() {
                        assert(all[i] == ' ');
                    } else {
                        assert(all[i] == tail[i - head.len()]);
                    }
                }
            }
        } else if control_char(s[0]) {
            if col < most {
                law_expanded(s.skip(1), col + 1, most);
                let tail = expanded(s.skip(1), col + 1, most).0;
                assert forall|i: int| 0 <= i < all.len() implies !control_char(
                    #[trigger] all[i],
                ) by {
                    if i > 0 {
                        assert(all[i] == tail[i - 1]);
                    }
                }
            }
        } else {
            let w = columns_of(s[0]);
            if col + w <= most {
                law_expanded(s.skip(1), col + w, most);
                let tail = expanded(s.skip(1), col + w, most).0;
                assert forall|i: int| 0 <= i < all.len() implies !control_char(
                    #[trigger] all[i],
                ) by {
                    if i > 0 {
                        assert(all[i] == tail[i - 1]);
                    }
                }
            }
        }
    }
}

/// The characters of `s` that fit into `width` columns from column `used` on, and
/// the columns that they take.
pub open spec fn fitting(s: Seq<char>, used: int, width: int) -> (Seq<char>, int)
    decreases s.len(),
{
    if s.len() == 0 || used + columns_of(s[0]) > width {
        (Seq::empty(), used)
    } else {
        let (out, end) = fitting(s.skip(1), used + columns_of(s[0]), width);
        (seq![s[0]] + out, end)
    }
}

/// `s` truncated to `width` columns, and padded with spaces up to them.
pub open spec fn fitted(s: Seq<char>, width: int) -> Seq<char> {
    let (out, used) = fitting(s, 0, width);
    out + repeated(' ', width - used)
}

/// The columns that the characters of `s` take.
pub open spec fn total_columns(s: Seq<char>) -> int
    decreases s.len(),
{
    if s.len() == 0 {
        0
    } else {
        columns_of(s[0]) + total_columns(s.skip(1))
    }
}

proof fn lemma_fitting_columns(s: Seq<char>, used: int, width: int)
    ensures
        fitting(s, used, width).1 == used + total_columns(fitting(s, used, width).0),
        used <= width ==> fitting(s, used, width).1 <= width,
    decreases s.len(),
{
    if s.len() > 0 && used + columns_of(s[0]) <= width {
        lemma_fitting_columns(s.skip(1), used + columns_of(s[0]), width);
        let all = fitting(s, used, width).0;
        let tail = fitting(s.skip(1), used + columns_of(s[0]), width).0;
        assert(all.skip(1) =~= tail);
    }
}

proof fn lemma_padded_columns(s: Seq<char>, n: int)
    requires
        columns_of(' ') == 1,
        n >= 0,
    ensures
        total_columns(s + repeated(' ', n)) == total_columns(s) + n,
    decreases s.len() + n,
{
    let all = s + repeated(' ', n);
    if s.len() > 0 {
        lemma_padded_columns(s.skip(1), n);
        assert(all.skip(1) =~= s.skip(1) + repeated(' ', n));
    } else if n > 0 {
        lemma_padded_columns(s, n - 1);
        assert(all.skip(1) =~= s + repeated(' ', n - 1));
    }
}

/// Truncate `s` to exactly `width` display columns, padding with spaces.
pub fn fit(s: &str, width: usize) -> (r: String)
    ensures
        r@ == fitted(s@, width as int),
        total_columns(r@) == width,
{
    let chars = chars_of(s);
    let n = chars.len();
    let mut out = String::new();
    let mut used: usize = 0;
    let mut i: usize = 0;
    let ghost all = fitting(s@, 0, width as int);
    assert(chars@.skip(0) =~= chars@);
    assert(out@ + all.0 =~= all.0);
    while i < n
        invariant
            n == chars@.len(),
            chars@ == s@,
            i <= n,
            used <= width,
            out@ + fitting(chars@.skip(i as int), used as int, width as int).0 == all.0,
            fitting(chars@.skip(i as int), used as int, width as int).1 == all.1,
        ensures
            used <= width,
            out@ == all.0,
            used == all.1,
        decreases n - i,
    {
        let ghost rest = chars@.skip(i as int);
        let ghost was = out@;
        let c = chars[i];
        assert(rest[0] == c);
        assert(rest.skip(1) =~= chars@.skip(i + 1));
        let w = columns(c);
        if w > width - used {
            assert(out@ + Seq::<char>::empty() =~= out@);
            break;
        }
        push_char(&mut out, c);
        proof {
            let tail = fitting(rest.skip(1), used + w, width as int).0;
            assert(was + (seq![c] + tail) =~= out@ + tail);
        }
        used += w;
        i += 1;
        if i == n {
            assert(chars@.skip(n as int) =~= Seq::<char>::empty());
            assert(out@ + Seq::<char>::empty() =~= out@);
        }
    }
    let blank = columns(' ');
    let ghost left = width - used;
    let ghost text = out@;
    proof {
        lemma_fitting_columns(s@, 0, width as int);
        lemma_padded_columns(text, left);
    }
    assert(text + repeated(' ', 0) =~= text);
    while used < width
        invariant
            blank == 1,
            used <= width,
            left - (width - used) >= 0,
            out@ == text + repeated(' ', left - (width - used)),
        decreases width - used,
    {
        push_char(&mut out, ' ');
        used += blank;
        assert(out@ =~= text + repeated(' ', left - (width - used)));
    }
    out
}

/// A line number, or nothing.
pub open spec fn number_text(n: Option<u32>) -> Seq<char> {
    match n {
        Some(n) => decimal(n as nat),
        None => Seq::empty(),
    }
}

/// `s` with spaces before it, `width` characters wide.
pub open spec fn right_aligned(s: Seq<char>, width: int) -> Seq<char> {
    repeated(' ', width - s.len()) + s
}

pub fn fmt_no(n: Option<u32>) -> (r: String)
    ensures
        r@ == number_text(n),
{
    match n {
        Some(n) => to_decimal(n as u128),
        None => {
            let s = String::new();
            assert(s@ =~= Seq::<char>::empty());
            s
        },
    }
}

fn align_right(s: &str, width: usize) -> (r: String)
    ensures
        r@ == right_aligned(s@, width as int),
{
    let len = s.unicode_len();
    let pad = if width > len {
        width - len
    } else {
        0
    };
    let mut out = repeat_char(' ', pad);
    assert(repeated(' ', pad as int) =~= repeated(' ', width - len));
    out.append(s);
    out
}

/// The gutter mark of a line, and its colour.
pub open spec fn marker_of(kind: LineKind) -> (char, Color) {
    match kind {
        LineKind::Add => ('+', Color::Green),
        LineKind::Del => ('-', Color::Red),
        LineKind::Context => (' ', Color::Gray),
        LineKind::NoNewline => ('\\', Color::DarkGray),
    }
}

pub fn line_marker(kind: LineKind) -> (r: (char, Color))
    ensures
        r == marker_of(kind),
{
    match kind {
        LineKind::Add => ('+', Color::Green),
        LineKind::Del => ('-', Color::Red),
        LineKind::Context => (' ', Color::Gray),
        LineKind::NoNewline => ('\\', Color::DarkGray),
    }
}

/// The background of a row's content: the theme's tint for added and removed rows
/// (not for dimmed ones), else the wash of the current chunk.
pub open spec fn content_bg(
    kind: LineKind,
    current: bool,
    dimmed: bool,
    tints: Option<(Color, Color)>,
) -> Option<Color> {
    if tints is Some && !dimmed && kind == LineKind::Add {
        Some((tints->0).0)
    } else if tints is Some && !dimmed && kind == LineKind::Del {
        Some((tints->0).1)
    } else if current {
        Some(current_body_bg())
    } else {
        None
    }
}

/// The background fill for a body row's content. When highlighting is on, `tints`
/// carries the theme-derived `(add, del)` colours; added/removed rows get the
/// matching tint. Otherwise only the current chunk's wash applies. A dimmed
/// (reviewed) row drops the tint so it stays visually quiet.
pub fn line_bg(
    kind: LineKind,
    current: bool,
    dimmed: bool,
    tints: Option<(Color, Color)>,
) -> (r: Option<Color>)
    ensures
        r == content_bg(kind, current, dimmed, tints),
{
    if let Some((add_tint, del_tint)) = tints {
        if !dimmed && kind == LineKind::Add {
            return Some(add_tint);
        }
        if !dimmed && kind == LineKind::Del {
            return Some(del_tint);
        }
    }
    if current {
        Some(Color::Indexed(236))
    } else {
        None
    }
}

// ── content ────────────────────────────────────────────────────────────────

/// A run of a line's text in one colour.
pub type Token = (Range<usize>, Color, Modifier);

/// Every token is a range of `text`.
pub open spec fn spans_fit(text: Seq<char>, spans: Seq<(Range<usize>, SynStyle)>) -> bool {
    forall|i: int|
        0 <= i < spans.len() ==> text_range(
            text,
            (#[trigger] spans[i]).0.start as int,
            spans[i].0.end as int,
        )
}

/// The tokens of a line: the highlighter's where there are any (and they are ranges
/// of the text), else the whole line in one colour.
pub open spec fn tokens_of(
    text: Seq<char>,
    line: DiffLine,
    spans: Seq<(Range<usize>, SynStyle)>,
    fg: Color,
) -> Seq<Token> {
    if spans.len() > 0 && spans_fit(text, spans) {
        spans.map_values(|s: (Range<usize>, SynStyle)| (s.0, s.1.fg, s.1.modifier))
    } else {
        seq![(line.text, fg, plain_text())]
    }
}

/// The style of a token.
pub open spec fn token_style(t: Token, dimmed: bool, bg: Option<Color>) -> Style {
    if dimmed {
        Style { bg, ..colored(Color::DarkGray) }
    } else {
        Style { fg: Some(t.1), bg, modifier: t.2 }
    }
}

/// The spans of the tokens from `i` on, and the column behind them.
pub open spec fn token_spans(
    text: Seq<char>,
    tokens: Seq<Token>,
    i: int,
    col: int,
    most: int,
    dimmed: bool,
    bg: Option<Color>,
) -> (Seq<SpanModel>, int)
    decreases tokens.len() - i,
{
    if i < 0 || i >= tokens.len() {
        (Seq::empty(), col)
    } else {
        let r = tokens[i].0;
        let (out, end, hit) = expanded(text_slice(text, r.start as int, r.end as int), col, most);
        let here = if out.len() > 0 {
            seq![span_of(out, token_style(tokens[i], dimmed, bg))]
        } else {
            Seq::empty()
        };
        if hit {
            (here, end)
        } else {
            let (rest, last) = token_spans(text, tokens, i + 1, end, most, dimmed, bg);
            (here + rest, last)
        }
    }
}

/// The columns that spans take.
pub open spec fn spans_columns(spans: Seq<SpanModel>) -> int
    decreases spans.len(),
{
    if spans.len() == 0 {
        0
    } else {
        spans_columns(spans.drop_last()) + total_columns(spans.last().text)
    }
}

proof fn lemma_columns_concat(a: Seq<char>, b: Seq<char>)
    ensures
        total_columns(a + b) == total_columns(a) + total_columns(b),
    decreases a.len(),
{
    if a.len() == 0 {
        assert(a + b =~= b);
    } else {
        lemma_columns_concat(a.skip(1), b);
        assert((a + b).skip(1) =~= a.skip(1) + b);
    }
}

proof fn lemma_spans_columns_concat(a: Seq<SpanModel>, b: Seq<SpanModel>)
    ensures
        spans_columns(a + b) == spans_columns(a) + spans_columns(b),
    decreases b.len(),
{
    if b.len() == 0 {
        assert(a + b =~= a);
    } else {
        lemma_spans_columns_concat(a, b.drop_last());
        assert((a + b).drop_last() =~= a + b.drop_last());
        assert((a + b).last() == b.last());
    }
}

proof fn lemma_one_span(s: SpanModel)
    ensures
        spans_columns(seq![s]) == total_columns(s.text),
{
    assert(seq![s].drop_last() =~= Seq::<SpanModel>::empty());
    assert(spans_columns(Seq::<SpanModel>::empty()) == 0);
}

/// The columns that expanded text takes are those it moves on by.
proof fn lemma_expanded_columns(s: Seq<char>, col: int, most: int)
    requires
        columns_of(' ') == 1,
        columns_of('\u{FFFD}') == 1,
        0 <= col <= most,
    ensures
        total_columns(expanded(s, col, most).0) == expanded(s, col, most).1 - col,
    decreases s.len(),
{
    let e = Seq::<char>::empty();
    if s.len() > 0 {
        if s[0] == '\t' {
            let spaces = TAB_WIDTH - col % (TAB_WIDTH as int);
            if spaces > most - col {
                lemma_padded_columns(e, most - col);
                assert(e + repeated(' ', most - col) =~= repeated(' ', most - col));
            } else {
                lemma_expanded_columns(s.skip(1), col + spaces, most);
                lemma_padded_columns(e, spaces);
                assert(e + repeated(' ', spaces) =~= repeated(' ', spaces));
                lemma_columns_concat(
                    repeated(' ', spaces),
                    expanded(s.skip(1), col + spaces, most).0,
                );
            }
        } else if control_char(s[0]) {
            if col < most {
                lemma_expanded_columns(s.skip(1), col + 1, most);
                let tail = expanded(s.skip(1), col + 1, most).0;
                assert((seq!['\u{FFFD}'] + tail).skip(1) =~= tail);
            }
        } else {
            let w = columns_of(s[0]);
            if col + w <= most {
                lemma_expanded_columns(s.skip(1), col + w, most);
                let tail = expanded(s.skip(1), col + w, most).0;
                assert((seq![s[0]] + tail).skip(1) =~= tail);
            }
        }
    }
}

/// The columns that the tokens of a line take are those they move on by.
proof fn lemma_token_columns(
    text: Seq<char>,
    tokens: Seq<Token>,
    i: int,
    col: int,
    most: int,
    dimmed: bool,
    bg: Option<Color>,
)
    requires
        columns_of(' ') == 1,
        columns_of('\u{FFFD}') == 1,
        0 <= col <= most,
    ensures
        ({
            let (spans, end) = token_spans(text, tokens, i, col, most, dimmed, bg);
            spans_columns(spans) == end - col && col <= end <= most
        }),
    decreases tokens.len() - i,
{
    if 0 <= i < tokens.len() {
        let r = tokens[i].0;
        let piece = text_slice(text, r.start as int, r.end as int);
        let (out, end, hit) = expanded(piece, col, most);
        lemma_expanded_columns(piece, col, most);
        law_expanded(piece, col, most);
        let one = span_of(out, token_style(tokens[i], dimmed, bg));
        let here = if out.len() > 0 {
            seq![one]
        } else {
            Seq::empty()
        };
        lemma_one_span(one);
        assert(spans_columns(here) == end - col);
        if !hit {
            lemma_token_columns(text, tokens, i + 1, end, most, dimmed, bg);
            lemma_spans_columns_concat(
                here,
                token_spans(text, tokens, i + 1, end, most, dimmed, bg).0,
            );
        }
    }
}

/// The content of a line in exactly `most` columns.
pub open spec fn filled_spans(
    text: Seq<char>,
    tokens: Seq<Token>,
    dimmed: bool,
    bg: Option<Color>,
    most: int,
) -> Seq<SpanModel> {
    let (spans, end) = token_spans(text, tokens, 0, 0, most, dimmed, bg);
    if end < most {
        spans.push(span_of(repeated(' ', most - end), Style { bg, ..no_style() }))
    } else {
        spans
    }
}

proof fn lemma_filled_columns(
    text: Seq<char>,
    tokens: Seq<Token>,
    dimmed: bool,
    bg: Option<Color>,
    most: int,
)
    requires
        columns_of(' ') == 1,
        columns_of('\u{FFFD}') == 1,
        0 <= most,
    ensures
        spans_columns(filled_spans(text, tokens, dimmed, bg, most)) == most,
{
    let (spans, end) = token_spans(text, tokens, 0, 0, most, dimmed, bg);
    lemma_token_columns(text, tokens, 0, 0, most, dimmed, bg);
    if end < most {
        let e = Seq::<char>::empty();
        lemma_padded_columns(e, most - end);
        assert(e + repeated(' ', most - end) =~= repeated(' ', most - end));
        let pad = span_of(repeated(' ', most - end), Style { bg, ..no_style() });
        assert(spans.push(pad).drop_last() =~= spans);
    }
}

/// A blank and the replacement character take one column each.
fn know_blanks()
    ensures
        columns_of(' ') == 1,
        columns_of('\u{FFFD}') == 1,
{
    let _ = columns(' ');
    let _ = columns('\u{FFFD}');
}

/// The content of a line in `most` columns; with a background it fills them.
pub open spec fn content_spans(
    text: Seq<char>,
    tokens: Seq<Token>,
    dimmed: bool,
    bg: Option<Color>,
    most: int,
) -> Seq<SpanModel> {
    let (spans, end) = token_spans(text, tokens, 0, 0, most, dimmed, bg);
    if bg is Some && end < most {
        spans.push(span_of(repeated(' ', most - end), Style { bg, ..no_style() }))
    } else {
        spans
    }
}

/// Whether every token is a range of `text`.
fn check_spans(text: &str, spans: &Vec<(Range<usize>, SynStyle)>) -> (r: bool)
    ensures
        r == spans_fit(text@, spans@),
{
    let size = text.as_bytes().len();
    let n = spans.len();
    for i in 0..n
        invariant
            n == spans@.len(),
            size == encode_utf8(text@).len(),
            forall|k: int|
                0 <= k < i ==> text_range(
                    text@,
                    (#[trigger] spans@[k]).0.start as int,
                    spans@[k].0.end as int,
                ),
    {
        let start = spans[i].0.start;
        let end = spans[i].0.end;
        let ok = start <= end && end <= size && text.is_char_boundary(start)
            && text.is_char_boundary(end);
        if !ok {
            assert(!text_range(
                text@,
                spans@[i as int].0.start as int,
                spans@[i as int].0.end as int,
            ));
            return false;
        }
    }
    true
}

/// The tokens of a line.
fn line_tokens(text: &str, line: &DiffLine, styled: Option<&StyledLine>, fg: Color) -> (r: Vec<
    Token,
>)
    requires
        text_range(text@, line.text.start as int, line.text.end as int),
    ensures
        r@ == tokens_of(
            text@,
            *line,
            match styled {
                Some(s) => s.spans@,
                None => Seq::empty(),
            },
            fg,
        ),
        forall|i: int|
            0 <= i < r@.len() ==> text_range(
                text@,
                (#[trigger] r@[i]).0.start as int,
                r@[i].0.end as int,
            ),
{
    let mut out: Vec<Token> = Vec::new();
    if let Some(s) = styled {
        if s.spans.len() > 0 && check_spans(text, &s.spans) {
            let n = s.spans.len();
            let ghost want = tokens_of(text@, *line, s.spans@, fg);
            for i in 0..n
                invariant
                    n == s.spans@.len(),
                    n > 0,
                    spans_fit(text@, s.spans@),
                    want == tokens_of(text@, *line, s.spans@, fg),
                    out@ == want.take(i as int),
            {
                let (range, style) = (&s.spans[i].0, s.spans[i].1);
                let token = (range.start..range.end, style.fg, style.modifier);
                out.push(token);
                assert(want[i as int] == token);
                proof {
                    lemma_take_step(want, i as int);
                }
            }
            assert(want.take(n as int) =~= want);
            assert forall|i: int| 0 <= i < out@.len() implies text_range(
                text@,
                (#[trigger] out@[i]).0.start as int,
                out@[i].0.end as int,
            ) by {
                assert(out@[i].0 == s.spans@[i].0);
            }
            return out;
        }
    }
    out.push((line.text.start..line.text.end, fg, Modifier::empty()));
    assert(out@ =~= seq![(line.text, fg, plain_text())]);
    out
}

/// The spans of a diff line's tokens, and the column behind them.
fn token_content(
    fd: &FileDiff,
    line: &DiffLine,
    styled: Option<&StyledLine>,
    base_fg: Color,
    dimmed: bool,
    bg: Option<Color>,
    max_cols: usize,
) -> (r: (Vec<Span>, usize))
    requires
        text_range(fd@.text, line.text.start as int, line.text.end as int),
    ensures
        (span_models(r.0@), r.1 as int) == token_spans(
            fd@.text,
            tokens_of(
                fd@.text,
                *line,
                match styled {
                    Some(s) => s.spans@,
                    None => Seq::empty(),
                },
                base_fg,
            ),
            0,
            0,
            max_cols as int,
            dimmed,
            bg,
        ),
        r.1 <= max_cols,
{
    let text = fd.text.as_str();
    let tokens = line_tokens(text, line, styled, base_fg);
    let mut spans: Vec<Span> = Vec::new();
    let mut col: usize = 0;
    let n = tokens.len();
    let mut i: usize = 0;
    let ghost all = token_spans(text@, tokens@, 0, 0, max_cols as int, dimmed, bg);
    assert(span_models(spans@) + all.0 =~= all.0);
    while i < n
        invariant_except_break
            ({
                let rest = token_spans(
                    text@,
                    tokens@,
                    i as int,
                    col as int,
                    max_cols as int,
                    dimmed,
                    bg,
                );
                &&& span_models(spans@) + rest.0 == all.0
                &&& rest.1 == all.1
            }),
        invariant
            n == tokens@.len(),
            i <= n,
            col <= max_cols,
            forall|i: int|
                0 <= i < tokens@.len() ==> text_range(
                    text@,
                    (#[trigger] tokens@[i]).0.start as int,
                    tokens@[i].0.end as int,
                ),
        ensures
            col <= max_cols,
            span_models(spans@) == all.0,
            col == all.1,
        decreases n - i,
    {
        let token = &tokens[i];
        let ghost t = tokens@[i as int];
        let ghost start_col = col as int;
        let ghost was = span_models(spans@);
        assert(text_range(text@, t.0.start as int, t.0.end as int));
        let mut out = String::new();
        let hit = push_expanded(
            &mut out,
            slice_str(text, token.0.start, token.0.end),
            &mut col,
            max_cols,
        );
        let ghost piece = expanded(
            text_slice(text@, t.0.start as int, t.0.end as int),
            start_col,
            max_cols as int,
        );
        assert(out@ =~= piece.0);
        let ghost here = if piece.0.len() > 0 {
            seq![span_of(piece.0, token_style(t, dimmed, bg))]
        } else {
            Seq::empty()
        };
        if out.as_str().unicode_len() > 0 {
            let style = if dimmed {
                Style::fg(Color::DarkGray).on(bg)
            } else {
                Style { fg: Some(token.1), bg, modifier: token.2 }
            };
            push_span(&mut spans, out, style);
        }
        assert(span_models(spans@) =~= was + here);
        if hit {
            break;
        }
        proof {
            let rest = token_spans(
                text@,
                tokens@,
                i + 1,
                col as int,
                max_cols as int,
                dimmed,
                bg,
            ).0;
            assert(was + (here + rest) =~= (was + here) + rest);
        }
        i += 1;
        if i == n {
            assert(span_models(spans@) + Seq::<SpanModel>::empty() =~= span_models(spans@));
        }
    }
    (spans, col)
}

/// Build the content spans for a diff line: one span per syntax token (or a single
/// flat span when `styled` is absent/empty), expanding tabs and sanitizing control
/// characters across a shared display-column counter so tab stops line up across
/// token boundaries. Truncates to `max_cols`; if `bg` is set, pads with spaces so
/// the background fills the row's content area.
pub fn styled_content(
    fd: &FileDiff,
    line: &DiffLine,
    styled: Option<&StyledLine>,
    base_fg: Color,
    dimmed: bool,
    bg: Option<Color>,
    max_cols: usize,
) -> (r: Vec<Span>)
    requires
        text_range(fd@.text, line.text.start as int, line.text.end as int),
    ensures
        span_models(r@) == content_spans(
            fd@.text,
            tokens_of(
                fd@.text,
                *line,
                match styled {
                    Some(s) => s.spans@,
                    None => Seq::empty(),
                },
                base_fg,
            ),
            dimmed,
            bg,
            max_cols as int,
        ),
{
    let (mut spans, col) = token_content(fd, line, styled, base_fg, dimmed, bg, max_cols);
    if bg.is_some() && col < max_cols {
        push_span(&mut spans, repeat_char(' ', max_cols - col), Style::none().on(bg));
    }
    spans
}

// ── rows ───────────────────────────────────────────────────────────────────

/// The number of folded lines as it is shown behind a header.
pub open spec fn hidden_suffix(lines: Option<nat>) -> Seq<char> {
    match lines {
        Some(n) => if n > 0 {
            "   "@ + decimal(n) + " "@ + if n == 1 {
                "line"@
            } else {
                "lines"@
            }
        } else {
            Seq::empty()
        },
        None => Seq::empty(),
    }
}

/// The style of a chunk header.
pub open spec fn header_style(current: bool, reviewed: bool) -> Style {
    if current {
        Style { bg: Some(current_header_bg()), ..bold_colored(Color::Yellow) }
    } else if reviewed {
        bold_colored(Color::Green)
    } else {
        bold_colored(Color::Cyan)
    }
}

/// The bar in front of rows of the current chunk.
pub open spec fn lead_of(current: bool, glyphs: Glyphs) -> char {
    if current {
        glyphs.chunk_bar
    } else {
        ' '
    }
}

/// A chunk header.
pub open spec fn header_of(
    text: Seq<char>,
    current: bool,
    reviewed: bool,
    hidden: Option<nat>,
    glyphs: Glyphs,
    width: int,
) -> LineModel {
    let mark = if reviewed {
        glyphs.reviewed@ + " "@
    } else {
        Seq::empty()
    };
    styled_line(
        fitted(
            seq![lead_of(current, glyphs)] + " "@ + mark + text + hidden_suffix(hidden),
            width,
        ),
        header_style(current, reviewed),
    )
}

pub open spec fn opt_nat(n: Option<usize>) -> Option<nat> {
    match n {
        Some(n) => Some(n as nat),
        None => None,
    }
}

/// Build a styled chunk-header line. The current chunk gets the accent bar, a
/// contrasting colour, and a full-width background fill so it's obvious which
/// change is selected; others keep a blank lead column so the header text doesn't
/// shift as you navigate. The line is padded/truncated to `width`.
pub fn header_line(
    text: &str,
    current: bool,
    reviewed: bool,
    hidden: Option<usize>,
    g: &Glyphs,
    width: usize,
) -> (r: Line)
    ensures
        r@ == header_of(text@, current, reviewed, opt_nat(hidden), *g, width as int),
{
    let lead = if current {
        g.chunk_bar
    } else {
        ' '
    };
    let mut body = char_string(lead);
    body.append(" ");
    let mut mark = String::new();
    if reviewed {
        mark.append(g.reviewed);
        mark.append(" ");
        assert(mark@ =~= g.reviewed@ + " "@);
    } else {
        assert(mark@ =~= Seq::<char>::empty());
    }
    let mut suffix = String::new();
    assert(suffix@ =~= Seq::<char>::empty());
    if let Some(n) = hidden {
        if n > 0 {
            suffix.append("   ");
            suffix.append(to_decimal(n as u128).as_str());
            suffix.append(" ");
            suffix.append(
                if n == 1 {
                    "line"
                } else {
                    "lines"
                },
            );
            assert(suffix@ =~= hidden_suffix(opt_nat(hidden)));
        }
    }
    assert(suffix@ == hidden_suffix(opt_nat(hidden)));
    body.append(mark.as_str());
    body.append(text);
    body.append(suffix.as_str());
    let style = if current {
        Style::bold(Color::Yellow).on(Some(Color::Indexed(238)))
    } else if reviewed {
        Style::bold(Color::Green)
    } else {
        Style::bold(Color::Cyan)
    };
    Line::styled(fit(body.as_str(), width), style)
}

/// The wash of the current chunk's rows.
pub open spec fn chrome_of(current: bool) -> Option<Color> {
    if current {
        Some(current_body_bg())
    } else {
        None
    }
}

/// The span of the lead column.
pub open spec fn lead_span(current: bool, glyphs: Glyphs) -> SpanModel {
    span_of(
        seq![lead_of(current, glyphs)],
        Style {
            bg: chrome_of(current),
            ..colored(
                if current {
                    Color::Yellow
                } else {
                    Color::DarkGray
                },
            )
        },
    )
}

/// The gutter of a unified row.
pub open spec fn gutter_of(line: DiffLine) -> Seq<char> {
    right_aligned(number_text(line.old_no), 5) + " "@ + right_aligned(number_text(line.new_no), 5)
        + " "@ + seq![marker_of(line.kind).0] + " "@
}

/// A unified body row.
pub open spec fn body_of(
    text: Seq<char>,
    line: DiffLine,
    spans: Seq<(Range<usize>, SynStyle)>,
    current: bool,
    dimmed: bool,
    tints: Option<(Color, Color)>,
    glyphs: Glyphs,
    width: int,
) -> LineModel {
    let gutter = gutter_of(line);
    let bg = content_bg(line.kind, current, dimmed, tints);
    let most = less(width, 1 + text_columns(gutter));
    line_of(
        seq![
            lead_span(current, glyphs),
            span_of(gutter, Style { bg: chrome_of(current), ..colored(Color::DarkGray) }),
        ] + content_spans(
            text,
            tokens_of(text, line, spans, marker_of(line.kind).1),
            dimmed,
            bg,
            most,
        ),
    )
}

fn chrome(current: bool) -> (r: Option<Color>)
    ensures
        r == chrome_of(current),
{
    if current {
        Some(Color::Indexed(236))
    } else {
        None
    }
}

fn push_lead(spans: &mut Vec<Span>, current: bool, g: &Glyphs)
    ensures
        span_models(final(spans)@) == span_models(old(spans)@).push(lead_span(current, *g)),
{
    let lead = if current {
        g.chunk_bar
    } else {
        ' '
    };
    let fg = if current {
        Color::Yellow
    } else {
        Color::DarkGray
    };
    push_span(spans, char_string(lead), Style::fg(fg).on(chrome(current)));
}

/// The spans behind an optional styled line.
pub open spec fn styled_spans(styled: Option<&StyledLine>) -> Seq<(Range<usize>, SynStyle)> {
    match styled {
        Some(s) => s.spans@,
        None => Seq::empty(),
    }
}

/// Build a styled unified body row. Rows inside the current chunk get the left
/// accent bar and a subtle full-row background wash. The leading bar column is
/// present (as a blank) on every row so content stays vertically aligned.
///
/// When `tints` is set (syntax highlighting on), added/removed rows carry the
/// theme-derived green/red background and the code shows its syntax colours in the
/// foreground; `styled` holds the per-token colours (absent → the flat colour of
/// the line's kind).
pub fn body_line(
    fd: &FileDiff,
    line: &DiffLine,
    styled: Option<&StyledLine>,
    current: bool,
    dimmed: bool,
    tints: Option<(Color, Color)>,
    g: &Glyphs,
    width: usize,
) -> (r: Line)
    requires
        text_range(fd@.text, line.text.start as int, line.text.end as int),
    ensures
        r@ == body_of(
            fd@.text,
            *line,
            styled_spans(styled),
            current,
            dimmed,
            tints,
            *g,
            width as int,
        ),
{
    let (mark, color) = line_marker(line.kind);
    let mut gutter = align_right(fmt_no(line.old_no).as_str(), 5);
    gutter.append(" ");
    gutter.append(align_right(fmt_no(line.new_no).as_str(), 5).as_str());
    gutter.append(" ");
    push_char(&mut gutter, mark);
    gutter.append(" ");
    assert(gutter@ =~= gutter_of(*line));
    let gutter_w = text_width(gutter.as_str());
    let bg = line_bg(line.kind, current, dimmed, tints);
    let max_cols = if width > 0 && width - 1 > gutter_w {
        width - 1 - gutter_w
    } else {
        0
    };
    let mut spans: Vec<Span> = Vec::new();
    push_lead(&mut spans, current, g);
    push_span(&mut spans, gutter, Style::fg(Color::DarkGray).on(chrome(current)));
    append_spans(&mut spans, styled_content(fd, line, styled, color, dimmed, bg, max_cols));
    let r = Line::from_spans(spans);
    assert(r@.spans =~= body_of(
        fd@.text,
        *line,
        styled_spans(styled),
        current,
        dimmed,
        tints,
        *g,
        width as int,
    ).spans);
    r
}

/// One of the two sides of a side-by-side row.
#[derive(Debug, Clone, Copy, PartialEq, Eq, Structural)]
pub enum Side {
    Old,
    New,
}

/// The number, mark and colour of a line on one side.
pub open spec fn side_marks(line: DiffLine, side: Side) -> (Option<u32>, char, Color) {
    match side {
        Side::Old => if line.kind == LineKind::Del {
            (line.old_no, '-', Color::Red)
        } else {
            (line.old_no, ' ', Color::Gray)
        },
        Side::New => if line.kind == LineKind::Add {
            (line.new_no, '+', Color::Green)
        } else {
            (line.new_no, ' ', Color::Gray)
        },
    }
}

/// The gutter of a line on one side: its number and its mark. All of it is printable
/// ASCII, so it takes as many columns as it has characters.
pub open spec fn side_gutter(line: DiffLine, side: Side) -> Seq<char> {
    let (no, mark, _) = side_marks(line, side);
    right_aligned(number_text(no), 4) + " "@ + seq![mark] + " "@
}

/// What a cell of `width` columns shows of the gutter: as much as has room.
pub open spec fn cell_gutter(line: DiffLine, side: Side, width: int) -> Seq<char> {
    let gutter = side_gutter(line, side);
    if gutter.len() <= width {
        gutter
    } else {
        gutter.take(width)
    }
}

/// One side of a row: a blank cell where there is no line.
pub open spec fn cell_spans(
    d: DiffModel,
    cell: Option<(usize, usize)>,
    width: int,
    side: Side,
    dimmed: bool,
    current: bool,
    hl: Option<Arc<FileHighlight>>,
) -> Seq<SpanModel> {
    match cell {
        None => seq![
            span_of(repeated(' ', width), Style { bg: chrome_of(current), ..no_style() }),
        ],
        Some((h, l)) => {
            let line = d.chunks[h as int].lines[l as int];
            let (no, mark, color) = side_marks(line, side);
            let bg = content_bg(line.kind, current, dimmed, tints_of(hl));
            let gutter = cell_gutter(line, side, width);
            let gutter_fg = if dimmed {
                Color::DarkGray
            } else {
                color
            };
            seq![span_of(gutter, Style { bg, ..colored(gutter_fg) })] + filled_spans(
                d.text,
                tokens_of(d.text, line, highlight_spans(hl, h as int, l as int), color),
                dimmed,
                bg,
                less(width, gutter.len() as int),
            )
        },
    }
}

/// The line tints of a highlight.
pub open spec fn tints_of(hl: Option<Arc<FileHighlight>>) -> Option<(Color, Color)> {
    match hl {
        Some(h) => Some((h.add_bg, h.del_bg)),
        None => None,
    }
}

/// The tokens of a line in an optional highlight.
pub open spec fn highlight_spans(hl: Option<Arc<FileHighlight>>, h: int, l: int) -> Seq<
    (Range<usize>, SynStyle),
> {
    match hl {
        Some(hl) => spans_at(*hl, h, l),
        None => Seq::empty(),
    }
}

fn tints(hl: &Option<Arc<FileHighlight>>) -> (r: Option<(Color, Color)>)
    ensures
        r == tints_of(*hl),
{
    match hl {
        Some(h) => Some((h.add_bg, h.del_bg)),
        None => None,
    }
}

fn styled_at(hl: &Option<Arc<FileHighlight>>, h: usize, l: usize) -> (r: Option<&StyledLine>)
    ensures
        styled_spans(r) == highlight_spans(*hl, h as int, l as int),
{
    match hl {
        Some(x) => x.line(h, l),
        None => None,
    }
}

/// The columns of printable ASCII are its characters.
fn ascii_columns(s: &str) -> (r: usize)
    requires
        forall|i: int| 0 <= i < s@.len() ==> 0x20 <= #[trigger] s@[i] as u32 <= 0x7e,
    ensures
        r == s@.len(),
        total_columns(s@) == s@.len(),
{
    let chars = chars_of(s);
    let n = chars.len();
    let mut used: usize = 0;
    let mut i: usize = n;
    assert(chars@.skip(n as int) =~= Seq::<char>::empty());
    while i > 0
        invariant
            n == chars@.len(),
            chars@ == s@,
            i <= n,
            used == n - i,
            total_columns(chars@.skip(i as int)) == n - i,
            forall|i: int| 0 <= i < s@.len() ==> 0x20 <= #[trigger] s@[i] as u32 <= 0x7e,
        decreases i,
    {
        i -= 1;
        assert(chars@[i as int] == s@[i as int]);
        used += columns(chars[i]);
        assert(chars@.skip(i as int).skip(1) =~= chars@.skip(i + 1));
        assert(chars@.skip(i as int)[0] == chars@[i as int]);
    }
    assert(chars@.skip(0) =~= s@);
    used
}

/// Decimal digits are printable ASCII.
proof fn lemma_number_printable(n: nat)
    ensures
        forall|i: int|
            0 <= i < decimal(n).len() ==> 0x20 <= #[trigger] decimal(n)[i] as u32 <= 0x7e,
{
    lemma_decimal_round_trip(n);
    assert forall|i: int| 0 <= i < decimal(n).len() implies 0x20 <= #[trigger] decimal(n)[i] as u32
        <= 0x7e by {
        assert(digit(decimal(n)[i]));
    }
}

proof fn lemma_gutter_printable(line: DiffLine, side: Side)
    ensures
        forall|i: int|
            0 <= i < side_gutter(line, side).len() ==> 0x20 <= #[trigger] side_gutter(
                line,
                side,
            )[i] as u32 <= 0x7e,
{
    reveal_strlit(" ");
    let (no, mark, _) = side_marks(line, side);
    let num = number_text(no);
    if no is Some {
        lemma_number_printable(no->0 as nat);
    }
    let g = side_gutter(line, side);
    let pad = repeated(' ', 4 - num.len());
    assert forall|i: int| 0 <= i < g.len() implies 0x20 <= #[trigger] g[i] as u32 <= 0x7e by {
        if i < pad.len() {
            assert(g[i] == ' ');
        } else if i < pad.len() + num.len() {
            assert(g[i] == num[i - pad.len()]);
        } else if i == pad.len() + num.len() + 1 {
            assert(g[i] == mark);
        } else {
            assert(g[i] == ' ');
        }
    }
}

/// Render one side of a side-by-side row as styled spans, filling exactly `width`
/// columns. An absent line yields a blank cell. The line-number gutter keeps the
/// side's diff colour (red on the old side's deletions, green on the new side's
/// additions) and is cut where it is wider than the cell; code content is
/// syntax-highlighted (with a faint add/del background tint) when there is a
/// highlight, else flat-coloured.
pub fn side_cell(
    fd: &FileDiff,
    cell: Option<(usize, usize)>,
    width: usize,
    side: Side,
    dimmed: bool,
    current: bool,
    highlight: &Option<Arc<FileHighlight>>,
) -> (r: Vec<Span>)
    requires
        fd@.wf(),
        crate::app::rows::cell_ok(fd@.chunks, cell),
    ensures
        span_models(r@) == cell_spans(
            fd@,
            cell,
            width as int,
            side,
            dimmed,
            current,
            *highlight,
        ),
        spans_columns(span_models(r@)) == width,
{
    know_blanks();
    let mut spans: Vec<Span> = Vec::new();
    let (h, l) = match cell {
        Some(c) => c,
        None => {
            // A blank cell still carries the wash, so the block reads as one.
            push_span(&mut spans, repeat_char(' ', width), Style::none().on(chrome(current)));
            assert(span_models(spans@) =~= cell_spans(
                fd@,
                cell,
                width as int,
                side,
                dimmed,
                current,
                *highlight,
            ));
            proof {
                let e = Seq::<char>::empty();
                lemma_padded_columns(e, width as int);
                assert(e + repeated(' ', width as int) =~= repeated(' ', width as int));
                lemma_one_span(span_models(spans@)[0]);
                assert(span_models(spans@) =~= seq![span_models(spans@)[0]]);
            }
            return spans;
        },
    };
    let line = &fd.chunks[h].lines[l];
    assert(fd@.chunks[h as int].in_text(fd@.text));
    assert(*line == fd@.chunks[h as int].lines[l as int]);
    let (no, mark, color) = match side {
        Side::Old => {
            if line.kind == LineKind::Del {
                (line.old_no, '-', Color::Red)
            } else {
                (line.old_no, ' ', Color::Gray)
            }
        },
        Side::New => {
            if line.kind == LineKind::Add {
                (line.new_no, '+', Color::Green)
            } else {
                (line.new_no, ' ', Color::Gray)
            }
        },
    };
    let bg = line_bg(line.kind, current, dimmed, tints(highlight));
    let mut gutter = align_right(fmt_no(no).as_str(), 4);
    gutter.append(" ");
    push_char(&mut gutter, mark);
    gutter.append(" ");
    assert(gutter@ =~= side_gutter(*line, side));
    proof {
        lemma_gutter_printable(*line, side);
    }
    let mut shown = chars_of(gutter.as_str());
    shown.truncate(width);
    let gutter = string_of(shown.as_slice());
    assert(gutter@ =~= cell_gutter(*line, side, width as int));
    assert forall|i: int| 0 <= i < gutter@.len() implies 0x20 <= #[trigger] gutter@[i] as u32
        <= 0x7e by {
        assert(gutter@[i] == side_gutter(*line, side)[i]);
    }
    let gutter_w = ascii_columns(gutter.as_str());
    let gutter_fg = if dimmed {
        Color::DarkGray
    } else {
        color
    };
    push_span(&mut spans, gutter, Style::fg(gutter_fg).on(bg));
    let max_cols = width - gutter_w;
    let ghost head = span_models(spans@);
    let (content, col) = token_content(
        fd,
        line,
        styled_at(highlight, h, l),
        color,
        dimmed,
        bg,
        max_cols,
    );
    append_spans(&mut spans, content);
    if col < max_cols {
        push_span(&mut spans, repeat_char(' ', max_cols - col), Style::none().on(bg));
    }
    let ghost filled = filled_spans(
        fd@.text,
        tokens_of(
            fd@.text,
            *line,
            highlight_spans(*highlight, h as int, l as int),
            color,
        ),
        dimmed,
        bg,
        max_cols as int,
    );
    proof {
        assert(span_models(spans@) =~= head + filled);
        assert(head =~= seq![head[0]]);
        lemma_one_span(head[0]);
        lemma_spans_columns_concat(head, filled);
        lemma_filled_columns(
            fd@.text,
            tokens_of(
                fd@.text,
                *line,
                highlight_spans(*highlight, h as int, l as int),
                color,
            ),
            dimmed,
            bg,
            max_cols as int,
        );
    }
    assert(span_models(spans@) =~= cell_spans(
        fd@,
        cell,
        width as int,
        side,
        dimmed,
        current,
        *highlight,
    ));
    spans
}

// ── the two layouts ────────────────────────────────────────────────────────

/// The number of body lines that a folded chunk hides; none where it is open.
pub open spec fn hidden_lines(s: AppState, h: int) -> Option<nat> {
    if folded(s.chunk_collapsed, h) {
        Some(s.diff->0.chunks[h].lines.len())
    } else {
        None
    }
}

/// The header row of chunk `h`.
pub open spec fn header_row(s: AppState, h: int, width: int) -> LineModel {
    let d = s.diff->0;
    let header = d.chunks[h].header;
    header_of(
        sanitized(text_slice(d.text, header.start as int, header.end as int)),
        h == s.current_chunk,
        s.is_chunk_reviewed(h),
        hidden_lines(s, h),
        s.glyphs,
        width,
    )
}

/// Reviewed chunks are dimmed.
pub open spec fn dims(s: AppState) -> bool {
    s.config.reviewed_chunks == ReviewedDisplay::Dim
}

/// One row of the unified view.
pub open spec fn unified_line(s: AppState, row: RowRef, width: int) -> LineModel {
    let d = s.diff->0;
    match row {
        RowRef::Header(h) => header_row(s, h as int, width),
        RowRef::Line(h, l) => body_of(
            d.text,
            d.chunks[h as int].lines[l as int],
            highlight_spans(s.highlight, h as int, l as int),
            h == s.current_chunk,
            dims(s) && s.is_chunk_reviewed(h as int),
            tints_of(s.highlight),
            s.glyphs,
            width,
        ),
    }
}

/// The rows of the unified view that are in the viewport.
pub open spec fn unified_lines_of(s: AppState, width: int, height: int) -> Seq<LineModel> {
    let total = s.diff_rows.len() as int;
    let start = clamped(s.scroll as int, height, total);
    Seq::new(
        (min_of(start + height, total) - start) as nat,
        |k: int| unified_line(s, s.diff_rows[start + k], width),
    )
}

/// The chunk of a paired row.
pub open spec fn pair_chunk(
    left: Option<(usize, usize)>,
    right: Option<(usize, usize)>,
) -> Option<usize> {
    match (left, right) {
        (Some((h, _)), _) => Some(h),
        (None, Some((h, _))) => Some(h),
        (None, None) => None,
    }
}

/// The width of the left column: half of what the lead column and the divider
/// leave.
pub open spec fn left_width(width: int) -> int {
    (width - 2) / 2
}

/// One row of the side-by-side view.
pub open spec fn side_line(s: AppState, row: SideRow, width: int) -> LineModel {
    let d = s.diff->0;
    match row {
        SideRow::Header(h) => header_row(s, h as int, width),
        SideRow::Pair { left, right } => {
            let chunk = pair_chunk(left, right);
            let current = chunk == Some(s.current_chunk);
            let dimmed = dims(s) && chunk is Some && s.is_chunk_reviewed(chunk->0 as int);
            let left_w = left_width(width);
            let right_w = width - 2 - left_w;
            line_of(
                seq![lead_span(current, s.glyphs)] + cell_spans(
                    d,
                    left,
                    left_w,
                    Side::Old,
                    dimmed,
                    current,
                    s.highlight,
                ) + seq![
                    span_of("│"@, Style { bg: chrome_of(current), ..colored(Color::DarkGray) }),
                ] + cell_spans(d, right, right_w, Side::New, dimmed, current, s.highlight),
            )
        },
    }
}

/// The rows of the side-by-side view that are in the viewport; none where it is
/// too narrow.
pub open spec fn side_lines_of(s: AppState, width: int, height: int) -> Seq<LineModel> {
    let total = s.side_rows.len() as int;
    let start = clamped(s.scroll as int, height, total);
    if width < 4 {
        Seq::empty()
    } else {
        Seq::new(
            (min_of(start + height, total) - start) as nat,
            |k: int| side_line(s, s.side_rows[start + k], width),
        )
    }
}

/// However long the diff is, no more rows are laid out than the panel has.
pub proof fn law_rows_are_bounded(s: AppState, width: int, height: int)
    requires
        height >= 0,
    ensures
        unified_lines_of(s, width, height).len() <= height,
        side_lines_of(s, width, height).len() <= height,
{
}

/// A second handle on the diff in view.
fn get_diff(app: &App) -> (r: Option<Arc<FileDiff>>)
    requires
        app.wf(),
    ensures
        crate::app::session::opt_diff(r) == app@.diff,
        r is Some ==> r->0@.wf(),
{
    proof {
        reveal(App::state);
        reveal(diff_ok);
    }
    match &app.diff {
        Some(d) => Some(share(d)),
        None => None,
    }
}

fn get_highlight(app: &App) -> (r: Option<Arc<FileHighlight>>)
    ensures
        r == app@.highlight,
{
    proof {
        reveal(App::state);
    }
    match &app.highlight {
        Some(h) => Some(share(h)),
        None => None,
    }
}

fn folded_lines(app: &App, fd: &FileDiff, h: usize) -> (r: Option<usize>)
    requires
        app@.diff == Some(fd@),
        h < fd@.chunks.len(),
    ensures
        opt_nat(r) == hidden_lines(app@, h as int),
{
    proof {
        reveal(App::state);
    }
    if h < app.chunk_collapsed.len() && app.chunk_collapsed[h] {
        assert(fd@.chunks[h as int] == fd.chunks@[h as int]@);
        Some(fd.chunks[h].lines.len())
    } else {
        None
    }
}

fn get_view(app: &App) -> (r: (usize, Glyphs, bool, usize))
    ensures
        r.0 == app@.current_chunk,
        r.1 == app@.glyphs,
        r.2 == dims(app@),
        r.3 == app@.scroll,
{
    proof {
        reveal(App::state);
    }
    (
        app.current_chunk,
        app.glyphs,
        matches!(app.config.reviewed_chunks, ReviewedDisplay::Dim),
        app.scroll,
    )
}

fn write_header(app: &App, fd: &FileDiff, h: usize, width: usize) -> (r: Line)
    requires
        app.wf(),
        app@.diff == Some(fd@),
        fd@.wf(),
        h < fd@.chunks.len(),
    ensures
        r@ == header_row(app@, h as int, width as int),
{
    let (current, glyphs, _, _) = get_view(app);
    assert(fd@.chunks[h as int].in_text(fd@.text));
    assert(fd@.chunks[h as int] == fd.chunks@[h as int]@);
    let text = sanitize(fd.slice(&fd.chunks[h].header));
    header_line(
        text.as_str(),
        h == current,
        app.chunk_reviewed(h),
        folded_lines(app, fd, h),
        &glyphs,
        width,
    )
}

fn unified_row(app: &App, fd: &FileDiff, i: usize) -> (r: RowRef)
    requires
        app.wf(),
        app@.diff == Some(fd@),
        i < app@.diff_rows.len(),
    ensures
        r == app@.diff_rows[i as int],
        row_ok(fd@.chunks, r),
{
    proof {
        reveal(App::state);
        reveal(rows_ok);
        let chunks = fd@.chunks;
        assert forall|h: int| 0 <= h < chunks.len() implies (#[trigger] chunks[h]).lines.len()
            <= usize::MAX by {
            assert(chunks[h] == fd.chunks@[h]@);
            assert(fd.chunks@[h].lines.len() <= usize::MAX);
        }
        assert(fd.chunks.len() <= usize::MAX);
        lemma_unified_rows(chunks, app@.chunk_collapsed, chunks.len() as int);
    }
    app.diff_rows[i]
}

fn side_row(app: &App, fd: &FileDiff, i: usize) -> (r: SideRow)
    requires
        app.wf(),
        app@.diff == Some(fd@),
        i < app@.side_rows.len(),
    ensures
        r == app@.side_rows[i as int],
        side_row_ok(fd@.chunks, r),
{
    proof {
        reveal(App::state);
        reveal(rows_ok);
        let chunks = fd@.chunks;
        assert forall|h: int| 0 <= h < chunks.len() implies (#[trigger] chunks[h]).lines.len()
            <= usize::MAX by {
            assert(chunks[h] == fd.chunks@[h]@);
            assert(fd.chunks@[h].lines.len() <= usize::MAX);
        }
        assert(fd.chunks.len() <= usize::MAX);
        lemma_side_rows(chunks, app@.chunk_collapsed, chunks.len() as int);
    }
    app.side_rows[i]
}

fn row_counts(app: &App) -> (r: (usize, usize))
    ensures
        r.0 == app@.diff_rows.len(),
        r.1 == app@.side_rows.len(),
{
    proof {
        reveal(App::state);
    }
    (app.diff_rows.len(), app.side_rows.len())
}

/// The rows of the unified view in an area of this size.
pub fn unified_lines(app: &App, fd: &FileDiff, width: usize, height: usize) -> (r: Vec<Line>)
    requires
        app.wf(),
        app@.diff == Some(fd@),
        fd@.wf(),
    ensures
        line_models(r@) == unified_lines_of(app@, width as int, height as int),
{
    let highlight = get_highlight(app);
    let (current, glyphs, dim_reviewed, scroll) = get_view(app);
    let (total, _) = row_counts(app);
    let window = visible_range(scroll, height, total);
    let ghost want = unified_lines_of(app@, width as int, height as int);
    let count = window.end - window.start;
    let start = window.start;
    assert(want.len() == count);
    let mut lines: Vec<Line> = Vec::new();
    for k in 0..count
        invariant
            app.wf(),
            app@.diff == Some(fd@),
            fd@.wf(),
            highlight == app@.highlight,
            current == app@.current_chunk,
            glyphs == app@.glyphs,
            dim_reviewed == dims(app@),
            total == app@.diff_rows.len(),
            start == clamped(app@.scroll as int, height as int, total as int),
            count == min_of(start + height, total as int) - start,
            want == unified_lines_of(app@, width as int, height as int),
            line_models(lines@) == want.take(k as int),
    {
        let row = unified_row(app, fd, start + k);
        let line = match row {
            RowRef::Header(h) => write_header(app, fd, h, width),
            RowRef::Line(h, l) => {
                let dl = &fd.chunks[h].lines[l];
                assert(fd@.chunks[h as int].in_text(fd@.text));
                assert(*dl == fd@.chunks[h as int].lines[l as int]);
                body_line(
                    fd,
                    dl,
                    styled_at(&highlight, h, l),
                    h == current,
                    dim_reviewed && app.chunk_reviewed(h),
                    tints(&highlight),
                    &glyphs,
                    width,
                )
            },
        };
        assert(line@ == unified_line(app@, app@.diff_rows[start + k], width as int));
        push_line(&mut lines, line);
        assert(line_models(lines@) =~= want.take(k + 1));
    }
    assert(want.take(count as int) =~= want);
    lines
}

fn write_pair(
    app: &App,
    fd: &FileDiff,
    left: Option<(usize, usize)>,
    right: Option<(usize, usize)>,
    width: usize,
) -> (r: Line)
    requires
        app.wf(),
        app@.diff == Some(fd@),
        fd@.wf(),
        side_row_ok(fd@.chunks, SideRow::Pair { left, right }),
        width >= 4,
    ensures
        r@ == side_line(app@, SideRow::Pair { left, right }, width as int),
{
    let highlight = get_highlight(app);
    let (current_chunk, glyphs, dim_reviewed, _) = get_view(app);
    // One column for the accent bar and one for the divider; the rest splits into
    // two columns.
    let left_w = (width - 2) / 2;
    let right_w = width - 2 - left_w;
    let chunk = match (left, right) {
        (Some((h, _)), _) => Some(h),
        (None, Some((h, _))) => Some(h),
        (None, None) => None,
    };
    let current = match chunk {
        Some(h) => h == current_chunk,
        None => false,
    };
    let reviewed = match chunk {
        Some(h) => app.chunk_reviewed(h),
        None => false,
    };
    let dimmed = dim_reviewed && reviewed;
    let mut spans: Vec<Span> = Vec::new();
    push_lead(&mut spans, current, &glyphs);
    append_spans(
        &mut spans,
        side_cell(fd, left, left_w, Side::Old, dimmed, current, &highlight),
    );
    push_span(&mut spans, copy_of("│"), Style::fg(Color::DarkGray).on(chrome(current)));
    append_spans(
        &mut spans,
        side_cell(fd, right, right_w, Side::New, dimmed, current, &highlight),
    );
    let line = Line::from_spans(spans);
    assert(line@.spans =~= side_line(
        app@,
        SideRow::Pair { left, right },
        width as int,
    ).spans);
    line
}

/// The rows of the side-by-side view in an area of this size.
pub fn side_lines(app: &App, fd: &FileDiff, width: usize, height: usize) -> (r: Vec<Line>)
    requires
        app.wf(),
        app@.diff == Some(fd@),
        fd@.wf(),
    ensures
        line_models(r@) == side_lines_of(app@, width as int, height as int),
{
    let mut lines: Vec<Line> = Vec::new();
    let ghost want = side_lines_of(app@, width as int, height as int);
    if width < 4 {
        assert(line_models(lines@) =~= want);
        return lines;
    }
    let (_, _, _, scroll) = get_view(app);
    let (_, total) = row_counts(app);
    let window = visible_range(scroll, height, total);
    let count = window.end - window.start;
    let start = window.start;
    assert(want.len() == count);
    for k in 0..count
        invariant
            app.wf(),
            app@.diff == Some(fd@),
            fd@.wf(),
            width >= 4,
            total == app@.side_rows.len(),
            start == clamped(app@.scroll as int, height as int, total as int),
            count == min_of(start + height, total as int) - start,
            want == side_lines_of(app@, width as int, height as int),
            line_models(lines@) == want.take(k as int),
    {
        let row = side_row(app, fd, start + k);
        let line = match row {
            SideRow::Header(h) => write_header(app, fd, h, width),
            SideRow::Pair { left, right } => write_pair(app, fd, left, right, width),
        };
        assert(line@ == side_line(app@, app@.side_rows[start + k], width as int));
        push_line(&mut lines, line);
        assert(line_models(lines@) =~= want.take(k + 1));
    }
    assert(want.take(count as int) =~= want);
    lines
}

// ── the panel ──────────────────────────────────────────────────────────────

/// What the panel shows.
#[derive(Debug)]
pub enum DiffBody {
    /// A hint, where there are no rows to show.
    Placeholder(&'static str),
    Lines(Vec<Line>),
}

/// The title of the panel. The path is untrusted: a repository can name a file
/// with embedded escape sequences.
pub open spec fn diff_title_of(s: AppState) -> Seq<char> {
    let mode = match s.view {
        ViewMode::Unified => "unified"@,
        ViewMode::SideBySide => "side-by-side"@,
    };
    match s.diff {
        Some(d) => " "@ + sanitized(d.path) + " ["@ + mode + "] "@,
        None => " diff "@,
    }
}

fn get_layout(app: &App) -> (r: ViewMode)
    ensures
        r == app@.view,
{
    proof {
        reveal(App::state);
    }
    app.view
}

/// The title of the panel.
pub fn diff_title(app: &App) -> (r: String)
    requires
        app.wf(),
    ensures
        r@ == diff_title_of(app@),
{
    let mode = match get_layout(app) {
        ViewMode::Unified => "unified",
        ViewMode::SideBySide => "side-by-side",
    };
    match get_diff(app) {
        Some(fd) => {
            let mut s = copy_of(" ");
            s.append(sanitize(fd.path.as_str()).as_str());
            s.append(" [");
            s.append(mode);
            s.append("] ");
            s
        },
        None => copy_of(" diff "),
    }
}

/// The hint that is shown where there are no rows.
pub open spec fn placeholder_of(s: AppState) -> Option<Seq<char>> {
    match s.diff {
        None => Some("Select a file to view its diff"@),
        Some(d) => if d.is_binary {
            Some("Binary file - no textual diff"@)
        } else if s.diff_rows.len() == 0 {
            Some("No changes in this file"@)
        } else {
            None
        },
    }
}

/// What the panel shows in an area of this size.
pub fn diff_body(app: &App, width: usize, height: usize) -> (r: DiffBody)
    requires
        app.wf(),
    ensures
        match r {
            DiffBody::Placeholder(text) => placeholder_of(app@) == Some(text@),
            DiffBody::Lines(lines) => placeholder_of(app@) is None && line_models(lines@)
                == match app@.view {
                ViewMode::Unified => unified_lines_of(app@, width as int, height as int),
                ViewMode::SideBySide => side_lines_of(app@, width as int, height as int),
            },
        },
{
    let fd = match get_diff(app) {
        Some(fd) => fd,
        None => {
            return DiffBody::Placeholder("Select a file to view its diff");
        },
    };
    if fd.is_binary {
        return DiffBody::Placeholder("Binary file - no textual diff");
    }
    let (rows, _) = row_counts(app);
    if rows == 0 {
        return DiffBody::Placeholder("No changes in this file");
    }
    match get_layout(app) {
        ViewMode::Unified => DiffBody::Lines(unified_lines(app, &fd, width, height)),
        ViewMode::SideBySide => DiffBody::Lines(side_lines(app, &fd, width, height)),
    }
}

} // verus!
