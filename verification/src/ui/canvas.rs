//! What is drawn, independent of the terminal library: areas, styles, spans and
//! lines.

use vstd::prelude::*;

use crate::render::style::{plain_text, Color, Modifier};
use crate::text::push_char;

verus! {

/// An area of the terminal, in cells.
#[derive(Debug, Clone, Copy, PartialEq, Eq, Structural)]
pub struct Area {
    pub x: u16,
    pub y: u16,
    pub width: u16,
    pub height: u16,
}

/// A colour scheme for text: what is `None` is left as it is.
#[derive(Debug, Clone, Copy, PartialEq, Eq)]
pub struct Style {
    pub fg: Option<Color>,
    pub bg: Option<Color>,
    pub modifier: Modifier,
}

/// The style that leaves everything as it is.
pub open spec fn no_style() -> Style {
    Style { fg: None, bg: None, modifier: plain_text() }
}

/// A style with only a foreground.
pub open spec fn colored(fg: Color) -> Style {
    Style { fg: Some(fg), ..no_style() }
}

/// A style with only a foreground, in bold.
pub open spec fn bold_colored(fg: Color) -> Style {
    Style { modifier: Modifier { bold: true, ..plain_text() }, ..colored(fg) }
}

/// A style with only a foreground, in italics.
pub open spec fn italic_colored(fg: Color) -> Style {
    Style { modifier: Modifier { italic: true, ..plain_text() }, ..colored(fg) }
}

impl Style {
    pub fn none() -> (r: Style)
        ensures
            r == no_style(),
    {
        Style { fg: None, bg: None, modifier: Modifier::empty() }
    }

    pub fn fg(color: Color) -> (r: Style)
        ensures
            r == colored(color),
    {
        Style { fg: Some(color), bg: None, modifier: Modifier::empty() }
    }

    pub fn bold(color: Color) -> (r: Style)
        ensures
            r == bold_colored(color),
    {
        let mut s = Style::fg(color);
        s.modifier.bold = true;
        s
    }

    pub fn italic(color: Color) -> (r: Style)
        ensures
            r == italic_colored(color),
    {
        let mut s = Style::fg(color);
        s.modifier.italic = true;
        s
    }

    /// The style with a background.
    pub fn on(self, bg: Option<Color>) -> (r: Style)
        ensures
            r == (Style { bg, ..self }),
    {
        Style { fg: self.fg, bg, modifier: self.modifier }
    }
}

/// A run of text in one style.
#[derive(Debug)]
pub struct Span {
    pub text: String,
    pub style: Style,
}

/// A span as a mathematical value.
#[verifier::ext_equal]
pub struct SpanModel {
    pub text: Seq<char>,
    pub style: Style,
}

impl View for Span {
    type V = SpanModel;

    open spec fn view(&self) -> SpanModel {
        SpanModel { text: self.text@, style: self.style }
    }
}

/// A line of text: spans, and a style for the whole line.
#[derive(Debug)]
pub struct Line {
    pub spans: Vec<Span>,
    pub style: Style,
}

/// A line as a mathematical value.
#[verifier::ext_equal]
pub struct LineModel {
    pub spans: Seq<SpanModel>,
    pub style: Style,
}

/// The spans of a list, as mathematical values.
pub open spec fn span_models(v: Seq<Span>) -> Seq<SpanModel> {
    v.map_values(|s: Span| s@)
}

impl View for Line {
    type V = LineModel;

    open spec fn view(&self) -> LineModel {
        LineModel { spans: span_models(self.spans@), style: self.style }
    }
}

/// The lines of a list, as mathematical values.
pub open spec fn line_models(v: Seq<Line>) -> Seq<LineModel> {
    v.map_values(|l: Line| l@)
}

pub open spec fn span_of(text: Seq<char>, style: Style) -> SpanModel {
    SpanModel { text, style }
}

/// A line of spans, without a style of its own.
pub open spec fn line_of(spans: Seq<SpanModel>) -> LineModel {
    LineModel { spans, style: no_style() }
}

/// A line of one span, with a style for the whole line.
pub open spec fn styled_line(text: Seq<char>, style: Style) -> LineModel {
    LineModel { spans: seq![span_of(text, no_style())], style }
}

/// Appends a span.
pub fn push_span(spans: &mut Vec<Span>, text: String, style: Style)
    ensures
        span_models(final(spans)@) == span_models(old(spans)@).push(span_of(text@, style)),
{
    let ghost before = spans@;
    let span = Span { text, style };
    let ghost view = span@;
    spans.push(span);
    assert(span_models(spans@) =~= span_models(before).push(view));
}

/// Appends a line.
pub fn push_line(lines: &mut Vec<Line>, line: Line)
    ensures
        line_models(final(lines)@) == line_models(old(lines)@).push(line@),
{
    let ghost before = lines@;
    let ghost view = line@;
    lines.push(line);
    assert(line_models(lines@) =~= line_models(before).push(view));
}

/// Appends all of `more`.
pub fn append_spans(spans: &mut Vec<Span>, more: Vec<Span>)
    ensures
        span_models(final(spans)@) == span_models(old(spans)@) + span_models(more@),
{
    let ghost before = spans@;
    let ghost tail = more@;
    let mut more = more;
    spans.append(&mut more);
    assert(span_models(spans@) =~= span_models(before) + span_models(tail));
}

impl Line {
    /// A line of spans, without a style of its own.
    pub fn from_spans(spans: Vec<Span>) -> (r: Line)
        ensures
            r@ == line_of(span_models(spans@)),
    {
        Line { spans, style: Style::none() }
    }

    /// A line of one span, with a style for the whole line.
    pub fn styled(text: String, style: Style) -> (r: Line)
        ensures
            r@ == styled_line(text@, style),
    {
        let mut spans: Vec<Span> = Vec::new();
        let ghost view = text@;
        push_span(&mut spans, text, Style::none());
        assert(span_models(spans@) =~= seq![span_of(view, no_style())]);
        Line { spans, style }
    }
}

/// `n` times the character `c`.
pub open spec fn repeated(c: char, n: int) -> Seq<char> {
    Seq::new(
        if n > 0 {
            n as nat
        } else {
            0
        },
        |i: int| c,
    )
}

/// `n` times the character `c`.
pub fn repeat_char(c: char, n: usize) -> (r: String)
    ensures
        r@ == repeated(c, n as int),
{
    let mut s = String::new();
    assert(s@ =~= repeated(c, 0));
    for i in 0..n
        invariant
            s@ == repeated(c, i as int),
    {
        push_char(&mut s, c);
        assert(s@ =~= repeated(c, i + 1));
    }
    s
}

/// A string of one character.
pub fn char_string(c: char) -> (r: String)
    ensures
        r@ == seq![c],
{
    let mut s = String::new();
    push_char(&mut s, c);
    assert(s@ =~= seq![c]);
    s
}

// ── columns ────────────────────────────────────────────────────────────────

/// The number of columns that a character takes, as the `unicode-width` crate has
/// it; none for a control character.
pub uninterp spec fn char_columns(c: char) -> Option<usize>;

/// The number of columns that a text takes, as the `unicode-width` crate has it.
pub uninterp spec fn text_columns(s: Seq<char>) -> usize;

/// `unicode_width::UnicodeWidthChar::width`: a function of the character, which is
/// 1 for printable ASCII and for the replacement character, and none for control
/// characters. What it is for other characters is not said.
#[verifier::external_body]
pub(crate) fn char_width(c: char) -> (r: Option<usize>)
    ensures
        r == char_columns(c),
        0x20 <= c as u32 <= 0x7e ==> r == Some(1usize),
        c == '\u{FFFD}' ==> r == Some(1usize),
        crate::text::control_char(c) ==> r is None,
{
    unicode_width::UnicodeWidthChar::width(c)
}

/// `unicode_width::UnicodeWidthStr::width`: a function of the text, which for
/// printable ASCII is the number of characters. What it is for other text is not
/// said.
#[verifier::external_body]
pub(crate) fn text_width(s: &str) -> (r: usize)
    ensures
        r == text_columns(s@),
        (forall|i: int| 0 <= i < s@.len() ==> 0x20 <= #[trigger] s@[i] as u32 <= 0x7e) ==> r
            == s@.len(),
{
    unicode_width::UnicodeWidthStr::width(s)
}

/// The columns of a character; 0 where it has none.
pub open spec fn columns_of(c: char) -> int {
    match char_columns(c) {
        Some(n) => n as int,
        None => 0,
    }
}

/// The columns of a character: 1 for printable ASCII and the replacement character.
pub fn columns(c: char) -> (r: usize)
    ensures
        r == columns_of(c),
        0x20 <= c as u32 <= 0x7e ==> r == 1,
        c == '\u{FFFD}' ==> r == 1,
{
    match char_width(c) {
        Some(n) => n,
        None => 0,
    }
}

// ── areas ──────────────────────────────────────────────────────────────────

/// A difference, at least 0.
pub open spec fn less(a: int, b: int) -> int {
    if a > b {
        a - b
    } else {
        0
    }
}

/// The area inside the borders of `a`.
pub open spec fn inside(a: Area) -> Area {
    let right = if a.x + a.width <= u16::MAX {
        a.x + a.width
    } else {
        u16::MAX as int
    };
    let bottom = if a.y + a.height <= u16::MAX {
        a.y + a.height
    } else {
        u16::MAX as int
    };
    Area {
        x: (if a.x + 1 <= right {
            a.x + 1
        } else {
            right
        }) as u16,
        y: (if a.y + 1 <= bottom {
            a.y + 1
        } else {
            bottom
        }) as u16,
        width: less(a.width as int, 2) as u16,
        height: less(a.height as int, 2) as u16,
    }
}

/// The area inside the borders of `a`.
pub fn inner(a: Area) -> (r: Area)
    ensures
        r == inside(a),
{
    let right = a.x.saturating_add(a.width);
    let bottom = a.y.saturating_add(a.height);
    let x = a.x.saturating_add(1);
    let y = a.y.saturating_add(1);
    Area {
        x: if x <= right {
            x
        } else {
            right
        },
        y: if y <= bottom {
            y
        } else {
            bottom
        },
        width: a.width.saturating_sub(2),
        height: a.height.saturating_sub(2),
    }
}

/// An area of the given size in the middle of `area`.
pub open spec fn centered_in(area: Area, w: u16, h: u16) -> Area {
    Area {
        x: (area.x + less(area.width as int, w as int) / 2) as u16,
        y: (area.y + less(area.height as int, h as int) / 2) as u16,
        width: w,
        height: h,
    }
}

/// The area lies on the 16-bit grid.
pub open spec fn on_grid(area: Area) -> bool {
    area.x + area.width <= u16::MAX && area.y + area.height <= u16::MAX
}

/// An area of the given size in the middle of `area`.
pub fn centered(area: Area, w: u16, h: u16) -> (r: Area)
    requires
        on_grid(area),
    ensures
        r == centered_in(area, w, h),
{
    Area {
        x: area.x + area.width.saturating_sub(w) / 2,
        y: area.y + area.height.saturating_sub(h) / 2,
        width: w,
        height: h,
    }
}

/// A centered area of at most the size of the one it is in lies inside it.
pub proof fn law_centered(area: Area, w: u16, h: u16)
    requires
        on_grid(area),
        w <= area.width,
        h <= area.height,
    ensures
        area.x <= centered_in(area, w, h).x,
        centered_in(area, w, h).x + w <= area.x + area.width,
        area.y <= centered_in(area, w, h).y,
        centered_in(area, w, h).y + h <= area.y + area.height,
{
}

} // verus!
