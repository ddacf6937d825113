//! Source-code syntax highlighting for diff bodies.
//!
//! A diff has no whole-file context, so it is highlighted line by line, chunk by
//! chunk, in source order. A chunk interleaves two sides (`-` and context, `+` and
//! context): each has a parser state of its own, so that a removed line cannot
//! disturb the added side. A construct of several lines that opens before a chunk
//! may be misread near the chunk's top.
//!
//! Highlights are computed once per displayed file, with the colours already
//! resolved for the terminal, and stored parallel to the diff's chunks and lines.

pub mod syntax;
pub mod themes;

use std::ops::Range;

use vstd::prelude::*;
use vstd::utf8::*;

use crate::render::style::{plain_text, Color, Modifier};
use crate::render::viewport::min_of;
use crate::text::{chars_of, find_from, lower_ascii, lowered, text_contains, text_range, NEWLINE};

verus! {

/// A resolved, render-ready style for one token: a foreground colour plus text
/// attributes. The background (the add/del tint, the current-chunk wash) is
/// applied by the renderer.
#[derive(Debug, Clone, Copy)]
pub struct SynStyle {
    pub fg: Color,
    pub modifier: Modifier,
}

/// One highlighted diff line: a run of tokens in display order, each the range of
/// its bytes in the diff's text and its style. No spans means "no highlighting":
/// the renderer falls back to the flat diff colour.
#[derive(Debug)]
pub struct StyledLine {
    pub spans: Vec<(Range<usize>, SynStyle)>,
}

/// Highlights for one chunk, parallel to its lines.
#[derive(Debug)]
pub struct ChunkHighlight {
    pub lines: Vec<StyledLine>,
}

/// Highlights for a whole file, parallel to the chunks of its diff. `add_bg` and
/// `del_bg` are the theme-derived line tints that the renderer paints behind
/// added and removed rows.
#[derive(Debug)]
pub struct FileHighlight {
    pub chunks: Vec<ChunkHighlight>,
    pub add_bg: Color,
    pub del_bg: Color,
}

/// The tokens of line `l` of chunk `h`; none where it is not highlighted.
pub open spec fn spans_at(hl: FileHighlight, h: int, l: int) -> Seq<(Range<usize>, SynStyle)> {
    if 0 <= h < hl.chunks@.len() && 0 <= l < hl.chunks@[h].lines@.len() {
        hl.chunks@[h].lines@[l].spans@
    } else {
        Seq::empty()
    }
}

impl FileHighlight {
    /// The styled line for chunk `h`, line `l`, if highlighting produced one.
    pub fn line(&self, h: usize, l: usize) -> (r: Option<&StyledLine>)
        ensures
            match r {
                Some(line) => h < self.chunks@.len() && l < self.chunks@[h as int].lines@.len()
                    && *line == self.chunks@[h as int].lines@[l as int],
                None => h >= self.chunks@.len() || l >= self.chunks@[h as int].lines@.len(),
            },
    {
        if h < self.chunks.len() && l < self.chunks[h].lines.len() {
            Some(&self.chunks[h].lines[l])
        } else {
            None
        }
    }
}

// ── colours ────────────────────────────────────────────────────────────────

/// A colour by its red, green and blue parts.
pub type Rgb = (u8, u8, u8);

/// The part of a colour at level `k` of the 6×6×6 cube: 0, 95, 135, 175, 215, 255.
pub open spec fn cube_step(k: int) -> int {
    if k <= 0 {
        0
    } else {
        55 + 40 * k
    }
}

/// The colour of cell `i` of the 256-colour palette: the colour cube from 16 on, the
/// 24-step grey ramp from 232 on.
pub open spec fn cell(i: int) -> (int, int, int) {
    if i < 232 {
        (cube_step((i - 16) / 36), cube_step((i - 16) / 6 % 6), cube_step((i - 16) % 6))
    } else {
        (8 + 10 * (i - 232), 8 + 10 * (i - 232), 8 + 10 * (i - 232))
    }
}

pub open spec fn square(n: int) -> int {
    n * n
}

/// How far a colour is from cell `i`.
pub open spec fn distance(r: u8, g: u8, b: u8, i: int) -> int {
    let c = cell(i);
    square(r - c.0) + square(g - c.1) + square(b - c.2)
}

/// The last of the cells of the cube from 16 to `last` that are nearest to a colour.
/// A part of the colour halfway between two steps goes up.
pub open spec fn nearest_in_cube(r: u8, g: u8, b: u8, last: int) -> int
    decreases last,
{
    if last <= 16 {
        16
    } else {
        let best = nearest_in_cube(r, g, b, last - 1);
        if distance(r, g, b, last) <= distance(r, g, b, best) {
            last
        } else {
            best
        }
    }
}

/// The first of the cells of the ramp from 232 to `last` that are nearest to a colour.
/// A grey halfway between two steps goes down.
pub open spec fn nearest_on_ramp(r: u8, g: u8, b: u8, last: int) -> int
    decreases last,
{
    if last <= 232 {
        232
    } else {
        let best = nearest_on_ramp(r, g, b, last - 1);
        if distance(r, g, b, last) < distance(r, g, b, best) {
            last
        } else {
            best
        }
    }
}

pub open spec fn largest(a: u8, b: u8, c: u8) -> u8 {
    if a >= b && a >= c {
        a
    } else if b >= c {
        b
    } else {
        c
    }
}

pub open spec fn smallest(a: u8, b: u8, c: u8) -> u8 {
    if a <= b && a <= c {
        a
    } else if b <= c {
        b
    } else {
        c
    }
}

/// The colour is a grey between black and white: its parts are nearly equal.
pub open spec fn is_grey(r: u8, g: u8, b: u8) -> bool {
    largest(r, g, b) - smallest(r, g, b) < 8 && 8 <= r <= 248
}

/// The index of a colour in the 256-colour palette: that of the nearest cell. Where a
/// cell of the cube and one of the ramp are equally near, the ramp is for greys.
pub open spec fn palette_index(r: u8, g: u8, b: u8) -> int {
    let cube = nearest_in_cube(r, g, b, 231);
    let ramp = nearest_on_ramp(r, g, b, 255);
    if distance(r, g, b, ramp) < distance(r, g, b, cube) || (distance(r, g, b, ramp) == distance(
        r,
        g,
        b,
        cube,
    ) && is_grey(r, g, b)) {
        ramp
    } else {
        cube
    }
}

proof fn lemma_nearest_in_cube(r: u8, g: u8, b: u8, last: int)
    requires
        last >= 16,
    ensures
        16 <= nearest_in_cube(r, g, b, last) <= last,
        forall|j: int|
            16 <= j <= last ==> distance(r, g, b, nearest_in_cube(r, g, b, last))
                <= #[trigger] distance(r, g, b, j),
    decreases last,
{
    if last > 16 {
        lemma_nearest_in_cube(r, g, b, last - 1);
    }
}

proof fn lemma_nearest_on_ramp(r: u8, g: u8, b: u8, last: int)
    requires
        last >= 232,
    ensures
        232 <= nearest_on_ramp(r, g, b, last) <= last,
        forall|j: int|
            232 <= j <= last ==> distance(r, g, b, nearest_on_ramp(r, g, b, last))
                <= #[trigger] distance(r, g, b, j),
    decreases last,
{
    if last > 232 {
        lemma_nearest_on_ramp(r, g, b, last - 1);
    }
}

fn step_of(k: u8) -> (r: u8)
    requires
        k <= 5,
    ensures
        r == cube_step(k as int),
{
    if k == 0 {
        0
    } else {
        55 + 40 * k
    }
}

fn squared_gap(a: u8, b: u8) -> (r: u32)
    ensures
        r == square(a - b),
        r <= 65025,
{
    let d: u32 = if a >= b {
        (a - b) as u32
    } else {
        (b - a) as u32
    };
    assert(d * d <= 65025 && d * d == (a - b) * (a - b)) by (nonlinear_arith)
        requires
            d <= 255,
            d == a - b || d == b - a,
    ;
    d * d
}

fn distance_to(r: u8, g: u8, b: u8, i: u8) -> (d: u32)
    requires
        i >= 16,
    ensures
        d == distance(r, g, b, i as int),
{
    let (cr, cg, cb) = if i < 232 {
        let n = i - 16;
        (step_of(n / 36), step_of(n / 6 % 6), step_of(n % 6))
    } else {
        let v: u8 = 8 + 10 * (i - 232);
        (v, v, v)
    };
    squared_gap(r, cr) + squared_gap(g, cg) + squared_gap(b, cb)
}

fn looks_grey(r: u8, g: u8, b: u8) -> (yes: bool)
    ensures
        yes == is_grey(r, g, b),
{
    let max = if r >= g && r >= b {
        r
    } else if g >= b {
        g
    } else {
        b
    };
    let min = if r <= g && r <= b {
        r
    } else if g <= b {
        g
    } else {
        b
    };
    max - min < 8 && 8 <= r && r <= 248
}

/// Quantise an RGB colour to the nearest xterm-256 palette index, choosing the
/// closer of the 6×6×6 colour cube and the 24-step grayscale ramp.
pub fn rgb_to_ansi256(r: u8, g: u8, b: u8) -> (i: u8)
    ensures
        i == palette_index(r, g, b),
        16 <= i,
        forall|j: int|
            16 <= j <= 255 ==> distance(r, g, b, i as int) <= #[trigger] distance(r, g, b, j),
{
    let mut cube: u8 = 16;
    let mut gap: u32 = distance_to(r, g, b, 16);
    let mut last: u8 = 16;
    while last < 231
        invariant
            16 <= last <= 231,
            16 <= cube <= last,
            cube == nearest_in_cube(r, g, b, last as int),
            gap == distance(r, g, b, cube as int),
        decreases 231 - last,
    {
        last += 1;
        let d = distance_to(r, g, b, last);
        if d <= gap {
            cube = last;
            gap = d;
        }
    }
    let mut ramp: u8 = 232;
    let mut grey_gap: u32 = distance_to(r, g, b, 232);
    last = 232;
    while last < 255
        invariant
            232 <= last <= 255,
            232 <= ramp <= last,
            ramp == nearest_on_ramp(r, g, b, last as int),
            grey_gap == distance(r, g, b, ramp as int),
        decreases 255 - last,
    {
        last += 1;
        let d = distance_to(r, g, b, last);
        if d < grey_gap {
            ramp = last;
            grey_gap = d;
        }
    }
    proof {
        lemma_nearest_in_cube(r, g, b, 231);
        lemma_nearest_on_ramp(r, g, b, 255);
        assert forall|j: int| 16 <= j <= 255 implies distance(r, g, b, palette_index(r, g, b))
            <= #[trigger] distance(r, g, b, j) by {
            if j >= 232 {
                assert(distance(r, g, b, ramp as int) <= distance(r, g, b, j));
            } else {
                assert(distance(r, g, b, cube as int) <= distance(r, g, b, j));
            }
        }
    }
    if grey_gap < gap || (grey_gap == gap && looks_grey(r, g, b)) {
        ramp
    } else {
        cube
    }
}

/// No cell of the palette is closer to a colour than the one it is shown as, and
/// that is never one of the 16 colours that a terminal may redefine.
pub proof fn law_palette(r: u8, g: u8, b: u8, j: int)
    requires
        16 <= j <= 255,
    ensures
        16 <= palette_index(r, g, b) <= 255,
        distance(r, g, b, palette_index(r, g, b)) <= distance(r, g, b, j),
{
    lemma_nearest_in_cube(r, g, b, 231);
    lemma_nearest_on_ramp(r, g, b, 255);
    if j >= 232 {
        assert(distance(r, g, b, nearest_on_ramp(r, g, b, 255)) <= distance(r, g, b, j));
    } else {
        assert(distance(r, g, b, nearest_in_cube(r, g, b, 231)) <= distance(r, g, b, j));
    }
}

/// A colour for the terminal: exact where it can show it, else from the palette.
pub open spec fn terminal_color(rgb: Rgb, truecolor: bool) -> Color {
    if truecolor {
        Color::Rgb(rgb.0, rgb.1, rgb.2)
    } else {
        Color::Indexed(palette_index(rgb.0, rgb.1, rgb.2) as u8)
    }
}

/// Resolve an RGB triple to a terminal colour: exact on truecolor, nearest
/// xterm-256 cube/ramp cell otherwise.
pub fn to_color(rgb: Rgb, truecolor: bool) -> (r: Color)
    ensures
        r == terminal_color(rgb, truecolor),
{
    if truecolor {
        Color::Rgb(rgb.0, rgb.1, rgb.2)
    } else {
        Color::Indexed(rgb_to_ansi256(rgb.0, rgb.1, rgb.2))
    }
}

/// Whether the value of `$COLORTERM` advertises 24-bit colour. Where it does not,
/// theme colours are quantised to the palette.
pub fn supports_truecolor(colorterm: Option<&str>) -> (r: bool)
    ensures
        r == (colorterm is Some && (text_contains(lowered(colorterm->0@), "truecolor"@)
            || text_contains(lowered(colorterm->0@), "24bit"@))),
{
    match colorterm {
        Some(v) => {
            let v = lower_ascii(chars_of(v).as_slice());
            let v = v.as_slice();
            find_from(v, chars_of("truecolor").as_slice(), 0).is_some() || find_from(
                v,
                chars_of("24bit").as_slice(),
                0,
            ).is_some()
        },
        None => false,
    }
}

// ── regions ────────────────────────────────────────────────────────────────

/// A run of a line in one style, as the highlighter gives it.
#[derive(Debug, Clone, Copy)]
pub struct Region {
    /// The length of the run in bytes.
    pub len: usize,
    pub rgb: (u8, u8, u8),
    /// Opacity; 0 means the terminal's own foreground.
    pub alpha: u8,
    pub bold: bool,
    pub italic: bool,
    pub underline: bool,
}

/// Where the first `n` regions end.
pub open spec fn regions_end(regions: Seq<Region>, n: int) -> int
    decreases n,
{
    if n <= 0 {
        0
    } else {
        regions_end(regions, n - 1) + regions[n - 1].len
    }
}

/// The regions are runs of the line with these bytes, one behind the other from its
/// start.
pub open spec fn regions_ok(regions: Seq<Region>, line: Seq<u8>) -> bool {
    forall|n: int|
        0 <= n <= regions.len() ==> #[trigger] regions_end(regions, n) <= line.len()
            && is_char_boundary(line, regions_end(regions, n))
}

/// The text attributes of a region.
pub open spec fn region_modifier(r: Region) -> Modifier {
    Modifier { bold: r.bold, italic: r.italic, underlined: r.underline, ..plain_text() }
}

/// Map the font style of a region to text attributes.
pub fn font_modifier(r: &Region) -> (m: Modifier)
    ensures
        m == region_modifier(*r),
{
    let mut m = Modifier::empty();
    m.bold = r.bold;
    m.italic = r.italic;
    m.underlined = r.underline;
    m
}

/// The colour of a token, given its colour raised to legibility against the line's
/// tint.
pub open spec fn token_color(r: Region, tinted: bool, lifted: Rgb, truecolor: bool) -> Color {
    if r.alpha == 0 {
        Color::Reset
    } else if tinted {
        terminal_color(lifted, truecolor)
    } else {
        terminal_color(r.rgb, truecolor)
    }
}

/// Resolve a token's foreground to a terminal colour. On a tinted line it is the
/// colour `lifted`, raised against the tint just enough to stay legible. A theme's
/// default foreground is the terminal's own.
pub fn resolve_fg(r: &Region, tinted: bool, lifted: Rgb, truecolor: bool) -> (c: Color)
    ensures
        c == token_color(*r, tinted, lifted, truecolor),
{
    if r.alpha == 0 {
        Color::Reset
    } else if tinted {
        to_color(lifted, truecolor)
    } else {
        to_color(r.rgb, truecolor)
    }
}

/// The token of region `n` on a line of `len` bytes that begins at `base`; none
/// where nothing of it is on the line.
pub open spec fn region_span(
    regions: Seq<Region>,
    colors: Seq<Color>,
    n: int,
    base: int,
    len: int,
) -> Option<(Range<usize>, SynStyle)> {
    let start = regions_end(regions, n);
    let end = min_of(regions_end(regions, n + 1), len);
    if start >= end {
        None
    } else {
        Some(
            (
                Range { start: (base + start) as usize, end: (base + end) as usize },
                SynStyle { fg: colors[n], modifier: region_modifier(regions[n]) },
            ),
        )
    }
}

/// The tokens of the first `n` regions.
pub open spec fn region_spans(
    regions: Seq<Region>,
    colors: Seq<Color>,
    n: int,
    base: int,
    len: int,
) -> Seq<(Range<usize>, SynStyle)>
    decreases n,
{
    if n <= 0 {
        Seq::empty()
    } else {
        match region_span(regions, colors, n - 1, base, len) {
            Some(s) => region_spans(regions, colors, n - 1, base, len).push(s),
            None => region_spans(regions, colors, n - 1, base, len),
        }
    }
}

proof fn lemma_regions_grow(regions: Seq<Region>, k: int, n: int)
    requires
        0 <= k <= n,
    ensures
        0 <= regions_end(regions, k) <= regions_end(regions, n),
    decreases n,
{
    if k < n {
        lemma_regions_grow(regions, k, n - 1);
    } else if n > 0 {
        lemma_regions_grow(regions, k - 1, n - 1);
    }
}

/// Map style runs back to byte ranges of the diff's text: the line begins at `base`
/// and has `len` bytes; what lies behind them (the line end) is clipped.
pub fn clip_regions(
    regions: &Vec<Region>,
    colors: &Vec<Color>,
    base: usize,
    len: usize,
) -> (r: StyledLine)
    requires
        colors@.len() == regions@.len(),
        base + len <= usize::MAX,
    ensures
        r.spans@ == region_spans(
            regions@,
            colors@,
            regions@.len() as int,
            base as int,
            len as int,
        ),
{
    let mut spans: Vec<(Range<usize>, SynStyle)> = Vec::new();
    let mut pos: usize = 0;
    let n = regions.len();
    for i in 0..n
        invariant
            n == regions@.len(),
            colors@.len() == n,
            base + len <= usize::MAX,
            pos == min_of(regions_end(regions@, i as int), len as int),
            spans@ == region_spans(regions@, colors@, i as int, base as int, len as int),
    {
        let start = pos;
        pos = if regions[i].len < len - start {
            start + regions[i].len
        } else {
            len
        };
        if start < pos {
            spans.push(
                (
                    base + start..base + pos,
                    SynStyle { fg: colors[i], modifier: font_modifier(&regions[i]) },
                ),
            );
        }
    }
    StyledLine { spans }
}

/// The tokens are runs of the bytes `base..base + len`, one behind the other from
/// its start, none of them empty.
pub open spec fn tiles(spans: Seq<(Range<usize>, SynStyle)>, base: int, len: int) -> bool {
    &&& forall|i: int|
        0 <= i < spans.len() ==> base <= (#[trigger] spans[i]).0.start < spans[i].0.end <= base
            + len
    &&& spans.len() > 0 ==> spans[0].0.start == base
    &&& forall|i: int|
        0 < i < spans.len() ==> (#[trigger] spans[i]).0.start == spans[i - 1].0.end
}

pub(crate) proof fn lemma_region_spans(
    regions: Seq<Region>,
    colors: Seq<Color>,
    n: int,
    base: int,
    len: int,
)
    requires
        0 <= n <= regions.len(),
        0 <= base,
        0 <= len,
        base + len <= usize::MAX,
    ensures
        tiles(region_spans(regions, colors, n, base, len), base, len),
        ({
            let spans = region_spans(regions, colors, n, base, len);
            let end = min_of(regions_end(regions, n), len);
            if spans.len() > 0 {
                spans.last().0.end == base + end
            } else {
                end == 0
            }
        }),
    decreases n,
{
    if n > 0 {
        lemma_region_spans(regions, colors, n - 1, base, len);
        lemma_regions_grow(regions, n - 1, n);
        let was = region_spans(regions, colors, n - 1, base, len);
        let now = region_spans(regions, colors, n, base, len);
        if region_span(regions, colors, n - 1, base, len) is Some {
            assert forall|i: int| 0 <= i < now.len() implies base <= (
            #[trigger] now[i]).0.start < now[i].0.end <= base + len by {
                if i < was.len() {
                    assert(now[i] == was[i]);
                }
            }
            assert forall|i: int| 0 < i < now.len() implies (#[trigger] now[i]).0.start == now[i
                - 1].0.end by {
                if i < was.len() {
                    assert(now[i] == was[i] && now[i - 1] == was[i - 1]);
                } else {
                    assert(now[i - 1] == was[was.len() - 1]);
                }
            }
        }
    }
}

/// A highlighted line is put together again from its tokens: they lie inside the
/// line, in order, without gaps from its start.
pub proof fn law_tokens_tile_the_line(
    regions: Seq<Region>,
    colors: Seq<Color>,
    base: int,
    len: int,
)
    requires
        0 <= base,
        0 <= len,
        base + len <= usize::MAX,
    ensures
        tiles(region_spans(regions, colors, regions.len() as int, base, len), base, len),
        regions_end(regions, regions.len() as int) >= len > 0 ==> {
            let spans = region_spans(regions, colors, regions.len() as int, base, len);
            spans.len() > 0 && spans.last().0.end == base + len
        },
{
    lemma_region_spans(regions, colors, regions.len() as int, base, len);
}

/// A place between two characters of a line, with the newline that is put behind
/// it, is one of the text that the line is part of.
proof fn lemma_boundary_in_text(text: Seq<char>, base: int, end: int, line: Seq<u8>, k: int)
    requires
        text_range(text, base, end),
        line == encode_utf8(text).subrange(base, end).push(NEWLINE),
        valid_utf8(line),
        is_char_boundary(line, k),
        0 <= k <= end - base,
    ensures
        is_char_boundary(encode_utf8(text), base + k),
{
    let b = encode_utf8(text);
    encode_utf8_valid_utf8(text);
    if base + k < end {
        assert(line[k] == b[base + k]);
        is_char_boundary_iff_not_is_continuation_byte(line, k);
        is_char_boundary_iff_not_is_continuation_byte(b, base + k);
    }
}

/// The tokens of a line are ranges of the text.
pub(crate) proof fn lemma_spans_fit(
    text: Seq<char>,
    base: int,
    end: int,
    line: Seq<u8>,
    regions: Seq<Region>,
    colors: Seq<Color>,
    n: int,
)
    requires
        text_range(text, base, end),
        end <= usize::MAX,
        line == encode_utf8(text).subrange(base, end).push(NEWLINE),
        valid_utf8(line),
        regions_ok(regions, line),
        0 <= n <= regions.len(),
    ensures
        forall|i: int|
            0 <= i < region_spans(regions, colors, n, base, end - base).len() ==> text_range(
                text,
                (#[trigger] region_spans(regions, colors, n, base, end - base)[i]).0.start as int,
                region_spans(regions, colors, n, base, end - base)[i].0.end as int,
            ),
    decreases n,
{
    if n > 0 {
        lemma_spans_fit(text, base, end, line, regions, colors, n - 1);
        lemma_regions_grow(regions, n - 1, n);
        let len = end - base;
        let was = region_spans(regions, colors, n - 1, base, len);
        let now = region_spans(regions, colors, n, base, len);
        let a = regions_end(regions, n - 1);
        let b = regions_end(regions, n);
        assert(is_char_boundary(line, a) && is_char_boundary(line, b));
        if a < min_of(b, len) {
            lemma_boundary_in_text(text, base, end, line, a);
            if b <= len {
                lemma_boundary_in_text(text, base, end, line, b);
            }
        }
        assert forall|i: int| 0 <= i < now.len() implies text_range(
            text,
            (#[trigger] now[i]).0.start as int,
            now[i].0.end as int,
        ) by {
            if i < was.len() {
                assert(now[i] == was[i]);
            }
        }
    }
}

// ── what is shown ──────────────────────────────────────────────────────────

/// The part of a colour at a level of the cube.
pub open spec fn is_level(k: int, part: int) -> bool {
    ||| k == 0 && part == 0
    ||| k == 1 && part == 95
    ||| k == 2 && part == 135
    ||| k == 3 && part == 175
    ||| k == 4 && part == 215
    ||| k == 5 && part == 255
}

/// The cells of the palette are those of the terminal: a cube of six levels for each of
/// red, green and blue, in this order, and a ramp of greys from 8 on in steps of 10.
pub proof fn law_palette_cells(a: int, b: int, c: int, k: int)
    requires
        0 <= a < 6,
        0 <= b < 6,
        0 <= c < 6,
        0 <= k < 24,
    ensures
        ({
            let i = 16 + 36 * a + 6 * b + c;
            &&& is_level(a, cell(i).0)
            &&& is_level(b, cell(i).1)
            &&& is_level(c, cell(i).2)
            &&& i < 232
        }),
        cell(232 + k) == (8 + 10 * k, 8 + 10 * k, 8 + 10 * k),
{
    let i = 16 + 36 * a + 6 * b + c;
    assert((i - 16) / 36 == a) by (nonlinear_arith)
        requires
            i == 16 + 36 * a + 6 * b + c,
            0 <= a < 6,
            0 <= b < 6,
            0 <= c < 6,
    {}
    assert((i - 16) / 6 % 6 == b && (i - 16) % 6 == c) by (nonlinear_arith)
        requires
            i == 16 + 36 * a + 6 * b + c,
            0 <= a < 6,
            0 <= b < 6,
            0 <= c < 6,
    {}
}

proof fn lemma_square(n: int)
    ensures
        square(n) >= 0,
        square(n) == 0 <==> n == 0,
{
    assert(n * n >= 0) by (nonlinear_arith);
    assert(n * n == 0 <==> n == 0) by (nonlinear_arith);
}

/// A colour that the palette has is shown as itself.
pub proof fn law_palette_colors_stay(r: u8, g: u8, b: u8, i: int)
    requires
        16 <= i <= 255,
        cell(i) == (r as int, g as int, b as int),
    ensures
        16 <= palette_index(r, g, b) <= 255,
        cell(palette_index(r, g, b)) == (r as int, g as int, b as int),
{
    law_palette(r, g, b, i);
    let j = palette_index(r, g, b);
    let c = cell(j);
    lemma_square(r - cell(i).0);
    lemma_square(g - cell(i).1);
    lemma_square(b - cell(i).2);
    lemma_square(r - c.0);
    lemma_square(g - c.1);
    lemma_square(b - c.2);
}

/// A terminal that can show every colour gets the exact one; another one gets a cell of
/// the palette.
pub proof fn law_terminal_color(rgb: Rgb)
    ensures
        terminal_color(rgb, true) == Color::Rgb(rgb.0, rgb.1, rgb.2),
        terminal_color(rgb, false) is Indexed,
{
}

/// A token has the style of its region: its weight, slant and underline, and its colour,
/// which on a tinted line is the raised one. A region in the theme's default colour has
/// the terminal's own.
pub proof fn law_token_style(r: Region, lifted: Rgb, truecolor: bool)
    ensures
        region_modifier(r).bold == r.bold,
        region_modifier(r).italic == r.italic,
        region_modifier(r).underlined == r.underline,
        r.alpha == 0 ==> token_color(r, true, lifted, truecolor) == Color::Reset && token_color(
            r,
            false,
            lifted,
            truecolor,
        ) == Color::Reset,
        r.alpha > 0 ==> token_color(r, true, lifted, truecolor) == terminal_color(
            lifted,
            truecolor,
        ) && token_color(r, false, lifted, truecolor) == terminal_color(r.rgb, truecolor),
{
}

/// Every region that has something on the line is one token of it, over its own bytes and
/// in its own style, cut at the end of the line.
pub proof fn law_region_is_token(
    regions: Seq<Region>,
    colors: Seq<Color>,
    k: int,
    n: int,
    base: int,
    len: int,
)
    requires
        0 <= k < n <= regions.len(),
        0 <= base,
        base + len <= usize::MAX,
        regions[k].len > 0,
        regions_end(regions, k) < len,
    ensures
        ({
            let start = regions_end(regions, k);
            let end = if start + regions[k].len < len {
                start + regions[k].len
            } else {
                len
            };
            region_spans(regions, colors, n, base, len).contains(
                (
                    Range { start: (base + start) as usize, end: (base + end) as usize },
                    SynStyle { fg: colors[k], modifier: region_modifier(regions[k]) },
                ),
            )
        }),
    decreases n,
{
    lemma_regions_grow(regions, k, k + 1);
    let was = region_spans(regions, colors, n - 1, base, len);
    let now = region_spans(regions, colors, n, base, len);
    if k < n - 1 {
        law_region_is_token(regions, colors, k, n - 1, base, len);
        let start = regions_end(regions, k);
        let end = if start + regions[k].len < len {
            start + regions[k].len
        } else {
            len
        };
        let token = (
            Range { start: (base + start) as usize, end: (base + end) as usize },
            SynStyle { fg: colors[k], modifier: region_modifier(regions[k]) },
        );
        let i = choose|i: int| 0 <= i < was.len() && was[i] == token;
        assert(now[i] == token);
    } else {
        assert(now[was.len() as int] == region_span(regions, colors, k, base, len)->0);
    }
}

} // verus!
