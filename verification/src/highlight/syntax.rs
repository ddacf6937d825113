//! Finding the syntax of a file and running the highlighter over its diff.

use std::ops::Range;

use two_face::re_exports::syntect;

use syntect::easy::HighlightLines;
use syntect::highlighting::{FontStyle, Theme};
use syntect::parsing::{SyntaxReference, SyntaxSet};

use vstd::prelude::*;
use vstd::utf8::*;

use crate::highlight::{
    clip_regions, lemma_region_spans, lemma_spans_fit, region_spans, regions_ok,
    resolve_fg, terminal_color, tiles, to_color, token_color, ChunkHighlight, FileHighlight, Region,
    Rgb, StyledLine, SynStyle,
};
use crate::model::diff::{DiffLine, FileDiff, HunkModel, LineKind};
use crate::path::{extension, extension_of, file_name, file_name_of};
use crate::render::style::Color;
use crate::text::{
    chars_of, copy_of, lemma_encode_concat, lemma_slice_bytes, text_range, text_slice, trim, trimmed, NEWLINE,
};

verus! {

/// syntect's set of syntaxes.
#[verifier::external_type_specification]
#[verifier::external_body]
pub struct ExSyntaxSet(syntect::parsing::SyntaxSet);

/// One syntax of a set.
#[verifier::external_type_specification]
#[verifier::external_body]
pub struct ExSyntaxReference(syntect::parsing::SyntaxReference);

/// A colour theme.
#[verifier::external_type_specification]
#[verifier::external_body]
pub struct ExTheme(syntect::highlighting::Theme);

/// A highlighter that is fed one line after the other.
#[verifier::external_type_specification]
#[verifier::external_body]
pub struct ExHighlightLines<'a>(syntect::easy::HighlightLines<'a>);

// ── the bundled syntaxes ───────────────────────────────────────────────────

/// The bundled syntaxes. There are no others: every one of them is complete, and all
/// of its patterns are valid.
pub struct Syntaxes {
    set: SyntaxSet,
}

impl View for Syntaxes {
    type V = SyntaxSet;

    closed spec fn view(&self) -> SyntaxSet {
        self.set
    }
}

/// `two_face::syntax::extra_newlines`, the curated set for lines that end in a
/// newline. Its documentation promises the syntaxes TOML, TypeScript and Dockerfile;
/// what else it holds is not stated.
#[verifier::external_body]
fn extra_syntaxes() -> (r: SyntaxSet)
    ensures
        syntax_by_name(r, "TOML"@) is Some,
        syntax_by_name(r, "TypeScript"@) is Some,
        syntax_by_name(r, "Dockerfile"@) is Some,
{
    two_face::syntax::extra_newlines()
}

impl Syntaxes {
    /// The curated syntax set, with many languages that syntect's own defaults miss
    /// (TOML, TypeScript, Dockerfile, …).
    pub fn bundled() -> (r: Syntaxes)
        ensures
            syntax_by_name(r@, "TOML"@) is Some,
            syntax_by_name(r@, "TypeScript"@) is Some,
            syntax_by_name(r@, "Dockerfile"@) is Some,
    {
        Syntaxes { set: extra_syntaxes() }
    }
}

// ── the syntax of a file ───────────────────────────────────────────────────

/// What `SyntaxSet::find_syntax_by_extension` finds.
pub uninterp spec fn syntax_by_extension(set: SyntaxSet, extension: Seq<char>) -> Option<
    SyntaxReference,
>;

/// What `SyntaxSet::find_syntax_by_first_line` finds.
pub uninterp spec fn syntax_by_first_line(set: SyntaxSet, line: Seq<char>) -> Option<
    SyntaxReference,
>;

/// What `SyntaxSet::find_syntax_by_name` finds.
pub uninterp spec fn syntax_by_name(set: SyntaxSet, name: Seq<char>) -> Option<SyntaxReference>;

/// The value behind an optional reference.
pub open spec fn referent<T>(r: Option<&T>) -> Option<T> {
    match r {
        Some(v) => Some(*v),
        None => None,
    }
}

/// Calls `SyntaxSet::find_syntax_by_extension`, whose result depends on the set and
/// the extension alone.
#[verifier::external_body]
fn find_by_extension<'a>(syntaxes: &'a Syntaxes, extension: &str) -> (r: Option<&'a SyntaxReference>)
    ensures
        referent(r) == syntax_by_extension(syntaxes@, extension@),
{
    syntaxes.set.find_syntax_by_extension(extension)
}

/// Calls `SyntaxSet::find_syntax_by_first_line`, whose result depends on the set and
/// the line alone.
#[verifier::external_body]
fn find_by_first_line<'a>(syntaxes: &'a Syntaxes, line: &str) -> (r: Option<&'a SyntaxReference>)
    ensures
        referent(r) == syntax_by_first_line(syntaxes@, line@),
{
    syntaxes.set.find_syntax_by_first_line(line)
}

/// Calls `SyntaxSet::find_syntax_by_name`, whose result depends on the set and the
/// name alone.
#[verifier::external_body]
fn find_by_name<'a>(syntaxes: &'a Syntaxes, name: &str) -> (r: Option<&'a SyntaxReference>)
    ensures
        referent(r) == syntax_by_name(syntaxes@, name@),
{
    syntaxes.set.find_syntax_by_name(name)
}

/// The first syntax that is found: by the extension of the path, by its file name
/// as an extension, by the first line; plain text where all fail.
pub open spec fn detected(set: SyntaxSet, path: Seq<char>, first_line: Option<Seq<char>>) -> Option<
    SyntaxReference,
> {
    if extension_of(path) is Some && syntax_by_extension(set, extension_of(path)->0) is Some {
        syntax_by_extension(set, extension_of(path)->0)
    } else if file_name_of(path) is Some && syntax_by_extension(
        set,
        file_name_of(path)->0,
    ) is Some {
        syntax_by_extension(set, file_name_of(path)->0)
    } else if first_line is Some && syntax_by_first_line(set, first_line->0) is Some {
        syntax_by_first_line(set, first_line->0)
    } else {
        syntax_by_name(set, "Plain Text"@)
    }
}

/// Pick the syntax for a file. Tries the path's extension first; then the file name
/// as an extension (`Dockerfile`, `Makefile`); then the first line (a shebang or a
/// mode line); then plain text. None only where the set does not even have that.
pub fn detect<'a>(syntaxes: &'a Syntaxes, path: &str, first_line: Option<&str>) -> (r: Option<
    &'a SyntaxReference,
>)
    ensures
        referent(r) == detected(
            syntaxes@,
            path@,
            match first_line {
                Some(l) => Some(l@),
                None => None,
            },
        ),
{
    if let Some(ext) = extension(path) {
        if let Some(found) = find_by_extension(syntaxes, ext.as_str()) {
            return Some(found);
        }
    }
    if let Some(name) = file_name(path) {
        if let Some(found) = find_by_extension(syntaxes, name.as_str()) {
            return Some(found);
        }
    }
    if let Some(line) = first_line {
        if let Some(found) = find_by_first_line(syntaxes, line) {
            return Some(found);
        }
    }
    find_by_name(syntaxes, "Plain Text")
}

/// The first line from `i` on that holds more than white space.
pub open spec fn hint_in(text: Seq<char>, lines: Seq<DiffLine>, i: int) -> Option<Seq<char>>
    decreases lines.len() - i,
{
    if i < 0 || i >= lines.len() {
        None
    } else {
        let line = text_slice(text, lines[i].text.start as int, lines[i].text.end as int);
        if trim(line).len() > 0 {
            Some(line)
        } else {
            hint_in(text, lines, i + 1)
        }
    }
}

/// The first line of the chunks from `c` on that holds more than white space.
pub open spec fn hint(text: Seq<char>, chunks: Seq<HunkModel>, c: int) -> Option<Seq<char>>
    decreases chunks.len() - c,
{
    if c < 0 || c >= chunks.len() {
        None
    } else {
        match hint_in(text, chunks[c].lines, 0) {
            Some(line) => Some(line),
            None => hint(text, chunks, c + 1),
        }
    }
}

/// The first non-empty body line of the diff, the hint at the syntax of a file
/// without an extension.
pub fn first_body_line(fd: &FileDiff) -> (r: Option<&str>)
    requires
        fd@.wf(),
    ensures
        (match r {
            Some(s) => Some(s@),
            None => None,
        }) == hint(fd@.text, fd@.chunks, 0),
{
    let mut c: usize = 0;
    while c < fd.chunks.len()
        invariant
            fd@.wf(),
            c <= fd.chunks@.len(),
            hint(fd@.text, fd@.chunks, 0) == hint(fd@.text, fd@.chunks, c as int),
        decreases fd.chunks@.len() - c,
    {
        let lines = &fd.chunks[c].lines;
        assert(fd@.chunks[c as int].in_text(fd@.text));
        let mut i: usize = 0;
        while i < lines.len()
            invariant
                c < fd.chunks@.len(),
                lines@ == fd@.chunks[c as int].lines,
                fd@.chunks[c as int].in_text(fd@.text),
                i <= lines@.len(),
                hint(fd@.text, fd@.chunks, 0) == hint(fd@.text, fd@.chunks, c as int),
                hint_in(fd@.text, lines@, 0) == hint_in(fd@.text, lines@, i as int),
            decreases lines@.len() - i,
        {
            assert(text_range(
                fd@.text,
                fd@.chunks[c as int].lines[i as int].text.start as int,
                fd@.chunks[c as int].lines[i as int].text.end as int,
            ));
            let line = fd.slice(&lines[i].text);
            let chars = chars_of(line);
            if trimmed(chars.as_slice()).len() > 0 {
                return Some(line);
            }
            i = i + 1;
        }
        c = c + 1;
    }
    None
}

// ── the highlighter ────────────────────────────────────────────────────────

/// What `HighlightLines::new` makes.
pub uninterp spec fn started(syntax: SyntaxReference, theme: Theme) -> HighlightLines<'static>;

/// What `HighlightLines::highlight_line` makes of a line (none where it fails), and
/// the highlighter as the call leaves it.
pub uninterp spec fn highlighted(h: HighlightLines, set: SyntaxSet, line: Seq<char>) -> (
    Option<Seq<Region>>,
    HighlightLines,
);

/// The longest line that the highlighter is fed with, in bytes. A syntax may build a
/// pattern out of text that it has captured on a line, and syntect panics where the
/// compiled pattern is over the size limit of the regex engine (10 MiB). Text of this
/// length, captured as a whole, stays below the limit.
pub const MAX_LINE_BYTES: usize = 16_384;

/// The line can be handed to the highlighter.
pub open spec fn short_enough(line: Seq<char>) -> bool {
    encode_utf8(line).len() <= MAX_LINE_BYTES
}

/// The syntax was found in the set.
pub open spec fn syntax_of(set: SyntaxSet, syntax: SyntaxReference) -> bool {
    ||| exists|e: Seq<char>| #[trigger] syntax_by_extension(set, e) == Some(syntax)
    ||| exists|l: Seq<char>| #[trigger] syntax_by_first_line(set, l) == Some(syntax)
    ||| exists|n: Seq<char>| #[trigger] syntax_by_name(set, n) == Some(syntax)
}

/// The highlighter for the syntax once it has been fed the lines.
pub open spec fn fed_with(
    set: SyntaxSet,
    syntax: SyntaxReference,
    theme: Theme,
    lines: Seq<Seq<char>>,
) -> HighlightLines<'static>
    decreases lines.len(),
{
    if lines.len() == 0 {
        started(syntax, theme)
    } else {
        highlighted(fed_with(set, syntax, theme, lines.drop_last()), set, lines.last()).1
    }
}

pub open spec fn all_short_enough(lines: Seq<Seq<char>>) -> bool {
    forall|i: int| 0 <= i < lines.len() ==> short_enough(#[trigger] lines[i])
}

/// The highlighter was started on a syntax of the set and has been fed with it, on
/// lines of bounded length.
pub open spec fn belongs(h: HighlightLines, set: SyntaxSet) -> bool {
    exists|syntax: SyntaxReference, theme: Theme, lines: Seq<Seq<char>>|
        syntax_of(set, syntax) && all_short_enough(lines) && h == #[trigger] fed_with(
            set,
            syntax,
            theme,
            lines,
        )
}

/// Calls `HighlightLines::new`, whose result depends on the syntax and the theme
/// alone. The syntax has to be a bundled one, which has a context to start in.
#[verifier::external_body]
fn start<'a>(syntaxes: &Syntaxes, syntax: &SyntaxReference, theme: &'a Theme) -> (r: HighlightLines<
    'a,
>)
    requires
        syntax_of(syntaxes@, *syntax),
    ensures
        r == started(*syntax, *theme),
{
    HighlightLines::new(syntax, theme)
}

/// Calls `HighlightLines::highlight_line`. What it gives, and the state that it
/// leaves the highlighter in, depend on that state, the set and the line alone. The
/// pieces are slices of the line, one behind the other from its start; they may end
/// before the line does. The syntaxes are the bundled ones, the highlighter's is one
/// of them, and no line that it is fed with is too long to build a pattern from.
#[verifier::external_body]
fn feed(h: &mut HighlightLines, line: &str, syntaxes: &Syntaxes) -> (r: Option<Vec<Region>>)
    requires
        belongs(*old(h), syntaxes@),
        short_enough(line@),
    ensures
        (match r {
            Some(v) => Some(v@),
            None => None,
        }, *final(h)) == highlighted(*old(h), syntaxes@, line@),
        r is Some ==> regions_ok(r->0@, encode_utf8(line@)),
{
    let pieces = h.highlight_line(line, &syntaxes.set).ok()?;
    Some(pieces.into_iter().map(|(style, piece)| Region {
        len: piece.len(),
        rgb: (style.foreground.r, style.foreground.g, style.foreground.b),
        alpha: style.foreground.a,
        bold: style.font_style.contains(FontStyle::BOLD),
        italic: style.font_style.contains(FontStyle::ITALIC),
        underline: style.font_style.contains(FontStyle::UNDERLINE),
    }).collect())
}

// ── one line ───────────────────────────────────────────────────────────────

/// The colour of a token on a line with the given tint, where `lift` raises a
/// colour against a background.
pub open spec fn color_ok<F: Fn(Rgb, Rgb) -> Rgb>(
    region: Region,
    tint: Option<Rgb>,
    truecolor: bool,
    lift: F,
    c: Color,
) -> bool {
    match tint {
        Some(bg) => if region.alpha == 0 {
            c == token_color(region, true, region.rgb, truecolor)
        } else {
            exists|lifted: Rgb| #[trigger]
                call_ensures(lift, (region.rgb, bg), lifted) && c == token_color(
                    region,
                    true,
                    lifted,
                    truecolor,
                )
        },
        None => c == token_color(region, false, region.rgb, truecolor),
    }
}

/// The colours of the tokens of a line.
pub open spec fn colors_ok<F: Fn(Rgb, Rgb) -> Rgb>(
    regions: Seq<Region>,
    tint: Option<Rgb>,
    truecolor: bool,
    lift: F,
    colors: Seq<Color>,
) -> bool {
    &&& colors.len() == regions.len()
    &&& forall|i: int|
        0 <= i < colors.len() ==> color_ok(
            regions[i],
            tint,
            truecolor,
            lift,
            #[trigger] colors[i],
        )
}

fn token_colors<F: Fn(Rgb, Rgb) -> Rgb>(
    regions: &Vec<Region>,
    tint: Option<Rgb>,
    truecolor: bool,
    lift: &F,
) -> (r: Vec<Color>)
    requires
        forall|rgb: Rgb, bg: Rgb| call_requires(*lift, (rgb, bg)),
    ensures
        colors_ok(regions@, tint, truecolor, *lift, r@),
{
    let mut colors: Vec<Color> = Vec::new();
    let n = regions.len();
    for i in 0..n
        invariant
            n == regions@.len(),
            forall|rgb: Rgb, bg: Rgb| call_requires(*lift, (rgb, bg)),
            colors@.len() == i,
            forall|j: int|
                0 <= j < i ==> color_ok(
                    regions@[j],
                    tint,
                    truecolor,
                    *lift,
                    #[trigger] colors@[j],
                ),
    {
        let region = regions[i];
        let color = match tint {
            Some(bg) => if region.alpha == 0 {
                resolve_fg(&region, true, region.rgb, truecolor)
            } else {
                let lifted = lift(region.rgb, bg);
                assert(call_ensures(*lift, (region.rgb, bg), lifted));
                resolve_fg(&region, true, lifted, truecolor)
            },
            None => resolve_fg(&region, false, region.rgb, truecolor),
        };
        colors.push(color);
    }
    colors
}

/// The tokens of a line of the text in the given colours.
pub open spec fn painted<F: Fn(Rgb, Rgb) -> Rgb>(
    regions: Seq<Region>,
    line: Range<usize>,
    tint: Option<Rgb>,
    truecolor: bool,
    lift: F,
    spans: Seq<(Range<usize>, SynStyle)>,
    colors: Seq<Color>,
) -> bool {
    &&& colors_ok(regions, tint, truecolor, lift, colors)
    &&& spans == region_spans(
        regions,
        colors,
        regions.len() as int,
        line.start as int,
        line.end - line.start,
    )
}

/// The tokens of a line of the text, given what the highlighter made of it. A line
/// on which it failed has none.
pub open spec fn line_ok<F: Fn(Rgb, Rgb) -> Rgb>(
    result: Option<Seq<Region>>,
    line: Range<usize>,
    tint: Option<Rgb>,
    truecolor: bool,
    lift: F,
    spans: Seq<(Range<usize>, SynStyle)>,
) -> bool {
    if result is Some {
        exists|colors: Seq<Color>|
            painted(result->0, line, tint, truecolor, lift, spans, colors)
    } else {
        spans.len() == 0
    }
}

/// The tokens lie inside the line, one behind the other from its start, and each is
/// a range of the text.
pub open spec fn spans_fit(
    text: Seq<char>,
    line: Range<usize>,
    spans: Seq<(Range<usize>, SynStyle)>,
) -> bool {
    &&& tiles(spans, line.start as int, line.end - line.start)
    &&& forall|i: int|
        0 <= i < spans.len() ==> text_range(
            text,
            (#[trigger] spans[i]).0.start as int,
            spans[i].0.end as int,
        )
}

/// A line of the text as the highlighter is fed with it: with a newline at its end.
pub open spec fn fed_line(text: Seq<char>, line: Range<usize>) -> Seq<char> {
    text_slice(text, line.start as int, line.end as int) + "\n"@
}

proof fn lemma_fed_line(text: Seq<char>, line: Range<usize>)
    requires
        text_range(text, line.start as int, line.end as int),
    ensures
        encode_utf8(fed_line(text, line)) == encode_utf8(text).subrange(
            line.start as int,
            line.end as int,
        ).push(NEWLINE),
        valid_utf8(encode_utf8(fed_line(text, line))),
{
    lemma_slice_bytes(text, line.start as int, line.end as int);
    encode_utf8_valid_utf8(fed_line(text, line));
    let shown = text_slice(text, line.start as int, line.end as int);
    lemma_encode_concat(shown, "\n"@);
    reveal_strlit("\n");
    assert(is_ascii_chars("\n"@));
    is_ascii_chars_encode_utf8("\n"@);
    assert("\n"@[0] as u8 == NEWLINE);
    assert(encode_utf8(fed_line(text, line)) =~= encode_utf8(shown).push(NEWLINE));
}

/// Highlight a single line of code and map the style runs back to byte ranges of
/// the diff's text. On a tinted line each token's colour is raised against the tint
/// by `lift`. A highlighter error degrades to a line without tokens.
fn highlight_one<F: Fn(Rgb, Rgb) -> Rgb>(
    h: &mut HighlightLines,
    fd: &FileDiff,
    line: &Range<usize>,
    syntaxes: &Syntaxes,
    tint: Option<Rgb>,
    truecolor: bool,
    lift: &F,
) -> (r: StyledLine)
    requires
        belongs(*old(h), syntaxes@),
        text_range(fd@.text, line.start as int, line.end as int),
        line.end - line.start < MAX_LINE_BYTES,
        forall|rgb: Rgb, bg: Rgb| call_requires(*lift, (rgb, bg)),
    ensures
        *final(h) == highlighted(*old(h), syntaxes@, fed_line(fd@.text, *line)).1,
        line_ok(
            highlighted(*old(h), syntaxes@, fed_line(fd@.text, *line)).0,
            *line,
            tint,
            truecolor,
            *lift,
            r.spans@,
        ),
        spans_fit(fd@.text, *line, r.spans@),
{
    let mut owned = copy_of(fd.slice(line));
    owned.append("\n");
    proof {
        lemma_fed_line(fd@.text, *line);
    }
    match feed(h, owned.as_str(), syntaxes) {
        Some(regions) => {
            let colors = token_colors(&regions, tint, truecolor, lift);
            let ghost n = regions@.len() as int;
            proof {
                let b = encode_utf8(owned@);
                lemma_region_spans(
                    regions@,
                    colors@,
                    n,
                    line.start as int,
                    line.end - line.start,
                );
                lemma_spans_fit(
                    fd@.text,
                    line.start as int,
                    line.end as int,
                    b,
                    regions@,
                    colors@,
                    n,
                );
            }
            let r = clip_regions(&regions, &colors, line.start, line.end - line.start);
            let ghost result = Some(regions@);
            assert(painted(result->0, *line, tint, truecolor, *lift, r.spans@, colors@));
            assert(line_ok(result, *line, tint, truecolor, *lift, r.spans@));
            r
        },
        None => StyledLine { spans: Vec::new() },
    }
}

// ── chunks and files ───────────────────────────────────────────────────────

/// Whether a line is on the removed side (`old`) or the added side of a chunk.
/// Context is on both.
pub open spec fn on_side(kind: LineKind, old: bool) -> bool {
    match kind {
        LineKind::Context => true,
        LineKind::Add => !old,
        LineKind::Del => old,
        LineKind::NoNewline => false,
    }
}

/// What the highlighter of one side has been fed with before line `n`.
pub open spec fn fed_before(text: Seq<char>, lines: Seq<DiffLine>, n: int, old: bool) -> Seq<
    Seq<char>,
>
    decreases n,
{
    if n <= 0 {
        Seq::empty()
    } else if on_side(lines[n - 1].kind, old) {
        fed_before(text, lines, n - 1, old).push(fed_line(text, lines[n - 1].text))
    } else {
        fed_before(text, lines, n - 1, old)
    }
}

/// The line and the newline behind it can be handed to the highlighter. The marker of
/// a missing newline never is.
pub open spec fn line_fits(line: DiffLine) -> bool {
    line.kind == LineKind::NoNewline || line.text.end - line.text.start < MAX_LINE_BYTES
}

/// Every line of the diff can be handed to the highlighter.
pub open spec fn diff_fits(chunks: Seq<HunkModel>) -> bool {
    forall|c: int, i: int|
        0 <= c < chunks.len() && 0 <= i < chunks[c].lines.len() ==> line_fits(
            #[trigger] chunks[c].lines[i],
        )
}

/// Whether every line of the diff can be handed to the highlighter.
pub fn can_highlight(fd: &FileDiff) -> (r: bool)
    requires
        fd@.wf(),
    ensures
        r == diff_fits(fd@.chunks),
{
    let mut c: usize = 0;
    while c < fd.chunks.len()
        invariant
            fd@.wf(),
            c <= fd.chunks@.len(),
            forall|d: int, i: int|
                0 <= d < c && 0 <= i < fd@.chunks[d].lines.len() ==> line_fits(
                    #[trigger] fd@.chunks[d].lines[i],
                ),
        decreases fd.chunks@.len() - c,
    {
        let lines = &fd.chunks[c].lines;
        assert(fd@.chunks[c as int].in_text(fd@.text));
        let mut i: usize = 0;
        while i < lines.len()
            invariant
                c < fd.chunks@.len(),
                lines@ == fd@.chunks[c as int].lines,
                fd@.chunks[c as int].in_text(fd@.text),
                i <= lines@.len(),
                forall|j: int| 0 <= j < i ==> line_fits(#[trigger] lines@[j]),
            decreases lines@.len() - i,
        {
            let line = &lines[i];
            assert(text_range(
                fd@.text,
                fd@.chunks[c as int].lines[i as int].text.start as int,
                fd@.chunks[c as int].lines[i as int].text.end as int,
            ));
            if line.kind != LineKind::NoNewline && line.text.end - line.text.start
                >= MAX_LINE_BYTES {
                assert(!line_fits(fd@.chunks[c as int].lines[i as int]));
                return false;
            }
            i = i + 1;
        }
        c = c + 1;
    }
    true
}

proof fn lemma_fed_before(text: Seq<char>, lines: Seq<DiffLine>, n: int, old: bool)
    requires
        n <= lines.len(),
        forall|i: int|
            0 <= i < lines.len() ==> text_range(
                text,
                (#[trigger] lines[i]).text.start as int,
                lines[i].text.end as int,
            ),
        forall|i: int| 0 <= i < lines.len() ==> line_fits(#[trigger] lines[i]),
    ensures
        all_short_enough(fed_before(text, lines, n, old)),
    decreases n,
{
    if n > 0 {
        lemma_fed_before(text, lines, n - 1, old);
        lemma_fed_line(text, lines[n - 1].text);
    }
}

/// The tint behind a line.
pub open spec fn tint_of(kind: LineKind, add: Rgb, del: Rgb) -> Option<Rgb> {
    match kind {
        LineKind::Add => Some(add),
        LineKind::Del => Some(del),
        _ => None,
    }
}

/// How a diff is highlighted: with which syntax of which set, in which theme, over
/// which tints.
pub struct Scheme<'a> {
    pub syntaxes: &'a Syntaxes,
    pub syntax: &'a SyntaxReference,
    pub theme: &'a Theme,
    pub add: (u8, u8, u8),
    pub del: (u8, u8, u8),
    pub truecolor: bool,
}

/// The tokens of line `i` of a chunk: what the highlighter of its side makes of it
/// when it has been fed with the lines of that side before it.
pub open spec fn chunk_line_ok<F: Fn(Rgb, Rgb) -> Rgb>(
    text: Seq<char>,
    lines: Seq<DiffLine>,
    i: int,
    scheme: Scheme,
    lift: F,
    spans: Seq<(Range<usize>, SynStyle)>,
) -> bool {
    let line = lines[i];
    if line.kind == LineKind::NoNewline {
        spans.len() == 0
    } else {
        line_ok(
            highlighted(
                fed_with(
                    scheme.syntaxes@,
                    *scheme.syntax,
                    *scheme.theme,
                    fed_before(text, lines, i, line.kind == LineKind::Del),
                ),
                scheme.syntaxes@,
                fed_line(text, line.text),
            ).0,
            line.text,
            tint_of(line.kind, scheme.add, scheme.del),
            scheme.truecolor,
            lift,
            spans,
        )
    }
}

/// The highlights of a chunk, parallel to its lines.
pub open spec fn chunk_ok<F: Fn(Rgb, Rgb) -> Rgb>(
    text: Seq<char>,
    lines: Seq<DiffLine>,
    scheme: Scheme,
    lift: F,
    out: Seq<StyledLine>,
) -> bool {
    &&& out.len() == lines.len()
    &&& forall|i: int|
        0 <= i < out.len() ==> {
            &&& chunk_line_ok(text, lines, i, scheme, lift, (#[trigger] out[i]).spans@)
            &&& spans_fit(text, lines[i].text, out[i].spans@)
        }
}

/// Highlight one chunk with two independent parser states: one for the removed side
/// and one for the added side. Context feeds both, so that each stays coherent.
fn highlight_chunk<F: Fn(Rgb, Rgb) -> Rgb>(
    fd: &FileDiff,
    lines: &Vec<DiffLine>,
    scheme: &Scheme,
    lift: &F,
) -> (r: ChunkHighlight)
    requires
        syntax_of(scheme.syntaxes@, *scheme.syntax),
        forall|i: int|
            0 <= i < lines@.len() ==> text_range(
                fd@.text,
                (#[trigger] lines@[i]).text.start as int,
                lines@[i].text.end as int,
            ),
        forall|i: int| 0 <= i < lines@.len() ==> line_fits(#[trigger] lines@[i]),
        forall|rgb: Rgb, bg: Rgb| call_requires(*lift, (rgb, bg)),
    ensures
        chunk_ok(fd@.text, lines@, *scheme, *lift, r.lines@),
{
    let syntaxes = scheme.syntaxes;
    let truecolor = scheme.truecolor;
    let mut old = start(syntaxes, scheme.syntax, scheme.theme);
    let mut new = start(syntaxes, scheme.syntax, scheme.theme);
    let mut out: Vec<StyledLine> = Vec::new();
    let n = lines.len();
    let ghost text = fd@.text;
    for i in 0..n
        invariant
            n == lines@.len(),
            text == fd@.text,
            syntaxes == scheme.syntaxes,
            truecolor == scheme.truecolor,
            syntax_of(syntaxes@, *scheme.syntax),
            forall|i: int|
                0 <= i < lines@.len() ==> text_range(
                    text,
                    (#[trigger] lines@[i]).text.start as int,
                    lines@[i].text.end as int,
                ),
            forall|i: int| 0 <= i < lines@.len() ==> line_fits(#[trigger] lines@[i]),
            forall|rgb: Rgb, bg: Rgb| call_requires(*lift, (rgb, bg)),
            old == fed_with(
                syntaxes@,
                *scheme.syntax,
                *scheme.theme,
                fed_before(text, lines@, i as int, true),
            ),
            new == fed_with(
                syntaxes@,
                *scheme.syntax,
                *scheme.theme,
                fed_before(text, lines@, i as int, false),
            ),
            out@.len() == i,
            forall|j: int|
                0 <= j < i ==> {
                    &&& chunk_line_ok(
                        text,
                        lines@,
                        j,
                        *scheme,
                        *lift,
                        (#[trigger] out@[j]).spans@,
                    )
                    &&& spans_fit(text, lines@[j].text, out@[j].spans@)
                },
    {
        let line = &lines[i];
        proof {
            lemma_fed_before(text, lines@, i as int, true);
            lemma_fed_before(text, lines@, i as int, false);
            let fed = fed_line(text, line.text);
            let a = fed_before(text, lines@, i as int, true);
            let b = fed_before(text, lines@, i as int, false);
            assert(a.push(fed).drop_last() =~= a && a.push(fed).last() == fed);
            assert(b.push(fed).drop_last() =~= b && b.push(fed).last() == fed);
        }
        let styled = match line.kind {
            LineKind::Context => {
                let _ = highlight_one(&mut old, fd, &line.text, syntaxes, None, truecolor, lift);
                highlight_one(&mut new, fd, &line.text, syntaxes, None, truecolor, lift)
            },
            LineKind::Add => highlight_one(
                &mut new,
                fd,
                &line.text,
                syntaxes,
                Some(scheme.add),
                truecolor,
                lift,
            ),
            LineKind::Del => highlight_one(
                &mut old,
                fd,
                &line.text,
                syntaxes,
                Some(scheme.del),
                truecolor,
                lift,
            ),
            LineKind::NoNewline => StyledLine { spans: Vec::new() },
        };
        out.push(styled);
    }
    ChunkHighlight { lines: out }
}

/// Highlight every chunk of a diff in a theme, with the colours resolved for the
/// terminal. `add` and `del` are the tints behind added and removed lines; `lift`
/// raises a token's colour against a tint. None where there is no syntax for the
/// file, not even plain text. `can_highlight` tells whether the lines are short enough.
pub fn highlight_file<F: Fn(Rgb, Rgb) -> Rgb>(
    fd: &FileDiff,
    syntaxes: &Syntaxes,
    theme: &Theme,
    add: Rgb,
    del: Rgb,
    truecolor: bool,
    lift: F,
) -> (r: Option<FileHighlight>)
    requires
        fd@.wf(),
        diff_fits(fd@.chunks),
        forall|rgb: Rgb, bg: Rgb| call_requires(lift, (rgb, bg)),
    ensures
        match detected(syntaxes@, fd@.path, hint(fd@.text, fd@.chunks, 0)) {
            Some(syntax) => {
                let scheme = Scheme { syntaxes, syntax: &syntax, theme, add, del, truecolor };
                &&& r is Some
                &&& r->0.add_bg == terminal_color(add, truecolor)
                &&& r->0.del_bg == terminal_color(del, truecolor)
                &&& r->0.chunks@.len() == fd@.chunks.len()
                &&& forall|c: int|
                    0 <= c < fd@.chunks.len() ==> chunk_ok(
                        fd@.text,
                        fd@.chunks[c].lines,
                        scheme,
                        lift,
                        (#[trigger] r->0.chunks@[c]).lines@,
                    )
            },
            None => r is None,
        },
{
    let syntax = match detect(syntaxes, fd.path.as_str(), first_body_line(fd)) {
        Some(s) => s,
        None => {
            return None;
        },
    };
    let scheme = Scheme { syntaxes, syntax, theme, add, del, truecolor };
    let mut chunks: Vec<ChunkHighlight> = Vec::new();
    let n = fd.chunks.len();
    for c in 0..n
        invariant
            n == fd.chunks@.len(),
            fd@.wf(),
            diff_fits(fd@.chunks),
            syntax_of(scheme.syntaxes@, *scheme.syntax),
            forall|rgb: Rgb, bg: Rgb| call_requires(lift, (rgb, bg)),
            chunks@.len() == c,
            forall|j: int|
                0 <= j < c ==> chunk_ok(
                    fd@.text,
                    fd@.chunks[j].lines,
                    scheme,
                    lift,
                    (#[trigger] chunks@[j]).lines@,
                ),
    {
        assert(fd@.chunks[c as int].in_text(fd@.text));
        assert forall|i: int| 0 <= i < fd.chunks@[c as int].lines@.len() implies text_range(
            fd@.text,
            (#[trigger] fd.chunks@[c as int].lines@[i]).text.start as int,
            fd.chunks@[c as int].lines@[i].text.end as int,
        ) by {
            assert(fd@.chunks[c as int].lines[i] == fd.chunks@[c as int].lines@[i]);
        }
        assert forall|i: int| 0 <= i < fd.chunks@[c as int].lines@.len() implies line_fits(
            #[trigger] fd.chunks@[c as int].lines@[i],
        ) by {
            assert(fd@.chunks[c as int].lines[i] == fd.chunks@[c as int].lines@[i]);
        }
        let done = highlight_chunk(fd, &fd.chunks[c].lines, &scheme, &lift);
        chunks.push(done);
    }
    Some(
        FileHighlight {
            chunks,
            add_bg: to_color(add, truecolor),
            del_bg: to_color(del, truecolor),
        },
    )
}

// ── what the syntax is guessed from ────────────────────────────────────────

/// Line `i` of the lines of a chunk holds more than white space, and none before it does.
pub open spec fn first_with_text(text: Seq<char>, lines: Seq<DiffLine>, i: int) -> bool {
    &&& 0 <= i < lines.len()
    &&& has_text(text, lines[i])
    &&& forall|j: int| 0 <= j < i ==> !has_text(text, #[trigger] lines[j])
}

/// A line holds more than white space.
pub open spec fn has_text(text: Seq<char>, line: DiffLine) -> bool {
    trim(text_slice(text, line.text.start as int, line.text.end as int)).len() > 0
}

proof fn lemma_hint_in(text: Seq<char>, lines: Seq<DiffLine>, i: int, k: int)
    requires
        0 <= i <= k,
        first_with_text(text, lines, k),
    ensures
        hint_in(text, lines, i) == Some(
            text_slice(text, lines[k].text.start as int, lines[k].text.end as int),
        ),
    decreases k - i,
{
    if i < k {
        assert(!has_text(text, lines[i]));
        lemma_hint_in(text, lines, i + 1, k);
    }
}

proof fn lemma_no_hint_in(text: Seq<char>, lines: Seq<DiffLine>, i: int)
    requires
        0 <= i,
        forall|j: int| 0 <= j < lines.len() ==> !has_text(text, #[trigger] lines[j]),
    ensures
        hint_in(text, lines, i) is None,
    decreases lines.len() - i,
{
    if i < lines.len() {
        assert(!has_text(text, lines[i]));
        lemma_no_hint_in(text, lines, i + 1);
    }
}

/// The hint is the first line of the diff that holds more than white space, in whatever
/// chunk it is.
pub proof fn law_hint_is_first_text(
    text: Seq<char>,
    chunks: Seq<HunkModel>,
    c: int,
    h: int,
    k: int,
)
    requires
        0 <= c <= h < chunks.len(),
        forall|d: int, j: int|
            c <= d < h && 0 <= j < chunks[d].lines.len() ==> !has_text(
                text,
                #[trigger] chunks[d].lines[j],
            ),
        first_with_text(text, chunks[h].lines, k),
    ensures
        hint(text, chunks, c) == Some(
            text_slice(
                text,
                chunks[h].lines[k].text.start as int,
                chunks[h].lines[k].text.end as int,
            ),
        ),
    decreases h - c,
{
    if c < h {
        assert forall|j: int| 0 <= j < chunks[c].lines.len() implies !has_text(
            text,
            #[trigger] chunks[c].lines[j],
        ) by {}
        lemma_no_hint_in(text, chunks[c].lines, 0);
        law_hint_is_first_text(text, chunks, c + 1, h, k);
    } else {
        lemma_hint_in(text, chunks[h].lines, 0, k);
    }
}

/// What a highlighter was fed with before a line is what stands on its side in front of
/// it: the removed side has context and removed lines, the added side context and added
/// lines.
pub proof fn law_sides_are_fed_apart(text: Seq<char>, lines: Seq<DiffLine>, n: int, old: bool)
    requires
        0 <= n <= lines.len(),
    ensures
        fed_before(text, lines, n, old) == lines.take(n).filter(
            |l: DiffLine|
                l.kind == LineKind::Context || l.kind == if old {
                    LineKind::Del
                } else {
                    LineKind::Add
                },
        ).map_values(|l: DiffLine| fed_line(text, l.text)),
    decreases n,
{
    reveal(Seq::filter);
    let pred = |l: DiffLine|
        l.kind == LineKind::Context || l.kind == if old {
            LineKind::Del
        } else {
            LineKind::Add
        };
    let feed_of = |l: DiffLine| fed_line(text, l.text);
    if n > 0 {
        law_sides_are_fed_apart(text, lines, n - 1, old);
        assert(lines.take(n).drop_last() =~= lines.take(n - 1));
        let was = lines.take(n - 1).filter(pred);
        assert(was.push(lines[n - 1]).map_values(feed_of) =~= was.map_values(feed_of).push(
            feed_of(lines[n - 1]),
        ));
    } else {
        assert(lines.take(0) =~= Seq::<DiffLine>::empty());
        assert(lines.take(0).filter(pred).map_values(feed_of) =~= Seq::<Seq<char>>::empty());
    }
}

} // verus!
