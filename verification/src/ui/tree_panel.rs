//! Left panel: the changed-file tree with review-status indicators.

use vstd::prelude::*;
use vstd::string::*;

use crate::app::session::App;
use crate::app::state::{tree_ok, AppState};
use crate::app::types::Focus;
use crate::model::file::{ChangeKind, KindModel};
use crate::model::review::ReviewStatus;
use crate::render::style::{plain_text, Color, Modifier};
use crate::render::viewport::min_of;
use crate::render::{sanitize, sanitized};
use crate::text::{copy_of, decimal, push_char, to_decimal};
use crate::ui::canvas::{
    append_spans, char_string, colored, less, line_models, no_style, push_line, push_span,
    repeat_char, repeated, span_models, span_of, text_columns, text_width, Line, LineModel, Span,
    SpanModel, Style,
};

verus! {

// ── one row ────────────────────────────────────────────────────────────────

/// A short kind tag for anything other than a plain modification.
pub open spec fn kind_tag(kind: KindModel) -> Option<(Seq<char>, Color)> {
    match kind {
        KindModel::Modified => None,
        KindModel::Added => Some((" (+)"@, Color::Green)),
        KindModel::Untracked => Some((" (+)"@, Color::Green)),
        KindModel::Deleted => Some((" (-)"@, Color::Red)),
        _ => Some((" ("@ + seq![kind.glyph()] + ")"@, Color::DarkGray)),
    }
}

/// The kind tag as a span, if there is one.
pub open spec fn kind_spans(kind: KindModel) -> Seq<SpanModel> {
    match kind_tag(kind) {
        Some((text, color)) => seq![span_of(text, colored(color))],
        None => Seq::empty(),
    }
}

fn write_kind(spans: &mut Vec<Span>, kind: &ChangeKind)
    ensures
        span_models(final(spans)@) == span_models(old(spans)@) + kind_spans(kind@),
{
    let ghost before = span_models(spans@);
    match kind {
        ChangeKind::Modified => {
            assert(before + kind_spans(kind@) =~= before);
        },
        ChangeKind::Added => {
            push_span(spans, copy_of(" (+)"), Style::fg(Color::Green));
            assert(span_models(spans@) =~= before + kind_spans(kind@));
        },
        ChangeKind::Untracked => {
            push_span(spans, copy_of(" (+)"), Style::fg(Color::Green));
            assert(span_models(spans@) =~= before + kind_spans(kind@));
        },
        ChangeKind::Deleted => {
            push_span(spans, copy_of(" (-)"), Style::fg(Color::Red));
            assert(span_models(spans@) =~= before + kind_spans(kind@));
        },
        _ => {
            let mut text = copy_of(" (");
            push_char(&mut text, kind.glyph());
            text.append(")");
            assert(text@ =~= " ("@ + seq![kind@.glyph()] + ")"@);
            push_span(spans, text, Style::fg(Color::DarkGray));
            assert(span_models(spans@) =~= before + kind_spans(kind@));
        },
    }
}

/// The marker of a file: reviewed, partly reviewed, or not.
pub open spec fn status_marker(s: AppState, fi: int) -> (Seq<char>, Color) {
    if s.status(fi) == ReviewStatus::Reviewed {
        (s.glyphs.reviewed@, Color::Green)
    } else if s.chunk_counts(fi).0 > 0 {
        (s.glyphs.partial@, Color::Yellow)
    } else {
        (s.glyphs.unreviewed@, Color::DarkGray)
    }
}

/// The progress of a file that is partway through its review.
pub open spec fn progress_spans(counts: (nat, nat)) -> Seq<SpanModel> {
    if counts.1 > 0 && counts.0 > 0 && counts.0 < counts.1 {
        seq![
            span_of("  "@, no_style()),
            span_of(decimal(counts.0) + "/"@ + decimal(counts.1), colored(Color::Yellow)),
        ]
    } else {
        Seq::empty()
    }
}

/// The line counts of a file, where there are any.
pub open spec fn count_spans(additions: u32, deletions: u32) -> Seq<SpanModel> {
    if additions > 0 || deletions > 0 {
        seq![
            span_of("  "@, no_style()),
            span_of("+"@ + decimal(additions as nat), colored(Color::Green)),
            span_of(" "@, no_style()),
            span_of("-"@ + decimal(deletions as nat), colored(Color::Red)),
        ]
    } else {
        Seq::empty()
    }
}

/// The spans of a file row behind its indent.
pub open spec fn file_spans(s: AppState, n: int, fi: int) -> Seq<SpanModel> {
    let file = s.files[fi];
    let (glyph, color) = status_marker(s, fi);
    let name = if s.filter.len() > 0 {
        file.path
    } else {
        s.tree.nodes[n].name
    };
    seq![span_of(glyph + " "@, colored(color)), span_of(sanitized(name), no_style())] + kind_spans(
        file.kind,
    ) + progress_spans(s.chunk_counts(fi)) + count_spans(file.additions, file.deletions)
}

/// The spans of a folder row behind its indent.
pub open spec fn folder_spans(s: AppState, n: int) -> Seq<SpanModel> {
    let node = s.tree.nodes[n];
    let arrow = if node.collapsed {
        s.glyphs.folder_closed
    } else {
        s.glyphs.folder_open
    };
    seq![span_of(seq![arrow] + " "@ + sanitized(node.name) + "/"@, colored(Color::Blue))]
}

/// The indent of a row: with a filter the list is flat.
pub open spec fn row_indent(s: AppState, n: int) -> Seq<char> {
    if s.filter.len() > 0 {
        Seq::empty()
    } else {
        repeated(' ', 2 * s.tree.nodes[n].depth)
    }
}

/// The spans of a row.
pub open spec fn row_spans(s: AppState, n: int) -> Seq<SpanModel> {
    let rest = match s.tree.nodes[n].file {
        Some(fi) => file_spans(s, n, fi as int),
        None => folder_spans(s, n),
    };
    seq![span_of(row_indent(s, n), no_style())] + rest
}

/// The columns that the first `n` spans take.
pub open spec fn spans_columns(spans: Seq<SpanModel>, n: int) -> int
    decreases n,
{
    if n <= 0 {
        0
    } else {
        spans_columns(spans, n - 1) + text_columns(spans[n - 1].text)
    }
}

/// `spans` with spaces behind them up to `width` columns.
pub open spec fn padded_spans(spans: Seq<SpanModel>, width: int) -> Seq<SpanModel> {
    let used = spans_columns(spans, spans.len() as int);
    if used < width {
        spans.push(span_of(repeated(' ', width - used), no_style()))
    } else {
        spans
    }
}

/// The style of the row under the cursor.
pub open spec fn cursor_style(focused: bool) -> Style {
    Style {
        fg: None,
        bg: Some(
            if focused {
                Color::Indexed(240)
            } else {
                Color::Indexed(237)
            },
        ),
        modifier: Modifier { bold: true, ..plain_text() },
    }
}

/// The line of row `i` of the sidebar.
pub open spec fn tree_line(s: AppState, i: int, width: int) -> LineModel {
    let spans = row_spans(s, s.tree.visible[i] as int);
    if i == s.tree_cursor {
        LineModel {
            spans: padded_spans(spans, width),
            style: cursor_style(s.focus == Focus::Tree),
        }
    } else {
        LineModel { spans, style: no_style() }
    }
}

/// The first row that is shown, so that the cursor's row is.
pub open spec fn tree_top(s: AppState, height: int) -> int {
    less(s.tree_cursor as int, less(height, 1))
}

/// The lines of the sidebar.
pub open spec fn tree_lines_of(s: AppState, width: int, height: int) -> Seq<LineModel> {
    let top = tree_top(s, height);
    Seq::new(
        min_of(height, less(s.tree.visible.len() as int, top)) as nat,
        |k: int| tree_line(s, top + k, width),
    )
}

/// The cursor's row is always in view.
pub proof fn law_cursor_row_in_view(s: AppState, height: int)
    requires
        s.tree_cursor < s.tree.visible.len(),
        height > 0,
    ensures
        tree_top(s, height) <= s.tree_cursor,
        s.tree_cursor < tree_top(s, height) + tree_lines_of(s, 0, height).len(),
{
}

/// The title of the panel.
pub open spec fn tree_title_of(s: AppState) -> Seq<char> {
    let n = s.files.len() as int;
    if s.hidden_view {
        " Hidden files ("@ + decimal(s.count_hidden(n)) + ") "@
    } else {
        " Changed files ("@ + decimal((n - s.count_hidden(n)) as nat) + ") "@
    }
}

// ── writing ────────────────────────────────────────────────────────────────

fn write_progress(spans: &mut Vec<Span>, reviewed: usize, total: usize)
    ensures
        span_models(final(spans)@) == span_models(old(spans)@) + progress_spans(
            (reviewed as nat, total as nat),
        ),
{
    let ghost before = span_models(spans@);
    let ghost want = progress_spans((reviewed as nat, total as nat));
    if total > 0 && reviewed > 0 && reviewed < total {
        push_span(spans, copy_of("  "), Style::none());
        let mut text = to_decimal(reviewed as u128);
        text.append("/");
        text.append(to_decimal(total as u128).as_str());
        push_span(spans, text, Style::fg(Color::Yellow));
    }
    assert(span_models(spans@) =~= before + want);
}

fn write_counts(spans: &mut Vec<Span>, additions: u32, deletions: u32)
    ensures
        span_models(final(spans)@) == span_models(old(spans)@) + count_spans(additions, deletions),
{
    let ghost before = span_models(spans@);
    let ghost want = count_spans(additions, deletions);
    if additions > 0 || deletions > 0 {
        push_span(spans, copy_of("  "), Style::none());
        let mut plus = copy_of("+");
        plus.append(to_decimal(additions as u128).as_str());
        push_span(spans, plus, Style::fg(Color::Green));
        push_span(spans, copy_of(" "), Style::none());
        let mut minus = copy_of("-");
        minus.append(to_decimal(deletions as u128).as_str());
        push_span(spans, minus, Style::fg(Color::Red));
    }
    assert(span_models(spans@) =~= before + want);
}

fn marker(app: &App, fi: usize) -> (r: (&'static str, Color))
    requires
        app.wf(),
        fi < app@.files.len(),
    ensures
        (r.0@, r.1) == status_marker(app@, fi as int),
{
    let status = app.review_status(fi);
    let (reviewed, _) = app.reviewed_chunk_count(fi);
    proof {
        reveal(App::state);
    }
    if matches!(status, ReviewStatus::Reviewed) {
        (app.glyphs.reviewed, Color::Green)
    } else if reviewed > 0 {
        (app.glyphs.partial, Color::Yellow)
    } else {
        (app.glyphs.unreviewed, Color::DarkGray)
    }
}

fn write_file(app: &App, node: usize, fi: usize) -> (r: Vec<Span>)
    requires
        app.wf(),
        node < app@.tree.nodes.len(),
        fi < app@.files.len(),
    ensures
        span_models(r@) == file_spans(app@, node as int, fi as int),
{
    let (glyph, color) = marker(app, fi);
    let (reviewed, total) = app.reviewed_chunk_count(fi);
    let filtering = app.is_filtering();
    proof {
        reveal(App::state);
    }
    let mut spans: Vec<Span> = Vec::new();
    let mut mark = copy_of(glyph);
    mark.append(" ");
    push_span(&mut spans, mark, Style::fg(color));
    assert(app@.tree.nodes[node as int] == app.tree.nodes@[node as int]@);
    assert(app@.files[fi as int] == app.files@[fi as int]@);
    // Untrusted: paths and components can carry escape sequences.
    let name = if filtering {
        sanitize(app.files[fi].path.as_str())
    } else {
        sanitize(app.tree.nodes[node].name.as_str())
    };
    push_span(&mut spans, name, Style::none());
    write_kind(&mut spans, &app.files[fi].kind);
    write_progress(&mut spans, reviewed, total);
    write_counts(&mut spans, app.files[fi].additions, app.files[fi].deletions);
    assert(span_models(spans@) =~= file_spans(app@, node as int, fi as int));
    spans
}

fn write_folder(app: &App, node: usize) -> (r: Vec<Span>)
    requires
        node < app@.tree.nodes.len(),
    ensures
        span_models(r@) == folder_spans(app@, node as int),
{
    proof {
        reveal(App::state);
    }
    assert(app@.tree.nodes[node as int] == app.tree.nodes@[node as int]@);
    let arrow = if app.tree.nodes[node].collapsed {
        app.glyphs.folder_closed
    } else {
        app.glyphs.folder_open
    };
    let mut text = char_string(arrow);
    text.append(" ");
    text.append(sanitize(app.tree.nodes[node].name.as_str()).as_str());
    text.append("/");
    let mut spans: Vec<Span> = Vec::new();
    push_span(&mut spans, text, Style::fg(Color::Blue));
    assert(span_models(spans@) =~= folder_spans(app@, node as int));
    spans
}

fn write_indent(app: &App, node: usize) -> (r: String)
    requires
        node < app@.tree.nodes.len(),
    ensures
        r@ == row_indent(app@, node as int),
{
    let filtering = app.is_filtering();
    proof {
        reveal(App::state);
    }
    if filtering {
        let s = String::new();
        assert(s@ =~= Seq::<char>::empty());
        return s;
    }
    assert(app@.tree.nodes[node as int] == app.tree.nodes@[node as int]@);
    let depth: usize = app.tree.nodes[node].depth as usize;
    repeat_char(' ', 2 * depth)
}

fn node_file(app: &App, node: usize) -> (r: Option<usize>)
    requires
        app.wf(),
        node < app@.tree.nodes.len(),
    ensures
        r == app@.tree.nodes[node as int].file,
        r is Some ==> r->0 < app@.files.len(),
{
    proof {
        reveal(App::state);
        reveal(tree_ok);
    }
    assert(app@.tree.nodes[node as int] == app.tree.nodes@[node as int]@);
    app.tree.nodes[node].file
}

fn write_row(app: &App, node: usize) -> (r: Vec<Span>)
    requires
        app.wf(),
        node < app@.tree.nodes.len(),
    ensures
        span_models(r@) == row_spans(app@, node as int),
{
    let mut spans: Vec<Span> = Vec::new();
    push_span(&mut spans, write_indent(app, node), Style::none());
    let rest = match node_file(app, node) {
        Some(fi) => write_file(app, node, fi),
        None => write_folder(app, node),
    };
    append_spans(&mut spans, rest);
    assert(span_models(spans@) =~= row_spans(app@, node as int));
    spans
}

fn pad_row(spans: &mut Vec<Span>, width: usize)
    ensures
        span_models(final(spans)@) == padded_spans(span_models(old(spans)@), width as int),
{
    let ghost model = span_models(spans@);
    let n = spans.len();
    let mut used: usize = 0;
    let mut i: usize = 0;
    while i < n
        invariant
            n == spans@.len(),
            i <= n,
            model == span_models(spans@),
            used <= width,
            used == spans_columns(model, i as int),
        decreases n - i,
    {
        assert(model[i as int] == spans@[i as int]@);
        let w = text_width(spans[i].text.as_str());
        if w > width - used {
            proof {
                lemma_columns_grow(model, i + 1, n as int);
            }
            return;
        }
        used += w;
        i += 1;
    }
    if used < width {
        push_span(spans, repeat_char(' ', width - used), Style::none());
    }
}

proof fn lemma_columns_grow(spans: Seq<SpanModel>, k: int, n: int)
    requires
        0 <= k <= n,
    ensures
        spans_columns(spans, k) <= spans_columns(spans, n),
    decreases n - k,
{
    if k < n {
        lemma_columns_grow(spans, k, n - 1);
    }
}

fn cursor_row(app: &App) -> (r: (usize, bool))
    ensures
        r.0 == app@.tree_cursor,
        r.1 == (app@.focus == Focus::Tree),
{
    proof {
        reveal(App::state);
    }
    (app.tree_cursor, matches!(app.focus, Focus::Tree))
}

fn row_node(app: &App, i: usize) -> (r: usize)
    requires
        app.wf(),
        i < app@.tree.visible.len(),
    ensures
        r == app@.tree.visible[i as int],
        r < app@.tree.nodes.len(),
{
    proof {
        reveal(App::state);
        reveal(tree_ok);
    }
    app.tree.visible[i]
}

fn row_total(app: &App) -> (r: usize)
    ensures
        r == app@.tree.visible.len(),
{
    proof {
        reveal(App::state);
    }
    app.tree.visible.len()
}

/// The lines of the sidebar, for an area of this size.
pub fn tree_lines(app: &App, width: usize, height: usize) -> (r: Vec<Line>)
    requires
        app.wf(),
    ensures
        line_models(r@) == tree_lines_of(app@, width as int, height as int),
{
    let (cursor, focused) = cursor_row(app);
    let total = row_total(app);
    let above = if height > 0 {
        height - 1
    } else {
        0
    };
    let top = if cursor > above {
        cursor - above
    } else {
        0
    };
    let room = if total > top {
        total - top
    } else {
        0
    };
    let count = if height < room {
        height
    } else {
        room
    };
    let ghost want = tree_lines_of(app@, width as int, height as int);
    assert(want.len() == count);
    let mut lines: Vec<Line> = Vec::new();
    for k in 0..count
        invariant
            app.wf(),
            cursor == app@.tree_cursor,
            focused == (app@.focus == Focus::Tree),
            total == app@.tree.visible.len(),
            top == tree_top(app@, height as int),
            count == min_of(height as int, less(total as int, top as int)),
            want == tree_lines_of(app@, width as int, height as int),
            line_models(lines@) == want.take(k as int),
    {
        let i = top + k;
        let node = row_node(app, i);
        let mut spans = write_row(app, node);
        let style = if i == cursor {
            pad_row(&mut spans, width);
            let mut s = Style::none();
            s.bg = Some(
                if focused {
                    Color::Indexed(240)
                } else {
                    Color::Indexed(237)
                },
            );
            s.modifier.bold = true;
            s
        } else {
            Style::none()
        };
        let line = Line { spans, style };
        assert(line@ == tree_line(app@, i as int, width as int));
        push_line(&mut lines, line);
        assert(line_models(lines@) =~= want.take(k + 1));
    }
    assert(want.take(count as int) =~= want);
    lines
}

/// What is shown in place of rows where there are none.
pub fn tree_placeholder(app: &App) -> (r: Option<&'static str>)
    ensures
        match r {
            Some(text) => app@.tree.visible.len() == 0 && text@ == if app@.hidden_view {
                "No hidden files"@
            } else {
                "No changes"@
            },
            None => app@.tree.visible.len() > 0,
        },
{
    proof {
        reveal(App::state);
    }
    if app.tree.visible.len() > 0 {
        None
    } else if app.hidden_view {
        Some("No hidden files")
    } else {
        Some("No changes")
    }
}

fn in_hidden_view(app: &App) -> (r: bool)
    ensures
        r == app@.hidden_view,
{
    proof {
        reveal(App::state);
    }
    app.hidden_view
}

/// The title of the panel: its count tracks the list in view.
pub fn tree_title(app: &App) -> (r: String)
    ensures
        r@ == tree_title_of(app@),
{
    let mut s;
    if in_hidden_view(app) {
        s = copy_of(" Hidden files (");
        s.append(to_decimal(app.hidden_count() as u128).as_str());
    } else {
        s = copy_of(" Changed files (");
        s.append(to_decimal(app.shown_count() as u128).as_str());
    }
    s.append(") ");
    s
}

/// The colour of a panel's border.
pub fn border_color(focused: bool) -> (r: Color)
    ensures
        r == if focused {
            Color::Cyan
        } else {
            Color::DarkGray
        },
{
    if focused {
        Color::Cyan
    } else {
        Color::DarkGray
    }
}

} // verus!
