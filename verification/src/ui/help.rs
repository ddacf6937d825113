//! Centered help overlay listing the keybindings, grouped into sections and laid
//! out in two columns. The bound chords are read from the live keymap, so the
//! overlay reflects the user's config.

use vstd::prelude::*;
use vstd::string::*;

use crate::app::session::App;
use crate::config::action::Action;
use crate::config::chord::Chord;
use crate::config::keymap::{chord_names, KeyMap};
use crate::render::style::{plain_text, Color, Modifier};
use crate::render::viewport::{max_of, min_of};
use crate::text::{copy_of, join, joined, strings};
use crate::ui::canvas::{
    centered, centered_in, colored, inner, inside, line_models, line_of, no_style, on_grid,
    push_line, push_span, repeat_char, repeated, span_of, styled_line, Area, Line, LineModel, Span,
    Style,
};

verus! {

/// A titled group of related actions.
#[derive(Debug)]
pub struct Section {
    pub title: &'static str,
    pub rows: Vec<(Action, &'static str)>,
}

/// A section as a mathematical value.
#[verifier::ext_equal]
pub struct SectionModel {
    pub title: Seq<char>,
    pub rows: Seq<(Action, Seq<char>)>,
}

impl View for Section {
    type V = SectionModel;

    open spec fn view(&self) -> SectionModel {
        SectionModel {
            title: self.title@,
            rows: self.rows@.map_values(|r: (Action, &'static str)| (r.0, r.1@)),
        }
    }
}

pub open spec fn section_models(v: Seq<Section>) -> Seq<SectionModel> {
    v.map_values(|s: Section| s@)
}

/// Sections shown in the left column, top to bottom.
pub open spec fn left_model() -> Seq<SectionModel> {
    seq![
        SectionModel {
            title: "Navigate"@,
            rows: seq![
                (Action::ScrollDown, "scroll / move down"@),
                (Action::ScrollUp, "scroll / move up"@),
                (Action::PageDown, "page down"@),
                (Action::PageUp, "page up"@),
                (Action::Top, "top of diff"@),
                (Action::Bottom, "bottom of diff"@),
            ],
        },
        SectionModel {
            title: "Move"@,
            rows: seq![
                (Action::NextChunk, "next chunk"@),
                (Action::PrevChunk, "previous chunk"@),
                (Action::NextFile, "next file"@),
                (Action::PrevFile, "previous file"@),
                (Action::SwitchFocus, "switch tree / diff"@),
                (Action::Activate, "fold folder / focus diff"@),
            ],
        },
        SectionModel {
            title: "View"@,
            rows: seq![
                (Action::ToggleView, "unified / side-by-side"@),
                (Action::OpenThemePicker, "choose theme"@),
                (Action::NarrowSidebar, "narrow sidebar"@),
                (Action::WidenSidebar, "widen sidebar"@),
            ],
        },
    ]
}

/// Sections shown in the right column, top to bottom.
pub open spec fn right_model() -> Seq<SectionModel> {
    seq![
        SectionModel {
            title: "Review"@,
            rows: seq![
                (Action::ToggleChunkReviewed, "reviewed: this chunk"@),
                (Action::ToggleReviewed, "reviewed: whole file"@),
                (Action::ExpandAllChunks, "reveal collapsed chunks"@),
                (Action::CopyReference, "copy AI reference"@),
            ],
        },
        SectionModel {
            title: "Files"@,
            rows: seq![
                (Action::ToggleHidden, "hide / un-hide file"@),
                (Action::ToggleHiddenView, "hidden-files view"@),
                (Action::StartFilter, "filter files"@),
                (Action::OpenEditor, "open in $EDITOR"@),
            ],
        },
        SectionModel {
            title: "App"@,
            rows: seq![
                (Action::EditConfig, "edit config"@),
                (Action::Help, "toggle this help"@),
                (Action::Quit, "quit"@),
            ],
        },
    ]
}

/// Sections shown in the left column, top to bottom.
pub fn left_sections() -> (r: Vec<Section>)
    ensures
        section_models(r@) == left_model(),
{
    let mut out: Vec<Section> = Vec::new();
    let mut rows: Vec<(Action, &'static str)> = Vec::new();
    rows.push((Action::ScrollDown, "scroll / move down"));
    rows.push((Action::ScrollUp, "scroll / move up"));
    rows.push((Action::PageDown, "page down"));
    rows.push((Action::PageUp, "page up"));
    rows.push((Action::Top, "top of diff"));
    rows.push((Action::Bottom, "bottom of diff"));
    let s = Section { title: "Navigate", rows };
    let ghost had = out@;
    let ghost view = s@;
    out.push(s);
    assert(section_models(out@) =~= section_models(had).push(view));
    assert(view.rows =~= left_model()[0].rows);
    let mut rows: Vec<(Action, &'static str)> = Vec::new();
    rows.push((Action::NextChunk, "next chunk"));
    rows.push((Action::PrevChunk, "previous chunk"));
    rows.push((Action::NextFile, "next file"));
    rows.push((Action::PrevFile, "previous file"));
    rows.push((Action::SwitchFocus, "switch tree / diff"));
    rows.push((Action::Activate, "fold folder / focus diff"));
    let s = Section { title: "Move", rows };
    let ghost had = out@;
    let ghost view = s@;
    out.push(s);
    assert(section_models(out@) =~= section_models(had).push(view));
    assert(view.rows =~= left_model()[1].rows);
    let mut rows: Vec<(Action, &'static str)> = Vec::new();
    rows.push((Action::ToggleView, "unified / side-by-side"));
    rows.push((Action::OpenThemePicker, "choose theme"));
    rows.push((Action::NarrowSidebar, "narrow sidebar"));
    rows.push((Action::WidenSidebar, "widen sidebar"));
    let s = Section { title: "View", rows };
    let ghost had = out@;
    let ghost view = s@;
    out.push(s);
    assert(section_models(out@) =~= section_models(had).push(view));
    assert(view.rows =~= left_model()[2].rows);
    assert(section_models(out@) =~= left_model());
    out
}

/// Sections shown in the right column, top to bottom.
pub fn right_sections() -> (r: Vec<Section>)
    ensures
        section_models(r@) == right_model(),
{
    let mut out: Vec<Section> = Vec::new();
    let mut rows: Vec<(Action, &'static str)> = Vec::new();
    rows.push((Action::ToggleChunkReviewed, "reviewed: this chunk"));
    rows.push((Action::ToggleReviewed, "reviewed: whole file"));
    rows.push((Action::ExpandAllChunks, "reveal collapsed chunks"));
    rows.push((Action::CopyReference, "copy AI reference"));
    let s = Section { title: "Review", rows };
    let ghost had = out@;
    let ghost view = s@;
    out.push(s);
    assert(section_models(out@) =~= section_models(had).push(view));
    assert(view.rows =~= right_model()[0].rows);
    let mut rows: Vec<(Action, &'static str)> = Vec::new();
    rows.push((Action::ToggleHidden, "hide / un-hide file"));
    rows.push((Action::ToggleHiddenView, "hidden-files view"));
    rows.push((Action::StartFilter, "filter files"));
    rows.push((Action::OpenEditor, "open in $EDITOR"));
    let s = Section { title: "Files", rows };
    let ghost had = out@;
    let ghost view = s@;
    out.push(s);
    assert(section_models(out@) =~= section_models(had).push(view));
    assert(view.rows =~= right_model()[1].rows);
    let mut rows: Vec<(Action, &'static str)> = Vec::new();
    rows.push((Action::EditConfig, "edit config"));
    rows.push((Action::Help, "toggle this help"));
    rows.push((Action::Quit, "quit"));
    let s = Section { title: "App", rows };
    let ghost had = out@;
    let ghost view = s@;
    out.push(s);
    assert(section_models(out@) =~= section_models(had).push(view));
    assert(view.rows =~= right_model()[2].rows);
    assert(section_models(out@) =~= right_model());
    out
}

// ── every action is there ──────────────────────────────────────────────────

/// How often `action` stands among the first `n` rows.
pub open spec fn count_in_rows(rows: Seq<(Action, Seq<char>)>, action: Action, n: int) -> nat
    decreases n,
{
    if n <= 0 {
        0
    } else {
        count_in_rows(rows, action, n - 1) + if rows[n - 1].0 == action {
            1nat
        } else {
            0nat
        }
    }
}

/// How often `action` stands in the first `n` sections.
pub open spec fn count_in_sections(sections: Seq<SectionModel>, action: Action, n: int) -> nat
    decreases n,
{
    if n <= 0 {
        0
    } else {
        count_in_sections(sections, action, n - 1) + count_in_rows(
            sections[n - 1].rows,
            action,
            sections[n - 1].rows.len() as int,
        )
    }
}

/// The overlay lists every action exactly once.
#[verifier::spinoff_prover]
pub proof fn law_help_lists_every_action(action: Action)
    ensures
        count_in_sections(left_model(), action, left_model().len() as int) + count_in_sections(
            right_model(),
            action,
            right_model().len() as int,
        ) == 1,
{
    reveal_with_fuel(count_in_sections, 4);
    reveal_with_fuel(count_in_rows, 7);
}

// ── labels ─────────────────────────────────────────────────────────────────

/// `label` shows the chords of `action`, or a dash.
pub open spec fn chords_label(map: Map<Chord, Action>, action: Action, label: Seq<char>) -> bool {
    exists|names: Seq<Seq<char>>| #[trigger]
        chord_names(map, action, names) && label == if names.len() == 0 {
            "—"@
        } else {
            joined(names, " / "@)
        }
}

/// `labels` are the labels of the rows of a section.
pub open spec fn row_labels(
    map: Map<Chord, Action>,
    section: SectionModel,
    labels: Seq<Seq<char>>,
) -> bool {
    &&& labels.len() == section.rows.len()
    &&& forall|i: int|
        0 <= i < labels.len() ==> chords_label(map, section.rows[i].0, #[trigger] labels[i])
}

/// `labels` are the labels of all rows, by section.
pub open spec fn all_labels(
    map: Map<Chord, Action>,
    sections: Seq<SectionModel>,
    labels: Seq<Seq<Seq<char>>>,
) -> bool {
    &&& labels.len() == sections.len()
    &&& forall|i: int| 0 <= i < labels.len() ==> row_labels(map, sections[i], #[trigger] labels[i])
}

fn label_for(keys: &KeyMap, action: Action) -> (r: String)
    requires
        keys.wf(),
    ensures
        chords_label(keys@, action, r@),
{
    let names = keys.chords_for(action);
    assert(chord_names(keys@, action, strings(names@)));
    if names.len() == 0 {
        copy_of("—")
    } else {
        join(&names, " / ")
    }
}

/// The views of labels by section.
pub open spec fn label_models(v: Seq<Vec<String>>) -> Seq<Seq<Seq<char>>> {
    v.map_values(|l: Vec<String>| strings(l@))
}

fn labels_for(keys: &KeyMap, sections: &Vec<Section>) -> (r: Vec<Vec<String>>)
    requires
        keys.wf(),
    ensures
        all_labels(keys@, section_models(sections@), label_models(r@)),
{
    let ghost model = section_models(sections@);
    let mut out: Vec<Vec<String>> = Vec::new();
    let n = sections.len();
    for i in 0..n
        invariant
            keys.wf(),
            n == sections@.len(),
            model == section_models(sections@),
            out@.len() == i,
            forall|k: int|
                0 <= k < i ==> row_labels(keys@, model[k], #[trigger] label_models(out@)[k]),
    {
        let section = &sections[i];
        let mut labels: Vec<String> = Vec::new();
        let m = section.rows.len();
        assert(model[i as int] == section@);
        for k in 0..m
            invariant
                keys.wf(),
                m == section.rows@.len(),
                labels@.len() == k,
                forall|j: int|
                    0 <= j < k ==> chords_label(
                        keys@,
                        section@.rows[j].0,
                        #[trigger] strings(labels@)[j],
                    ),
        {
            let label = label_for(keys, section.rows[k].0);
            let ghost was = labels@;
            let ghost view = label@;
            labels.push(label);
            assert(strings(labels@) =~= strings(was).push(view));
        }
        let ghost had = out@;
        let ghost view = strings(labels@);
        out.push(labels);
        assert(label_models(out@) =~= label_models(had).push(view));
        assert(row_labels(keys@, model[i as int], view));
    }
    out
}

// ── columns ────────────────────────────────────────────────────────────────

/// The widest of the first `n` labels.
pub open spec fn widest_label(labels: Seq<Seq<char>>, n: int) -> int
    decreases n,
{
    if n <= 0 {
        0
    } else {
        max_of(widest_label(labels, n - 1), labels[n - 1].len() as int)
    }
}

/// The widest label of the first `n` sections.
pub open spec fn key_width(labels: Seq<Seq<Seq<char>>>, n: int) -> int
    decreases n,
{
    if n <= 0 {
        0
    } else {
        max_of(
            key_width(labels, n - 1),
            widest_label(labels[n - 1], labels[n - 1].len() as int),
        )
    }
}

/// The style of section titles.
pub open spec fn title_style() -> Style {
    Style {
        modifier: Modifier { bold: true, underlined: true, ..plain_text() },
        ..colored(Color::Cyan)
    }
}

/// The line of one action: its chords, padded to the column's key width, and what
/// it does.
pub open spec fn help_row(label: Seq<char>, desc: Seq<char>, key_w: int) -> LineModel {
    line_of(
        seq![
            span_of("  "@, no_style()),
            span_of(label + repeated(' ', key_w - label.len()), colored(Color::Yellow)),
            span_of("  "@ + desc, no_style()),
        ],
    )
}

/// The lines of a section: its title and the first `n` rows.
pub open spec fn section_lines(
    section: SectionModel,
    labels: Seq<Seq<char>>,
    key_w: int,
    n: int,
) -> Seq<LineModel>
    decreases n,
{
    if n <= 0 {
        seq![styled_line(section.title, title_style())]
    } else {
        section_lines(section, labels, key_w, n - 1).push(
            help_row(labels[n - 1], section.rows[n - 1].1, key_w),
        )
    }
}

/// The lines of the first `n` sections, with a blank line between each two.
pub open spec fn column_lines_of(
    sections: Seq<SectionModel>,
    labels: Seq<Seq<Seq<char>>>,
    key_w: int,
    n: int,
) -> Seq<LineModel>
    decreases n,
{
    if n <= 0 {
        Seq::empty()
    } else {
        let was = column_lines_of(sections, labels, key_w, n - 1);
        let gap = if n > 1 {
            was.push(styled_line(Seq::empty(), no_style()))
        } else {
            was
        };
        gap + section_lines(
            sections[n - 1],
            labels[n - 1],
            key_w,
            sections[n - 1].rows.len() as int,
        )
    }
}

/// The width that the first `n` rows need.
pub open spec fn rows_width(rows: Seq<(Action, Seq<char>)>, key_w: int, n: int) -> int
    decreases n,
{
    if n <= 0 {
        0
    } else {
        max_of(rows_width(rows, key_w, n - 1), 2 + key_w + 2 + rows[n - 1].1.len())
    }
}

/// The width that the first `n` sections need.
pub open spec fn sections_width(sections: Seq<SectionModel>, key_w: int, n: int) -> int
    decreases n,
{
    if n <= 0 {
        0
    } else {
        let s = sections[n - 1];
        max_of(
            sections_width(sections, key_w, n - 1),
            max_of(s.title.len() as int, rows_width(s.rows, key_w, s.rows.len() as int)),
        )
    }
}

fn key_w(labels: &Vec<Vec<String>>) -> (r: usize)
    ensures
        r == key_width(label_models(labels@), labels@.len() as int),
{
    let ghost model = label_models(labels@);
    let mut w: usize = 0;
    let n = labels.len();
    for i in 0..n
        invariant
            n == labels@.len(),
            model == label_models(labels@),
            w == key_width(model, i as int),
    {
        let row = &labels[i];
        assert(model[i as int] == strings(row@));
        let mut here: usize = 0;
        let m = row.len();
        for k in 0..m
            invariant
                m == row@.len(),
                here == widest_label(strings(row@), k as int),
        {
            assert(strings(row@)[k as int] == row@[k as int]@);
            let len = row[k].as_str().unicode_len();
            if len > here {
                here = len;
            }
        }
        if here > w {
            w = here;
        }
    }
    w
}

fn write_row(label: &str, desc: &str, key_w: usize) -> (r: Line)
    ensures
        r@ == help_row(label@, desc@, key_w as int),
{
    let mut spans: Vec<Span> = Vec::new();
    push_span(&mut spans, copy_of("  "), Style::none());
    let len = label.unicode_len();
    let mut key = copy_of(label);
    let pad = if key_w > len {
        key_w - len
    } else {
        0
    };
    key.append(repeat_char(' ', pad).as_str());
    assert(repeated(' ', pad as int) =~= repeated(' ', key_w - len));
    push_span(&mut spans, key, Style::fg(Color::Yellow));
    let mut text = copy_of("  ");
    text.append(desc);
    push_span(&mut spans, text, Style::none());
    let line = Line::from_spans(spans);
    assert(line@.spans =~= help_row(label@, desc@, key_w as int).spans);
    line
}

/// Build the lines for one column: a styled title per section, its rows (`key
/// description`), and a blank line between sections.
fn column_lines(sections: &Vec<Section>, labels: &Vec<Vec<String>>, key_w: usize) -> (r: Vec<Line>)
    requires
        labels@.len() == sections@.len(),
        forall|i: int|
            0 <= i < sections@.len() ==> (#[trigger] labels@[i])@.len() == sections@[i].rows@.len(),
    ensures
        line_models(r@) == column_lines_of(
            section_models(sections@),
            label_models(labels@),
            key_w as int,
            sections@.len() as int,
        ),
{
    let ghost sm = section_models(sections@);
    let ghost lm = label_models(labels@);
    let mut lines: Vec<Line> = Vec::new();
    let n = sections.len();
    assert(line_models(lines@) =~= column_lines_of(sm, lm, key_w as int, 0));
    for i in 0..n
        invariant
            n == sections@.len(),
            labels@.len() == n,
            forall|i: int|
                0 <= i < sections@.len() ==> (#[trigger] labels@[i])@.len()
                    == sections@[i].rows@.len(),
            sm == section_models(sections@),
            lm == label_models(labels@),
            line_models(lines@) == column_lines_of(sm, lm, key_w as int, i as int),
    {
        let section = &sections[i];
        let row_labels = &labels[i];
        assert(sm[i as int] == section@);
        assert(lm[i as int] == strings(row_labels@));
        if i > 0 {
            let empty = String::new();
            assert(empty@ =~= Seq::<char>::empty());
            push_line(&mut lines, Line::styled(empty, Style::none()));
        }
        let ghost base = line_models(lines@);
        let mut style = Style::bold(Color::Cyan);
        style.modifier.underlined = true;
        push_line(&mut lines, Line::styled(copy_of(section.title), style));
        let m = section.rows.len();
        assert(line_models(lines@) =~= base + section_lines(
            sm[i as int],
            lm[i as int],
            key_w as int,
            0,
        ));
        for k in 0..m
            invariant
                m == section.rows@.len(),
                m == row_labels@.len(),
                sm[i as int] == section@,
                lm[i as int] == strings(row_labels@),
                line_models(lines@) == base + section_lines(
                    sm[i as int],
                    lm[i as int],
                    key_w as int,
                    k as int,
                ),
        {
            assert(strings(row_labels@)[k as int] == row_labels@[k as int]@);
            assert(section@.rows[k as int].1 == section.rows@[k as int].1@);
            push_line(&mut lines, write_row(row_labels[k].as_str(), section.rows[k].1, key_w));
            assert(line_models(lines@) =~= base + section_lines(
                sm[i as int],
                lm[i as int],
                key_w as int,
                k + 1,
            ));
        }
    }
    lines
}

/// The display width a column needs: the widest of its titles and its rows; at
/// most 65535.
fn column_width(sections: &Vec<Section>, key_w: usize) -> (r: usize)
    ensures
        r == min_of(
            sections_width(section_models(sections@), key_w as int, sections@.len() as int),
            0xffff,
        ),
{
    let ghost sm = section_models(sections@);
    let mut w: usize = 0;
    let n = sections.len();
    for i in 0..n
        invariant
            n == sections@.len(),
            sm == section_models(sections@),
            w == min_of(sections_width(sm, key_w as int, i as int), 0xffff),
    {
        let section = &sections[i];
        assert(sm[i as int] == section@);
        let mut here: usize = 0;
        let m = section.rows.len();
        for k in 0..m
            invariant
                m == section.rows@.len(),
                here == min_of(rows_width(section@.rows, key_w as int, k as int), 0xffff),
        {
            assert(section@.rows[k as int].1 == section.rows@[k as int].1@);
            let row = capped_sum(key_w, section.rows[k].1.unicode_len());
            if row > here {
                here = row;
            }
        }
        let title = section.title.unicode_len();
        let title = if title < 0xffff {
            title
        } else {
            0xffff
        };
        let widest = if title > here {
            title
        } else {
            here
        };
        if widest > w {
            w = widest;
        }
    }
    w
}

/// `2 + a + 2 + b`, at most 65535.
fn capped_sum(a: usize, b: usize) -> (r: usize)
    ensures
        r == min_of(2 + a + 2 + b, 0xffff),
{
    if a >= 0xffff || b >= 0xffff {
        0xffff
    } else {
        let sum: u32 = 4 + a as u32 + b as u32;
        if sum < 0xffff {
            sum as usize
        } else {
            0xffff
        }
    }
}

// ── the overlay ────────────────────────────────────────────────────────────

/// Gap (in columns) between the two columns.
pub const GAP: u16 = 4;

/// The title of the overlay.
pub const HELP_TITLE: &'static str = " Help ";

/// The hint below the columns.
pub const HELP_FOOTER: &'static str = "press any key to close";

/// What the overlay shows.
#[derive(Debug)]
pub struct HelpView {
    pub left: Vec<Line>,
    pub right: Vec<Line>,
    /// Where it goes.
    pub layout: HelpLayout,
}

/// The areas of the overlay; those that have no room are none.
#[derive(Debug, Clone, Copy, PartialEq, Eq)]
pub struct HelpLayout {
    /// The overlay with its borders.
    pub area: Area,
    pub left: Option<Area>,
    pub right: Option<Area>,
    pub footer: Option<Area>,
}

/// The areas of an overlay with columns of these widths and `rows` rows.
pub open spec fn help_layout(area: Area, left_w: int, right_w: int, rows: int) -> HelpLayout {
    let width = min_of(left_w + GAP + right_w + 4, area.width as int);
    let height = min_of(rows + 5, area.height as int);
    let outer = centered_in(area, width as u16, height as u16);
    let within = inside(outer);
    let end = within.x + within.width;
    let bottom = within.y + within.height;
    let right_x = within.x + 1 + left_w + GAP;
    let footer_y = within.y + 1 + rows + 1;
    let column_height = min_of(rows, within.height as int) as u16;
    if within.width == 0 || within.height == 0 {
        HelpLayout { area: outer, left: None, right: None, footer: None }
    } else {
        HelpLayout {
            area: outer,
            left: Some(
                Area {
                    x: (within.x + 1) as u16,
                    y: (within.y + 1) as u16,
                    width: min_of(left_w, within.width - 1) as u16,
                    height: column_height,
                },
            ),
            right: if right_x < end {
                Some(
                    Area {
                        x: right_x as u16,
                        y: (within.y + 1) as u16,
                        width: min_of(right_w, end - right_x) as u16,
                        height: column_height,
                    },
                )
            } else {
                None
            },
            footer: if footer_y < bottom {
                Some(
                    Area {
                        x: (within.x + 1) as u16,
                        y: footer_y as u16,
                        width: (within.width - 1) as u16,
                        height: 1,
                    },
                )
            } else {
                None
            },
        }
    }
}

/// The areas of the overlay for columns of these sizes.
pub fn lay_out_help(area: Area, left_w: usize, right_w: usize, rows: usize) -> (r: HelpLayout)
    requires
        on_grid(area),
        left_w <= 0xffff,
        right_w <= 0xffff,
        rows <= 0xffff,
    ensures
        r == help_layout(area, left_w as int, right_w as int, rows as int),
{
    let want_w: u32 = left_w as u32 + GAP as u32 + right_w as u32 + 4;
    let width: u16 = if want_w < area.width as u32 {
        want_w as u16
    } else {
        area.width
    };
    let want_h: u32 = rows as u32 + 5;
    let height: u16 = if want_h < area.height as u32 {
        want_h as u16
    } else {
        area.height
    };
    proof {
        crate::ui::canvas::law_centered(area, width, height);
    }
    let outer = centered(area, width, height);
    let within = inner(outer);
    if within.width == 0 || within.height == 0 {
        return HelpLayout { area: outer, left: None, right: None, footer: None };
    }
    let end: u32 = within.x as u32 + within.width as u32;
    let bottom: u32 = within.y as u32 + within.height as u32;
    let right_x: u32 = within.x as u32 + 1 + left_w as u32 + GAP as u32;
    let footer_y: u32 = within.y as u32 + 1 + rows as u32 + 1;
    let column_height: u16 = if rows < within.height as usize {
        rows as u16
    } else {
        within.height
    };
    let room: u16 = within.width - 1;
    let left = Area {
        x: within.x + 1,
        y: within.y + 1,
        width: if left_w < room as usize {
            left_w as u16
        } else {
            room
        },
        height: column_height,
    };
    let right = if right_x < end {
        let room: u32 = end - right_x;
        Some(
            Area {
                x: right_x as u16,
                y: within.y + 1,
                width: if (right_w as u32) < room {
                    right_w as u16
                } else {
                    room as u16
                },
                height: column_height,
            },
        )
    } else {
        None
    };
    let footer = if footer_y < bottom {
        Some(Area { x: within.x + 1, y: footer_y as u16, width: within.width - 1, height: 1 })
    } else {
        None
    };
    HelpLayout { area: outer, left: Some(left), right, footer }
}

/// The overlay's content and areas for these labels.
pub open spec fn help_matches(
    view: HelpView,
    area: Area,
    left_labels: Seq<Seq<Seq<char>>>,
    right_labels: Seq<Seq<Seq<char>>>,
) -> bool {
    let lw = key_width(left_labels, left_labels.len() as int);
    let rw = key_width(right_labels, right_labels.len() as int);
    let left = column_lines_of(left_model(), left_labels, lw, left_model().len() as int);
    let right = column_lines_of(right_model(), right_labels, rw, right_model().len() as int);
    &&& line_models(view.left@) == left
    &&& line_models(view.right@) == right
    &&& view.layout == help_layout(
        area,
        min_of(sections_width(left_model(), lw, left_model().len() as int), 0xffff),
        min_of(sections_width(right_model(), rw, right_model().len() as int), 0xffff),
        min_of(max_of(left.len() as int, right.len() as int), 0xffff),
    )
}

fn row_count(left: usize, right: usize) -> (r: usize)
    ensures
        r == min_of(max_of(left as int, right as int), 0xffff),
{
    let most = if left >= right {
        left
    } else {
        right
    };
    if most < 0xffff {
        most
    } else {
        0xffff
    }
}

/// The help overlay in `area`, for the bindings in `keys`.
pub fn help_view(area: Area, keys: &KeyMap) -> (r: HelpView)
    requires
        on_grid(area),
        keys.wf(),
    ensures
        exists|ll: Seq<Seq<Seq<char>>>, rl: Seq<Seq<Seq<char>>>|
            #![trigger all_labels(keys@, left_model(), ll), all_labels(keys@, right_model(), rl)]
            all_labels(keys@, left_model(), ll) && all_labels(keys@, right_model(), rl)
                && help_matches(r, area, ll, rl),
{
    let ls = left_sections();
    let rs = right_sections();
    let ll = labels_for(keys, &ls);
    let rl = labels_for(keys, &rs);
    proof {
        lemma_label_lengths(keys@, ls@, ll@);
        lemma_label_lengths(keys@, rs@, rl@);
    }
    let lw = key_w(&ll);
    let rw = key_w(&rl);
    let left = column_lines(&ls, &ll, lw);
    let right = column_lines(&rs, &rl, rw);
    let left_w = column_width(&ls, lw);
    let right_w = column_width(&rs, rw);
    let rows = row_count(left.len(), right.len());
    let ghost left_models = line_models(left@);
    let ghost right_models = line_models(right@);
    assert(left_models.len() == left@.len() && right_models.len() == right@.len());
    let layout = lay_out_help(area, left_w, right_w, rows);
    let view = HelpView { left, right, layout };
    proof {
        assert(section_models(ls@).len() == ls@.len());
        assert(section_models(rs@).len() == rs@.len());
        assert(help_matches(view, area, label_models(ll@), label_models(rl@)));
    }
    view
}

proof fn lemma_label_lengths(
    map: Map<Chord, Action>,
    sections: Seq<Section>,
    labels: Seq<Vec<String>>,
)
    requires
        all_labels(map, section_models(sections), label_models(labels)),
    ensures
        labels.len() == sections.len(),
        forall|i: int|
            0 <= i < sections.len() ==> (#[trigger] labels[i])@.len() == sections[i].rows@.len(),
{
    assert(label_models(labels).len() == labels.len());
    assert(section_models(sections).len() == sections.len());
    assert forall|i: int| 0 <= i < sections.len() implies (#[trigger] labels[i])@.len()
        == sections[i].rows@.len() by {
        assert(row_labels(map, section_models(sections)[i], label_models(labels)[i]));
        assert(label_models(labels)[i] == strings(labels[i]@));
        assert(section_models(sections)[i] == sections[i]@);
    }
}

} // verus!
