//! Centered theme-picker overlay: a fuzzy-search input over the available theme
//! names with a scrollable list. The diff behind it previews the highlighted theme
//! as the cursor moves.

use vstd::prelude::*;
use vstd::string::*;

use crate::app::types::{PickerModel, ThemePicker};
use crate::render::style::{plain_text, Color, Modifier};
use crate::render::viewport::min_of;
use crate::text::copy_of;
use crate::ui::canvas::{
    centered, centered_in, colored, inner, inside, italic_colored, less, line_models, line_of,
    on_grid, push_line, push_span, span_models, span_of, styled_line, Area, Line, LineModel, Span,
    Style,
};

verus! {

/// Overlay width, in columns (capped to the available area).
pub const PICKER_WIDTH: u16 = 40;

/// The number of themes that are listed at once.
pub const LIST_ROWS: u16 = 12;

/// The first list index to show so that the cursor stays in a window of `visible`
/// rows.
pub open spec fn list_start(cursor: int, len: int, visible: int) -> int {
    if len <= visible || cursor < visible {
        0
    } else {
        min_of(cursor + 1 - visible, len - visible)
    }
}

/// The first list index to show so `cursor` stays within a `visible`-row window.
pub fn scroll_start(cursor: usize, len: usize, visible: usize) -> (r: usize)
    ensures
        r == list_start(cursor as int, len as int, visible as int),
{
    if len <= visible || cursor < visible {
        0
    } else {
        let past = cursor - visible;
        let most = len - visible;
        if past < most {
            past + 1
        } else {
            most
        }
    }
}

/// The cursor is always in the window, and the window never runs past the end.
pub proof fn law_cursor_is_visible(cursor: int, len: int, visible: int)
    requires
        0 <= cursor < len,
        0 < visible,
    ensures
        ({
            let start = list_start(cursor, len, visible);
            &&& 0 <= start <= cursor < start + visible
            &&& len >= visible ==> start + visible <= len
        }),
{
}

/// The title of the overlay.
pub const PICKER_TITLE: &'static str = " Select theme ";

/// The hint on the last row of the overlay.
pub const PICKER_FOOTER: &'static str = "↑↓ move · ⏎ apply · esc cancel";

/// What the picker shows.
#[derive(Debug)]
pub struct PickerView {
    /// The overlay with its borders.
    pub area: Area,
    pub search: Line,
    pub search_area: Area,
    pub list: Vec<Line>,
    pub list_area: Area,
    pub footer_area: Area,
}

/// The line of the search input.
pub open spec fn search_line(query: Seq<char>) -> LineModel {
    line_of(
        seq![
            span_of("search: "@, colored(Color::DarkGray)),
            span_of(query, colored(Color::White)),
            span_of("▏"@, colored(Color::Cyan)),
        ],
    )
}

/// The style of the selected theme.
pub open spec fn selected_style() -> Style {
    Style {
        fg: Some(Color::Black),
        bg: Some(Color::Cyan),
        modifier: Modifier { bold: true, ..plain_text() },
    }
}

/// The line of theme `i`.
pub open spec fn theme_line(picker: PickerModel, i: int) -> LineModel {
    if i == picker.cursor {
        styled_line("▸ "@ + picker.matches[i], selected_style())
    } else {
        styled_line("  "@ + picker.matches[i], colored(Color::Gray))
    }
}

/// The lines of the list, at most `visible` of them.
pub open spec fn picker_lines(picker: PickerModel, visible: int) -> Seq<LineModel> {
    let len = picker.matches.len() as int;
    if len == 0 {
        seq![styled_line("  (no matching theme)"@, italic_colored(Color::DarkGray))]
    } else {
        let start = list_start(picker.cursor as int, len, visible);
        Seq::new(min_of(visible, len - start) as nat, |k: int| theme_line(picker, start + k))
    }
}

/// The overlay in `area`.
pub open spec fn picker_area(area: Area) -> Area {
    centered_in(
        area,
        min_of(PICKER_WIDTH as int, area.width as int) as u16,
        min_of(LIST_ROWS + 6, area.height as int) as u16,
    )
}

/// The number of rows for the list inside the overlay.
pub open spec fn list_height(inner: Area) -> int {
    min_of(LIST_ROWS as int, less(inner.height as int, 3))
}

fn write_list(picker: &ThemePicker, visible: usize) -> (r: Vec<Line>)
    ensures
        line_models(r@) == picker_lines(picker@, visible as int),
{
    let mut lines: Vec<Line> = Vec::new();
    let n = picker.matches.len();
    let ghost want = picker_lines(picker@, visible as int);
    if n == 0 {
        push_line(
            &mut lines,
            Line::styled(copy_of("  (no matching theme)"), Style::italic(Color::DarkGray)),
        );
        assert(line_models(lines@) =~= want);
        return lines;
    }
    let start = scroll_start(picker.cursor, n, visible);
    let count = if visible < n - start {
        visible
    } else {
        n - start
    };
    assert(want.len() == count);
    for k in 0..count
        invariant
            n == picker.matches@.len(),
            n > 0,
            start == list_start(picker.cursor as int, n as int, visible as int),
            count == min_of(visible as int, n - start),
            start <= n,
            want == picker_lines(picker@, visible as int),
            line_models(lines@) == want.take(k as int),
    {
        let i = start + k;
        assert(picker@.matches[i as int] == picker.matches@[i as int]@);
        let selected = i == picker.cursor;
        let mut text = if selected {
            copy_of("▸ ")
        } else {
            copy_of("  ")
        };
        text.append(picker.matches[i].as_str());
        let style = if selected {
            let mut s = Style::bold(Color::Black);
            s.bg = Some(Color::Cyan);
            s
        } else {
            Style::fg(Color::Gray)
        };
        push_line(&mut lines, Line::styled(text, style));
        assert(line_models(lines@) =~= want.take(k + 1));
    }
    assert(want.take(count as int) =~= want);
    lines
}

/// What the picker shows in `area`; nothing inside where there is no room.
pub fn picker_view(area: Area, picker: &ThemePicker) -> (r: PickerView)
    requires
        on_grid(area),
    ensures
        r.area == picker_area(area),
        r.search@ == search_line(picker@.query),
        ({
            let within = inside(r.area);
            let rows = list_height(within);
            &&& r.search_area == (Area { height: 1, ..within })
            &&& line_models(r.list@) == picker_lines(picker@, rows)
            &&& r.list_area.x == within.x
            &&& r.list_area.y == min_of(within.y + 2, u16::MAX as int)
            &&& r.list_area.width == within.width
            &&& r.list_area.height == rows
            &&& r.footer_area == (Area {
                y: min_of(within.y + less(within.height as int, 1), u16::MAX as int) as u16,
                height: 1,
                ..within
            })
        }),
{
    let width = if PICKER_WIDTH < area.width {
        PICKER_WIDTH
    } else {
        area.width
    };
    let height = if LIST_ROWS + 6 < area.height {
        LIST_ROWS + 6
    } else {
        area.height
    };
    let outer = centered(area, width, height);
    let within = inner(outer);
    let mut spans: Vec<Span> = Vec::new();
    push_span(&mut spans, copy_of("search: "), Style::fg(Color::DarkGray));
    push_span(&mut spans, picker.query.clone(), Style::fg(Color::White));
    push_span(&mut spans, copy_of("▏"), Style::fg(Color::Cyan));
    assert(span_models(spans@) =~= search_line(picker@.query).spans);
    let room = within.height.saturating_sub(3);
    let rows = if LIST_ROWS < room {
        LIST_ROWS
    } else {
        room
    };
    let list = write_list(picker, rows as usize);
    PickerView {
        area: outer,
        search: Line::from_spans(spans),
        search_area: Area { x: within.x, y: within.y, width: within.width, height: 1 },
        list,
        list_area: Area {
            x: within.x,
            y: within.y.saturating_add(2),
            width: within.width,
            height: rows,
        },
        footer_area: Area {
            x: within.x,
            y: within.y.saturating_add(within.height.saturating_sub(1)),
            width: within.width,
            height: 1,
        },
    }
}

} // verus!
