//! Floating top-right notifications: the persistent config-error toast (red, stays
//! until the config is fixed) and a transient one (green) for quick
//! acknowledgements. Both anchor to the top-right corner and stack downward.

use vstd::prelude::*;
use vstd::slice::slice_subrange;
use vstd::string::*;

use crate::render::style::Color;
use crate::render::{sanitize, sanitized};
use crate::text::{
    chars_of, copy_of, deep, joined, lemma_take_step, push_char, split_words, string_of, strings,
    white_space, word_scan, words,
};
use crate::ui::canvas::{
    italic_colored, less, line_models, line_of, no_style, push_line, push_span, span_models,
    span_of, styled_line, Area, Line, LineModel, Span, Style,
};

verus! {

/// The distance of a notification from the right edge.
pub const MARGIN: u16 = 1;

/// The largest width of a notification.
pub const MAX_WIDTH: u16 = 50;

// ── wrapping ───────────────────────────────────────────────────────────────

/// The pieces of `width` characters of a long word, without the last one.
pub open spec fn hard_lines(word: Seq<char>, width: int) -> Seq<Seq<char>>
    decreases word.len(),
{
    if width < 1 || word.len() <= width {
        Seq::empty()
    } else {
        seq![word.take(width)] + hard_lines(word.skip(width), width)
    }
}

/// The last piece of a long word.
pub open spec fn hard_rest(word: Seq<char>, width: int) -> Seq<char>
    decreases word.len(),
{
    if width < 1 || word.len() <= width {
        word
    } else {
        hard_rest(word.skip(width), width)
    }
}

/// The finished lines and the open one after one more word.
pub open spec fn wrap_word(
    done: Seq<Seq<char>>,
    cur: Seq<char>,
    word: Seq<char>,
    width: int,
) -> (Seq<Seq<char>>, Seq<char>) {
    if word.len() > width {
        let base = if cur.len() > 0 {
            done.push(cur)
        } else {
            done
        };
        (base + hard_lines(word, width), hard_rest(word, width))
    } else if cur.len() == 0 {
        (done, word)
    } else if cur.len() + 1 + word.len() <= width {
        (done, cur.push(' ') + word)
    } else {
        (done.push(cur), word)
    }
}

/// The finished lines and the open one after the first `n` words.
pub open spec fn wrap_words(all: Seq<Seq<char>>, n: int, width: int) -> (Seq<Seq<char>>, Seq<char>)
    decreases n,
{
    if n <= 0 {
        (Seq::empty(), Seq::empty())
    } else {
        let (done, cur) = wrap_words(all, n - 1, width);
        wrap_word(done, cur, all[n - 1], width)
    }
}

/// `s` in lines of at most `width` characters (at least one).
pub open spec fn wrapped(s: Seq<char>, width: int) -> Seq<Seq<char>> {
    let w = if width >= 1 {
        width
    } else {
        1
    };
    let all = words(s);
    let (done, cur) = wrap_words(all, all.len() as int, w);
    if cur.len() > 0 || done.len() == 0 {
        done.push(cur)
    } else {
        done
    }
}

fn push_string(v: &mut Vec<String>, s: String)
    ensures
        strings(final(v)@) == strings(old(v)@).push(s@),
{
    let ghost before = v@;
    let ghost view = s@;
    v.push(s);
    assert(strings(v@) =~= strings(before).push(view));
}

/// Splits a word that is longer than a line: full lines go to `lines`, the rest is
/// returned.
fn split_long(lines: &mut Vec<String>, word: &Vec<char>, width: usize) -> (rest: String)
    requires
        width >= 1,
    ensures
        strings(final(lines)@) == strings(old(lines)@) + hard_lines(word@, width as int),
        rest@ == hard_rest(word@, width as int),
{
    let ghost before = strings(lines@);
    let n = word.len();
    let mut from: usize = 0;
    assert(word@.skip(0) =~= word@);
    assert(before + hard_lines(word@, width as int) =~= strings(lines@) + hard_lines(
        word@.skip(0),
        width as int,
    ));
    while n - from > width
        invariant
            n == word@.len(),
            from <= n,
            width >= 1,
            before + hard_lines(word@, width as int) == strings(lines@) + hard_lines(
                word@.skip(from as int),
                width as int,
            ),
            hard_rest(word@, width as int) == hard_rest(word@.skip(from as int), width as int),
        decreases n - from,
    {
        let ghost rest = word@.skip(from as int);
        let ghost was = strings(lines@);
        let piece = slice_subrange(word.as_slice(), from, from + width);
        assert(piece@ =~= rest.take(width as int));
        assert(rest.skip(width as int) =~= word@.skip(from + width));
        push_string(lines, string_of(piece));
        assert(was + (seq![piece@] + hard_lines(word@.skip(from + width), width as int))
            =~= strings(lines@) + hard_lines(word@.skip(from + width), width as int));
        from += width;
    }
    let tail = slice_subrange(word.as_slice(), from, n);
    assert(tail@ =~= word@.skip(from as int));
    assert(strings(lines@) + Seq::<Seq<char>>::empty() =~= strings(lines@));
    string_of(tail)
}

/// Greedy word-wrap by characters. Over-long words are hard-split so nothing
/// overflows.
pub fn wrap(s: &str, width: usize) -> (r: Vec<String>)
    ensures
        strings(r@) == wrapped(s@, width as int),
{
    let width = if width >= 1 {
        width
    } else {
        1
    };
    let tokens = split_words(chars_of(s).as_slice());
    let ghost all = words(s@);
    let n = tokens.len();
    let mut lines: Vec<String> = Vec::new();
    let mut cur = String::new();
    assert(strings(lines@) =~= Seq::<Seq<char>>::empty());
    assert(cur@ =~= Seq::<char>::empty());
    for i in 0..n
        invariant
            n == tokens@.len(),
            deep(tokens@) == all,
            width >= 1,
            (strings(lines@), cur@) == wrap_words(all, i as int, width as int),
    {
        assert(all[i as int] == tokens@[i as int]@);
        let word = &tokens[i];
        let wlen = word.len();
        let cur_len = cur.as_str().unicode_len();
        if wlen > width {
            if cur_len > 0 {
                push_string(&mut lines, cur);
            }
            cur = split_long(&mut lines, word, width);
        } else if cur_len == 0 {
            cur = string_of(word.as_slice());
        } else if cur_len < width && wlen <= width - cur_len - 1 {
            push_char(&mut cur, ' ');
            cur.append(string_of(word.as_slice()).as_str());
        } else {
            push_string(&mut lines, cur);
            cur = string_of(word.as_slice());
        }
    }
    if cur.as_str().unicode_len() > 0 || lines.len() == 0 {
        push_string(&mut lines, cur);
    }
    lines
}

// ── laws of wrapping ───────────────────────────────────────────────────────

/// All of `parts`, one behind the other.
pub open spec fn flat(parts: Seq<Seq<char>>) -> Seq<char>
    decreases parts.len(),
{
    if parts.len() == 0 {
        Seq::empty()
    } else {
        flat(parts.drop_last()) + parts.last()
    }
}

/// `s` without its spaces.
pub open spec fn without_spaces(s: Seq<char>) -> Seq<char>
    decreases s.len(),
{
    if s.len() == 0 {
        Seq::empty()
    } else if s.last() == ' ' {
        without_spaces(s.drop_last())
    } else {
        without_spaces(s.drop_last()).push(s.last())
    }
}

proof fn lemma_without_spaces_cat(a: Seq<char>, b: Seq<char>)
    ensures
        without_spaces(a + b) == without_spaces(a) + without_spaces(b),
    decreases b.len(),
{
    if b.len() == 0 {
        assert(a + b =~= a);
        assert(without_spaces(a) + without_spaces(b) =~= without_spaces(a));
    } else {
        lemma_without_spaces_cat(a, b.drop_last());
        assert((a + b).drop_last() =~= a + b.drop_last());
        if b.last() != ' ' {
            assert((without_spaces(a) + without_spaces(b.drop_last())).push(b.last())
                =~= without_spaces(a) + without_spaces(b));
        }
    }
}

proof fn lemma_without_spaces_same(a: Seq<char>)
    requires
        !a.contains(' '),
    ensures
        without_spaces(a) == a,
    decreases a.len(),
{
    if a.len() > 0 {
        assert(a[a.len() - 1] == a.last());
        assert(!a.drop_last().contains(' ')) by {
            if a.drop_last().contains(' ') {
                let i = choose|i: int| 0 <= i < a.len() - 1 && a.drop_last()[i] == ' ';
                assert(a[i] == ' ');
            }
        }
        lemma_without_spaces_same(a.drop_last());
        assert(a.drop_last().push(a.last()) =~= a);
    }
}

proof fn lemma_flat_cat(a: Seq<Seq<char>>, b: Seq<Seq<char>>)
    ensures
        flat(a + b) == flat(a) + flat(b),
    decreases b.len(),
{
    if b.len() == 0 {
        assert(a + b =~= a);
        assert(flat(a) + flat(b) =~= flat(a));
    } else {
        lemma_flat_cat(a, b.drop_last());
        assert((a + b).drop_last() =~= a + b.drop_last());
        assert(flat(a) + flat(b.drop_last()) + b.last() =~= flat(a) + (flat(b.drop_last())
            + b.last()));
    }
}

proof fn lemma_flat_push(a: Seq<Seq<char>>, x: Seq<char>)
    ensures
        flat(a.push(x)) == flat(a) + x,
{
    assert(a.push(x).drop_last() =~= a);
}

/// Hard-splitting a word keeps its characters, in lines of exactly the width.
proof fn lemma_hard(word: Seq<char>, width: int)
    requires
        width >= 1,
    ensures
        flat(hard_lines(word, width)) + hard_rest(word, width) == word,
        hard_rest(word, width).len() <= width,
        word.len() > 0 ==> hard_rest(word, width).len() > 0,
        forall|i: int|
            0 <= i < hard_lines(word, width).len() ==> (#[trigger] hard_lines(
                word,
                width,
            )[i]).len() <= width,
    decreases word.len(),
{
    if word.len() > width {
        let head = seq![word.take(width)];
        let tail = hard_lines(word.skip(width), width);
        lemma_hard(word.skip(width), width);
        lemma_flat_cat(head, tail);
        assert(head.drop_last() =~= Seq::<Seq<char>>::empty());
        assert(flat(head.drop_last()) =~= Seq::<char>::empty());
        assert(flat(head) =~= word.take(width));
        assert(hard_lines(word, width) == head + tail);
        assert(word.take(width) + flat(tail) + hard_rest(word.skip(width), width) =~= word.take(
            width,
        ) + (flat(tail) + hard_rest(word.skip(width), width)));
        assert(word.take(width) + word.skip(width) =~= word);
        assert forall|i: int| 0 <= i < (head + tail).len() implies (#[trigger] (head
            + tail)[i]).len() <= width by {
            if i > 0 {
                assert((head + tail)[i] == tail[i - 1]);
            }
        }
    } else {
        assert(flat(hard_lines(word, width)) + word =~= word);
    }
}

/// The words of a text are not empty and have no white space.
proof fn lemma_words_clean(s: Seq<char>)
    ensures
        forall|i: int|
            0 <= i < word_scan(s).0.len() ==> (#[trigger] word_scan(s).0[i]).len() > 0
                && !word_scan(s).0[i].contains(' '),
        !word_scan(s).1.contains(' '),
    decreases s.len(),
{
    if s.len() > 0 {
        lemma_words_clean(s.drop_last());
        let (done, cur) = word_scan(s.drop_last());
        let c = s.last();
        assert(white_space(' '));
        if !white_space(c) {
            let now = cur.push(c);
            assert(!now.contains(' ')) by {
                if now.contains(' ') {
                    let i = choose|i: int| 0 <= i < now.len() && now[i] == ' ';
                    if i < cur.len() {
                        assert(cur[i] == ' ');
                    }
                }
            }
        }
    }
}

proof fn lemma_wrap_words(all: Seq<Seq<char>>, n: int, width: int)
    requires
        0 <= n <= all.len(),
        width >= 1,
        forall|i: int| 0 <= i < all.len() ==> (#[trigger] all[i]).len() > 0 && !all[i].contains(
            ' ',
        ),
    ensures
        ({
            let (done, cur) = wrap_words(all, n, width);
            &&& forall|i: int| 0 <= i < done.len() ==> (#[trigger] done[i]).len() <= width
            &&& cur.len() <= width
            &&& n > 0 ==> cur.len() > 0
            &&& without_spaces(flat(done) + cur) == flat(all.take(n))
        }),
    decreases n,
{
    if n > 0 {
        lemma_wrap_words(all, n - 1, width);
        lemma_take_step(all, n - 1);
        let (done, cur) = wrap_words(all, n - 1, width);
        let word = all[n - 1];
        let (done2, cur2) = wrap_words(all, n, width);
        lemma_without_spaces_same(word);
        lemma_flat_push(all.take(n - 1), word);
        lemma_without_spaces_cat(flat(done) + cur, word);
        let want = flat(all.take(n - 1)) + word;
        assert(without_spaces((flat(done) + cur) + word) == want);
        if word.len() > width {
            lemma_hard(word, width);
            let base = if cur.len() > 0 {
                done.push(cur)
            } else {
                done
            };
            lemma_flat_push(done, cur);
            assert(flat(base) =~= flat(done) + cur);
            lemma_flat_cat(base, hard_lines(word, width));
            assert(flat(done2) + cur2 =~= flat(base) + (flat(hard_lines(word, width)) + hard_rest(
                word,
                width,
            )));
            assert forall|i: int| 0 <= i < done2.len() implies (#[trigger] done2[i]).len()
                <= width by {
                if i < base.len() {
                    assert(done2[i] == base[i]);
                } else {
                    assert(done2[i] == hard_lines(word, width)[i - base.len()]);
                }
            }
        } else if cur.len() == 0 {
            assert(flat(done) + cur =~= flat(done));
        } else if cur.len() + 1 + word.len() <= width {
            let space = seq![' '];
            assert(flat(done) + cur2 =~= (flat(done) + cur) + (space + word));
            lemma_without_spaces_cat(flat(done) + cur, space + word);
            lemma_without_spaces_cat(space, word);
            assert(space.drop_last() =~= Seq::<char>::empty());
            assert(space.last() == ' ');
            assert(without_spaces(space.drop_last()) =~= Seq::<char>::empty());
            assert(without_spaces(space) =~= Seq::<char>::empty());
            assert(without_spaces(space) + without_spaces(word) =~= word);
        } else {
            lemma_flat_push(done, cur);
        }
    } else {
        assert(flat(Seq::<Seq<char>>::empty()) + Seq::<char>::empty() =~= Seq::<char>::empty());
        assert(all.take(0) =~= Seq::<Seq<char>>::empty());
    }
}

/// Wrapped text has no line that is too long, and loses nothing but white space:
/// the characters of its lines, spaces left out, are those of the words.
pub proof fn law_wrap(s: Seq<char>, width: int)
    requires
        width >= 1,
    ensures
        wrapped(s, width).len() > 0,
        forall|i: int|
            0 <= i < wrapped(s, width).len() ==> (#[trigger] wrapped(s, width)[i]).len() <= width,
        without_spaces(flat(wrapped(s, width))) == flat(words(s)),
{
    let all = words(s);
    lemma_words_clean(s);
    assert forall|i: int| 0 <= i < all.len() implies (#[trigger] all[i]).len() > 0
        && !all[i].contains(' ') by {
        if i < word_scan(s).0.len() {
            assert(all[i] == word_scan(s).0[i]);
        }
    }
    lemma_wrap_words(all, all.len() as int, width);
    assert(all.take(all.len() as int) =~= all);
    let (done, cur) = wrap_words(all, all.len() as int, width);
    lemma_flat_push(done, cur);
    if cur.len() == 0 {
        assert(flat(done) + cur =~= flat(done));
    }
}

// ── boxes ──────────────────────────────────────────────────────────────────

/// A bordered box in the top-right corner.
#[derive(Debug)]
pub struct Notice {
    pub area: Area,
    pub title: String,
    pub accent: Color,
    pub body: Vec<Line>,
}

/// The width of a notification.
pub open spec fn notice_width(area: Area) -> int {
    let room = less(area.width as int, MARGIN + 1);
    if room < MAX_WIDTH {
        room
    } else {
        MAX_WIDTH as int
    }
}

/// The characters per line inside a notification.
pub open spec fn notice_columns(area: Area) -> int {
    let room = less(notice_width(area), 4);
    if room >= 1 {
        room
    } else {
        1
    }
}

/// Where a notification with `lines` lines goes that starts at `top`; none where
/// there is no room.
pub open spec fn notice_area(area: Area, top: u16, lines: int) -> Option<Area> {
    let width = notice_width(area);
    let bottom = area.y + area.height;
    if width < 16 || top + 4 > bottom {
        None
    } else {
        let want = lines + 2;
        Some(
            Area {
                x: (area.x + less(area.width as int, width + MARGIN)) as u16,
                y: top,
                width: width as u16,
                height: (if want < bottom - top {
                    want
                } else {
                    bottom - top
                }) as u16,
            },
        )
    }
}

pub fn box_width(area: Area) -> (r: u16)
    ensures
        r == notice_width(area),
{
    let room = area.width.saturating_sub(MARGIN + 1);
    if room < MAX_WIDTH {
        room
    } else {
        MAX_WIDTH
    }
}

pub fn wrap_width(area: Area) -> (r: usize)
    ensures
        r == notice_columns(area),
{
    let room = box_width(area).saturating_sub(4);
    if room >= 1 {
        room as usize
    } else {
        1
    }
}

/// The area of a notification, or none.
pub fn place_notice(area: Area, top: u16, lines: usize) -> (r: Option<Area>)
    requires
        crate::ui::canvas::on_grid(area),
    ensures
        r == notice_area(area, top, lines as int),
{
    let width = box_width(area);
    let bottom = area.y + area.height;
    if width < 16 || bottom < 4 || top > bottom - 4 {
        return None;
    }
    let room = bottom - top;
    let height = if lines < room as usize && lines + 2 < room as usize {
        (lines + 2) as u16
    } else {
        room
    };
    Some(Area { x: area.x + area.width.saturating_sub(width + MARGIN), y: top, width, height })
}

/// One line of a message: indented by a column.
pub open spec fn message_line(text: Seq<char>) -> LineModel {
    line_of(seq![span_of(seq![' '] + text, no_style())])
}

/// The lines of a message.
pub open spec fn message_lines(message: Seq<char>, columns: int) -> Seq<LineModel> {
    wrapped(sanitized(message), columns).map_values(|l: Seq<char>| message_line(l))
}

fn write_message(message: &str, columns: usize) -> (r: Vec<Line>)
    ensures
        line_models(r@) == message_lines(message@, columns as int),
{
    let parts = wrap(sanitize(message).as_str(), columns);
    let ghost want = message_lines(message@, columns as int);
    let mut lines: Vec<Line> = Vec::new();
    let n = parts.len();
    assert(want.len() == n);
    for i in 0..n
        invariant
            n == parts@.len(),
            strings(parts@) == wrapped(sanitized(message@), columns as int),
            want == message_lines(message@, columns as int),
            line_models(lines@) == want.take(i as int),
    {
        assert(strings(parts@)[i as int] == parts@[i as int]@);
        let mut text = copy_of(" ");
        text.append(parts[i].as_str());
        proof {
            reveal_strlit(" ");
            assert(text@ =~= seq![' '] + parts@[i as int]@);
        }
        let ghost view = text@;
        let mut spans: Vec<Span> = Vec::new();
        push_span(&mut spans, text, Style::none());
        assert(span_models(spans@) =~= seq![span_of(view, no_style())]);
        push_line(&mut lines, Line::from_spans(spans));
        assert(want[i as int] == message_line(parts@[i as int]@));
        proof {
            lemma_take_step(want, i as int);
        }
    }
    assert(want.take(n as int) =~= want);
    lines
}

/// The body of the config-error notification.
pub open spec fn config_error_lines(
    message: Seq<char>,
    edit_key: Seq<char>,
    columns: int,
) -> Seq<LineModel> {
    message_lines(message, columns).push(styled_line(Seq::empty(), no_style())).push(
        styled_line(
            " press "@ + edit_key + " to edit · fix to dismiss"@,
            italic_colored(Color::DarkGray),
        ),
    )
}

/// The persistent config-error notification that starts at `top`; none where there
/// is no room.
pub fn config_error_notice(area: Area, top: u16, message: &str, edit_key: &str) -> (r: Option<
    Notice,
>)
    requires
        crate::ui::canvas::on_grid(area),
    ensures
        ({
            let body = config_error_lines(message@, edit_key@, notice_columns(area));
            match r {
                Some(n) => {
                    &&& Some(n.area) == notice_area(area, top, body.len() as int)
                    &&& line_models(n.body@) == body
                    &&& n.title@ == " ⚠ Config error "@
                    &&& n.accent == Color::Red
                },
                None => notice_area(area, top, body.len() as int) is None,
            }
        }),
{
    let mut body = write_message(message, wrap_width(area));
    let empty = String::new();
    assert(empty@ =~= Seq::<char>::empty());
    push_line(&mut body, Line::styled(empty, Style::none()));
    let mut hint = copy_of(" press ");
    hint.append(edit_key);
    hint.append(" to edit · fix to dismiss");
    push_line(&mut body, Line::styled(hint, Style::italic(Color::DarkGray)));
    let ghost lines = line_models(body@);
    assert(lines.len() == body@.len());
    match place_notice(area, top, body.len()) {
        Some(a) => Some(
            Notice { area: a, title: copy_of(" ⚠ Config error "), accent: Color::Red, body },
        ),
        None => None,
    }
}

/// The transient notification that starts at `top`; none where there is no room.
pub fn toast_notice(area: Area, top: u16, text: &str) -> (r: Option<Notice>)
    requires
        crate::ui::canvas::on_grid(area),
    ensures
        ({
            let body = message_lines(text@, notice_columns(area));
            match r {
                Some(n) => {
                    &&& Some(n.area) == notice_area(area, top, body.len() as int)
                    &&& line_models(n.body@) == body
                    &&& n.title@ == " ✓ Copied "@
                    &&& n.accent == Color::Green
                },
                None => notice_area(area, top, body.len() as int) is None,
            }
        }),
{
    let body = write_message(text, wrap_width(area));
    let ghost lines = line_models(body@);
    assert(lines.len() == body@.len());
    match place_notice(area, top, body.len()) {
        Some(a) => Some(
            Notice { area: a, title: copy_of(" ✓ Copied "), accent: Color::Green, body },
        ),
        None => None,
    }
}

/// A notification lies on the screen, at its right edge, from the row it is to start at;
/// it is no wider than the largest width, and as high as its lines and its border need
/// where there is room.
pub proof fn law_notice_on_screen(area: Area, top: u16, lines: int)
    requires
        crate::ui::canvas::on_grid(area),
        area.y <= top,
        lines >= 0,
        notice_area(area, top, lines) is Some,
    ensures
        ({
            let a = notice_area(area, top, lines)->0;
            &&& area.x <= a.x
            &&& a.x + a.width < area.x + area.width
            &&& a.y == top
            &&& a.y + a.height <= area.y + area.height
            &&& 16 <= a.width <= 50
            &&& top + lines + 2 <= area.y + area.height ==> a.height == lines + 2
            &&& top + lines + 2 > area.y + area.height ==> a.y + a.height == area.y + area.height
        }),
{
}

/// Text that has room on one line is not broken: its words stand there with one blank
/// between each two.
pub proof fn law_short_text_stays_on_one_line(s: Seq<char>, width: int)
    requires
        width >= 1,
        joined(words(s), seq![' ']).len() <= width,
    ensures
        wrapped(s, width) == seq![joined(words(s), seq![' '])],
{
    let all = words(s);
    lemma_words_clean(s);
    assert forall|i: int| 0 <= i < all.len() implies (#[trigger] all[i]).len() > 0 by {
        if i < word_scan(s).0.len() {
            assert(all[i] == word_scan(s).0[i]);
        }
    }
    assert(all.take(all.len() as int) =~= all);
    lemma_one_line(all, all.len() as int, width);
    let none = Seq::<Seq<char>>::empty();
    assert(none.push(joined(all, seq![' '])) =~= seq![joined(all, seq![' '])]);
}

proof fn lemma_one_line(all: Seq<Seq<char>>, n: int, width: int)
    requires
        0 <= n <= all.len(),
        forall|i: int| 0 <= i < all.len() ==> (#[trigger] all[i]).len() > 0,
        joined(all.take(n), seq![' ']).len() <= width,
    ensures
        wrap_words(all, n, width) == (
            Seq::<Seq<char>>::empty(),
            joined(all.take(n), seq![' ']),
        ),
        n > 0 ==> joined(all.take(n), seq![' ']).len() > 0,
    decreases n,
{
    let sep = seq![' '];
    let line = joined(all.take(n), sep);
    if n > 0 {
        lemma_take_step(all, n - 1);
        let was = joined(all.take(n - 1), sep);
        assert(all[n - 1].len() > 0);
        if n == 1 {
            assert(all.take(1)[0] == all[0]);
            assert(all.take(0) =~= Seq::<Seq<char>>::empty());
            lemma_one_line(all, 0, width);
        } else {
            assert(line == was + sep + all[n - 1]);
            lemma_one_line(all, n - 1, width);
            assert(was.push(' ') + all[n - 1] =~= line);
        }
    } else {
        assert(all.take(0) =~= Seq::<Seq<char>>::empty());
    }
}

} // verus!
