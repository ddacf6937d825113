//! Text primitives: byte slices of strings, lines, words, numbers.
//!
//! A string is viewed as the sequence of its characters (`s@`); where offsets
//! matter it is viewed as the bytes of its UTF-8 encoding (`encode_utf8(s@)`).

use vstd::prelude::*;
use vstd::slice::slice_subrange;
use vstd::string::*;
use vstd::utf8::*;

verus! {

// ── characters ─────────────────────────────────────────────────────────────

/// A control character (Unicode general category Cc).
pub open spec fn control_char(c: char) -> bool {
    c as u32 <= 0x1f || 0x7f <= c as u32 <= 0x9f
}

/// A character with the Unicode `White_Space` property.
pub open spec fn white_space(c: char) -> bool {
    let u = c as u32;
    ||| 0x09 <= u <= 0x0d
    ||| u == 0x20
    ||| u == 0x85
    ||| u == 0xa0
    ||| u == 0x1680
    ||| 0x2000 <= u <= 0x200a
    ||| u == 0x2028
    ||| u == 0x2029
    ||| u == 0x202f
    ||| u == 0x205f
    ||| u == 0x3000
}

/// The lower-case form of an ASCII letter; any other character is itself.
pub open spec fn ascii_lower(c: char) -> char {
    if 'A' <= c <= 'Z' {
        (c as u32 + 32) as char
    } else {
        c
    }
}

/// An ASCII letter.
pub open spec fn ascii_letter(c: char) -> bool {
    'A' <= c <= 'Z' || 'a' <= c <= 'z'
}

pub fn is_control(c: char) -> (r: bool)
    ensures
        r == control_char(c),
{
    let u: u32 = c as u32;
    u <= 0x1f || (0x7f <= u && u <= 0x9f)
}

pub fn is_white_space(c: char) -> (r: bool)
    ensures
        r == white_space(c),
{
    let u: u32 = c as u32;
    (0x09 <= u && u <= 0x0d) || u == 0x20 || u == 0x85 || u == 0xa0 || u == 0x1680 || (0x2000 <= u
        && u <= 0x200a) || u == 0x2028 || u == 0x2029 || u == 0x202f || u == 0x205f || u == 0x3000
}

pub fn is_ascii_letter(c: char) -> (r: bool)
    ensures
        r == ascii_letter(c),
{
    ('A' <= c && c <= 'Z') || ('a' <= c && c <= 'z')
}

pub fn to_ascii_lower(c: char) -> (r: char)
    ensures
        r == ascii_lower(c),
{
    if 'A' <= c && c <= 'Z' {
        let b: u8 = c as u8;
        let l: u8 = b + 32;
        l as char
    } else {
        c
    }
}

// ── strings and characters ─────────────────────────────────────────────────

/// Appends one character: `String::push` of the standard library.
#[verifier::external_body]
pub(crate) fn push_char(s: &mut String, c: char)
    ensures
        final(s)@ == old(s)@.push(c),
{
    s.push(c);
}

/// The characters of `s`, in order.
pub fn chars_of(s: &str) -> (r: Vec<char>)
    ensures
        r@ == s@,
{
    let mut out: Vec<char> = Vec::new();
    for c in it: s.chars()
        invariant
            out@ == it.seq().take(it.index() as int),
            it.seq() == s@,
    {
        out.push(c);
    }
    assert(out@ =~= s@);
    out
}

/// The string made of `chars`, in order.
pub fn string_of(chars: &[char]) -> (r: String)
    ensures
        r@ == chars@,
{
    let mut out = String::new();
    let n = chars.len();
    for i in 0..n
        invariant
            n == chars@.len(),
            out@ == chars@.take(i as int),
    {
        push_char(&mut out, chars[i]);
        assert(chars@.take(i + 1) =~= chars@.take(i as int).push(chars@[i as int]));
    }
    assert(chars@.take(n as int) =~= chars@);
    out
}

/// A new vector with the characters of `s`.
pub fn copy_chars(s: &[char]) -> (r: Vec<char>)
    ensures
        r@ == s@,
{
    let mut out: Vec<char> = Vec::new();
    let n = s.len();
    for i in 0..n
        invariant
            n == s@.len(),
            out@ == s@.take(i as int),
    {
        out.push(s[i]);
        assert(s@.take(i + 1) =~= s@.take(i as int).push(s@[i as int]));
    }
    assert(s@.take(n as int) =~= s@);
    out
}

/// A new string with the characters of `s`.
pub fn copy_of(s: &str) -> (r: String)
    ensures
        r@ == s@,
{
    s.to_owned()
}

/// The bytes of two texts are those of the text that they make together.
pub proof fn lemma_encode_concat(a: Seq<char>, b: Seq<char>)
    ensures
        encode_utf8(a + b) == encode_utf8(a) + encode_utf8(b),
    decreases a.len(),
{
    if a.len() == 0 {
        assert(a + b =~= b);
        assert(encode_utf8(a) + encode_utf8(b) =~= encode_utf8(b));
    } else {
        lemma_encode_concat(a.drop_first(), b);
        assert((a + b).drop_first() =~= a.drop_first() + b);
        assert(encode_utf8(a + b) =~= encode_utf8(a) + encode_utf8(b));
    }
}

/// Two strings are equal when their encodings are.
pub proof fn lemma_encode_injective(a: Seq<char>, b: Seq<char>)
    requires
        encode_utf8(a) == encode_utf8(b),
    ensures
        a == b,
{
    encode_utf8_decode_utf8(a);
    encode_utf8_decode_utf8(b);
}

/// Whether `a` and `b` hold the same bytes.
pub fn bytes_equal(a: &[u8], b: &[u8]) -> (r: bool)
    ensures
        r == (a@ == b@),
{
    if a.len() != b.len() {
        return false;
    }
    let n = a.len();
    for i in 0..n
        invariant
            n == a@.len(),
            n == b@.len(),
            a@.take(i as int) == b@.take(i as int),
    {
        if a[i] != b[i] {
            assert(a@[i as int] != b@[i as int]);
            return false;
        }
        assert(a@.take(i + 1) =~= a@.take(i as int).push(a@[i as int]));
        assert(b@.take(i + 1) =~= b@.take(i as int).push(b@[i as int]));
    }
    assert(a@.take(n as int) =~= a@);
    assert(b@.take(n as int) =~= b@);
    true
}

/// Whether `a` and `b` are the same string.
pub fn same(a: &str, b: &str) -> (r: bool)
    ensures
        r == (a@ == b@),
{
    let r = bytes_equal(a.as_bytes(), b.as_bytes());
    proof {
        if r {
            lemma_encode_injective(a@, b@);
        }
    }
    r
}

// ── byte ranges ────────────────────────────────────────────────────────────

/// `start..end` is a range of bytes of `text` that begins and ends between two
/// characters.
pub open spec fn text_range(text: Seq<char>, start: int, end: int) -> bool {
    let b = encode_utf8(text);
    &&& 0 <= start <= end <= b.len()
    &&& is_char_boundary(b, start)
    &&& is_char_boundary(b, end)
}

/// The characters in bytes `start..end` of `text`.
pub open spec fn text_slice(text: Seq<char>, start: int, end: int) -> Seq<char> {
    decode_utf8(encode_utf8(text).subrange(start, end))
}

/// A position that holds an ASCII byte begins a character.
pub proof fn lemma_boundary_at_ascii(b: Seq<u8>, i: int)
    requires
        valid_utf8(b),
        0 <= i < b.len(),
        b[i] < 0x80,
    ensures
        is_char_boundary(b, i),
{
    is_char_boundary_iff_not_is_continuation_byte(b, i);
}

/// The position behind an ASCII byte begins a character, or is the end.
pub proof fn lemma_boundary_after_ascii(b: Seq<u8>, i: int)
    requires
        valid_utf8(b),
        0 <= i < b.len(),
        b[i] < 0x80,
    ensures
        is_char_boundary(b, i + 1),
    decreases b.len(),
{
    reveal_with_fuel(is_char_boundary, 3);
    if i == 0 {
        is_char_boundary_start_end_of_seq(pop_first_scalar(b));
    } else {
        let n = length_of_first_scalar(b);
        is_char_boundary_iff_not_is_continuation_byte(b, i);
        assert(n <= i);
        let rest = pop_first_scalar(b);
        assert(rest[i - n] == b[i]);
        lemma_boundary_after_ascii(rest, i - n);
    }
}

/// A boundary behind another one stays a boundary in the text that begins there.
pub proof fn lemma_boundary_in_tail(b: Seq<u8>, a: int, i: int)
    requires
        valid_utf8(b),
        0 <= a <= i <= b.len(),
        is_char_boundary(b, a),
        is_char_boundary(b, i),
    ensures
        valid_utf8(b.subrange(a, b.len() as int)),
        is_char_boundary(b.subrange(a, b.len() as int), i - a),
{
    valid_utf8_split(b, a);
    let tail = b.subrange(a, b.len() as int);
    if i == b.len() {
        is_char_boundary_start_end_of_seq(tail);
    } else {
        is_char_boundary_iff_not_is_continuation_byte(b, i);
        assert(tail[i - a] == b[i]);
        is_char_boundary_iff_not_is_continuation_byte(tail, i - a);
    }
}

/// The bytes of a slice of `text` are the bytes in its range.
pub proof fn lemma_slice_bytes(text: Seq<char>, start: int, end: int)
    requires
        text_range(text, start, end),
    ensures
        encode_utf8(text_slice(text, start, end)) == encode_utf8(text).subrange(start, end),
        valid_utf8(encode_utf8(text).subrange(start, end)),
{
    let b = encode_utf8(text);
    encode_utf8_valid_utf8(text);
    lemma_boundary_in_tail(b, start, end);
    let tail = b.subrange(start, b.len() as int);
    valid_utf8_split(tail, end - start);
    assert(tail.subrange(0, end - start) =~= b.subrange(start, end));
    decode_utf8_encode_utf8(b.subrange(start, end));
}

/// The part of `s` in bytes `start..end`.
pub fn slice_str(s: &str, start: usize, end: usize) -> (r: &str)
    requires
        text_range(s@, start as int, end as int),
    ensures
        r@ == text_slice(s@, start as int, end as int),
        encode_utf8(r@) == encode_utf8(s@).subrange(start as int, end as int),
{
    proof {
        encode_utf8_valid_utf8(s@);
        lemma_slice_bytes(s@, start as int, end as int);
        lemma_boundary_in_tail(encode_utf8(s@), start as int, end as int);
    }
    let (_, tail) = s.split_at(start);
    let (mid, _) = tail.split_at(end - start);
    proof {
        assert(mid.spec_bytes() =~= encode_utf8(s@).subrange(start as int, end as int));
        lemma_encode_injective(mid@, text_slice(s@, start as int, end as int));
    }
    mid
}

/// `b` begins with `p`.
pub open spec fn begins<T>(b: Seq<T>, p: Seq<T>) -> bool {
    p.len() <= b.len() && b.take(p.len() as int) == p
}

/// Whether the bytes `start..end` of `b` begin with those of `p`.
pub fn range_begins(b: &[u8], start: usize, end: usize, p: &str) -> (r: bool)
    requires
        start <= end <= b@.len(),
    ensures
        r == begins(b@.subrange(start as int, end as int), encode_utf8(p@)),
{
    let pb = p.as_bytes();
    let n = pb.len();
    if end - start < n {
        return false;
    }
    let ghost part = b@.subrange(start as int, end as int);
    for i in 0..n
        invariant
            n == pb@.len(),
            pb@ == encode_utf8(p@),
            start <= end <= b@.len(),
            n <= end - start,
            part == b@.subrange(start as int, end as int),
            part.take(i as int) == pb@.take(i as int),
    {
        if b[start + i] != pb[i] {
            assert(part.take(n as int)[i as int] == b@[start + i]);
            assert(pb@[i as int] != b@[start + i]);
            return false;
        }
        assert(part.take(i + 1) =~= part.take(i as int).push(part[i as int]));
        assert(pb@.take(i + 1) =~= pb@.take(i as int).push(pb@[i as int]));
    }
    assert(pb@.take(n as int) =~= pb@);
    true
}

// ── lines ──────────────────────────────────────────────────────────────────

/// The byte that ends a line.
pub const NEWLINE: u8 = 0x0a;

/// Where the line begins that the byte at `n` belongs to.
pub open spec fn line_start(b: Seq<u8>, n: int) -> int
    decreases n,
{
    if n <= 0 {
        0
    } else if b[n - 1] == NEWLINE {
        n
    } else {
        line_start(b, n - 1)
    }
}

/// The lines that end with a newline in the first `n` bytes, each as the range
/// of its bytes without that newline.
pub open spec fn closed_lines(b: Seq<u8>, n: int) -> Seq<(int, int)>
    decreases n,
{
    if n <= 0 {
        Seq::empty()
    } else if b[n - 1] == NEWLINE {
        closed_lines(b, n - 1).push((line_start(b, n - 1), n - 1))
    } else {
        closed_lines(b, n - 1)
    }
}

/// The lines of `b`, each as the range of its bytes without the newline. What
/// follows the last newline is a line too, unless it is empty.
pub open spec fn line_ranges(b: Seq<u8>) -> Seq<(int, int)> {
    let n = b.len() as int;
    if line_start(b, n) < n {
        closed_lines(b, n).push((line_start(b, n), n))
    } else {
        closed_lines(b, n)
    }
}

/// What holds of the ranges of lines: they are in bounds, in order, begin at the
/// start or behind a newline, and end at a newline or at the end.
pub open spec fn line_range_ok(b: Seq<u8>, r: (int, int)) -> bool {
    &&& 0 <= r.0 <= r.1 <= b.len()
    &&& r.0 == 0 || b[r.0 - 1] == NEWLINE
    &&& r.1 == b.len() || b[r.1] == NEWLINE
}

pub proof fn lemma_line_start(b: Seq<u8>, n: int)
    requires
        0 <= n <= b.len(),
    ensures
        0 <= line_start(b, n) <= n,
        line_start(b, n) == 0 || b[line_start(b, n) - 1] == NEWLINE,
    decreases n,
{
    if n > 0 && b[n - 1] != NEWLINE {
        lemma_line_start(b, n - 1);
    }
}

pub proof fn lemma_closed_lines(b: Seq<u8>, n: int)
    requires
        0 <= n <= b.len(),
    ensures
        forall|i: int| 0 <= i < closed_lines(b, n).len() ==> line_range_ok(b, #[trigger] closed_lines(b, n)[i]),
        closed_lines(b, n).len() <= n,
    decreases n,
{
    if n > 0 {
        lemma_closed_lines(b, n - 1);
        lemma_line_start(b, n - 1);
    }
}

pub proof fn lemma_line_ranges(b: Seq<u8>)
    ensures
        forall|i: int| 0 <= i < line_ranges(b).len() ==> line_range_ok(b, #[trigger] line_ranges(b)[i]),
{
    lemma_closed_lines(b, b.len() as int);
    lemma_line_start(b, b.len() as int);
}

/// Lines come in order: each begins behind the one before it.
proof fn lemma_closed_lines_ordered(b: Seq<u8>, n: int)
    requires
        0 <= n <= b.len(),
    ensures
        forall|i: int, j: int|
            0 <= i < j < closed_lines(b, n).len() ==> (#[trigger] closed_lines(b, n)[i]).1 < (
            #[trigger] closed_lines(b, n)[j]).0,
        forall|i: int|
            0 <= i < closed_lines(b, n).len() ==> (#[trigger] closed_lines(b, n)[i]).1
                < line_start(b, n),
    decreases n,
{
    if n > 0 {
        lemma_closed_lines_ordered(b, n - 1);
        lemma_line_start(b, n - 1);
        let was = closed_lines(b, n - 1);
        let now = closed_lines(b, n);
        assert forall|i: int, j: int| 0 <= i < j < now.len() implies (#[trigger] now[i]).1 < (
        #[trigger] now[j]).0 by {
            assert(now[i] == was[i]);
            if j < was.len() {
                assert(now[j] == was[j]);
            }
        }
        assert forall|i: int| 0 <= i < now.len() implies (#[trigger] now[i]).1 < line_start(
            b,
            n,
        ) by {
            if i < was.len() {
                assert(now[i] == was[i]);
            }
        }
    }
}

pub proof fn lemma_lines_ordered(b: Seq<u8>, i: int, j: int)
    requires
        0 <= i < j < line_ranges(b).len(),
    ensures
        line_ranges(b)[i].1 < line_ranges(b)[j].0,
        line_ranges(b)[i].0 < line_ranges(b)[j].0,
{
    lemma_closed_lines_ordered(b, b.len() as int);
    lemma_line_ranges(b);
    assert(line_range_ok(b, line_ranges(b)[i]));
}

/// The start and end of a line are boundaries of the text.
pub proof fn lemma_line_is_text_range(text: Seq<char>, r: (int, int))
    requires
        line_range_ok(encode_utf8(text), r),
    ensures
        text_range(text, r.0, r.1),
{
    let b = encode_utf8(text);
    encode_utf8_valid_utf8(text);
    is_char_boundary_start_end_of_seq(b);
    if r.0 > 0 {
        lemma_boundary_after_ascii(b, r.0 - 1);
    }
    if r.1 < b.len() {
        lemma_boundary_at_ascii(b, r.1);
    }
}

pub open spec fn range_model(r: (usize, usize)) -> (int, int) {
    (r.0 as int, r.1 as int)
}

/// The lines of `b` (see `line_ranges`).
pub fn split_lines(b: &[u8]) -> (r: Vec<(usize, usize)>)
    ensures
        r@.map_values(|p: (usize, usize)| range_model(p)) == line_ranges(b@),
        forall|i: int| 0 <= i < r@.len() ==> line_range_ok(b@, range_model(#[trigger] r@[i])),
{
    let mut out: Vec<(usize, usize)> = Vec::new();
    let mut start: usize = 0;
    let n = b.len();
    let ghost f = |p: (usize, usize)| range_model(p);
    for i in 0..n
        invariant
            n == b@.len(),
            f == (|p: (usize, usize)| range_model(p)),
            start == line_start(b@, i as int),
            start <= i,
            out@.map_values(f) == closed_lines(b@, i as int),
    {
        if b[i] == NEWLINE {
            out.push((start, i));
            start = i + 1;
            assert(out@.map_values(f) =~= closed_lines(b@, i + 1));
        }
    }
    if start < n {
        out.push((start, n));
    }
    assert(out@.map_values(f) =~= line_ranges(b@));
    proof {
        lemma_line_ranges(b@);
        assert forall|i: int| 0 <= i < out@.len() implies line_range_ok(b@, range_model(#[trigger] out@[i])) by {
            assert(out@.map_values(f)[i] == range_model(out@[i]));
        }
    }
    out
}

// ── words ──────────────────────────────────────────────────────────────────

/// The words that `s` has finished, and the one it is in the middle of.
pub open spec fn word_scan(s: Seq<char>) -> (Seq<Seq<char>>, Seq<char>)
    decreases s.len(),
{
    if s.len() == 0 {
        (Seq::empty(), Seq::empty())
    } else {
        let (done, cur) = word_scan(s.drop_last());
        if !white_space(s.last()) {
            (done, cur.push(s.last()))
        } else if cur.len() > 0 {
            (done.push(cur), Seq::empty())
        } else {
            (done, cur)
        }
    }
}

/// The maximal runs of characters of `s` that are no white space, in order.
pub open spec fn words(s: Seq<char>) -> Seq<Seq<char>> {
    let (done, cur) = word_scan(s);
    if cur.len() > 0 {
        done.push(cur)
    } else {
        done
    }
}

/// The views of a vector of character vectors.
pub open spec fn deep(v: Seq<Vec<char>>) -> Seq<Seq<char>> {
    v.map_values(|w: Vec<char>| w@)
}

/// The value behind an optional string.
pub open spec fn opt_string(s: Option<String>) -> Option<Seq<char>> {
    match s {
        Some(s) => Some(s@),
        None => None,
    }
}

/// The views of a vector of strings.
pub open spec fn strings(v: Seq<String>) -> Seq<Seq<char>> {
    v.map_values(|w: String| w@)
}

pub proof fn lemma_take_step<T>(s: Seq<T>, i: int)
    requires
        0 <= i < s.len(),
    ensures
        s.take(i + 1).drop_last() == s.take(i),
        s.take(i + 1).last() == s[i],
        s.take(i + 1) == s.take(i).push(s[i]),
{
    assert(s.take(i + 1).drop_last() =~= s.take(i));
    assert(s.take(i + 1) =~= s.take(i).push(s[i]));
}

pub fn split_words(s: &[char]) -> (r: Vec<Vec<char>>)
    ensures
        deep(r@) == words(s@),
{
    let mut done: Vec<Vec<char>> = Vec::new();
    let mut cur: Vec<char> = Vec::new();
    let n = s.len();
    for i in 0..n
        invariant
            n == s@.len(),
            word_scan(s@.take(i as int)) == (deep(done@), cur@),
    {
        proof {
            lemma_take_step(s@, i as int);
        }
        let c = s[i];
        let ghost before = done@;
        if !is_white_space(c) {
            cur.push(c);
        } else if cur.len() > 0 {
            done.push(cur);
            assert(deep(done@) =~= deep(before).push(cur@));
            cur = Vec::new();
        }
    }
    assert(s@.take(n as int) =~= s@);
    let ghost before = done@;
    if cur.len() > 0 {
        done.push(cur);
        assert(deep(done@) =~= deep(before).push(cur@));
    }
    done
}

// ── numbers ────────────────────────────────────────────────────────────────

pub open spec fn digit(c: char) -> bool {
    '0' <= c <= '9'
}

/// The number that decimal digits write.
pub open spec fn digits_value(s: Seq<char>) -> nat
    decreases s.len(),
{
    if s.len() == 0 {
        0
    } else {
        digits_value(s.drop_last()) * 10 + (s.last() as u32 - '0' as u32) as nat
    }
}

/// A number as digits behind an optional `+`.
pub open spec fn number_digits(s: Seq<char>) -> Seq<char> {
    if s.len() > 1 && s[0] == '+' {
        s.skip(1)
    } else {
        s
    }
}

/// The 32-bit number that `s` writes, if it writes one.
pub open spec fn number_of(s: Seq<char>) -> Option<u32> {
    let d = number_digits(s);
    if d.len() > 0 && (forall|i: int| 0 <= i < d.len() ==> digit(#[trigger] d[i])) && digits_value(d) <= u32::MAX {
        Some(digits_value(d) as u32)
    } else {
        None
    }
}

pub proof fn lemma_digits_grow(s: Seq<char>, i: int)
    requires
        0 <= i <= s.len(),
    ensures
        digits_value(s.take(i)) <= digits_value(s),
    decreases s.len() - i,
{
    if i < s.len() {
        lemma_take_step(s, i);
        lemma_digits_grow(s, i + 1);
    } else {
        assert(s.take(i) =~= s);
    }
}

/// Reads a 32-bit number (see `number_of`).
pub fn parse_number(s: &[char]) -> (r: Option<u32>)
    ensures
        r == number_of(s@),
{
    let mut start: usize = 0;
    if s.len() > 1 && s[0] == '+' {
        start = 1;
    }
    let ghost d = number_digits(s@);
    assert(d =~= s@.skip(start as int));
    let n = s.len();
    if start == n {
        return None;
    }
    let mut value: u64 = 0;
    for i in start..n
        invariant
            n == s@.len(),
            start <= i <= n,
            d == s@.skip(start as int),
            d == number_digits(s@),
            value == digits_value(d.take(i - start)),
            value <= u32::MAX,
            forall|j: int| 0 <= j < i - start ==> digit(#[trigger] d[j]),
    {
        let c = s[i];
        assert(c == d[i - start]);
        if !('0' <= c && c <= '9') {
            return None;
        }
        proof {
            lemma_take_step(d, i - start);
            lemma_digits_grow(d, i - start + 1);
        }
        let digit_value: u64 = (c as u32 - '0' as u32) as u64;
        value = value * 10 + digit_value;
        if value > 0xffff_ffff {
            return None;
        }
    }
    assert(d.take(n - start) =~= d);
    Some(value as u32)
}

/// The digit that stands for `n`.
pub open spec fn digit_char(n: int) -> char {
    ('0' as u32 + n) as char
}

/// `n` in decimal digits.
pub open spec fn decimal(n: nat) -> Seq<char>
    decreases n,
{
    if n < 10 {
        seq![digit_char(n as int)]
    } else {
        decimal(n / 10).push(digit_char((n % 10) as int))
    }
}

fn digit_of(n: u128) -> (c: char)
    requires
        n < 10,
    ensures
        c == digit_char(n as int),
{
    let b: u8 = 0x30 + n as u8;
    b as char
}

/// `n` in decimal digits.
pub fn to_decimal(n: u128) -> (r: String)
    ensures
        r@ == decimal(n as nat),
    decreases n,
{
    if n < 10 {
        let mut out = String::new();
        push_char(&mut out, digit_of(n));
        assert(out@ =~= decimal(n as nat));
        out
    } else {
        let mut out = to_decimal(n / 10);
        push_char(&mut out, digit_of(n % 10));
        out
    }
}

/// The decimal digits of a number write that number.
pub proof fn lemma_decimal_round_trip(n: nat)
    ensures
        digits_value(decimal(n)) == n,
        decimal(n).len() > 0,
        forall|i: int| 0 <= i < decimal(n).len() ==> digit(#[trigger] decimal(n)[i]),
    decreases n,
{
    if n < 10 {
        assert(decimal(n).drop_last() =~= Seq::<char>::empty());
        assert(digits_value(decimal(n).drop_last()) == 0);
    } else {
        lemma_decimal_round_trip(n / 10);
        assert(decimal(n).drop_last() =~= decimal(n / 10));
    }
}

// ── searching ──────────────────────────────────────────────────────────────

/// Whether `s` begins with `p`.
pub fn begins_with(s: &[char], p: &str) -> (r: bool)
    ensures
        r == begins(s@, p@),
{
    let p = chars_of(p);
    occurs(s, &p, 0)
}

/// Whether `s` is `p`.
pub fn chars_are(s: &[char], p: &str) -> (r: bool)
    ensures
        r == (s@ == p@),
{
    let p = chars_of(p);
    let same_len = s.len() == p.len();
    let r = same_len && occurs(s, &p, 0);
    assert(p@.len() == s@.len() ==> s@.take(p@.len() as int) =~= s@);
    r
}

/// `p` stands in `s` at `i`.
pub open spec fn occurs_at(s: Seq<char>, p: Seq<char>, i: int) -> bool {
    0 <= i && i + p.len() <= s.len() && s.subrange(i, i + p.len()) == p
}

/// The first place of `p` in `s` at or behind `i`.
pub open spec fn first_occurrence(s: Seq<char>, p: Seq<char>, i: int) -> Option<int>
    decreases s.len() - i + 1,
{
    if i > s.len() {
        None
    } else if occurs_at(s, p, i) {
        Some(i)
    } else {
        first_occurrence(s, p, i + 1)
    }
}

/// `text` contains `needle`.
pub open spec fn text_contains(text: Seq<char>, needle: Seq<char>) -> bool {
    first_occurrence(text, needle, 0) is Some
}

/// The last place of `p` in `s` at or before `i`.
pub open spec fn last_occurrence(s: Seq<char>, p: Seq<char>, i: int) -> Option<int>
    decreases i + 1,
{
    if i < 0 {
        None
    } else if occurs_at(s, p, i) {
        Some(i)
    } else {
        last_occurrence(s, p, i - 1)
    }
}

/// Whether `p` stands in `s` at `i`.
pub fn occurs(s: &[char], p: &[char], i: usize) -> (r: bool)
    requires
        i <= s@.len(),
    ensures
        r == occurs_at(s@, p@, i as int),
        i == 0 ==> r == begins(s@, p@),
{
    let n = p.len();
    assert(n <= s@.len() ==> s@.take(n as int) =~= s@.subrange(0, n as int));
    if s.len() - i < n {
        return false;
    }
    let m = s.len();
    let ghost part = s@.subrange(i as int, i + n);
    for k in 0..n
        invariant
            n == p@.len(),
            m == s@.len(),
            i + n <= m,
            part == s@.subrange(i as int, i + n),
            i == 0 ==> part == s@.take(n as int),
            forall|j: int| 0 <= j < k ==> part[j] == p@[j],
    {
        if s[i + k] != p[k] {
            assert(part[k as int] != p@[k as int]);
            return false;
        }
    }
    assert(part =~= p@);
    true
}

/// The first place of `p` in `s` at or behind `from`.
pub fn find_from(s: &[char], p: &[char], from: usize) -> (r: Option<usize>)
    requires
        from <= s@.len(),
    ensures
        (match r {
            Some(i) => Some(i as int),
            None => None::<int>,
        }) == first_occurrence(s@, p@, from as int),
        r is Some ==> occurs_at(s@, p@, r->0 as int),
{
    let mut i: usize = from;
    loop
        invariant
            from <= i <= s@.len(),
            first_occurrence(s@, p@, from as int) == first_occurrence(s@, p@, i as int),
        decreases s@.len() - i,
    {
        if occurs(s, p, i) {
            return Some(i);
        }
        if i == s.len() {
            assert(first_occurrence(s@, p@, i + 1) is None);
            return None;
        }
        i += 1;
    }
}

/// The last place of `p` in `s`.
pub fn find_last(s: &[char], p: &[char]) -> (r: Option<usize>)
    ensures
        (match r {
            Some(i) => Some(i as int),
            None => None::<int>,
        }) == last_occurrence(s@, p@, s@.len() as int),
        r is Some ==> occurs_at(s@, p@, r->0 as int),
{
    let mut i: usize = s.len();
    loop
        invariant
            i <= s@.len(),
            last_occurrence(s@, p@, s@.len() as int) == last_occurrence(s@, p@, i as int),
        decreases i,
    {
        if occurs(s, p, i) {
            return Some(i);
        }
        if i == 0 {
            assert(last_occurrence(s@, p@, i - 1) is None);
            return None;
        }
        i -= 1;
    }
}

/// What stands in `s` before the first `sep`: all of `s` where there is none.
pub open spec fn before(s: Seq<char>, sep: char) -> Seq<char>
    decreases s.len(),
{
    if s.len() == 0 || s[0] == sep {
        Seq::empty()
    } else {
        seq![s[0]] + before(s.skip(1), sep)
    }
}

/// The length of what stands in `s` before the first `sep`.
pub fn length_before(s: &[char], sep: char) -> (r: usize)
    ensures
        r <= s@.len(),
        s@.take(r as int) == before(s@, sep),
        forall|i: int| 0 <= i < r ==> s@[i] != sep,
        r < s@.len() ==> s@[r as int] == sep,
{
    let mut i: usize = 0;
    assert(s@.skip(0) =~= s@);
    assert(s@.take(0) + before(s@, sep) =~= before(s@, sep));
    while i < s.len() && s[i] != sep
        invariant
            i <= s@.len(),
            forall|j: int| 0 <= j < i ==> s@[j] != sep,
            before(s@, sep) == s@.take(i as int) + before(s@.skip(i as int), sep),
        decreases s@.len() - i,
    {
        let ghost rest = s@.skip(i as int);
        assert(rest.skip(1) =~= s@.skip(i + 1));
        assert(rest[0] == s@[i as int]);
        assert(s@.take(i as int) + (seq![s@[i as int]] + before(s@.skip(i + 1), sep)) =~= s@.take(
            i + 1,
        ) + before(s@.skip(i + 1), sep));
        i += 1;
    }
    assert(before(s@.skip(i as int), sep) =~= Seq::<char>::empty());
    assert(s@.take(i as int) + Seq::<char>::empty() =~= s@.take(i as int));
    i
}

// ── bytes ──────────────────────────────────────────────────────────────────

/// Appends `more` to `b`.
pub fn append_bytes(b: &mut Vec<u8>, more: &[u8])
    ensures
        final(b)@ == old(b)@ + more@,
{
    let n = more.len();
    let ghost before = b@;
    for i in 0..n
        invariant
            n == more@.len(),
            b@ == before + more@.take(i as int),
    {
        b.push(more[i]);
        assert(before + more@.take(i + 1) =~= (before + more@.take(i as int)).push(more@[i as int]));
    }
    assert(more@.take(n as int) =~= more@);
}

/// What `String::from_utf8_lossy` makes of bytes: the text, with U+FFFD for what
/// is no valid UTF-8.
pub uninterp spec fn utf8_lossy(bytes: Seq<u8>) -> Seq<char>;

/// The text of `bytes`: `String::from_utf8_lossy` of the standard library, which
/// gives back valid UTF-8 as it is and puts U+FFFD for what is not valid. Where
/// each replacement stands is not said.
#[verifier::external_body]
pub(crate) fn lossy_string(bytes: &[u8]) -> (r: String)
    ensures
        r@ == utf8_lossy(bytes@),
        valid_utf8(bytes@) ==> r@ == decode_utf8(bytes@),
{
    String::from_utf8_lossy(bytes).into_owned()
}

// ── splitting ──────────────────────────────────────────────────────────────

/// The pieces of `b` between the items `sep`: one more than there are such items.
pub open spec fn pieces<T>(b: Seq<T>, sep: T) -> Seq<Seq<T>>
    decreases b.len(),
{
    if b.len() == 0 {
        seq![Seq::empty()]
    } else {
        let was = pieces(b.drop_last(), sep);
        if b.last() == sep {
            was.push(Seq::empty())
        } else {
            was.drop_last().push(was.last().push(b.last()))
        }
    }
}

/// The views of a vector of byte vectors.
pub open spec fn deep_bytes(v: Seq<Vec<u8>>) -> Seq<Seq<u8>> {
    v.map_values(|w: Vec<u8>| w@)
}

/// The pieces of `b` between the bytes `sep`.
pub fn split_bytes(b: &[u8], sep: u8) -> (r: Vec<Vec<u8>>)
    ensures
        deep_bytes(r@) == pieces(b@, sep),
{
    let mut done: Vec<Vec<u8>> = Vec::new();
    let mut cur: Vec<u8> = Vec::new();
    let n = b.len();
    assert(deep_bytes(done@).push(cur@) =~= pieces(b@.take(0), sep));
    for i in 0..n
        invariant
            n == b@.len(),
            deep_bytes(done@).push(cur@) == pieces(b@.take(i as int), sep),
    {
        proof {
            lemma_take_step(b@, i as int);
        }
        let ghost was = done@;
        let ghost all = deep_bytes(done@).push(cur@);
        assert(all.drop_last() =~= deep_bytes(done@));
        if b[i] == sep {
            done.push(cur);
            assert(deep_bytes(done@) =~= deep_bytes(was).push(cur@));
            cur = Vec::new();
            assert(cur@ =~= Seq::<u8>::empty());
        } else {
            cur.push(b[i]);
        }
    }
    assert(b@.take(n as int) =~= b@);
    let ghost was = done@;
    let ghost last = cur@;
    done.push(cur);
    assert(deep_bytes(done@) =~= deep_bytes(was).push(last));
    done
}

/// The pieces of `s` between the characters `sep`.
pub fn split_chars(s: &[char], sep: char) -> (r: Vec<Vec<char>>)
    ensures
        deep(r@) == pieces(s@, sep),
{
    let mut done: Vec<Vec<char>> = Vec::new();
    let mut cur: Vec<char> = Vec::new();
    let n = s.len();
    assert(deep(done@).push(cur@) =~= pieces(s@.take(0), sep));
    for i in 0..n
        invariant
            n == s@.len(),
            deep(done@).push(cur@) == pieces(s@.take(i as int), sep),
    {
        proof {
            lemma_take_step(s@, i as int);
        }
        let ghost was = done@;
        let ghost all = deep(done@).push(cur@);
        assert(all.drop_last() =~= deep(done@));
        if s[i] == sep {
            done.push(cur);
            assert(deep(done@) =~= deep(was).push(cur@));
            cur = Vec::new();
            assert(cur@ =~= Seq::<char>::empty());
        } else {
            cur.push(s[i]);
        }
    }
    assert(s@.take(n as int) =~= s@);
    let ghost was = done@;
    let ghost last = cur@;
    done.push(cur);
    assert(deep(done@) =~= deep(was).push(last));
    done
}

/// At most `n` pieces of `s` between the characters `sep`; the last one is all
/// that is left.
pub open spec fn fields(s: Seq<char>, n: nat, sep: char) -> Seq<Seq<char>>
    decreases n,
{
    let head = before(s, sep);
    if n <= 1 || head.len() >= s.len() {
        seq![s]
    } else {
        seq![head] + fields(s.skip(head.len() as int + 1), (n - 1) as nat, sep)
    }
}

/// At most `n` pieces of `s` between the characters `sep`.
pub fn split_fields(s: &[char], n: usize, sep: char) -> (r: Vec<Vec<char>>)
    ensures
        deep(r@) == fields(s@, n as nat, sep),
{
    let mut out: Vec<Vec<char>> = Vec::new();
    let mut from: usize = 0;
    let mut left: usize = n;
    let len = s.len();
    assert(s@.skip(0) =~= s@);
    assert(deep(out@) + fields(s@, n as nat, sep) =~= fields(s@, n as nat, sep));
    loop
        invariant
            len == s@.len(),
            from <= len,
            deep(out@) + fields(s@.skip(from as int), left as nat, sep) == fields(
                s@,
                n as nat,
                sep,
            ),
        decreases left,
    {
        let rest = slice_subrange(s, from, len);
        assert(rest@ =~= s@.skip(from as int));
        let k = length_before(rest, sep);
        let ghost was = out@;
        if left <= 1 || k == rest.len() {
            let piece = copy_chars(rest);
            assert(piece@ =~= rest@);
            out.push(piece);
            assert(deep(out@) =~= deep(was) + seq![rest@]);
            return out;
        }
        let piece = copy_chars(slice_subrange(rest, 0, k));
        let ghost head = rest@.take(k as int);
        assert(piece@ =~= head);
        out.push(piece);
        assert(deep(out@) =~= deep(was).push(head));
        from = from + k + 1;
        left = left - 1;
        assert(rest@.skip(k + 1) =~= s@.skip(from as int));
        assert(deep(was) + (seq![head] + fields(s@.skip(from as int), left as nat, sep))
            =~= deep(out@) + fields(s@.skip(from as int), left as nat, sep));
    }
}

/// `s` without the white space that it begins with.
pub open spec fn trim_start(s: Seq<char>) -> Seq<char>
    decreases s.len(),
{
    if s.len() > 0 && white_space(s[0]) {
        trim_start(s.skip(1))
    } else {
        s
    }
}

/// `s` without the white space that it ends with.
pub open spec fn trim_end(s: Seq<char>) -> Seq<char>
    decreases s.len(),
{
    if s.len() > 0 && white_space(s.last()) {
        trim_end(s.drop_last())
    } else {
        s
    }
}

/// `s` without the white space at its two ends.
pub open spec fn trim(s: Seq<char>) -> Seq<char> {
    trim_end(trim_start(s))
}

/// `s` without the white space at its two ends.
pub fn trimmed(s: &[char]) -> (r: &[char])
    ensures
        r@ == trim(s@),
{
    let len = s.len();
    let mut from: usize = 0;
    assert(s@.skip(0) =~= s@);
    while from < len && is_white_space(s[from])
        invariant
            len == s@.len(),
            from <= len,
            trim_start(s@.skip(from as int)) == trim_start(s@),
        decreases len - from,
    {
        assert(s@.skip(from as int).skip(1) =~= s@.skip(from + 1));
        from += 1;
    }
    let ghost start = s@.skip(from as int);
    assert(start == trim_start(s@));
    let mut to: usize = len;
    assert(s@.subrange(from as int, to as int) =~= start);
    while from < to && is_white_space(s[to - 1])
        invariant
            len == s@.len(),
            from <= to <= len,
            trim_end(s@.subrange(from as int, to as int)) == trim_end(start),
        decreases to,
    {
        assert(s@.subrange(from as int, to as int).drop_last() =~= s@.subrange(
            from as int,
            to - 1,
        ));
        to -= 1;
    }
    slice_subrange(s, from, to)
}

/// `parts` with `sep` between each two.
pub open spec fn joined(parts: Seq<Seq<char>>, sep: Seq<char>) -> Seq<char>
    decreases parts.len(),
{
    if parts.len() == 0 {
        Seq::empty()
    } else if parts.len() == 1 {
        parts[0]
    } else {
        joined(parts.drop_last(), sep) + sep + parts.last()
    }
}

/// `parts` with `sep` between each two.
pub fn join(parts: &Vec<String>, sep: &str) -> (r: String)
    ensures
        r@ == joined(strings(parts@), sep@),
{
    let mut out = String::new();
    let n = parts.len();
    let ghost model = strings(parts@);
    for i in 0..n
        invariant
            n == parts@.len(),
            model == strings(parts@),
            out@ == joined(model.take(i as int), sep@),
    {
        proof {
            lemma_take_step(model, i as int);
        }
        assert(model[i as int] == parts@[i as int]@);
        if i > 0 {
            out.append(sep);
        }
        out.append(parts[i].as_str());
        if i == 0 {
            assert(out@ =~= model.take(1)[0]);
        }
    }
    assert(model.take(n as int) =~= model);
    out
}

/// The views of a slice of string slices.
pub open spec fn strs(v: Seq<&str>) -> Seq<Seq<char>> {
    v.map_values(|w: &str| w@)
}

/// Owned copies of `parts`.
pub fn owned(parts: &[&str]) -> (r: Vec<String>)
    ensures
        strings(r@) == strs(parts@),
{
    let mut out: Vec<String> = Vec::new();
    let n = parts.len();
    for i in 0..n
        invariant
            n == parts@.len(),
            strings(out@) == strs(parts@).take(i as int),
    {
        let ghost was = out@;
        let s = parts[i].to_owned();
        out.push(s);
        assert(strings(out@) =~= strings(was).push(s@));
        assert(strs(parts@).take(i + 1) =~= strs(parts@).take(i as int).push(s@));
    }
    assert(strs(parts@).take(n as int) =~= strs(parts@));
    out
}

// ── case ───────────────────────────────────────────────────────────────────

/// `s` with its ASCII letters in lower case.
pub open spec fn lowered(s: Seq<char>) -> Seq<char> {
    s.map_values(|c: char| ascii_lower(c))
}

/// `s` with its ASCII letters in lower case.
pub fn lower_ascii(s: &[char]) -> (r: Vec<char>)
    ensures
        r@ == lowered(s@),
{
    let mut out: Vec<char> = Vec::new();
    let n = s.len();
    for i in 0..n
        invariant
            n == s@.len(),
            out@ == lowered(s@).take(i as int),
    {
        out.push(to_ascii_lower(s[i]));
        assert(out@ =~= lowered(s@).take(i + 1));
    }
    assert(lowered(s@).take(n as int) =~= lowered(s@));
    out
}

/// The lower-case form of a text, by Unicode's rules.
pub uninterp spec fn unicode_lower(s: Seq<char>) -> Seq<char>;

/// The lower-case form of `s`: `str::to_lowercase` of the standard library, which
/// on ASCII text changes the letters `A` to `Z` and nothing else. What it does to
/// other characters is not said.
#[verifier::external_body]
pub(crate) fn lower_text(s: &str) -> (r: String)
    ensures
        r@ == unicode_lower(s@),
        (forall|i: int| 0 <= i < s@.len() ==> (#[trigger] s@[i] as u32) < 0x80) ==> r@ == lowered(
            s@,
        ),
{
    s.to_lowercase()
}

} // verus!
