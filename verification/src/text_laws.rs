//! What holds of lines, words and fields, whatever the text.

use vstd::prelude::*;

use crate::text::{
    before, closed_lines, decimal, digit, fields, first_occurrence, last_occurrence,
    lemma_decimal_round_trip, lemma_line_ranges, lemma_line_start, line_range_ok, line_ranges,
    line_start, number_of, occurs_at, pieces, trim, trim_end, trim_start, white_space, word_scan,
    words, NEWLINE,
};

verus! {

// ── lines ──────────────────────────────────────────────────────────────────

/// The line that ends last before `n` has no newline behind its start.
proof fn lemma_open_line(b: Seq<u8>, n: int)
    requires
        0 <= n <= b.len(),
    ensures
        forall|i: int| line_start(b, n) <= i < n ==> #[trigger] b[i] != NEWLINE,
    decreases n,
{
    if n > 0 && b[n - 1] != NEWLINE {
        lemma_open_line(b, n - 1);
    }
}

/// What holds of the closed lines in the first `n` bytes: each begins where the one
/// before it ended, and none holds a newline.
proof fn lemma_closed_tile(b: Seq<u8>, n: int)
    requires
        0 <= n <= b.len(),
    ensures
        ({
            let v = closed_lines(b, n);
            &&& forall|i: int|
                0 <= i < v.len() ==> (#[trigger] v[i]).0 == if i == 0 {
                    0
                } else {
                    v[i - 1].1 + 1
                }
            &&& forall|i: int|
                0 <= i < v.len() ==> (#[trigger] v[i]).1 < n && b[v[i].1] == NEWLINE
            &&& forall|i: int, k: int|
                0 <= i < v.len() && v[i].0 <= k < (#[trigger] v[i]).1 ==> #[trigger] b[k]
                    != NEWLINE
            &&& line_start(b, n) == if v.len() == 0 {
                0
            } else {
                v.last().1 + 1
            }
        }),
    decreases n,
{
    if n > 0 {
        lemma_closed_tile(b, n - 1);
        lemma_open_line(b, n - 1);
        let was = closed_lines(b, n - 1);
        let v = closed_lines(b, n);
        assert forall|i: int| 0 <= i < v.len() implies (#[trigger] v[i]).0 == if i == 0 {
            0
        } else {
            v[i - 1].1 + 1
        } by {
            if i < was.len() {
                assert(v[i] == was[i]);
            }
            if i > 0 {
                assert(v[i - 1] == was[i - 1]);
            }
        }
        assert forall|i: int| 0 <= i < v.len() implies (#[trigger] v[i]).1 < n && b[v[i].1]
            == NEWLINE by {
            if i < was.len() {
                assert(v[i] == was[i]);
            }
        }
        assert forall|i: int, k: int|
            0 <= i < v.len() && v[i].0 <= k < (#[trigger] v[i]).1 implies #[trigger] b[k]
            != NEWLINE by {
            if i < was.len() {
                assert(v[i] == was[i]);
            }
        }
    }
}

/// The lines cut a text at its newlines, and nowhere else: the first begins at the
/// start, each other one right behind the newline that ends the one before it, none
/// holds a newline, and behind the last there is nothing but the newline that ends it.
pub proof fn law_lines(b: Seq<u8>)
    ensures
        ({
            let v = line_ranges(b);
            &&& v.len() == 0 <==> b.len() == 0
            &&& forall|i: int|
                0 <= i < v.len() ==> (#[trigger] v[i]).0 == if i == 0 {
                    0
                } else {
                    v[i - 1].1 + 1
                }
            &&& forall|i: int|
                0 <= i < v.len() ==> 0 <= (#[trigger] v[i]).0 <= v[i].1 <= b.len() && (v[i].1
                    < b.len() ==> b[v[i].1] == NEWLINE)
            &&& forall|i: int, k: int|
                0 <= i < v.len() && v[i].0 <= k < (#[trigger] v[i]).1 ==> #[trigger] b[k]
                    != NEWLINE
            &&& v.len() > 0 ==> v.last().1 == b.len() || v.last().1 + 1 == b.len()
        }),
{
    let n = b.len() as int;
    lemma_closed_tile(b, n);
    lemma_open_line(b, n);
    lemma_line_ranges(b);
    lemma_line_start(b, n);
    let c = closed_lines(b, n);
    let v = line_ranges(b);
    assert forall|i: int| 0 <= i < v.len() implies (#[trigger] v[i]).0 == if i == 0 {
        0
    } else {
        v[i - 1].1 + 1
    } by {
        if i < c.len() {
            assert(v[i] == c[i]);
        }
        if i > 0 {
            assert(v[i - 1] == c[i - 1]);
        }
    }
    assert forall|i: int| 0 <= i < v.len() implies 0 <= (#[trigger] v[i]).0 <= v[i].1 <= b.len()
        && (v[i].1 < b.len() ==> b[v[i].1] == NEWLINE) by {
        assert(line_range_ok(b, v[i]));
    }
    assert forall|i: int, k: int|
        0 <= i < v.len() && v[i].0 <= k < (#[trigger] v[i]).1 implies #[trigger] b[k]
        != NEWLINE by {
        if i < c.len() {
            assert(v[i] == c[i]);
        }
    }
    if v.len() > 0 && v.len() == c.len() {
        assert(v.last() == c[c.len() - 1]);
    }
}

// ── words ──────────────────────────────────────────────────────────────────

/// `w` holds no white space.
pub open spec fn solid(w: Seq<char>) -> bool {
    forall|i: int| 0 <= i < w.len() ==> !white_space(#[trigger] w[i])
}

proof fn lemma_scan_behind(a: Seq<char>, c: char, b: Seq<char>)
    requires
        white_space(c),
    ensures
        word_scan(a.push(c) + b) == (words(a) + word_scan(b).0, word_scan(b).1),
    decreases b.len(),
{
    let all = a.push(c) + b;
    if b.len() == 0 {
        assert(all =~= a.push(c));
        assert(a.push(c).drop_last() =~= a);
        assert(words(a) + word_scan(b).0 =~= words(a));
    } else {
        assert(all.drop_last() =~= a.push(c) + b.drop_last());
        assert(all.last() == b.last());
        lemma_scan_behind(a, c, b.drop_last());
        let (done, cur) = word_scan(b.drop_last());
        assert((words(a) + done).push(cur) =~= words(a) + done.push(cur));
    }
}

/// White space parts words: the words on both sides of it are the words of the whole.
pub proof fn law_words_part(a: Seq<char>, c: char, b: Seq<char>)
    requires
        white_space(c),
    ensures
        words(a.push(c) + b) == words(a) + words(b),
{
    lemma_scan_behind(a, c, b);
    let (done, cur) = word_scan(b);
    assert((words(a) + done).push(cur) =~= words(a) + done.push(cur));
}

/// Text without white space is one word; no text is none.
pub proof fn law_one_word(w: Seq<char>)
    requires
        solid(w),
    ensures
        words(w) == if w.len() == 0 {
            Seq::<Seq<char>>::empty()
        } else {
            seq![w]
        },
{
    lemma_scan_solid(w);
    assert(Seq::<Seq<char>>::empty().push(w) =~= seq![w]);
}

proof fn lemma_scan_solid(w: Seq<char>)
    requires
        solid(w),
    ensures
        word_scan(w) == (Seq::<Seq<char>>::empty(), w),
    decreases w.len(),
{
    if w.len() > 0 {
        lemma_scan_solid(w.drop_last());
        assert(w.drop_last().push(w.last()) =~= w);
    } else {
        assert(w =~= Seq::<char>::empty());
    }
}

// ── pieces and fields ──────────────────────────────────────────────────────

/// Every separator parts two pieces, and the pieces on both sides of it are the
/// pieces of the whole.
pub proof fn law_pieces_part<T>(a: Seq<T>, sep: T, b: Seq<T>)
    ensures
        pieces(a.push(sep) + b, sep) == pieces(a, sep) + pieces(b, sep),
    decreases b.len(),
{
    let all = a.push(sep) + b;
    lemma_some_piece(b, sep);
    if b.len() == 0 {
        assert(all =~= a.push(sep));
        assert(a.push(sep).drop_last() =~= a);
        assert(pieces(a, sep).push(Seq::empty()) =~= pieces(a, sep) + pieces(b, sep));
    } else {
        assert(all.drop_last() =~= a.push(sep) + b.drop_last());
        assert(all.last() == b.last());
        law_pieces_part(a, sep, b.drop_last());
        lemma_some_piece(b.drop_last(), sep);
        assert(pieces(all, sep) =~= pieces(a, sep) + pieces(b, sep));
    }
}

proof fn lemma_some_piece<T>(b: Seq<T>, sep: T)
    ensures
        pieces(b, sep).len() > 0,
    decreases b.len(),
{
    if b.len() > 0 {
        lemma_some_piece(b.drop_last(), sep);
    }
}

/// What holds no separator is one piece.
pub proof fn law_one_piece<T>(a: Seq<T>, sep: T)
    requires
        !a.contains(sep),
    ensures
        pieces(a, sep) == seq![a],
    decreases a.len(),
{
    if a.len() > 0 {
        let was = a.drop_last();
        assert(!was.contains(sep)) by {
            if was.contains(sep) {
                let i = choose|i: int| 0 <= i < was.len() && was[i] == sep;
                assert(a[i] == sep);
            }
        }
        law_one_piece(was, sep);
        assert(a.last() == a[a.len() - 1]);
        assert(was.push(a.last()) =~= a);
        assert(seq![was].drop_last().push(seq![was].last().push(a.last())) =~= seq![a]);
    } else {
        assert(a =~= Seq::<T>::empty());
    }
}

/// What stands before the first separator, where one follows and where none does.
pub proof fn law_before(p: Seq<char>, sep: char, rest: Seq<char>)
    requires
        !p.contains(sep),
    ensures
        before(p, sep) == p,
        before(p.push(sep) + rest, sep) == p,
    decreases p.len(),
{
    let all = p.push(sep) + rest;
    if p.len() == 0 {
        assert(p =~= Seq::<char>::empty());
        assert(all[0] == sep);
    } else {
        assert(p.contains(p[0]));
        assert(!p.skip(1).contains(sep)) by {
            if p.skip(1).contains(sep) {
                let i = choose|i: int| 0 <= i < p.skip(1).len() && p.skip(1)[i] == sep;
                assert(p[i + 1] == sep);
            }
        }
        law_before(p.skip(1), sep, rest);
        assert(all.skip(1) =~= p.skip(1).push(sep) + rest);
        assert(seq![p[0]] + p.skip(1) =~= p);
    }
}

/// The first field is what stands before the first separator, and the others are the
/// fields of the rest. The last field that is asked for is all that is left, separators
/// and all.
pub proof fn law_fields(p: Seq<char>, rest: Seq<char>, n: nat, sep: char)
    requires
        !p.contains(sep),
        n > 1,
    ensures
        fields(p.push(sep) + rest, n, sep) == seq![p] + fields(rest, (n - 1) as nat, sep),
        fields(p, n, sep) == seq![p],
        fields(rest, 1, sep) == seq![rest],
{
    law_before(p, sep, rest);
    let all = p.push(sep) + rest;
    assert(all.skip(p.len() as int + 1) =~= rest);
}

// ── white space at the ends ────────────────────────────────────────────────

/// `s` is white space and nothing else.
pub open spec fn blank(s: Seq<char>) -> bool {
    forall|i: int| 0 <= i < s.len() ==> white_space(#[trigger] s[i])
}

/// Trimming takes away all white space at the two ends, and nothing else.
pub proof fn law_trim(a: Seq<char>, s: Seq<char>, c: Seq<char>)
    requires
        blank(a),
        blank(c),
        s.len() > 0 ==> !white_space(s[0]) && !white_space(s.last()),
    ensures
        trim(a + s + c) == s,
{
    lemma_trim_start(a, s + c);
    assert(a + s + c =~= a + (s + c));
    if s.len() > 0 {
        assert((s + c)[0] == s[0]);
        lemma_trim_end(s, c);
    } else {
        assert(s + c =~= c);
        lemma_trim_start(c, s);
        assert(c + s =~= c);
        lemma_trim_end(s, s);
        assert(s + s =~= s);
    }
}

proof fn lemma_trim_start(a: Seq<char>, s: Seq<char>)
    requires
        blank(a),
    ensures
        trim_start(a + s) == trim_start(s),
    decreases a.len(),
{
    if a.len() > 0 {
        assert((a + s)[0] == a[0]);
        assert((a + s).skip(1) =~= a.skip(1) + s);
        lemma_trim_start(a.skip(1), s);
    } else {
        assert(a + s =~= s);
    }
}

proof fn lemma_trim_end(s: Seq<char>, c: Seq<char>)
    requires
        blank(c),
    ensures
        trim_end(s + c) == trim_end(s),
    decreases c.len(),
{
    if c.len() > 0 {
        assert((s + c).last() == c[c.len() - 1]);
        assert((s + c).drop_last() =~= s + c.drop_last());
        lemma_trim_end(s, c.drop_last());
    } else {
        assert(s + c =~= s);
    }
}

// ── numbers ────────────────────────────────────────────────────────────────

/// A number is read back from its digits.
pub proof fn law_number_round_trip(n: u32)
    ensures
        number_of(decimal(n as nat)) == Some(n),
        solid(decimal(n as nat)),
{
    lemma_decimal_round_trip(n as nat);
    let d = decimal(n as nat);
    assert(digit(d[0]));
    assert forall|i: int| 0 <= i < d.len() implies !white_space(#[trigger] d[i]) by {
        assert(digit(d[i]));
    }
}

// ── searching ──────────────────────────────────────────────────────────────

/// The first place of a text at or behind `i` is one, and none is before it.
pub proof fn law_first_occurrence(s: Seq<char>, p: Seq<char>, i: int)
    requires
        0 <= i,
    ensures
        match first_occurrence(s, p, i) {
            Some(k) => i <= k && occurs_at(s, p, k) && forall|j: int|
                i <= j < k ==> !#[trigger] occurs_at(s, p, j),
            None => forall|j: int| i <= j ==> !#[trigger] occurs_at(s, p, j),
        },
    decreases s.len() - i + 1,
{
    if i <= s.len() && !occurs_at(s, p, i) {
        law_first_occurrence(s, p, i + 1);
    }
}

/// The last place of a text at or before `i` is one, and none is behind it.
pub proof fn law_last_occurrence(s: Seq<char>, p: Seq<char>, i: int)
    ensures
        match last_occurrence(s, p, i) {
            Some(k) => k <= i && occurs_at(s, p, k) && forall|j: int|
                k < j <= i ==> !#[trigger] occurs_at(s, p, j),
            None => forall|j: int| j <= i ==> !#[trigger] occurs_at(s, p, j),
        },
    decreases i + 1,
{
    if i >= 0 && !occurs_at(s, p, i) {
        law_last_occurrence(s, p, i - 1);
    }
}

} // verus!
