//! Paths with `/` between their components.

use vstd::prelude::*;
use vstd::slice::slice_subrange;
use vstd::string::*;

use crate::text::{
    chars_are, chars_of, copy_of, deep, find_last, last_occurrence, pieces, split_chars, string_of,
    strings,
};

verus! {

/// The components among the first `n` pieces of a path: empty pieces are none,
/// and neither is `.` except at the very start.
pub open spec fn component_scan(parts: Seq<Seq<char>>, n: int) -> Seq<Seq<char>>
    decreases n,
{
    if n <= 0 {
        Seq::empty()
    } else {
        let part = parts[n - 1];
        if part.len() == 0 || (part == "."@ && n > 1) {
            component_scan(parts, n - 1)
        } else {
            component_scan(parts, n - 1).push(part)
        }
    }
}

/// The components of a path. A leading `/` is the component `/`.
pub open spec fn components(path: Seq<char>) -> Seq<Seq<char>> {
    let parts = pieces(path, '/');
    let names = component_scan(parts, parts.len() as int);
    if path.len() > 0 && path[0] == '/' {
        seq!["/"@] + names
    } else {
        names
    }
}

/// The components of a path.
pub fn split_path(path: &str) -> (r: Vec<String>)
    ensures
        strings(r@) == components(path@),
{
    let chars = chars_of(path);
    let parts = split_chars(chars.as_slice(), '/');
    let ghost model = deep(parts@);
    let ghost root = if path@.len() > 0 && path@[0] == '/' {
        seq!["/"@]
    } else {
        Seq::empty()
    };
    let mut out: Vec<String> = Vec::new();
    if chars.len() > 0 && chars[0] == '/' {
        out.push(copy_of("/"));
    }
    assert(strings(out@) =~= root);
    let n = parts.len();
    assert(root + component_scan(model, 0) =~= root);
    for i in 0..n
        invariant
            n == parts@.len(),
            model == deep(parts@),
            strings(out@) == root + component_scan(model, i as int),
    {
        assert(model[i as int] == parts@[i as int]@);
        let part = parts[i].as_slice();
        if part.len() == 0 || (i > 0 && chars_are(part, ".")) {
        } else {
            let ghost was = out@;
            out.push(string_of(part));
            assert(strings(out@) =~= strings(was).push(part@));
            assert(strings(out@) =~= root + component_scan(model, i + 1));
        }
    }
    proof {
        assert(root + component_scan(model, n as int) =~= components(path@));
    }
    out
}

// ── order ──────────────────────────────────────────────────────────────────

/// The kinds of component in their order: the root, `.`, `..`, names.
pub open spec fn component_rank(name: Seq<char>) -> int {
    if name == "/"@ {
        0
    } else if name == "."@ {
        1
    } else if name == ".."@ {
        2
    } else {
        3
    }
}

/// `a` comes before `b`, character by character; a prefix comes first.
pub open spec fn chars_less(a: Seq<char>, b: Seq<char>) -> bool
    decreases a.len(),
{
    if b.len() == 0 {
        false
    } else if a.len() == 0 {
        true
    } else {
        a[0] < b[0] || (a[0] == b[0] && chars_less(a.skip(1), b.skip(1)))
    }
}

/// The component `a` comes before the component `b`.
pub open spec fn component_less(a: Seq<char>, b: Seq<char>) -> bool {
    component_rank(a) < component_rank(b) || (component_rank(a) == component_rank(b) && chars_less(
        a,
        b,
    ))
}

/// The path with components `a` comes before the one with components `b`.
pub open spec fn path_less(a: Seq<Seq<char>>, b: Seq<Seq<char>>) -> bool
    decreases a.len(),
{
    if b.len() == 0 {
        false
    } else if a.len() == 0 {
        true
    } else {
        component_less(a[0], b[0]) || (a[0] == b[0] && path_less(a.skip(1), b.skip(1)))
    }
}

fn rank_of(name: &[char]) -> (r: u8)
    ensures
        r == component_rank(name@),
{
    if chars_are(name, "/") {
        0
    } else if chars_are(name, ".") {
        1
    } else if chars_are(name, "..") {
        2
    } else {
        3
    }
}

/// Whether `a` comes before `b`, character by character.
pub fn is_chars_less(a: &[char], b: &[char]) -> (r: bool)
    ensures
        r == chars_less(a@, b@),
{
    let mut i: usize = 0;
    assert(a@.skip(0) =~= a@);
    assert(b@.skip(0) =~= b@);
    loop
        invariant
            i <= a@.len(),
            i <= b@.len(),
            chars_less(a@, b@) == chars_less(a@.skip(i as int), b@.skip(i as int)),
        decreases a@.len() - i,
    {
        if i == b.len() {
            return false;
        }
        if i == a.len() {
            return true;
        }
        if a[i] != b[i] {
            return a[i] < b[i];
        }
        assert(a@.skip(i as int).skip(1) =~= a@.skip(i + 1));
        assert(b@.skip(i as int).skip(1) =~= b@.skip(i + 1));
        i += 1;
    }
}

fn is_component_less(a: &str, b: &str) -> (r: bool)
    ensures
        r == component_less(a@, b@),
{
    let a = chars_of(a);
    let b = chars_of(b);
    let ra = rank_of(a.as_slice());
    let rb = rank_of(b.as_slice());
    ra < rb || (ra == rb && is_chars_less(a.as_slice(), b.as_slice()))
}

/// Whether the path with components `a` comes before the one with components `b`.
pub fn is_path_less(a: &Vec<String>, b: &Vec<String>) -> (r: bool)
    ensures
        r == path_less(strings(a@), strings(b@)),
{
    let mut i: usize = 0;
    let ghost ma = strings(a@);
    let ghost mb = strings(b@);
    assert(ma.skip(0) =~= ma);
    assert(mb.skip(0) =~= mb);
    loop
        invariant
            ma == strings(a@),
            mb == strings(b@),
            i <= a@.len(),
            i <= b@.len(),
            path_less(ma, mb) == path_less(ma.skip(i as int), mb.skip(i as int)),
        decreases a@.len() - i,
    {
        if i == b.len() {
            return false;
        }
        if i == a.len() {
            return true;
        }
        assert(ma.skip(i as int)[0] == a@[i as int]@);
        assert(mb.skip(i as int)[0] == b@[i as int]@);
        if is_component_less(a[i].as_str(), b[i].as_str()) {
            return true;
        }
        if !crate::text::same(a[i].as_str(), b[i].as_str()) {
            return false;
        }
        assert(ma.skip(i as int).skip(1) =~= ma.skip(i + 1));
        assert(mb.skip(i as int).skip(1) =~= mb.skip(i + 1));
        i += 1;
    }
}

/// No string comes before itself.
pub proof fn lemma_chars_irreflexive(a: Seq<char>)
    ensures
        !chars_less(a, a),
    decreases a.len(),
{
    if a.len() > 0 {
        lemma_chars_irreflexive(a.skip(1));
    }
}

/// Of two different strings one comes before the other, and only one.
pub proof fn lemma_chars_total(a: Seq<char>, b: Seq<char>)
    ensures
        a == b || chars_less(a, b) || chars_less(b, a),
        !(chars_less(a, b) && chars_less(b, a)),
    decreases a.len(),
{
    if a.len() > 0 && b.len() > 0 {
        lemma_chars_total(a.skip(1), b.skip(1));
        if a[0] == b[0] && a.skip(1) == b.skip(1) {
            assert(a =~= seq![a[0]] + a.skip(1));
            assert(b =~= seq![b[0]] + b.skip(1));
        }
    } else if a.len() == 0 && b.len() == 0 {
        assert(a =~= b);
    }
}

pub proof fn lemma_chars_transitive(a: Seq<char>, b: Seq<char>, c: Seq<char>)
    requires
        chars_less(a, b),
        chars_less(b, c),
    ensures
        chars_less(a, c),
    decreases a.len(),
{
    if a.len() > 0 && b.len() > 0 && c.len() > 0 {
        if a[0] == b[0] && b[0] == c[0] {
            lemma_chars_transitive(a.skip(1), b.skip(1), c.skip(1));
        }
    }
}

pub proof fn lemma_component_order(a: Seq<char>, b: Seq<char>, c: Seq<char>)
    ensures
        a == b || component_less(a, b) || component_less(b, a),
        !(component_less(a, b) && component_less(b, a)),
        !component_less(a, a),
        component_less(a, b) && component_less(b, c) ==> component_less(a, c),
{
    lemma_chars_total(a, b);
    lemma_chars_irreflexive(a);
    if chars_less(a, b) && chars_less(b, c) {
        lemma_chars_transitive(a, b, c);
    }
}

/// Of two different paths one comes before the other, and only one.
pub proof fn lemma_path_total(a: Seq<Seq<char>>, b: Seq<Seq<char>>)
    ensures
        a == b || path_less(a, b) || path_less(b, a),
        !(path_less(a, b) && path_less(b, a)),
        !path_less(a, a),
    decreases a.len(),
{
    if a.len() > 0 {
        lemma_component_order(a[0], a[0], a[0]);
        lemma_path_total(a.skip(1), a.skip(1));
        if b.len() > 0 {
            lemma_component_order(a[0], b[0], a[0]);
            lemma_path_total(a.skip(1), b.skip(1));
            if a[0] == b[0] && a.skip(1) == b.skip(1) {
                assert(a =~= seq![a[0]] + a.skip(1));
                assert(b =~= seq![b[0]] + b.skip(1));
            }
        }
    } else if b.len() == 0 {
        assert(a =~= b);
    }
}

pub proof fn lemma_path_transitive(a: Seq<Seq<char>>, b: Seq<Seq<char>>, c: Seq<Seq<char>>)
    requires
        path_less(a, b),
        path_less(b, c),
    ensures
        path_less(a, c),
    decreases a.len(),
{
    if a.len() > 0 && b.len() > 0 && c.len() > 0 {
        lemma_component_order(a[0], b[0], c[0]);
        if a[0] == b[0] && b[0] == c[0] && path_less(a.skip(1), b.skip(1)) && path_less(
            b.skip(1),
            c.skip(1),
        ) {
            lemma_path_transitive(a.skip(1), b.skip(1), c.skip(1));
        }
    }
}

// ── joining ────────────────────────────────────────────────────────────────

/// `rel` below `base`; an absolute `rel` is itself.
pub open spec fn join_of(base: Seq<char>, rel: Seq<char>) -> Seq<char> {
    if rel.len() > 0 && rel[0] == '/' {
        rel
    } else if base.len() == 0 || base.last() == '/' {
        base + rel
    } else {
        base + "/"@ + rel
    }
}

/// `rel` below `base`; an absolute `rel` is itself.
pub fn path_join(base: &str, rel: &str) -> (r: String)
    ensures
        r@ == join_of(base@, rel@),
{
    if rel.unicode_len() > 0 && rel.get_char(0) == '/' {
        return copy_of(rel);
    }
    let mut out = copy_of(base);
    let n = base.unicode_len();
    if n > 0 && base.get_char(n - 1) != '/' {
        out.append("/");
    }
    out.append(rel);
    out
}

/// The last component of a path, where it is a name.
pub open spec fn file_name_of(path: Seq<char>) -> Option<Seq<char>> {
    let comps = components(path);
    if comps.len() > 0 && component_rank(comps.last()) == 3 {
        Some(comps.last())
    } else {
        None
    }
}

/// The last component of a path, where it is a name.
pub fn file_name(path: &str) -> (r: Option<String>)
    ensures
        (match r {
            Some(s) => Some(s@),
            None => None,
        }) == file_name_of(path@),
{
    let comps = split_path(path);
    let n = comps.len();
    if n == 0 {
        return None;
    }
    let last = comps[n - 1].as_str();
    assert(strings(comps@).last() == last@);
    if rank_of(chars_of(last).as_slice()) == 3 {
        Some(copy_of(last))
    } else {
        None
    }
}

// ── extensions ─────────────────────────────────────────────────────────────

/// The part of a file name behind its last dot; none where there is no dot but at
/// the start.
pub open spec fn extension_of_name(name: Seq<char>) -> Option<Seq<char>> {
    match last_occurrence(name, seq!['.'], name.len() as int) {
        Some(i) => if i > 0 {
            Some(name.skip(i + 1))
        } else {
            None
        },
        None => None,
    }
}

/// The extension of the file that a path names.
pub open spec fn extension_of(path: Seq<char>) -> Option<Seq<char>> {
    match file_name_of(path) {
        Some(name) => extension_of_name(name),
        None => None,
    }
}

/// The extension of the file that a path names.
pub fn extension(path: &str) -> (r: Option<String>)
    ensures
        (match r {
            Some(s) => Some(s@),
            None => None,
        }) == extension_of(path@),
{
    let name = match file_name(path) {
        Some(n) => n,
        None => {
            return None;
        },
    };
    let chars = chars_of(name.as_str());
    let mut dot: Vec<char> = Vec::new();
    dot.push('.');
    assert(dot@ =~= seq!['.']);
    let n = chars.len();
    match find_last(chars.as_slice(), dot.as_slice()) {
        Some(i) => {
            if i > 0 {
                let ext = slice_subrange(chars.as_slice(), i + 1, n);
                assert(ext@ =~= name@.skip(i + 1));
                Some(string_of(ext))
            } else {
                None
            }
        },
        None => None,
    }
}

} // verus!
