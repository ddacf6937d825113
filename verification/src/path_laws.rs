//! What holds of paths: their components, their order, their names.

use vstd::prelude::*;

use crate::path::{
    chars_less, component_rank, component_scan, components, extension_of_name, file_name_of,
    join_of, path_less,
};
use crate::text::{occurs_at, pieces};
use crate::text_laws::{law_last_occurrence, law_one_piece, law_pieces_part};

verus! {

/// A name of a file or folder, as it stands in a path.
pub open spec fn plain_name(name: Seq<char>) -> bool {
    name.len() > 0 && !name.contains('/') && name != "."@ && name != ".."@
}

// ── components ─────────────────────────────────────────────────────────────

proof fn lemma_scan_add(a: Seq<Seq<char>>, part: Seq<char>, n: int)
    requires
        0 <= n <= a.len(),
    ensures
        component_scan(a.push(part), n) == component_scan(a, n),
    decreases n,
{
    if n > 0 {
        lemma_scan_add(a, part, n - 1);
    }
}

proof fn lemma_pieces_some(b: Seq<char>)
    ensures
        pieces(b, '/').len() > 0,
    decreases b.len(),
{
    if b.len() > 0 {
        lemma_pieces_some(b.drop_last());
    }
}

/// A name below a folder is one more component behind those of the folder.
pub proof fn law_components_grow(base: Seq<char>, name: Seq<char>)
    requires
        plain_name(name),
    ensures
        components(join_of(base, name)) == components(base).push(name),
        components(name) == seq![name],
{
    reveal_strlit("/");
    law_one_piece(name, '/');
    assert(name.contains(name[0]));
    assert(name[0] != '/');
    let alone = seq![name];
    assert(component_scan(alone, 0) =~= Seq::<Seq<char>>::empty());
    assert(component_scan(alone, 1) =~= seq![name]);
    let all = join_of(base, name);
    if base.len() == 0 {
        assert(all =~= name);
        assert(base =~= Seq::<char>::empty());
        let one = pieces(base, '/');
        assert(one.len() == 1 && one[0].len() == 0);
        assert(component_scan(one, 0) =~= Seq::<Seq<char>>::empty());
        assert(component_scan(one, 1) =~= Seq::<Seq<char>>::empty());
        assert(components(base) =~= Seq::<Seq<char>>::empty());
        assert(components(base).push(name) =~= seq![name]);
    } else {
        lemma_pieces_some(base);
        let was = pieces(base, '/');
        let n = was.len() as int;
        if base.last() == '/' {
            let head = base.drop_last();
            let e = Seq::<char>::empty();
            assert(base =~= head.push('/') + e);
            assert(all =~= head.push('/') + name);
            law_pieces_part(head, '/', e);
            law_pieces_part(head, '/', name);
            law_one_piece(e, '/');
            let h = pieces(head, '/');
            assert(was =~= h.push(e));
            assert(pieces(all, '/') =~= h.push(name));
            lemma_scan_add(h, e, n - 1);
            lemma_scan_add(h, name, n - 1);
            assert(component_scan(was, n) == component_scan(h, n - 1));
            assert(component_scan(h.push(name), n) == component_scan(h, n - 1).push(name));
        } else {
            assert(all =~= base.push('/') + name);
            law_pieces_part(base, '/', name);
            assert(pieces(all, '/') =~= was.push(name));
            lemma_scan_add(was, name, n);
            assert(component_scan(was.push(name), n + 1) == component_scan(was, n).push(name));
        }
        assert(all[0] == base[0]);
        if base[0] == '/' {
            let names = component_scan(was, n);
            assert(seq!["/"@] + names.push(name) =~= (seq!["/"@] + names).push(name));
        }
    }
}

/// The name of a file is its last component, whatever folder it is in.
pub proof fn law_file_name(base: Seq<char>, name: Seq<char>)
    requires
        plain_name(name),
    ensures
        file_name_of(join_of(base, name)) == Some(name),
        file_name_of(name) == Some(name),
{
    reveal_strlit("/");
    law_components_grow(base, name);
    assert(components(base).push(name).last() == name);
    assert(seq![name].last() == name);
    assert(name != "/"@) by {
        assert("/"@[0] == '/');
        assert(name.contains(name[0]));
    }
}

/// The extension is what stands behind the last dot of a name, unless that is its first
/// character.
pub proof fn law_extension(stem: Seq<char>, ext: Seq<char>)
    requires
        !ext.contains('.'),
    ensures
        extension_of_name(stem.push('.') + ext) == if stem.len() > 0 {
            Some(ext)
        } else {
            None::<Seq<char>>
        },
        extension_of_name(ext) is None,
{
    let dot = seq!['.'];
    let name = stem.push('.') + ext;
    let n = stem.len() as int;
    assert(name.subrange(n, n + 1) =~= dot);
    assert(occurs_at(name, dot, n));
    assert forall|k: int| n < k implies !#[trigger] occurs_at(name, dot, k) by {
        if occurs_at(name, dot, k) {
            assert(name.subrange(k, k + 1)[0] == name[k]);
            assert(ext[k - n - 1] == '.');
        }
    }
    law_last_occurrence(name, dot, name.len() as int);
    assert(name.skip(n + 1) =~= ext);
    assert forall|k: int| !#[trigger] occurs_at(ext, dot, k) by {
        if occurs_at(ext, dot, k) {
            assert(ext.subrange(k, k + 1)[0] == ext[k]);
        }
    }
    law_last_occurrence(ext, dot, ext.len() as int);
}

// ── order ──────────────────────────────────────────────────────────────────

/// Of two texts that begin alike, the first character that differs decides; where one
/// ends there, it comes first.
pub proof fn law_chars_order(p: Seq<char>, a: char, x: Seq<char>, b: char, y: Seq<char>)
    requires
        a != b,
    ensures
        chars_less(p.push(a) + x, p.push(b) + y) == (a < b),
        chars_less(p, p.push(a) + x),
        !chars_less(p.push(a) + x, p),
    decreases p.len(),
{
    let s = p.push(a) + x;
    let t = p.push(b) + y;
    if p.len() == 0 {
        assert(s[0] == a && t[0] == b);
    } else {
        let q = p.skip(1);
        law_chars_order(q, a, x, b, y);
        assert(s[0] == p[0] && t[0] == p[0]);
        assert(s.skip(1) =~= q.push(a) + x);
        assert(t.skip(1) =~= q.push(b) + y);
    }
}

/// Of two paths that begin alike, the first component that differs decides; a folder
/// comes before what is in it.
pub proof fn law_paths_order(
    p: Seq<Seq<char>>,
    a: Seq<char>,
    x: Seq<Seq<char>>,
    b: Seq<char>,
    y: Seq<Seq<char>>,
)
    requires
        plain_name(a),
        plain_name(b),
        a != b,
    ensures
        path_less(p.push(a) + x, p.push(b) + y) == chars_less(a, b),
        path_less(p, p.push(a) + x),
        !path_less(p.push(a) + x, p),
    decreases p.len(),
{
    let s = p.push(a) + x;
    let t = p.push(b) + y;
    if p.len() == 0 {
        assert(s[0] == a && t[0] == b);
        reveal_strlit("/");
        assert(a.contains(a[0]) && b.contains(b[0]));
        assert("/"@[0] == '/');
        assert(component_rank(a) == 3 && component_rank(b) == 3);
    } else {
        let q = p.skip(1);
        law_paths_order(q, a, x, b, y);
        assert(s[0] == p[0] && t[0] == p[0]);
        assert(s.skip(1) =~= q.push(a) + x);
        assert(t.skip(1) =~= q.push(b) + y);
        crate::path::lemma_component_order(p[0], p[0], p[0]);
    }
}

/// A separator at the end, and a `.` that is not at the start, are no components.
pub proof fn law_empty_components(base: Seq<char>)
    requires
        base.len() > 0,
        base.last() != '/',
    ensures
        components(base.push('/')) == components(base),
        components(join_of(base, "."@)) == components(base),
{
    reveal_strlit(".");
    reveal_strlit("/");
    lemma_pieces_some(base);
    let was = pieces(base, '/');
    let n = was.len() as int;
    let e = Seq::<char>::empty();
    let dot = "."@;
    law_pieces_part(base, '/', e);
    law_one_piece(e, '/');
    assert(base.push('/') + e =~= base.push('/'));
    assert(pieces(base.push('/'), '/') =~= was.push(e));
    lemma_scan_add(was, e, n);
    assert(component_scan(was.push(e), n + 1) == component_scan(was, n));
    assert(base.push('/')[0] == base[0]);
    law_pieces_part(base, '/', dot);
    assert(!dot.contains('/'));
    law_one_piece(dot, '/');
    let all = join_of(base, dot);
    assert(all =~= base.push('/') + dot);
    assert(pieces(all, '/') =~= was.push(dot));
    lemma_scan_add(was, dot, n);
    assert(component_scan(was.push(dot), n + 1) == component_scan(was, n));
    assert(all[0] == base[0]);
}

} // verus!
