//! The rows that a diff is rendered as.

use vstd::prelude::*;

use crate::app::types::{RowRef, SideRow};
use crate::model::diff::{DiffLine, FileDiff, Hunk, HunkModel, LineKind};

verus! {

/// Chunk `h` is folded to its header.
pub open spec fn folded(collapsed: Seq<bool>, h: int) -> bool {
    0 <= h < collapsed.len() && collapsed[h]
}

// ── unified ────────────────────────────────────────────────────────────────

/// One row per body line of chunk `h`.
pub open spec fn line_rows(h: int, n: nat) -> Seq<RowRef> {
    Seq::new(n, |l: int| RowRef::Line(h as usize, l as usize))
}

/// The rows of chunk `h`: its header, and its lines unless it is folded.
pub open spec fn chunk_rows(chunks: Seq<HunkModel>, collapsed: Seq<bool>, h: int) -> Seq<RowRef> {
    if folded(collapsed, h) {
        seq![RowRef::Header(h as usize)]
    } else {
        seq![RowRef::Header(h as usize)] + line_rows(h, chunks[h].lines.len())
    }
}

/// The rows of the first `n` chunks.
pub open spec fn unified_rows(chunks: Seq<HunkModel>, collapsed: Seq<bool>, n: int) -> Seq<RowRef>
    decreases n,
{
    if n <= 0 {
        Seq::empty()
    } else {
        unified_rows(chunks, collapsed, n - 1) + chunk_rows(chunks, collapsed, n - 1)
    }
}

/// The row of each chunk's header.
pub open spec fn unified_starts(chunks: Seq<HunkModel>, collapsed: Seq<bool>) -> Seq<usize> {
    Seq::new(chunks.len(), |h: int| unified_rows(chunks, collapsed, h).len() as usize)
}

/// A row points to a chunk, or to a line of one.
pub open spec fn row_ok(chunks: Seq<HunkModel>, row: RowRef) -> bool {
    match row {
        RowRef::Header(h) => h < chunks.len(),
        RowRef::Line(h, l) => h < chunks.len() && l < chunks[h as int].lines.len(),
    }
}

pub proof fn lemma_unified_rows(chunks: Seq<HunkModel>, collapsed: Seq<bool>, n: int)
    requires
        0 <= n <= chunks.len(),
        chunks.len() <= usize::MAX,
        forall|h: int| 0 <= h < chunks.len() ==> (#[trigger] chunks[h]).lines.len() <= usize::MAX,
    ensures
        forall|i: int|
            0 <= i < unified_rows(chunks, collapsed, n).len() ==> row_ok(
                chunks,
                #[trigger] unified_rows(chunks, collapsed, n)[i],
            ),
    decreases n,
{
    if n > 0 {
        lemma_unified_rows(chunks, collapsed, n - 1);
        let was = unified_rows(chunks, collapsed, n - 1);
        let new = chunk_rows(chunks, collapsed, n - 1);
        let rows = unified_rows(chunks, collapsed, n);
        assert forall|i: int| 0 <= i < rows.len() implies row_ok(chunks, #[trigger] rows[i]) by {
            if i < was.len() {
                assert(rows[i] == was[i]);
            } else {
                assert(rows[i] == new[i - was.len()]);
                if i > was.len() {
                    assert(new[i - was.len()] == line_rows(n - 1, chunks[n - 1].lines.len())[i
                        - was.len() - 1]);
                }
            }
        }
    }
}

/// The unified rows of a diff, and the row of each chunk's header. A folded chunk
/// has only its header row.
pub fn build_rows(fd: &FileDiff, collapsed: &Vec<bool>) -> (r: (Vec<RowRef>, Vec<usize>))
    ensures
        r.0@ == unified_rows(fd@.chunks, collapsed@, fd@.chunks.len() as int),
        r.1@ == unified_starts(fd@.chunks, collapsed@),
{
    let mut rows: Vec<RowRef> = Vec::new();
    let mut starts: Vec<usize> = Vec::new();
    let n = fd.chunks.len();
    let ghost chunks = fd@.chunks;
    for h in 0..n
        invariant
            n == fd.chunks@.len(),
            chunks == fd@.chunks,
            rows@ == unified_rows(chunks, collapsed@, h as int),
            starts@ == unified_starts(chunks, collapsed@).take(h as int),
    {
        starts.push(rows.len());
        assert(starts@ =~= unified_starts(chunks, collapsed@).take(h + 1));
        let ghost was = rows@;
        rows.push(RowRef::Header(h));
        let fold = h < collapsed.len() && collapsed[h];
        if !fold {
            let m = fd.chunks[h].lines.len();
            assert(chunks[h as int].lines.len() == m);
            assert(rows@ =~= was + seq![RowRef::Header(h)] + line_rows(h as int, 0));
            for l in 0..m
                invariant
                    rows@ == was + seq![RowRef::Header(h)] + line_rows(h as int, l as nat),
            {
                rows.push(RowRef::Line(h, l));
                assert(rows@ =~= was + seq![RowRef::Header(h)] + line_rows(
                    h as int,
                    (l + 1) as nat,
                ));
            }
        }
        assert(rows@ =~= was + chunk_rows(chunks, collapsed@, h as int));
    }
    assert(unified_starts(chunks, collapsed@).take(n as int) =~= unified_starts(
        chunks,
        collapsed@,
    ));
    (rows, starts)
}

// ── side by side ───────────────────────────────────────────────────────────

/// The number of lines of `kind` in a row, from `i` on.
pub open spec fn run_length(lines: Seq<DiffLine>, kind: LineKind, i: int) -> int
    decreases lines.len() - i,
{
    if 0 <= i < lines.len() && lines[i].kind == kind {
        1 + run_length(lines, kind, i + 1)
    } else {
        0
    }
}

pub proof fn lemma_run_length(lines: Seq<DiffLine>, kind: LineKind, i: int)
    requires
        0 <= i <= lines.len(),
    ensures
        0 <= run_length(lines, kind, i),
        i + run_length(lines, kind, i) <= lines.len(),
    decreases lines.len() - i,
{
    if i < lines.len() && lines[i].kind == kind {
        lemma_run_length(lines, kind, i + 1);
    }
}

/// A changed line begins a run of deletions or of additions.
proof fn lemma_run_some(lines: Seq<DiffLine>, i: int)
    requires
        0 <= i < lines.len(),
        lines[i].kind != LineKind::Context,
        lines[i].kind != LineKind::NoNewline,
    ensures
        run_length(lines, LineKind::Del, i) + run_length(
            lines,
            LineKind::Add,
            i + run_length(lines, LineKind::Del, i),
        ) > 0,
{
    lemma_run_length(lines, LineKind::Del, i);
    let dels = run_length(lines, LineKind::Del, i);
    lemma_run_length(lines, LineKind::Add, i + dels);
    if lines[i].kind == LineKind::Del {
        lemma_run_length(lines, LineKind::Del, i + 1);
    } else {
        assert(lines[i].kind == LineKind::Add);
        assert(dels == 0);
        lemma_run_length(lines, LineKind::Add, i + 1);
    }
}

/// Row `k` of `dels` deletions from `from` on, paired with the `adds` additions
/// behind them: an extra line on one side has an empty cell on the other.
pub open spec fn paired_row(h: int, from: int, dels: int, adds: int, k: int) -> SideRow {
    SideRow::Pair {
        left: if k < dels {
            Some((h as usize, (from + k) as usize))
        } else {
            None
        },
        right: if k < adds {
            Some((h as usize, (from + dels + k) as usize))
        } else {
            None
        },
    }
}

/// The rows for a run of deletions and the additions that follow it.
pub open spec fn paired_rows(h: int, from: int, dels: int, adds: int) -> Seq<SideRow> {
    Seq::new(
        (if dels >= adds {
            dels
        } else {
            adds
        }) as nat,
        |k: int| paired_row(h, from, dels, adds, k),
    )
}

/// The rows of the lines of chunk `h` from `i` on: a context line stands on both
/// sides.
pub open spec fn pair_rows(h: int, lines: Seq<DiffLine>, i: int) -> Seq<SideRow>
    decreases lines.len() - i,
{
    if i < 0 || i >= lines.len() {
        Seq::empty()
    } else if lines[i].kind == LineKind::Context || lines[i].kind == LineKind::NoNewline {
        seq![
            SideRow::Pair {
                left: Some((h as usize, i as usize)),
                right: Some((h as usize, i as usize)),
            },
        ] + pair_rows(h, lines, i + 1)
    } else {
        let dels = run_length(lines, LineKind::Del, i);
        let adds = run_length(lines, LineKind::Add, i + dels);
        if dels + adds <= 0 || i + dels + adds > lines.len() {
            Seq::empty()
        } else {
            paired_rows(h, i, dels, adds) + pair_rows(h, lines, i + dels + adds)
        }
    }
}

/// The rows of chunk `h`: its header, and its lines unless it is folded.
pub open spec fn side_chunk_rows(
    chunks: Seq<HunkModel>,
    collapsed: Seq<bool>,
    h: int,
) -> Seq<SideRow> {
    if folded(collapsed, h) {
        seq![SideRow::Header(h as usize)]
    } else {
        seq![SideRow::Header(h as usize)] + pair_rows(h, chunks[h].lines, 0)
    }
}

/// The rows of the first `n` chunks.
pub open spec fn side_rows_of(chunks: Seq<HunkModel>, collapsed: Seq<bool>, n: int) -> Seq<SideRow>
    decreases n,
{
    if n <= 0 {
        Seq::empty()
    } else {
        side_rows_of(chunks, collapsed, n - 1) + side_chunk_rows(chunks, collapsed, n - 1)
    }
}

/// The row of each chunk's header.
pub open spec fn side_starts_of(chunks: Seq<HunkModel>, collapsed: Seq<bool>) -> Seq<usize> {
    Seq::new(chunks.len(), |h: int| side_rows_of(chunks, collapsed, h).len() as usize)
}

pub open spec fn cell_ok(chunks: Seq<HunkModel>, cell: Option<(usize, usize)>) -> bool {
    match cell {
        Some((h, l)) => h < chunks.len() && l < chunks[h as int].lines.len(),
        None => true,
    }
}

/// A row points to a chunk, or to lines of one.
pub open spec fn side_row_ok(chunks: Seq<HunkModel>, row: SideRow) -> bool {
    match row {
        SideRow::Header(h) => h < chunks.len(),
        SideRow::Pair { left, right } => cell_ok(chunks, left) && cell_ok(chunks, right),
    }
}

proof fn lemma_pair_rows(chunks: Seq<HunkModel>, h: int, i: int)
    requires
        0 <= h < chunks.len() <= usize::MAX,
        chunks[h].lines.len() <= usize::MAX,
        0 <= i <= chunks[h].lines.len(),
    ensures
        forall|k: int|
            0 <= k < pair_rows(h, chunks[h].lines, i).len() ==> side_row_ok(
                chunks,
                #[trigger] pair_rows(h, chunks[h].lines, i)[k],
            ),
    decreases chunks[h].lines.len() - i,
{
    let lines = chunks[h].lines;
    let rows = pair_rows(h, lines, i);
    if i < lines.len() {
        if lines[i].kind == LineKind::Context || lines[i].kind == LineKind::NoNewline {
            lemma_pair_rows(chunks, h, i + 1);
            let tail = pair_rows(h, lines, i + 1);
            assert forall|k: int| 0 <= k < rows.len() implies side_row_ok(
                chunks,
                #[trigger] rows[k],
            ) by {
                if k > 0 {
                    assert(rows[k] == tail[k - 1]);
                }
            }
        } else {
            lemma_run_length(lines, LineKind::Del, i);
            let dels = run_length(lines, LineKind::Del, i);
            lemma_run_length(lines, LineKind::Add, i + dels);
            let adds = run_length(lines, LineKind::Add, i + dels);
            if dels + adds > 0 {
                lemma_pair_rows(chunks, h, i + dels + adds);
                let tail = pair_rows(h, lines, i + dels + adds);
                let head = paired_rows(h, i, dels, adds);
                assert(rows == head + tail);
                assert forall|k: int| 0 <= k < rows.len() implies side_row_ok(
                    chunks,
                    #[trigger] rows[k],
                ) by {
                    if k < head.len() {
                        assert(rows[k] == paired_row(h, i, dels, adds, k));
                    } else {
                        assert(rows[k] == tail[k - head.len()]);
                    }
                }
            }
        }
    }
}

pub proof fn lemma_side_rows(chunks: Seq<HunkModel>, collapsed: Seq<bool>, n: int)
    requires
        0 <= n <= chunks.len(),
        chunks.len() <= usize::MAX,
        forall|h: int| 0 <= h < chunks.len() ==> (#[trigger] chunks[h]).lines.len() <= usize::MAX,
    ensures
        forall|i: int|
            0 <= i < side_rows_of(chunks, collapsed, n).len() ==> side_row_ok(
                chunks,
                #[trigger] side_rows_of(chunks, collapsed, n)[i],
            ),
    decreases n,
{
    if n > 0 {
        lemma_side_rows(chunks, collapsed, n - 1);
        assert(chunks[n - 1].lines.len() <= usize::MAX);
        lemma_pair_rows(chunks, n - 1, 0);
        let was = side_rows_of(chunks, collapsed, n - 1);
        let new = side_chunk_rows(chunks, collapsed, n - 1);
        let rows = side_rows_of(chunks, collapsed, n);
        assert forall|i: int| 0 <= i < rows.len() implies side_row_ok(
            chunks,
            #[trigger] rows[i],
        ) by {
            if i < was.len() {
                assert(rows[i] == was[i]);
            } else {
                assert(rows[i] == new[i - was.len()]);
                if i > was.len() {
                    assert(new[i - was.len()] == pair_rows(n - 1, chunks[n - 1].lines, 0)[i
                        - was.len() - 1]);
                }
            }
        }
    }
}

fn run_of(lines: &Vec<DiffLine>, kind: LineKind, from: usize) -> (end: usize)
    requires
        from <= lines@.len(),
    ensures
        end == from + run_length(lines@, kind, from as int),
        from <= end <= lines@.len(),
{
    let mut i: usize = from;
    while i < lines.len() && lines[i].kind == kind
        invariant
            from <= i <= lines@.len(),
            i + run_length(lines@, kind, i as int) == from + run_length(lines@, kind, from as int),
        decreases lines@.len() - i,
    {
        i += 1;
    }
    i
}

fn push_pairs(rows: &mut Vec<SideRow>, h: usize, lines: &Vec<DiffLine>)
    ensures
        final(rows)@ == old(rows)@ + pair_rows(h as int, lines@, 0),
{
    let ghost before = rows@;
    let n = lines.len();
    let mut i: usize = 0;
    let ghost all = pair_rows(h as int, lines@, 0);
    assert(rows@ + all =~= before + all);
    while i < n
        invariant
            n == lines@.len(),
            i <= n,
            rows@ + pair_rows(h as int, lines@, i as int) == before + all,
        decreases n - i,
    {
        let ghost was = rows@;
        let kind = lines[i].kind;
        if kind == LineKind::Context || kind == LineKind::NoNewline {
            let row = SideRow::Pair { left: Some((h, i)), right: Some((h, i)) };
            rows.push(row);
            assert(was + (seq![row] + pair_rows(h as int, lines@, i + 1)) =~= rows@ + pair_rows(
                h as int,
                lines@,
                i + 1,
            ));
            i += 1;
        } else {
            proof {
                lemma_run_some(lines@, i as int);
            }
            let del_end = run_of(lines, LineKind::Del, i);
            let add_end = run_of(lines, LineKind::Add, del_end);
            let dels = del_end - i;
            let adds = add_end - del_end;
            let pairs = if dels >= adds {
                dels
            } else {
                adds
            };
            let ghost new = paired_rows(h as int, i as int, dels as int, adds as int);
            for k in 0..pairs
                invariant
                    dels == del_end - i,
                    adds == add_end - del_end,
                    i <= del_end <= add_end,
                    pairs == if dels >= adds {
                        dels
                    } else {
                        adds
                    },
                    new == paired_rows(h as int, i as int, dels as int, adds as int),
                    rows@ == was + new.take(k as int),
            {
                let row = SideRow::Pair {
                    left: if k < dels {
                        Some((h, i + k))
                    } else {
                        None
                    },
                    right: if k < adds {
                        Some((h, del_end + k))
                    } else {
                        None
                    },
                };
                rows.push(row);
                assert(row == new[k as int]);
                assert(rows@ =~= was + new.take(k + 1));
            }
            assert(new.take(pairs as int) =~= new);
            let ghost tail = pair_rows(h as int, lines@, add_end as int);
            assert(was + (new + tail) =~= (was + new) + tail);
            i = add_end;
        }
    }
    assert(rows@ + pair_rows(h as int, lines@, n as int) =~= rows@);
}

/// Transform a parsed diff into side-by-side rows. Within each chunk, context
/// lines appear on both sides; a run of deletions is paired row-for-row with the
/// run of additions that follows it (extra lines on either side get an empty cell
/// on the other). Returns the rows and each chunk header's row index.
pub fn build_side_rows(fd: &FileDiff, collapsed: &Vec<bool>) -> (r: (Vec<SideRow>, Vec<usize>))
    ensures
        r.0@ == side_rows_of(fd@.chunks, collapsed@, fd@.chunks.len() as int),
        r.1@ == side_starts_of(fd@.chunks, collapsed@),
{
    let mut rows: Vec<SideRow> = Vec::new();
    let mut starts: Vec<usize> = Vec::new();
    let n = fd.chunks.len();
    let ghost chunks = fd@.chunks;
    for h in 0..n
        invariant
            n == fd.chunks@.len(),
            chunks == fd@.chunks,
            rows@ == side_rows_of(chunks, collapsed@, h as int),
            starts@ == side_starts_of(chunks, collapsed@).take(h as int),
    {
        starts.push(rows.len());
        assert(starts@ =~= side_starts_of(chunks, collapsed@).take(h + 1));
        let ghost was = rows@;
        rows.push(SideRow::Header(h));
        let fold = h < collapsed.len() && collapsed[h];
        if !fold {
            push_pairs(&mut rows, h, &fd.chunks[h].lines);
            assert(rows@ =~= was + (seq![SideRow::Header(h)] + pair_rows(
                h as int,
                chunks[h as int].lines,
                0,
            )));
        }
        assert(rows@ =~= was + side_chunk_rows(chunks, collapsed@, h as int));
    }
    assert(side_starts_of(chunks, collapsed@).take(n as int) =~= side_starts_of(
        chunks,
        collapsed@,
    ));
    (rows, starts)
}

/// How often line `l` of chunk `h` stands on the left of `rows`.
pub open spec fn left_count(rows: Seq<SideRow>, h: usize, l: usize) -> nat
    decreases rows.len(),
{
    if rows.len() == 0 {
        0
    } else {
        left_count(rows.drop_last(), h, l) + if rows.last() matches SideRow::Pair { left, .. }
            && left == Some((h, l)) {
            1nat
        } else {
            0nat
        }
    }
}

/// How often line `l` of chunk `h` stands on the right of `rows`.
pub open spec fn right_count(rows: Seq<SideRow>, h: usize, l: usize) -> nat
    decreases rows.len(),
{
    if rows.len() == 0 {
        0
    } else {
        right_count(rows.drop_last(), h, l) + if rows.last() matches SideRow::Pair { right, .. }
            && right == Some((h, l)) {
            1nat
        } else {
            0nat
        }
    }
}

proof fn lemma_counts_add(a: Seq<SideRow>, b: Seq<SideRow>, h: usize, l: usize)
    ensures
        left_count(a + b, h, l) == left_count(a, h, l) + left_count(b, h, l),
        right_count(a + b, h, l) == right_count(a, h, l) + right_count(b, h, l),
    decreases b.len(),
{
    if b.len() == 0 {
        assert(a + b =~= a);
    } else {
        lemma_counts_add(a, b.drop_last(), h, l);
        assert((a + b).drop_last() =~= a + b.drop_last());
    }
}

/// A line of a run of deletions and additions stands once, on its own side.
proof fn lemma_paired_counts(h: int, from: int, dels: int, adds: int, k: int, l: int)
    requires
        0 <= h <= usize::MAX,
        0 <= from,
        0 <= dels,
        0 <= adds,
        from + dels + adds <= usize::MAX,
        0 <= l <= usize::MAX,
        0 <= k <= paired_rows(h, from, dels, adds).len(),
    ensures
        left_count(paired_rows(h, from, dels, adds).take(k), h as usize, l as usize) == if from
            <= l < from + dels && l < from + k {
            1nat
        } else {
            0nat
        },
        right_count(paired_rows(h, from, dels, adds).take(k), h as usize, l as usize) == if from
            + dels <= l < from + dels + adds && l < from + dels + k {
            1nat
        } else {
            0nat
        },
    decreases k,
{
    let rows = paired_rows(h, from, dels, adds);
    if k > 0 {
        lemma_paired_counts(h, from, dels, adds, k - 1, l);
        assert(rows.take(k).drop_last() =~= rows.take(k - 1));
        assert(rows.take(k).last() == paired_row(h, from, dels, adds, k - 1));
    }
}

proof fn lemma_pair_counts(h: int, lines: Seq<DiffLine>, i: int, l: int)
    requires
        0 <= h <= usize::MAX,
        lines.len() <= usize::MAX,
        0 <= i <= lines.len(),
        0 <= l < lines.len(),
    ensures
        left_count(pair_rows(h, lines, i), h as usize, l as usize) == if i <= l && lines[l].kind
            != LineKind::Add {
            1nat
        } else {
            0nat
        },
        right_count(pair_rows(h, lines, i), h as usize, l as usize) == if i <= l && lines[l].kind
            != LineKind::Del {
            1nat
        } else {
            0nat
        },
    decreases lines.len() - i,
{
    if i < lines.len() {
        if lines[i].kind == LineKind::Context || lines[i].kind == LineKind::NoNewline {
            lemma_pair_counts(h, lines, i + 1, l);
            let row = SideRow::Pair {
                left: Some((h as usize, i as usize)),
                right: Some((h as usize, i as usize)),
            };
            let one = seq![row];
            lemma_counts_add(one, pair_rows(h, lines, i + 1), h as usize, l as usize);
            assert(one.drop_last() =~= Seq::<SideRow>::empty());
            assert(one.last() == row);
            assert(left_count(one.drop_last(), h as usize, l as usize) == 0);
            assert(right_count(one.drop_last(), h as usize, l as usize) == 0);
            assert(left_count(one, h as usize, l as usize) == if i == l {
                1nat
            } else {
                0nat
            });
            assert(right_count(one, h as usize, l as usize) == if i == l {
                1nat
            } else {
                0nat
            });
        } else {
            lemma_run_length(lines, LineKind::Del, i);
            let dels = run_length(lines, LineKind::Del, i);
            lemma_run_length(lines, LineKind::Add, i + dels);
            let adds = run_length(lines, LineKind::Add, i + dels);
            lemma_run_kinds(lines, LineKind::Del, i);
            lemma_run_kinds(lines, LineKind::Add, i + dels);
            lemma_run_some(lines, i);
            lemma_pair_counts(h, lines, i + dels + adds, l);
            let head = paired_rows(h, i, dels, adds);
            lemma_paired_counts(h, i, dels, adds, head.len() as int, l);
            assert(head.take(head.len() as int) =~= head);
            lemma_counts_add(
                head,
                pair_rows(h, lines, i + dels + adds),
                h as usize,
                l as usize,
            );
        }
    }
}

proof fn lemma_run_kinds(lines: Seq<DiffLine>, kind: LineKind, i: int)
    requires
        0 <= i <= lines.len(),
    ensures
        forall|j: int| i <= j < i + run_length(lines, kind, i) ==> (#[trigger] lines[j]).kind
            == kind,
    decreases lines.len() - i,
{
    if i < lines.len() && lines[i].kind == kind {
        lemma_run_kinds(lines, kind, i + 1);
    }
}

/// Side by side nothing is lost and nothing is shown twice: of an unfolded chunk,
/// every deleted line stands once on the left, every added line once on the
/// right, and every other line once on both sides.
pub proof fn law_side_rows_complete(h: int, lines: Seq<DiffLine>, l: int)
    requires
        0 <= h <= usize::MAX,
        lines.len() <= usize::MAX,
        0 <= l < lines.len(),
    ensures
        left_count(pair_rows(h, lines, 0), h as usize, l as usize) == if lines[l].kind
            == LineKind::Add {
            0nat
        } else {
            1nat
        },
        right_count(pair_rows(h, lines, 0), h as usize, l as usize) == if lines[l].kind
            == LineKind::Del {
            0nat
        } else {
            1nat
        },
{
    lemma_pair_counts(h, lines, 0, l);
}

// ── line numbers ───────────────────────────────────────────────────────────

/// The first new-file line number among `lines` from `i` on.
pub open spec fn first_new_no(lines: Seq<DiffLine>, i: int) -> Option<u32>
    decreases lines.len() - i,
{
    if i < 0 || i >= lines.len() {
        None
    } else if lines[i].new_no is Some {
        lines[i].new_no
    } else {
        first_new_no(lines, i + 1)
    }
}

/// The first old-file line number among `lines` from `i` on.
pub open spec fn first_old_no(lines: Seq<DiffLine>, i: int) -> Option<u32>
    decreases lines.len() - i,
{
    if i < 0 || i >= lines.len() {
        None
    } else if lines[i].old_no is Some {
        lines[i].old_no
    } else {
        first_old_no(lines, i + 1)
    }
}

/// The first line number of a chunk: a new-file one, else an old-file one.
pub open spec fn first_no(chunk: HunkModel) -> Option<u32> {
    if first_new_no(chunk.lines, 0) is Some {
        first_new_no(chunk.lines, 0)
    } else {
        first_old_no(chunk.lines, 0)
    }
}

/// The first meaningful line number of a chunk: the first line carrying a
/// new-file number, else the first old-file number, else `None`.
pub fn first_line_no(chunk: &Hunk) -> (r: Option<u32>)
    ensures
        r == first_no(chunk@),
{
    let n = chunk.lines.len();
    let mut i: usize = 0;
    while i < n
        invariant
            n == chunk.lines@.len(),
            i <= n,
            first_new_no(chunk.lines@, 0) == first_new_no(chunk.lines@, i as int),
        decreases n - i,
    {
        if let Some(no) = chunk.lines[i].new_no {
            return Some(no);
        }
        i += 1;
    }
    i = 0;
    while i < n
        invariant
            n == chunk.lines@.len(),
            i <= n,
            first_new_no(chunk.lines@, 0) is None,
            first_old_no(chunk.lines@, 0) == first_old_no(chunk.lines@, i as int),
        decreases n - i,
    {
        if let Some(no) = chunk.lines[i].old_no {
            return Some(no);
        }
        i += 1;
    }
    None
}

} // verus!
