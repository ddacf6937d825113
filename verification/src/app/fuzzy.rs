//! Fuzzy search over names.

use vstd::prelude::*;

use crate::path::{chars_less, is_chars_less, lemma_chars_total, lemma_chars_transitive};
use crate::text::{chars_of, lemma_take_step, lower_text, strings, unicode_lower};

verus! {

/// The score of matching `q` from `qi` on against `c` from `ci` on: every
/// character of `q` is matched by the first one that is left in `c`. A match
/// right behind another one counts 10, any other 1; `last` says whether the
/// character before `ci` was matched, and `first` is the place (from 1) of the
/// first match. A match that starts later costs more.
pub open spec fn score_from(
    q: Seq<char>,
    c: Seq<char>,
    qi: int,
    ci: int,
    last: bool,
    first: Option<int>,
    score: int,
) -> Option<int>
    decreases c.len() - ci,
{
    if qi >= q.len() {
        Some(
            score - match first {
                Some(f) => f,
                None => 0,
            },
        )
    } else if ci >= c.len() {
        None
    } else if c[ci] == q[qi] {
        score_from(
            q,
            c,
            qi + 1,
            ci + 1,
            true,
            match first {
                Some(f) => Some(f),
                None => Some(ci + 1),
            },
            score + if last {
                10int
            } else {
                1int
            },
        )
    } else {
        score_from(q, c, qi, ci + 1, false, first, score)
    }
}

/// The score of `query` (already in lower case) against `candidate`; none where
/// it is no subsequence of it.
pub open spec fn score_of(query: Seq<char>, candidate: Seq<char>) -> Option<int> {
    score_from(query, unicode_lower(candidate), 0, 0, false, None, 0)
}

/// The value behind an optional integer.
pub open spec fn opt_int(v: Option<i128>) -> Option<int> {
    match v {
        Some(n) => Some(n as int),
        None => None,
    }
}

/// The score of `query` in `text`, both in lower case already.
pub fn score_chars(query: &[char], text: &[char]) -> (r: Option<i128>)
    ensures
        opt_int(r) == score_from(query@, text@, 0, 0, false, None, 0),
{
    let n = query.len();
    let m = text.len();
    let mut score: i128 = 0;
    let mut last: bool = false;
    let mut first: Option<i128> = None;
    let mut qi: usize = 0;
    let mut ci: usize = 0;
    loop
        invariant
            n == query@.len(),
            m == text@.len(),
            qi <= n,
            ci <= m,
            0 <= score <= 10 * ci,
            first is Some ==> 0 < first->0 <= ci,
            score_from(query@, text@, 0, 0, false, None, 0) == score_from(
                query@,
                text@,
                qi as int,
                ci as int,
                last,
                opt_int(first),
                score as int,
            ),
        decreases m - ci,
    {
        if qi == n {
            let from: i128 = match first {
                Some(f) => f,
                None => 0,
            };
            return Some(score - from);
        }
        if ci == m {
            return None;
        }
        if text[ci] == query[qi] {
            if first.is_none() {
                first = Some(ci as i128 + 1);
            }
            let gain: i128 = if last {
                10
            } else {
                1
            };
            score = score + gain;
            last = true;
            qi += 1;
        } else {
            last = false;
        }
        ci += 1;
    }
}

/// Subsequence fuzzy score: each char of `q` (already lower-cased) must occur in
/// order within `candidate`. Contiguous runs score higher and earlier first
/// matches are preferred. `None` when `q` is not a subsequence of `candidate`.
pub fn fuzzy_score(q: &str, candidate: &str) -> (r: Option<i128>)
    ensures
        opt_int(r) == score_of(q@, candidate@),
{
    let lower = lower_text(candidate);
    score_chars(chars_of(q).as_slice(), chars_of(lower.as_str()).as_slice())
}

/// `q` from `qi` on occurs in order in `c` from `ci` on.
pub open spec fn subsequence(q: Seq<char>, c: Seq<char>, qi: int, ci: int) -> bool
    decreases c.len() - ci,
{
    if qi >= q.len() {
        true
    } else if ci >= c.len() {
        false
    } else {
        (c[ci] == q[qi] && subsequence(q, c, qi + 1, ci + 1)) || subsequence(q, c, qi, ci + 1)
    }
}

/// What occurs from a place on still occurs with the first character left out.
proof fn lemma_subsequence_shorter(q: Seq<char>, c: Seq<char>, qi: int, ci: int)
    requires
        0 <= qi < q.len(),
        0 <= ci,
        subsequence(q, c, qi, ci),
    ensures
        subsequence(q, c, qi + 1, ci),
        ci < c.len() ==> subsequence(q, c, qi + 1, ci + 1),
    decreases c.len() - ci,
{
    if ci < c.len() {
        if c[ci] == q[qi] && subsequence(q, c, qi + 1, ci + 1) {
            assert(subsequence(q, c, qi + 1, ci));
        } else {
            lemma_subsequence_shorter(q, c, qi, ci + 1);
            assert(subsequence(q, c, qi + 1, ci));
        }
    }
}

proof fn lemma_score_some(
    q: Seq<char>,
    c: Seq<char>,
    qi: int,
    ci: int,
    last: bool,
    first: Option<int>,
    score: int,
)
    requires
        0 <= qi,
        0 <= ci,
    ensures
        score_from(q, c, qi, ci, last, first, score) is Some <==> subsequence(q, c, qi, ci),
    decreases c.len() - ci,
{
    if qi < q.len() && ci < c.len() {
        if c[ci] == q[qi] {
            let f = match first {
                Some(f) => Some(f),
                None => Some(ci + 1),
            };
            lemma_score_some(
                q,
                c,
                qi + 1,
                ci + 1,
                true,
                f,
                score + if last {
                    10int
                } else {
                    1int
                },
            );
            if subsequence(q, c, qi, ci + 1) {
                lemma_subsequence_shorter(q, c, qi, ci + 1);
            }
        } else {
            lemma_score_some(q, c, qi, ci + 1, false, first, score);
        }
    }
}

/// A name is found exactly when the query is a subsequence of it: taking the
/// first match for each character misses nothing.
pub proof fn law_score_iff_subsequence(query: Seq<char>, candidate: Seq<char>)
    ensures
        score_of(query, candidate) is Some <==> subsequence(
            query,
            unicode_lower(candidate),
            0,
            0,
        ),
{
    lemma_score_some(query, unicode_lower(candidate), 0, 0, false, None, 0);
}

// ── ranking ────────────────────────────────────────────────────────────────

/// A higher score comes first; of equal ones the name that comes first.
pub open spec fn ranks_before(a: (int, Seq<char>), b: (int, Seq<char>)) -> bool {
    a.0 > b.0 || (a.0 == b.0 && chars_less(a.1, b.1))
}

/// Where `x` goes among the first `k` of `ranked`.
pub open spec fn rank_place(
    ranked: Seq<(int, Seq<char>)>,
    x: (int, Seq<char>),
    k: int,
) -> int
    decreases k,
{
    if k <= 0 {
        0
    } else if ranks_before(x, ranked[k - 1]) {
        rank_place(ranked, x, k - 1)
    } else {
        k
    }
}

/// The first `n` of `names` that match, with their scores, best first.
pub open spec fn ranking(query: Seq<char>, names: Seq<Seq<char>>, n: int) -> Seq<(int, Seq<char>)>
    decreases n,
{
    if n <= 0 {
        Seq::empty()
    } else {
        let was = ranking(query, names, n - 1);
        match score_of(query, names[n - 1]) {
            Some(score) => {
                let x = (score, names[n - 1]);
                was.insert(rank_place(was, x, was.len() as int), x)
            },
            None => was,
        }
    }
}

/// The names that match `query`, best first; all of them, as they are, where the
/// query is empty.
pub open spec fn fuzzy_matches(query: Seq<char>, names: Seq<Seq<char>>) -> Seq<Seq<char>> {
    if query.len() == 0 {
        names
    } else {
        ranking(unicode_lower(query), names, names.len() as int).map_values(
            |x: (int, Seq<char>)| x.1,
        )
    }
}

spec fn scored(v: Seq<(i128, String)>) -> Seq<(int, Seq<char>)> {
    v.map_values(|x: (i128, String)| (x.0 as int, x.1@))
}

/// Rank `candidates` by a case-insensitive fuzzy match against `query`. An empty
/// query keeps the original order; non-matching names are dropped.
pub fn fuzzy_filter(query: &str, candidates: Vec<String>) -> (r: Vec<String>)
    ensures
        strings(r@) == fuzzy_matches(query@, strings(candidates@)),
{
    let ghost names = strings(candidates@);
    let n = candidates.len();
    let mut out: Vec<String> = Vec::new();
    if chars_of(query).len() == 0 {
        return candidates;
    }
    let q = lower_text(query);
    let mut ranked: Vec<(i128, String)> = Vec::new();
    assert(scored(ranked@) =~= ranking(q@, names, 0));
    for i in 0..n
        invariant
            n == candidates@.len(),
            names == strings(candidates@),
            scored(ranked@) == ranking(q@, names, i as int),
    {
        assert(names[i as int] == candidates@[i as int]@);
        if let Some(score) = fuzzy_score(q.as_str(), candidates[i].as_str()) {
            let ghost was = scored(ranked@);
            let ghost x = (score as int, names[i as int]);
            let name = candidates[i].clone();
            let mut k: usize = ranked.len();
            loop
                invariant
                    k <= ranked@.len(),
                    was == scored(ranked@),
                    name@ == x.1,
                    score == x.0,
                    rank_place(was, x, was.len() as int) == rank_place(was, x, k as int),
                ensures
                    k <= ranked@.len(),
                    k == rank_place(was, x, was.len() as int),
                decreases k,
            {
                if k == 0 {
                    break;
                }
                assert(was[k - 1] == (ranked@[k - 1].0 as int, ranked@[k - 1].1@));
                let other = ranked[k - 1].0;
                let before = score > other || (score == other && is_chars_less(
                    chars_of(name.as_str()).as_slice(),
                    chars_of(ranked[k - 1].1.as_str()).as_slice(),
                ));
                if !before {
                    break;
                }
                k -= 1;
            }
            ranked.insert(k, (score, name));
            assert(scored(ranked@) =~= was.insert(k as int, x));
        }
    }
    let m = ranked.len();
    let ghost want = ranking(q@, names, n as int).map_values(|x: (int, Seq<char>)| x.1);
    for i in 0..m
        invariant
            m == ranked@.len(),
            want == scored(ranked@).map_values(|x: (int, Seq<char>)| x.1),
            strings(out@) == want.take(i as int),
    {
        let s = ranked[i].1.clone();
        let ghost was = out@;
        let ghost view = s@;
        out.push(s);
        assert(strings(out@) =~= strings(was).push(view));
        assert(want[i as int] == view);
        proof {
            lemma_take_step(want, i as int);
        }
    }
    assert(want.take(m as int) =~= want);
    out
}

proof fn lemma_rank_order(
    a: (int, Seq<char>),
    b: (int, Seq<char>),
    c: (int, Seq<char>),
)
    ensures
        !(ranks_before(a, b) && ranks_before(b, a)),
        !ranks_before(b, a) && !ranks_before(c, b) ==> !ranks_before(c, a),
{
    lemma_chars_total(a.1, b.1);
    lemma_chars_total(b.1, c.1);
    lemma_chars_total(a.1, c.1);
    if chars_less(a.1, b.1) && chars_less(b.1, c.1) {
        lemma_chars_transitive(a.1, b.1, c.1);
    }
}

proof fn lemma_rank_place(ranked: Seq<(int, Seq<char>)>, x: (int, Seq<char>), k: int)
    requires
        0 <= k <= ranked.len(),
    ensures
        0 <= rank_place(ranked, x, k) <= k,
        forall|i: int|
            rank_place(ranked, x, k) <= i < k ==> ranks_before(x, #[trigger] ranked[i]),
        rank_place(ranked, x, k) > 0 ==> !ranks_before(x, ranked[rank_place(ranked, x, k) - 1]),
    decreases k,
{
    if k > 0 {
        lemma_rank_place(ranked, x, k - 1);
    }
}

/// The names among the first `n` that match, with their scores, in the order of the
/// list.
pub open spec fn matching(query: Seq<char>, names: Seq<Seq<char>>, n: int) -> Seq<
    (int, Seq<char>),
>
    decreases n,
{
    if n <= 0 {
        Seq::empty()
    } else {
        match score_of(query, names[n - 1]) {
            Some(score) => matching(query, names, n - 1).push((score, names[n - 1])),
            None => matching(query, names, n - 1),
        }
    }
}

/// The ranking is in order (better scores first, equal ones by name) and holds
/// exactly the names that match, each as often as it is in the list.
pub proof fn law_ranking(query: Seq<char>, names: Seq<Seq<char>>, n: int)
    requires
        0 <= n <= names.len(),
    ensures
        forall|i: int, j: int|
            0 <= i < j < ranking(query, names, n).len() ==> !ranks_before(
                #[trigger] ranking(query, names, n)[j],
                #[trigger] ranking(query, names, n)[i],
            ),
        forall|x: (int, Seq<char>)| #[trigger]
            ranking(query, names, n).contains(x) <==> exists|k: int|
                0 <= k < n && #[trigger] names[k] == x.1 && score_of(query, names[k]) == Some(x.0),
        ranking(query, names, n).to_multiset() == matching(query, names, n).to_multiset(),
    decreases n,
{
    if n > 0 {
        law_ranking(query, names, n - 1);
        let was = ranking(query, names, n - 1);
        let now = ranking(query, names, n);
        match score_of(query, names[n - 1]) {
            Some(score) => {
                let new = (score, names[n - 1]);
                let at = rank_place(was, new, was.len() as int);
                lemma_rank_place(was, new, was.len() as int);
                assert(now == was.insert(at, new));
                vstd::seq_lib::to_multiset_insert(was, at, new);
                vstd::seq_lib::to_multiset_build(matching(query, names, n - 1), new);
                assert forall|i: int, j: int| 0 <= i < j < now.len() implies !ranks_before(
                    #[trigger] now[j],
                    #[trigger] now[i],
                ) by {
                    let oi = if i < at { i } else { i - 1 };
                    let oj = if j < at { j } else { j - 1 };
                    if i != at && j != at {
                        assert(now[i] == was[oi] && now[j] == was[oj]);
                    } else if j == at {
                        assert(now[i] == was[i]);
                        lemma_rank_order(was[i], was[at - 1], new);
                        if i < at - 1 {
                            assert(!ranks_before(was[at - 1], was[i]));
                        }
                    } else {
                        assert(now[j] == was[j - 1]);
                        assert(ranks_before(new, was[j - 1]));
                        lemma_rank_order(new, was[j - 1], new);
                    }
                }
                assert forall|x: (int, Seq<char>)| #[trigger] now.contains(x) <==> exists|k: int|
                    0 <= k < n && #[trigger] names[k] == x.1 && score_of(query, names[k]) == Some(
                        x.0,
                    ) by {
                    if now.contains(x) {
                        let i = choose|i: int| 0 <= i < now.len() && now[i] == x;
                        if i == at {
                            assert(names[n - 1] == x.1);
                        } else {
                            let oi = if i < at { i } else { i - 1 };
                            assert(was[oi] == x);
                            assert(was.contains(x));
                            let k = choose|k: int|
                                0 <= k < n - 1 && #[trigger] names[k] == x.1 && score_of(
                                    query,
                                    names[k],
                                ) == Some(x.0);
                            assert(names[k] == x.1);
                        }
                    }
                    if exists|k: int|
                        0 <= k < n && #[trigger] names[k] == x.1 && score_of(query, names[k])
                            == Some(x.0) {
                        let k = choose|k: int|
                            0 <= k < n && #[trigger] names[k] == x.1 && score_of(query, names[k])
                                == Some(x.0);
                        if k == n - 1 {
                            assert(now[at] == x);
                        } else {
                            assert(names[k] == x.1);
                            assert(was.contains(x));
                            let i = choose|i: int| 0 <= i < was.len() && was[i] == x;
                            if i < at {
                                assert(now[i] == x);
                            } else {
                                assert(now[i + 1] == x);
                            }
                        }
                    }
                }
            },
            None => {
                assert forall|x: (int, Seq<char>)| #[trigger] now.contains(x) <==> exists|k: int|
                    0 <= k < n && #[trigger] names[k] == x.1 && score_of(query, names[k]) == Some(
                        x.0,
                    ) by {
                    if was.contains(x) {
                        let k = choose|k: int|
                            0 <= k < n - 1 && #[trigger] names[k] == x.1 && score_of(
                                query,
                                names[k],
                            ) == Some(x.0);
                        assert(names[k] == x.1);
                    }
                }
            },
        }
    }
}

proof fn lemma_skip_to_match(q: Seq<char>, c: Seq<char>, ci: int, to: int)
    requires
        q.len() > 0,
        0 <= ci <= to < c.len(),
        forall|i: int| ci <= i < to ==> #[trigger] c[i] != q[0],
    ensures
        score_from(q, c, 0, ci, false, None, 0) == score_from(q, c, 0, to, false, None, 0),
    decreases to - ci,
{
    if ci < to {
        assert(c[ci] != q[0]);
        lemma_skip_to_match(q, c, ci + 1, to);
    }
}

proof fn lemma_run_score(q: Seq<char>, c: Seq<char>, at: int, qi: int, first: int, score: int)
    requires
        0 < qi <= q.len(),
        0 <= at,
        at + q.len() <= c.len(),
        forall|i: int| 0 <= i < q.len() ==> #[trigger] q[i] == c[at + i],
    ensures
        score_from(q, c, qi, at + qi, true, Some(first), score) == Some(
            score + 10 * (q.len() - qi) - first,
        ),
    decreases q.len() - qi,
{
    if qi < q.len() {
        assert(q[qi] == c[at + qi]);
        lemma_run_score(q, c, at, qi + 1, first, score + 10);
    }
}

/// A query that stands in a name as it is scores 1 for its first character and 10 for
/// each other one, less the place where it begins: long runs and early ones are better.
pub proof fn law_score_of_run(q: Seq<char>, name: Seq<char>, at: int)
    requires
        q.len() > 0,
        0 <= at,
        at + q.len() <= unicode_lower(name).len(),
        forall|i: int| 0 <= i < q.len() ==> #[trigger] q[i] == unicode_lower(name)[at + i],
        forall|i: int| 0 <= i < at ==> #[trigger] unicode_lower(name)[i] != q[0],
    ensures
        score_of(q, name) == Some(1 + 10 * (q.len() - 1) - (at + 1)),
{
    let c = unicode_lower(name);
    lemma_skip_to_match(q, c, 0, at);
    assert(q[0] == c[at + 0]);
    lemma_run_score(q, c, at, 1, at + 1, 1);
}

/// An empty query keeps every name where it is.
pub proof fn law_empty_query_keeps_order(names: Seq<Seq<char>>)
    ensures
        fuzzy_matches(Seq::empty(), names) == names,
{
}

} // verus!
