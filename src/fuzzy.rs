use vstd::prelude::*;

use crate::index::{locs_view, lookup, IndexModel, LocSpec, Location, ReverseIndex};
use crate::position::Pos;

verus! {

/// The score at which a match is rejected outright.
pub const REJECT_SCORE: usize = 1000;

/// How a fuzzy search treats line distance.
#[non_exhaustive]
pub struct FuzzyConfig {
    /// The largest line gap allowed between consecutive matched tokens; `None`
    /// allows any gap.
    pub line_span: Option<usize>,
}

impl Default for FuzzyConfig {
    fn default() -> (r: FuzzyConfig)
        ensures
            r.line_span is None,
    {
        FuzzyConfig { line_span: None }
    }
}

/// A match in progress: a file and one position for each query token so far.
pub type Cand = (Seq<char>, Seq<Pos>);

/// The cost of two consecutive matched positions: the reject score when their
/// line gap exceeds the span, else their byte distance.
pub open spec fn pair_cost(span: Option<usize>, a: Pos, b: Pos) -> int {
    if span is Some && b.line - a.line > span->0 {
        REJECT_SCORE as int
    } else {
        b.offset - a.offset
    }
}

/// The score of a match: the sum of the costs of its consecutive positions.
pub open spec fn score(span: Option<usize>, ps: Seq<Pos>) -> int
    decreases ps.len(),
{
    if ps.len() < 2 {
        0
    } else {
        score(span, ps.drop_last()) + pair_cost(span, ps[ps.len() - 2], ps.last())
    }
}

/// Positions in strictly increasing offset order.
pub open spec fn increasing(ps: Seq<Pos>) -> bool {
    forall|i: int, j: int| 0 <= i < j < ps.len() ==> #[trigger] ps[i].offset < #[trigger] ps[j].offset
}

/// The first occurrence, in index order, in the given file after the given offset.
pub open spec fn first_after(occs: Seq<LocSpec>, file: Seq<char>, off: usize) -> Option<Pos>
    decreases occs.len(),
{
    if occs.len() == 0 {
        None
    } else if occs[0].0 == file && occs[0].1.offset > off {
        Some(occs[0].1)
    } else {
        first_after(occs.drop_first(), file, off)
    }
}

/// One match per occurrence of the first query token.
pub open spec fn seeds(occs: Seq<LocSpec>) -> Seq<Cand> {
    occs.map_values(|o: LocSpec| (o.0, seq![o.1]))
}

/// Each match extended by its first valid continuation; matches without one are
/// dropped.
pub open spec fn extend_round(cands: Seq<Cand>, occs: Seq<LocSpec>) -> Seq<Cand>
    decreases cands.len(),
{
    if cands.len() == 0 {
        Seq::empty()
    } else {
        let prev = extend_round(cands.drop_last(), occs);
        let c = cands.last();
        match first_after(occs, c.0, c.1.last().offset) {
            Some(p) => prev.push((c.0, c.1.push(p))),
            None => prev,
        }
    }
}

/// The matches after the first `n` query tokens.
pub open spec fn rounds(index: IndexModel, query: Seq<Seq<char>>, n: nat) -> Seq<Cand>
    decreases n,
{
    if n == 0 || n > query.len() {
        Seq::empty()
    } else if n == 1 {
        seeds(lookup(index, query[0]))
    } else {
        extend_round(rounds(index, query, (n - 1) as nat), lookup(index, query[n - 1]))
    }
}

/// The complete matches of a query.
pub open spec fn candidates(index: IndexModel, query: Seq<Seq<char>>) -> Seq<Cand> {
    rounds(index, query, query.len())
}

/// A match as it is ranked: its file, its first position and its score.
pub type Scored = (Seq<char>, Pos, int);

/// The matches that are not rejected, with their scores, in order.
pub open spec fn kept(span: Option<usize>, cands: Seq<Cand>) -> Seq<Scored>
    decreases cands.len(),
{
    if cands.len() == 0 {
        Seq::empty()
    } else {
        let prev = kept(span, cands.drop_last());
        let c = cands.last();
        let s = score(span, c.1);
        if s < REJECT_SCORE {
            prev.push((c.0, c.1[0], s))
        } else {
            prev
        }
    }
}

/// Inserts after every item whose score is at most the new one's.
pub open spec fn insert_sorted(s: Seq<Scored>, x: Scored) -> Seq<Scored>
    decreases s.len(),
{
    if s.len() == 0 {
        seq![x]
    } else if s.last().2 <= x.2 {
        s.push(x)
    } else {
        insert_sorted(s.drop_last(), x).push(s.last())
    }
}

/// Sorts by ascending score; equal scores keep their order.
pub open spec fn sort_by_score(s: Seq<Scored>) -> Seq<Scored>
    decreases s.len(),
{
    if s.len() == 0 {
        Seq::empty()
    } else {
        insert_sorted(sort_by_score(s.drop_last()), s.last())
    }
}

/// What a fuzzy search returns: the unrejected complete matches, best first,
/// each as the location of its first token.
pub open spec fn ranked(span: Option<usize>, index: IndexModel, query: Seq<Seq<char>>) -> Seq<
    LocSpec,
> {
    sort_by_score(kept(span, candidates(index, query))).map_values(|x: Scored| (x.0, x.1))
}

pub open spec fn cands_view(cs: Seq<(String, Vec<Pos>)>) -> Seq<Cand> {
    cs.map_values(|c: (String, Vec<Pos>)| (c.0@, c.1@))
}

pub open spec fn scored_view(xs: Seq<(String, Pos, usize)>) -> Seq<Scored> {
    xs.map_values(|x: (String, Pos, usize)| (x.0@, x.1, x.2 as int))
}

pub open spec fn strings_view(q: Seq<String>) -> Seq<Seq<char>> {
    q.map_values(|s: String| s@)
}

/// A complete match of a query: one position per query token, in strictly
/// increasing offset order, each an occurrence of its token in the match's file.
pub open spec fn aligned(index: IndexModel, query: Seq<Seq<char>>, c: Cand) -> bool {
    &&& c.1.len() == query.len()
    &&& increasing(c.1)
    &&& forall|k: int|
        0 <= k < query.len() ==> lookup(index, query[k]).contains((c.0, #[trigger] c.1[k]))
}

proof fn lemma_first_after(occs: Seq<LocSpec>, file: Seq<char>, off: usize)
    ensures
        first_after(occs, file, off) matches Some(p) ==> p.offset > off && occs.contains(
            (file, p),
        ),
    decreases occs.len(),
{
    if occs.len() > 0 {
        lemma_first_after(occs.drop_first(), file, off);
        if !(occs[0].0 == file && occs[0].1.offset > off) {
            if let Some(p) = first_after(occs, file, off) {
                let k = choose|k: int| 0 <= k < occs.drop_first().len() && occs.drop_first()[k] == (file, p);
                assert(occs[k + 1] == (file, p));
            }
        } else {
            assert(occs[0] == (file, occs[0].1));
        }
    }
}

proof fn lemma_extend_aligned(index: IndexModel, query: Seq<Seq<char>>, cands: Seq<Cand>)
    requires
        query.len() >= 2,
        forall|i: int| 0 <= i < cands.len() ==> aligned(index, query.drop_last(), #[trigger] cands[i]),
    ensures
        forall|i: int|
            0 <= i < extend_round(cands, lookup(index, query.last())).len() ==> aligned(
                index,
                query,
                #[trigger] extend_round(cands, lookup(index, query.last()))[i],
            ),
    decreases cands.len(),
{
    let occs = lookup(index, query.last());
    if cands.len() > 0 {
        let d = cands.drop_last();
        assert forall|i: int| 0 <= i < d.len() implies aligned(index, query.drop_last(), #[trigger] d[i]) by {
            assert(d[i] == cands[i]);
        }
        lemma_extend_aligned(index, query, d);
        let c = cands.last();
        assert(aligned(index, query.drop_last(), cands[cands.len() - 1]));
        let off = c.1.last().offset;
        lemma_first_after(occs, c.0, off);
        if let Some(p) = first_after(occs, c.0, off) {
            let r = (c.0, c.1.push(p));
            let n = c.1.len() as int;
            assert(increasing(r.1)) by {
                assert forall|a: int, b: int| 0 <= a < b < r.1.len() implies
                    #[trigger] r.1[a].offset < #[trigger] r.1[b].offset by {
                    if b == n && a < n - 1 {
                        assert(c.1[a].offset < c.1[n - 1].offset);
                    }
                }
            }
            assert forall|k: int| 0 <= k < query.len() implies lookup(index, query[k]).contains(
                (r.0, #[trigger] r.1[k]),
            ) by {
                if k < n {
                    assert(query.drop_last()[k] == query[k]);
                    assert(r.1[k] == c.1[k]);
                } else {
                    assert(query[k] == query.last());
                }
            }
            let e = extend_round(cands, occs);
            assert forall|i: int| 0 <= i < e.len() implies aligned(index, query, #[trigger] e[i]) by {
                if i < e.len() - 1 {
                    assert(e[i] == extend_round(d, occs)[i]);
                }
            }
        }
    }
}

/// Every match after the first `n` query tokens is a complete match of those
/// tokens.
proof fn lemma_rounds_aligned(index: IndexModel, query: Seq<Seq<char>>, n: nat)
    requires
        1 <= n <= query.len(),
    ensures
        forall|i: int|
            0 <= i < rounds(index, query, n).len() ==> aligned(
                index,
                query.subrange(0, n as int),
                #[trigger] rounds(index, query, n)[i],
            ),
    decreases n,
{
    let qn = query.subrange(0, n as int);
    if n == 1 {
        let occs = lookup(index, query[0]);
        assert forall|i: int| 0 <= i < rounds(index, query, n).len() implies aligned(
            index,
            qn,
            #[trigger] rounds(index, query, n)[i],
        ) by {
            let c = rounds(index, query, n)[i];
            assert(c == (occs[i].0, seq![occs[i].1]));
            assert(qn[0] == query[0]);
            assert(occs[i] == (c.0, c.1[0]));
        }
    } else {
        lemma_rounds_aligned(index, query, (n - 1) as nat);
        assert(qn.drop_last() =~= query.subrange(0, n - 1));
        assert(qn.last() == query[n - 1]);
        lemma_extend_aligned(index, qn, rounds(index, query, (n - 1) as nat));
    }
}

/// Each match that a search ranks pairs every query token with one of its own
/// occurrences in the match's file, and the occurrences come in strictly
/// increasing offset order: a later token never matches before an earlier one.
pub proof fn lemma_matches_in_order(index: IndexModel, query: Seq<Seq<char>>)
    ensures
        forall|i: int|
            0 <= i < candidates(index, query).len() ==> aligned(
                index,
                query,
                #[trigger] candidates(index, query)[i],
            ),
{
    if query.len() >= 1 {
        lemma_rounds_aligned(index, query, query.len());
        assert(query.subrange(0, query.len() as int) =~= query);
    }
}

/// Scores never decrease along the sequence.
pub open spec fn sorted_by_score(s: Seq<Scored>) -> bool {
    forall|i: int, j: int| 0 <= i < j < s.len() ==> #[trigger] s[i].2 <= #[trigger] s[j].2
}

proof fn lemma_insert_sorted(s: Seq<Scored>, x: Scored)
    requires
        sorted_by_score(s),
    ensures
        sorted_by_score(insert_sorted(s, x)),
        forall|i: int|
            0 <= i < insert_sorted(s, x).len() ==> #[trigger] insert_sorted(s, x)[i] == x
                || s.contains(insert_sorted(s, x)[i]),
    decreases s.len(),
{
    if s.len() > 0 {
        let last = s.last();
        if last.2 > x.2 {
            let d = s.drop_last();
            assert(sorted_by_score(d)) by {
                assert forall|i: int, j: int| 0 <= i < j < d.len() implies #[trigger] d[i].2
                    <= #[trigger] d[j].2 by {
                    assert(d[i] == s[i] && d[j] == s[j]);
                }
            }
            lemma_insert_sorted(d, x);
            let r = insert_sorted(s, x);
            let e = insert_sorted(d, x);
            assert forall|i: int| 0 <= i < e.len() implies #[trigger] e[i].2 <= last.2 by {
                if e[i] != x {
                    let k = choose|k: int| 0 <= k < d.len() && d[k] == e[i];
                    assert(s[k] == d[k]);
                    assert(s[k].2 <= s[s.len() - 1].2);
                }
            }
            assert forall|i: int| 0 <= i < r.len() implies #[trigger] r[i] == x || s.contains(r[i]) by {
                if i < e.len() {
                    assert(r[i] == e[i]);
                    if e[i] != x {
                        let k = choose|k: int| 0 <= k < d.len() && d[k] == e[i];
                        assert(s[k] == d[k]);
                    }
                } else {
                    assert(s[s.len() - 1] == last);
                }
            }
            assert forall|i: int, j: int| 0 <= i < j < r.len() implies #[trigger] r[i].2
                <= #[trigger] r[j].2 by {
                if j == r.len() - 1 {
                    assert(r[i] == e[i]);
                } else {
                    assert(r[i] == e[i] && r[j] == e[j]);
                }
            }
        } else {
            let r = s.push(x);
            assert forall|i: int, j: int| 0 <= i < j < r.len() implies #[trigger] r[i].2
                <= #[trigger] r[j].2 by {
                if j == r.len() - 1 && i < s.len() - 1 {
                    assert(s[i].2 <= s[s.len() - 1].2);
                }
            }
            assert forall|i: int| 0 <= i < r.len() implies #[trigger] r[i] == x || s.contains(r[i]) by {
                if i < s.len() {
                    assert(r[i] == s[i]);
                }
            }
        }
    }
}

proof fn lemma_sort_sorted(s: Seq<Scored>)
    ensures
        sorted_by_score(sort_by_score(s)),
    decreases s.len(),
{
    if s.len() > 0 {
        lemma_sort_sorted(s.drop_last());
        lemma_insert_sorted(sort_by_score(s.drop_last()), s.last());
    }
}

/// A search ranks a match with a lower score before one with a higher score.
pub proof fn lemma_lower_score_first(span: Option<usize>, index: IndexModel, query: Seq<Seq<char>>)
    ensures
        sorted_by_score(sort_by_score(kept(span, candidates(index, query)))),
        forall|i: int, j: int|
            0 <= i < sort_by_score(kept(span, candidates(index, query))).len() && 0 <= j
                < sort_by_score(kept(span, candidates(index, query))).len() && (#[trigger] sort_by_score(
                kept(span, candidates(index, query)),
            )[i]).2 < (#[trigger] sort_by_score(kept(span, candidates(index, query)))[j]).2 ==> i < j,
{
    lemma_sort_sorted(kept(span, candidates(index, query)));
}

proof fn lemma_kept_from(span: Option<usize>, cands: Seq<Cand>)
    ensures
        forall|i: int|
            0 <= i < kept(span, cands).len() ==> exists|j: int|
                0 <= j < cands.len() && (#[trigger] kept(span, cands)[i]) == (
                    cands[j].0,
                    cands[j].1[0],
                    score(span, cands[j].1),
                ) && score(span, cands[j].1) < REJECT_SCORE,
    decreases cands.len(),
{
    if cands.len() > 0 {
        let d = cands.drop_last();
        lemma_kept_from(span, d);
        let r = kept(span, cands);
        assert forall|i: int| 0 <= i < r.len() implies exists|j: int|
            0 <= j < cands.len() && (#[trigger] r[i]) == (
                cands[j].0,
                cands[j].1[0],
                score(span, cands[j].1),
            ) && score(span, cands[j].1) < REJECT_SCORE by {
            if i < kept(span, d).len() {
                assert(r[i] == kept(span, d)[i]);
                let j = choose|j: int|
                    0 <= j < d.len() && kept(span, d)[i] == (d[j].0, d[j].1[0], score(span, d[j].1))
                        && score(span, d[j].1) < REJECT_SCORE;
                assert(d[j] == cands[j]);
            } else {
                assert(cands.last() == cands[cands.len() - 1]);
            }
        }
    }
}

/// Two positions of one file: the later offset is never on an earlier line.
pub open spec fn lines_follow_offsets(index: IndexModel) -> bool {
    forall|t1: Seq<char>, t2: Seq<char>, a: LocSpec, b: LocSpec|
        #[trigger] lookup(index, t1).contains(a) && #[trigger] lookup(index, t2).contains(b) && a.0
            == b.0 && a.1.offset < b.1.offset ==> a.1.line <= b.1.line
}

proof fn lemma_line_gap_rejected(ps: Seq<Pos>, k: int)
    requires
        increasing(ps),
        0 <= k < ps.len() - 1,
        ps[k + 1].line > ps[k].line,
    ensures
        score(Some(0usize), ps) >= REJECT_SCORE,
{
    let span = Some(0usize);
    lemma_score_step(span, ps, k + 1);
    lemma_score_grows(span, ps, k + 2);
    lemma_score_grows(span, ps.subrange(0, k + 1), 1);
    assert(ps.subrange(0, k + 1).subrange(0, 1) =~= ps.subrange(0, 1));
    assert(ps.subrange(0, k + 1).len() == k + 1);
    assert(increasing(ps.subrange(0, k + 1))) by {
        assert forall|a: int, b: int| 0 <= a < b < k + 1 implies
            #[trigger] ps.subrange(0, k + 1)[a].offset < #[trigger] ps.subrange(0, k + 1)[b].offset by {
            assert(ps[a].offset < ps[b].offset);
        }
    }
}

/// With a line span of zero, every match that a search keeps has consecutive
/// tokens on one line: a match whose consecutive tokens fall on different lines
/// is left out. (Positions must not put a later offset on an earlier line.)
pub proof fn lemma_same_line_only(index: IndexModel, query: Seq<Seq<char>>)
    requires
        lines_follow_offsets(index),
    ensures
        forall|i: int|
            0 <= i < kept(Some(0usize), candidates(index, query)).len() ==> exists|j: int|
                0 <= j < candidates(index, query).len() && (#[trigger] kept(
                    Some(0usize),
                    candidates(index, query),
                )[i]).0 == candidates(index, query)[j].0 && kept(
                    Some(0usize),
                    candidates(index, query),
                )[i].1 == candidates(index, query)[j].1[0] && forall|k: int|
                    0 <= k < candidates(index, query)[j].1.len() - 1 ==> (
                    #[trigger] candidates(index, query)[j].1[k]).line == candidates(
                        index,
                        query,
                    )[j].1[k + 1].line,
{
    let span = Some(0usize);
    let cs = candidates(index, query);
    lemma_kept_from(span, cs);
    lemma_matches_in_order(index, query);
    assert forall|i: int| 0 <= i < kept(span, cs).len() implies exists|j: int|
        0 <= j < cs.len() && (#[trigger] kept(span, cs)[i]).0 == cs[j].0 && kept(span, cs)[i].1
            == cs[j].1[0] && forall|k: int|
            0 <= k < cs[j].1.len() - 1 ==> (#[trigger] cs[j].1[k]).line == cs[j].1[k + 1].line by {
        let j = choose|j: int|
            0 <= j < cs.len() && kept(span, cs)[i] == (cs[j].0, cs[j].1[0], score(span, cs[j].1))
                && score(span, cs[j].1) < REJECT_SCORE;
        let c = cs[j];
        assert(aligned(index, query, c));
        assert forall|k: int| 0 <= k < c.1.len() - 1 implies (#[trigger] c.1[k]).line == c.1[k
            + 1].line by {
            assert(lookup(index, query[k]).contains((c.0, c.1[k])));
            assert(lookup(index, query[k + 1]).contains((c.0, c.1[k + 1])));
            assert(c.1[k].offset < c.1[k + 1].offset);
            if c.1[k + 1].line > c.1[k].line {
                lemma_line_gap_rejected(c.1, k);
            }
        }
    }
}

/// No pair of consecutive positions exceeds the line span.
pub open spec fn within_span(span: Option<usize>, ps: Seq<Pos>) -> bool {
    forall|k: int|
        0 <= k < ps.len() - 1 ==> !(span is Some && (#[trigger] ps[k + 1]).line - ps[k].line
            > span->0)
}

/// A match within the line span scores the byte distance from its first to its
/// last token, so the tighter of two such matches ranks first.
pub proof fn lemma_score_is_gap(span: Option<usize>, ps: Seq<Pos>)
    requires
        ps.len() >= 1,
        within_span(span, ps),
    ensures
        score(span, ps) == ps.last().offset - ps[0].offset,
    decreases ps.len(),
{
    if ps.len() >= 2 {
        let d = ps.drop_last();
        assert(within_span(span, d)) by {
            assert forall|k: int| 0 <= k < d.len() - 1 implies !(span is Some && (#[trigger] d[k
                + 1]).line - d[k].line > span->0) by {
                assert(d[k + 1] == ps[k + 1] && d[k] == ps[k]);
            }
        }
        lemma_score_is_gap(span, d);
        let k = ps.len() - 2;
        assert(!(span is Some && ps[k + 1].line - ps[k].line > span->0));
        assert(ps[ps.len() - 1] == ps.last());
        assert(!(span is Some && ps[ps.len() - 1].line - ps[ps.len() - 2].line > span->0));
    }
}

proof fn lemma_insert_keeps(s: Seq<Scored>, x: Scored)
    ensures
        insert_sorted(s, x).contains(x),
        forall|y: Scored| s.contains(y) ==> #[trigger] insert_sorted(s, x).contains(y),
    decreases s.len(),
{
    if s.len() == 0 {
        assert(insert_sorted(s, x)[0] == x);
    } else if s.last().2 <= x.2 {
        let r = s.push(x);
        assert(r[s.len() as int] == x);
        assert forall|y: Scored| s.contains(y) implies #[trigger] insert_sorted(s, x).contains(y) by {
            let k = choose|k: int| 0 <= k < s.len() && s[k] == y;
            assert(r[k] == y);
        }
    } else {
        let d = s.drop_last();
        lemma_insert_keeps(d, x);
        let e = insert_sorted(d, x);
        let r = e.push(s.last());
        assert(insert_sorted(s, x) == r);
        let k0 = choose|k: int| 0 <= k < e.len() && e[k] == x;
        assert(r[k0] == x);
        assert forall|y: Scored| s.contains(y) implies #[trigger] insert_sorted(s, x).contains(y) by {
            let k = choose|k: int| 0 <= k < s.len() && s[k] == y;
            if k == s.len() - 1 {
                assert(r[e.len() as int] == y);
            } else {
                assert(d[k] == y);
                assert(d.contains(y));
                assert(insert_sorted(d, x).contains(y));
                let m = choose|m: int| 0 <= m < e.len() && e[m] == y;
                assert(r[m] == y);
            }
        }
    }
}

/// Sorting keeps exactly the items it was given.
proof fn lemma_sort_members(s: Seq<Scored>)
    ensures
        forall|y: Scored| #[trigger] sort_by_score(s).contains(y) <==> s.contains(y),
    decreases s.len(),
{
    if s.len() > 0 {
        let d = s.drop_last();
        let x = s.last();
        lemma_sort_members(d);
        lemma_insert_keeps(sort_by_score(d), x);
        lemma_sort_sorted(d);
        lemma_insert_sorted(sort_by_score(d), x);
        assert forall|y: Scored| #[trigger] sort_by_score(s).contains(y) <==> s.contains(y) by {
            if sort_by_score(s).contains(y) {
                let k = choose|k: int| 0 <= k < sort_by_score(s).len() && sort_by_score(s)[k] == y;
                if y != x {
                    assert(sort_by_score(d).contains(y));
                    let m = choose|m: int| 0 <= m < d.len() && d[m] == y;
                    assert(s[m] == y);
                } else {
                    assert(s[s.len() - 1] == y);
                }
            }
            if s.contains(y) {
                let k = choose|k: int| 0 <= k < s.len() && s[k] == y;
                if k < s.len() - 1 {
                    assert(d[k] == y);
                    assert(d.contains(y));
                }
            }
        }
    }
}

proof fn lemma_kept_has(span: Option<usize>, cands: Seq<Cand>, j: int)
    requires
        0 <= j < cands.len(),
        score(span, cands[j].1) < REJECT_SCORE,
    ensures
        kept(span, cands).contains((cands[j].0, cands[j].1[0], score(span, cands[j].1))),
    decreases cands.len(),
{
    let d = cands.drop_last();
    let r = kept(span, cands);
    if j == cands.len() - 1 {
        assert(cands.last() == cands[j]);
        assert(r[r.len() - 1] == (cands[j].0, cands[j].1[0], score(span, cands[j].1)));
    } else {
        assert(d[j] == cands[j]);
        lemma_kept_has(span, d, j);
        let k = choose|k: int|
            0 <= k < kept(span, d).len() && kept(span, d)[k] == (
                cands[j].0,
                cands[j].1[0],
                score(span, cands[j].1),
            );
        assert(r[k] == kept(span, d)[k]);
    }
}

/// The byte distance from a match's first token to its last.
pub open spec fn gap(ps: Seq<Pos>) -> int {
    ps.last().offset - ps[0].offset
}

/// Of two complete matches of a query that keep within the line span, the
/// tighter one (the smaller distance from first to last token) is returned, and
/// before the other.
pub proof fn lemma_tighter_match_first(
    span: Option<usize>,
    index: IndexModel,
    query: Seq<Seq<char>>,
    j1: int,
    j2: int,
)
    requires
        0 <= j1 < candidates(index, query).len(),
        0 <= j2 < candidates(index, query).len(),
        within_span(span, candidates(index, query)[j1].1),
        within_span(span, candidates(index, query)[j2].1),
        gap(candidates(index, query)[j1].1) < gap(candidates(index, query)[j2].1) < REJECT_SCORE,
    ensures
        exists|a: int, b: int|
            0 <= a < b < ranked(span, index, query).len() && ranked(span, index, query)[a] == (
                candidates(index, query)[j1].0,
                candidates(index, query)[j1].1[0],
            ) && ranked(span, index, query)[b] == (
                candidates(index, query)[j2].0,
                candidates(index, query)[j2].1[0],
            ),
{
    let cs = candidates(index, query);
    let c1 = cs[j1];
    let c2 = cs[j2];
    lemma_matches_in_order(index, query);
    assert(aligned(index, query, c1) && aligned(index, query, c2));
    lemma_score_is_gap(span, c1.1);
    lemma_score_is_gap(span, c2.1);
    let k = kept(span, cs);
    lemma_kept_has(span, cs, j1);
    lemma_kept_has(span, cs, j2);
    let x1 = (c1.0, c1.1[0], gap(c1.1));
    let x2 = (c2.0, c2.1[0], gap(c2.1));
    let sv = sort_by_score(k);
    lemma_sort_members(k);
    lemma_sort_sorted(k);
    assert(sv.contains(x1) && sv.contains(x2));
    let a = choose|a: int| 0 <= a < sv.len() && sv[a] == x1;
    let b = choose|b: int| 0 <= b < sv.len() && sv[b] == x2;
    if b < a {
        assert(sv[b].2 <= sv[a].2);
    }
    assert(a != b);
    let r = ranked(span, index, query);
    assert(r[a] == (c1.0, c1.1[0]));
    assert(r[b] == (c2.0, c2.1[0]));
}

/// With a line span of zero, every location a search returns is the first
/// token of a complete match whose consecutive tokens all lie on one line.
/// (Positions must not put a later offset on an earlier line.)
pub proof fn lemma_results_on_one_line(index: IndexModel, query: Seq<Seq<char>>)
    requires
        lines_follow_offsets(index),
    ensures
        forall|i: int|
            0 <= i < ranked(Some(0usize), index, query).len() ==> exists|j: int|
                0 <= j < candidates(index, query).len() && aligned(
                    index,
                    query,
                    candidates(index, query)[j],
                ) && (#[trigger] ranked(Some(0usize), index, query)[i]) == (
                    candidates(index, query)[j].0,
                    candidates(index, query)[j].1[0],
                ) && forall|k: int|
                    0 <= k < candidates(index, query)[j].1.len() - 1 ==> (
                    #[trigger] candidates(index, query)[j].1[k]).line == candidates(
                        index,
                        query,
                    )[j].1[k + 1].line,
{
    let span = Some(0usize);
    let cs = candidates(index, query);
    let k = kept(span, cs);
    let sv = sort_by_score(k);
    let r = ranked(span, index, query);
    lemma_same_line_only(index, query);
    lemma_matches_in_order(index, query);
    lemma_sort_members(k);
    assert forall|i: int| 0 <= i < r.len() implies exists|j: int|
        0 <= j < cs.len() && aligned(index, query, cs[j]) && (#[trigger] r[i]) == (
            cs[j].0,
            cs[j].1[0],
        ) && forall|m: int|
            0 <= m < cs[j].1.len() - 1 ==> (#[trigger] cs[j].1[m]).line == cs[j].1[m + 1].line by {
        assert(sv.contains(sv[i]));
        let t = choose|t: int| 0 <= t < k.len() && k[t] == sv[i];
        let j = choose|j: int|
            0 <= j < cs.len() && (#[trigger] k[t]).0 == cs[j].0 && k[t].1 == cs[j].1[0] && forall|
                m: int,
            | 0 <= m < cs[j].1.len() - 1 ==> (#[trigger] cs[j].1[m]).line == cs[j].1[m + 1].line;
        assert(r[i] == (sv[i].0, sv[i].1));
        assert(aligned(index, query, cs[j]));
    }
}

proof fn lemma_score_grows(span: Option<usize>, s: Seq<Pos>, m: int)
    requires
        increasing(s),
        1 <= m <= s.len(),
    ensures
        score(span, s.subrange(0, m)) <= score(span, s),
    decreases s.len(),
{
    if m == s.len() {
        assert(s.subrange(0, m) =~= s);
    } else {
        let d = s.drop_last();
        assert(s[s.len() - 2].offset < s[s.len() - 1].offset);
        assert(d.subrange(0, m) =~= s.subrange(0, m));
        lemma_score_grows(span, d, m);
    }
}

proof fn lemma_score_step(span: Option<usize>, s: Seq<Pos>, w: int)
    requires
        1 <= w < s.len(),
    ensures
        score(span, s.subrange(0, w + 1)) == score(span, s.subrange(0, w)) + pair_cost(
            span,
            s[w - 1],
            s[w],
        ),
{
    assert(s.subrange(0, w + 1).drop_last() =~= s.subrange(0, w));
}

/// Every match has at least one position, in increasing offset order.
pub open spec fn all_increasing(cs: Seq<Cand>) -> bool {
    forall|i: int| 0 <= i < cs.len() ==> #[trigger] cs[i].1.len() >= 1 && increasing(cs[i].1)
}

/// The first occurrence in `occs`, in order, in `file` after offset `off`.
fn find_continuation(occs: &Vec<Location>, file: &String, off: usize) -> (r: Option<Pos>)
    ensures
        r == first_after(locs_view(occs@), file@, off),
        r matches Some(p) ==> p.offset > off,
{
    let ghost ov = locs_view(occs@);
    let mut j: usize = 0;
    proof {
        assert(ov.subrange(0, ov.len() as int) =~= ov);
    }
    while j < occs.len()
        invariant
            ov == locs_view(occs@),
            0 <= j <= occs@.len(),
            first_after(ov, file@, off) == first_after(ov.subrange(j as int, ov.len() as int), file@, off),
        decreases occs@.len() - j,
    {
        let o = &occs[j];
        proof {
            let rest = ov.subrange(j as int, ov.len() as int);
            assert(rest[0] == ov[j as int]);
            assert(rest.drop_first() =~= ov.subrange(j + 1, ov.len() as int));
        }
        if o.file == *file && o.pos.offset > off {
            return Some(o.pos);
        }
        j = j + 1;
    }
    None
}

fn copy_positions(ps: &Vec<Pos>) -> (r: Vec<Pos>)
    ensures
        r@ == ps@,
{
    let mut out: Vec<Pos> = Vec::new();
    let mut i: usize = 0;
    while i < ps.len()
        invariant
            0 <= i <= ps@.len(),
            out@ == ps@.subrange(0, i as int),
        decreases ps@.len() - i,
    {
        out.push(ps[i]);
        proof {
            assert(out@ =~= ps@.subrange(0, i + 1));
        }
        i = i + 1;
    }
    proof {
        assert(ps@.subrange(0, i as int) =~= ps@);
    }
    out
}

/// One match per occurrence of the first query token.
fn seed_matches(occs: &Vec<Location>) -> (r: Vec<(String, Vec<Pos>)>)
    ensures
        cands_view(r@) == seeds(locs_view(occs@)),
        all_increasing(cands_view(r@)),
{
    let ghost ov = locs_view(occs@);
    let mut out: Vec<(String, Vec<Pos>)> = Vec::new();
    let mut i: usize = 0;
    while i < occs.len()
        invariant
            ov == locs_view(occs@),
            0 <= i <= occs@.len(),
            cands_view(out@) == seeds(ov.subrange(0, i as int)),
            all_increasing(cands_view(out@)),
        decreases occs@.len() - i,
    {
        let o = &occs[i];
        let mut ps: Vec<Pos> = Vec::new();
        ps.push(o.pos);
        let ghost prev = out@;
        out.push((o.file.clone(), ps));
        proof {
            assert(ps@ =~= seq![o.pos]);
            assert(cands_view(out@) =~= cands_view(prev).push((o.file@, seq![o.pos])));
            assert(seeds(ov.subrange(0, i + 1)) =~= seeds(ov.subrange(0, i as int)).push(
                (ov[i as int].0, seq![ov[i as int].1]),
            ));
        }
        i = i + 1;
    }
    proof {
        assert(ov.subrange(0, i as int) =~= ov);
    }
    out
}

/// Extends each match by its first valid continuation among `occs`, and drops
/// the matches that have none.
fn extend_matches(cands: &Vec<(String, Vec<Pos>)>, occs: &Vec<Location>) -> (r: Vec<
    (String, Vec<Pos>),
>)
    requires
        all_increasing(cands_view(cands@)),
    ensures
        cands_view(r@) == extend_round(cands_view(cands@), locs_view(occs@)),
        all_increasing(cands_view(r@)),
{
    let ghost cv = cands_view(cands@);
    let ghost ov = locs_view(occs@);
    let mut out: Vec<(String, Vec<Pos>)> = Vec::new();
    let mut i: usize = 0;
    while i < cands.len()
        invariant
            cv == cands_view(cands@),
            ov == locs_view(occs@),
            all_increasing(cv),
            0 <= i <= cands@.len(),
            cands_view(out@) == extend_round(cv.subrange(0, i as int), ov),
            all_increasing(cands_view(out@)),
        decreases cands@.len() - i,
    {
        let c = &cands[i];
        proof {
            assert(cv[i as int] == (c.0@, c.1@));
            assert(cv[i as int].1.len() >= 1);
            let sub = cv.subrange(0, i + 1);
            assert(sub.drop_last() =~= cv.subrange(0, i as int));
            assert(sub.last() == cv[i as int]);
        }
        let last = c.1[c.1.len() - 1].offset;
        match find_continuation(occs, &c.0, last) {
            Some(p) => {
                let mut ps = copy_positions(&c.1);
                ps.push(p);
                let ghost prev = out@;
                out.push((c.0.clone(), ps));
                proof {
                    assert(ps@ == c.1@.push(p));
                    assert(cands_view(out@) =~= cands_view(prev).push((c.0@, c.1@.push(p))));
                    assert(increasing(c.1@));
                    assert(increasing(ps@)) by {
                        assert forall|a: int, b: int| 0 <= a < b < ps@.len() implies
                            #[trigger] ps@[a].offset < #[trigger] ps@[b].offset by {
                            if b == ps@.len() - 1 && a < b - 1 {
                                assert(c.1@[a].offset < c.1@[b - 1].offset);
                            }
                        }
                    }
                    assert forall|k: int| 0 <= k < cands_view(out@).len() implies
                        #[trigger] cands_view(out@)[k].1.len() >= 1 && increasing(
                        cands_view(out@)[k].1,
                    ) by {
                        if k < prev.len() {
                            assert(cands_view(out@)[k] == cands_view(prev)[k]);
                        }
                    }
                }
            },
            None => {},
        }
        i = i + 1;
    }
    proof {
        assert(cv.subrange(0, i as int) =~= cv);
    }
    out
}

/// Offsets that never decrease from one position to the next.
pub open spec fn offsets_ascend(ps: Seq<Pos>) -> bool {
    forall|k: int| 0 <= k < ps.len() - 1 ==> (#[trigger] ps[k]).offset <= ps[k + 1].offset
}

proof fn lemma_increasing_ascends(ps: Seq<Pos>)
    requires
        increasing(ps),
    ensures
        offsets_ascend(ps),
{
    assert forall|k: int| 0 <= k < ps.len() - 1 implies (#[trigger] ps[k]).offset <= ps[k
        + 1].offset by {
        assert(ps[k].offset < ps[k + 1].offset);
    }
}

/// The score of a match, saturated at the largest `usize`.
fn score_item(config: &FuzzyConfig, item: &Vec<Pos>) -> (r: usize)
    requires
        item@.len() >= 1,
        offsets_ascend(item@),
    ensures
        r as int == if score(config.line_span, item@) < usize::MAX {
            score(config.line_span, item@)
        } else {
            usize::MAX as int
        },
{
    let ghost span = config.line_span;
    let mut total: usize = 0;
    let mut w: usize = 1;
    proof {
        assert(item@.subrange(0, 1).len() == 1);
    }
    while w < item.len()
        invariant
            1 <= w <= item@.len(),
            offsets_ascend(item@),
            span == config.line_span,
            total as int == if score(span, item@.subrange(0, w as int)) < usize::MAX {
                score(span, item@.subrange(0, w as int))
            } else {
                usize::MAX as int
            },
        decreases item@.len() - w,
    {
        let a = item[w - 1];
        let b = item[w];
        assert(item@[w - 1].offset <= item@[(w - 1) + 1].offset);
        let mut cost: usize = b.offset - a.offset;
        if let Some(k) = config.line_span {
            if b.line > a.line && b.line - a.line > k {
                cost = REJECT_SCORE;
            }
        }
        proof {
            lemma_score_step(span, item@, w as int);
            assert(cost as int == pair_cost(span, a, b));
        }
        if cost > usize::MAX - total {
            total = usize::MAX;
        } else {
            total = total + cost;
        }
        w = w + 1;
    }
    proof {
        assert(item@.subrange(0, w as int) =~= item@);
    }
    total
}

/// The matches that are not rejected, each with its file, first position and
/// score, in order.
fn keep_scored(config: &FuzzyConfig, cands: &Vec<(String, Vec<Pos>)>) -> (r: Vec<
    (String, Pos, usize),
>)
    requires
        all_increasing(cands_view(cands@)),
    ensures
        scored_view(r@) == kept(config.line_span, cands_view(cands@)),
{
    let ghost cv = cands_view(cands@);
    let mut out: Vec<(String, Pos, usize)> = Vec::new();
    let mut i: usize = 0;
    while i < cands.len()
        invariant
            cv == cands_view(cands@),
            all_increasing(cv),
            0 <= i <= cands@.len(),
            scored_view(out@) == kept(config.line_span, cv.subrange(0, i as int)),
        decreases cands@.len() - i,
    {
        let c = &cands[i];
        proof {
            assert(cv[i as int] == (c.0@, c.1@));
            assert(cv[i as int].1.len() >= 1);
            let sub = cv.subrange(0, i + 1);
            assert(sub.drop_last() =~= cv.subrange(0, i as int));
            assert(sub.last() == cv[i as int]);
        }
        proof {
            lemma_increasing_ascends(c.1@);
        }
        let s = score_item(config, &c.1);
        if s < REJECT_SCORE {
            let ghost prev = out@;
            out.push((c.0.clone(), c.1[0], s));
            proof {
                assert(scored_view(out@) =~= scored_view(prev).push((c.0@, c.1@[0], s as int)));
            }
        }
        i = i + 1;
    }
    proof {
        assert(cv.subrange(0, i as int) =~= cv);
    }
    out
}

/// Inserts `x` after every item whose score is at most its own.
fn insert_by_score(out: &mut Vec<(String, Pos, usize)>, x: (String, Pos, usize))
    ensures
        scored_view(final(out)@) == insert_sorted(scored_view(old(out)@), (x.0@, x.1, x.2 as int)),
{
    let ghost sv = scored_view(out@);
    let ghost xv = (x.0@, x.1, x.2 as int);
    let mut j: usize = out.len();
    proof {
        assert(sv.subrange(0, sv.len() as int) =~= sv);
        assert(sv.subrange(sv.len() as int, sv.len() as int) =~= Seq::<Scored>::empty());
        assert(insert_sorted(sv, xv) =~= insert_sorted(sv, xv) + Seq::<Scored>::empty());
    }
    while j > 0 && out[j - 1].2 > x.2
        invariant
            sv == scored_view(out@),
            xv == (x.0@, x.1, x.2 as int),
            0 <= j <= out@.len(),
            insert_sorted(sv, xv) == insert_sorted(sv.subrange(0, j as int), xv) + sv.subrange(
                j as int,
                sv.len() as int,
            ),
        decreases j,
    {
        proof {
            let sub = sv.subrange(0, j as int);
            assert(sv[j - 1].2 == out@[j - 1].2 as int);
            assert(sub.last() == sv[j - 1]);
            assert(sub.len() > 0 && sub.last().2 > xv.2);
            assert(sub.drop_last() =~= sv.subrange(0, j - 1));
            assert(insert_sorted(sub, xv) == insert_sorted(sv.subrange(0, j - 1), xv).push(sv[j - 1]));
            assert(insert_sorted(sv.subrange(0, j - 1), xv).push(sv[j - 1]) + sv.subrange(
                j as int,
                sv.len() as int,
            ) =~= insert_sorted(sv.subrange(0, j - 1), xv) + sv.subrange(j - 1, sv.len() as int));
        }
        j = j - 1;
    }
    proof {
        let sub = sv.subrange(0, j as int);
        if j > 0 {
            assert(sv[j - 1].2 == out@[j - 1].2 as int);
            assert(sub.last() == sv[j - 1]);
            assert(insert_sorted(sub, xv) == sub.push(xv));
        } else {
            assert(insert_sorted(sub, xv) == seq![xv]);
        }
    }
    out.insert(j, x);
    proof {
        assert(scored_view(out@) =~= sv.subrange(0, j as int).push(xv) + sv.subrange(
            j as int,
            sv.len() as int,
        ));
    }
}

/// Sorts by ascending score; equal scores keep their order.
fn sort_scored(xs: &Vec<(String, Pos, usize)>) -> (r: Vec<(String, Pos, usize)>)
    ensures
        scored_view(r@) == sort_by_score(scored_view(xs@)),
{
    let ghost xv = scored_view(xs@);
    let mut out: Vec<(String, Pos, usize)> = Vec::new();
    let mut i: usize = 0;
    while i < xs.len()
        invariant
            xv == scored_view(xs@),
            0 <= i <= xs@.len(),
            scored_view(out@) == sort_by_score(xv.subrange(0, i as int)),
        decreases xs@.len() - i,
    {
        let x = &xs[i];
        proof {
            let sub = xv.subrange(0, i + 1);
            assert(sub.drop_last() =~= xv.subrange(0, i as int));
            assert(sub.last() == xv[i as int]);
            assert(xv[i as int] == (x.0@, x.1, x.2 as int));
        }
        insert_by_score(&mut out, (x.0.clone(), x.1, x.2));
        i = i + 1;
    }
    proof {
        assert(xv.subrange(0, i as int) =~= xv);
    }
    out
}

/// Finds where the query tokens occur in order, in one file, and returns the
/// location of each match's first token, best match first. Each match takes,
/// for each next token, its first occurrence after the previous one; a match
/// scores the byte distance between its consecutive tokens, and one with a line
/// gap beyond the configured span is rejected. Equal scores keep the order of
/// the first token's occurrences.
pub fn fuzzy_find(config: &FuzzyConfig, index: &ReverseIndex, query: &Vec<String>) -> (r: Vec<
    Location,
>)
    requires
        index.wf(),
    ensures
        locs_view(r@) == ranked(config.line_span, index@, strings_view(query@)),
{
    let ghost qv = strings_view(query@);
    let ghost span = config.line_span;
    if query.len() == 0 {
        let out: Vec<Location> = Vec::new();
        proof {
            assert(candidates(index@, qv) == Seq::<Cand>::empty());
            assert(kept(span, Seq::<Cand>::empty()) == Seq::<Scored>::empty());
            assert(sort_by_score(Seq::<Scored>::empty()) == Seq::<Scored>::empty());
            assert(locs_view(out@) =~= ranked(span, index@, qv));
        }
        return out;
    }
    let first = index.query(query[0].as_str());
    let mut cands = seed_matches(&first);
    let mut q: usize = 1;
    while q < query.len()
        invariant
            index.wf(),
            qv == strings_view(query@),
            1 <= q <= query@.len(),
            cands_view(cands@) == rounds(index@, qv, q as nat),
            all_increasing(cands_view(cands@)),
        decreases query@.len() - q,
    {
        let occs = index.query(query[q].as_str());
        cands = extend_matches(&cands, &occs);
        q = q + 1;
    }
    let scored = keep_scored(config, &cands);
    let sorted = sort_scored(&scored);
    let ghost sv = sort_by_score(kept(span, candidates(index@, qv)));
    let mut out: Vec<Location> = Vec::new();
    let mut i: usize = 0;
    while i < sorted.len()
        invariant
            sv == scored_view(sorted@),
            0 <= i <= sorted@.len(),
            locs_view(out@) == sv.subrange(0, i as int).map_values(|x: Scored| (x.0, x.1)),
        decreases sorted@.len() - i,
    {
        let x = &sorted[i];
        let ghost prev = out@;
        out.push(Location { file: x.0.clone(), pos: x.1 });
        proof {
            assert(sv[i as int] == (x.0@, x.1, x.2 as int));
            assert(locs_view(out@) =~= locs_view(prev).push((x.0@, x.1)));
            assert(sv.subrange(0, i + 1).map_values(|x: Scored| (x.0, x.1)) =~= sv.subrange(
                0,
                i as int,
            ).map_values(|x: Scored| (x.0, x.1)).push((x.0@, x.1)));
        }
        i = i + 1;
    }
    proof {
        assert(sv.subrange(0, i as int) =~= sv);
    }
    out
}

} // verus!
