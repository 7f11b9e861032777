//! Score-ranked, bounded selection of one upstream's exposed tools: higher
//! scores first, ties by tool name, at most `limit` kept, at most
//! `inspection_limit` tools looked at, and tools scoring zero left out.

use vstd::prelude::*;
use crate::bounded::min_nat;
use crate::order::{compare_str, lemma_str_order, str_lt, Cmp};
use crate::tool_catalog::{
    UpstreamEntry, UpstreamTool, exposed_tools, find_entry,
    upstream_exposed,
};

verus! {

pub type ScoredTool = (UpstreamTool, u16);

/// `a` ranks before `b`: a higher score, or the same score and a smaller name.
pub open spec fn rank_lt(a: ScoredTool, b: ScoredTool) -> bool {
    a.1 > b.1 || (a.1 == b.1 && str_lt(a.0.tool.name@, b.0.tool.name@))
}

/// Ranked order: nothing later ranks before anything earlier.
pub open spec fn rank_sorted(s: Seq<ScoredTool>) -> bool {
    forall|i: int, j: int| 0 <= i < j < s.len() ==> !rank_lt(#[trigger] s[j], #[trigger] s[i])
}

/// Index of the first item that does not rank before `x`.
pub open spec fn rank_lower_bound(s: Seq<ScoredTool>, x: ScoredTool) -> nat
    decreases s.len(),
{
    if s.len() == 0 {
        0
    } else if rank_lt(s[0], x) {
        1 + rank_lower_bound(s.drop_first(), x)
    } else {
        0
    }
}

/// One bounded insertion in rank order.
pub open spec fn ranked_insert(s: Seq<ScoredTool>, x: ScoredTool, limit: nat) -> Seq<ScoredTool> {
    let p = rank_lower_bound(s, x);
    if p < limit {
        let t = s.insert(p as int, x);
        if t.len() > limit {
            t.drop_last()
        } else {
            t
        }
    } else {
        s
    }
}

/// The selection after scoring `tools` with `scores`, one tool after the
/// other: a tool scoring zero is skipped, every other one is inserted.
pub open spec fn ranked_scan(tools: Seq<UpstreamTool>, scores: Seq<u16>, limit: nat) -> Seq<
    ScoredTool,
>
    decreases tools.len(),
{
    if tools.len() == 0 {
        Seq::empty()
    } else {
        let n = (tools.len() - 1) as int;
        let r = ranked_scan(tools.take(n), scores, limit);
        if scores[n] == 0 {
            r
        } else {
            ranked_insert(r, (tools[n], scores[n]), limit)
        }
    }
}

fn rank_less(a: &ScoredTool, b: &ScoredTool) -> (r: bool)
    ensures
        r == rank_lt(*a, *b),
{
    if a.1 != b.1 {
        a.1 > b.1
    } else {
        compare_str(a.0.tool.name.as_str(), b.0.tool.name.as_str()) == Cmp::Less
    }
}

fn insert_ranked(v: &mut Vec<ScoredTool>, x: ScoredTool, limit: usize)
    ensures
        final(v)@ == ranked_insert(old(v)@, x, limit as nat),
{
    let ghost s = v@;
    let n = v.len();
    let mut i: usize = 0;
    proof {
        assert(s.subrange(0, n as int) =~= s);
    }
    while i < n && rank_less(&v[i], &x)
        invariant
            v@ == s,
            n == s.len(),
            i <= n,
            rank_lower_bound(s, x) == i + rank_lower_bound(s.subrange(i as int, n as int), x),
        decreases n - i,
    {
        proof {
            let rest = s.subrange(i as int, n as int);
            assert(rest[0] == s[i as int]);
            assert(rest.drop_first() =~= s.subrange(i + 1, n as int));
        }
        i = i + 1;
    }
    proof {
        let rest = s.subrange(i as int, n as int);
        if i < n {
            assert(rest[0] == s[i as int]);
        }
        assert(rank_lower_bound(rest, x) == 0);
    }
    if i < limit {
        v.insert(i, x);
        if v.len() > limit {
            v.pop();
        }
    }
}

/// Score-rank `tools`: inspect the first `inspection_limit` of them and keep
/// the `limit` best-ranked ones whose score is not zero. Also returns how many
/// tools were inspected and whether the inspection bound cut the walk short.
pub fn rank_scored_tools(
    tools: &Vec<UpstreamTool>,
    scores: &Vec<u16>,
    limit: usize,
    inspection_limit: usize,
) -> (r: (Vec<ScoredTool>, usize, bool))
    requires
        scores@.len() >= min_nat(tools@.len(), inspection_limit as nat),
    ensures
        r.1 == min_nat(tools@.len(), inspection_limit as nat),
        r.2 == (tools@.len() > inspection_limit),
        r.0@ == ranked_scan(tools@.take(r.1 as int), scores@, limit as nat),
{
    let n = tools.len();
    let mut selected: Vec<ScoredTool> = Vec::new();
    let mut inspected: usize = 0;
    let mut exhausted = false;
    let mut i: usize = 0;
    while i < n
        invariant_except_break
            i <= n == tools@.len(),
            inspected == i,
            i <= inspection_limit,
            !exhausted,
            scores@.len() >= min_nat(tools@.len(), inspection_limit as nat),
            selected@ == ranked_scan(tools@.take(i as int), scores@, limit as nat),
        ensures
            inspected == min_nat(tools@.len(), inspection_limit as nat),
            exhausted == (tools@.len() > inspection_limit),
            selected@ == ranked_scan(tools@.take(inspected as int), scores@, limit as nat),
        decreases n - i,
    {
        if inspected == inspection_limit {
            exhausted = true;
            break;
        }
        inspected = inspected + 1;
        let candidate_score = scores[i];
        proof {
            assert(tools@.take(i + 1).take(i as int) =~= tools@.take(i as int));
            assert(tools@.take(i + 1)[i as int] == tools@[i as int]);
        }
        if candidate_score != 0 {
            let t = tools[i].clone();
            insert_ranked(&mut selected, (t, candidate_score), limit);
        }
        i = i + 1;
    }
    proof {
        if !exhausted {
            assert(tools@.take(n as int) =~= tools@);
        }
    }
    (selected, inspected, exhausted)
}

/// The exposed tools of `upstream` scored with `scores` (one score per exposed
/// tool, in catalog order) and ranked by [`rank_scored_tools`]; an upstream
/// that is unknown or not routable yields nothing.
pub fn healthy_tools_for_upstream_ranked_bounded(
    catalog: &Vec<UpstreamEntry>,
    upstream: &str,
    limit: usize,
    inspection_limit: usize,
    scores: &Vec<u16>,
) -> (r: (Vec<ScoredTool>, usize, bool))
    requires
        scores@.len() >= min_nat(upstream_exposed(catalog@, upstream@).len(), inspection_limit as nat),
    ensures
        ({
            let ex = upstream_exposed(catalog@, upstream@);
            &&& r.1 == min_nat(ex.len(), inspection_limit as nat)
            &&& r.2 == (ex.len() > inspection_limit)
            &&& r.0@ == ranked_scan(ex.take(r.1 as int), scores@, limit as nat)
        }),
{
    match find_entry(catalog, upstream) {
        Some(k) => {
            if !catalog[k].tools_routable {
                return (Vec::new(), 0, false);
            }
            let ex = exposed_tools(&catalog[k]);
            rank_scored_tools(&ex, scores, limit, inspection_limit)
        },
        None => (Vec::new(), 0, false),
    }
}

/// Same score and same name: neither ranks before the other.
pub open spec fn same_rank(a: ScoredTool, b: ScoredTool) -> bool {
    a.1 == b.1 && a.0.tool.name@ == b.0.tool.name@
}

/// `rank_lt` is a strict total order on (score, name).
pub proof fn lemma_rank_order()
    ensures
        forall|a: ScoredTool, b: ScoredTool|
            #![trigger rank_lt(a, b), rank_lt(b, a)]
            rank_lt(a, b) || same_rank(a, b) || rank_lt(b, a),
        forall|a: ScoredTool, b: ScoredTool|
            #[trigger] rank_lt(a, b) ==> !rank_lt(b, a) && !same_rank(a, b),
        forall|a: ScoredTool, b: ScoredTool, c: ScoredTool|
            #[trigger] rank_lt(a, b) && #[trigger] rank_lt(b, c) ==> rank_lt(a, c),
{
    lemma_str_order();
}

/// The tools of `tools` that scored above zero, each with its score.
pub open spec fn nonzero_scored(tools: Seq<UpstreamTool>, scores: Seq<u16>) -> Seq<ScoredTool>
    decreases tools.len(),
{
    if tools.len() == 0 {
        Seq::empty()
    } else {
        let n = (tools.len() - 1) as int;
        let r = nonzero_scored(tools.take(n), scores);
        if scores[n] == 0 {
            r
        } else {
            r.push((tools[n], scores[n]))
        }
    }
}

/// `s` is what a bound of `limit` keeps of `seen`: in rank order, as long as
/// the bound allows, drawn from `seen`, and every item of `seen` that is
/// missing ranks no better than anything kept.
pub open spec fn holds_best(s: Seq<ScoredTool>, seen: Seq<ScoredTool>, limit: nat) -> bool {
    &&& rank_sorted(s)
    &&& s.len() == min_nat(limit, seen.len())
    &&& forall|i: int| 0 <= i < s.len() ==> seen.contains(#[trigger] s[i])
    &&& forall|j: int|
        0 <= j < seen.len() ==> s.contains(#[trigger] seen[j]) || (s.len() == limit && forall|
            i: int,
        |
            0 <= i < s.len() ==> !rank_lt(seen[j], #[trigger] s[i]))
}

proof fn lemma_rank_lower_bound(s: Seq<ScoredTool>, x: ScoredTool)
    ensures
        rank_lower_bound(s, x) <= s.len(),
        forall|i: int| 0 <= i < rank_lower_bound(s, x) ==> rank_lt(#[trigger] s[i], x),
        rank_lower_bound(s, x) < s.len() ==> !rank_lt(s[rank_lower_bound(s, x) as int], x),
    decreases s.len(),
{
    if s.len() > 0 && rank_lt(s[0], x) {
        lemma_rank_lower_bound(s.drop_first(), x);
        assert forall|i: int| 0 <= i < rank_lower_bound(s, x) implies rank_lt(#[trigger] s[i], x) by {
            if i > 0 {
                assert(s[i] == s.drop_first()[i - 1]);
            }
        }
        if rank_lower_bound(s, x) < s.len() {
            assert(s[rank_lower_bound(s, x) as int] == s.drop_first()[rank_lower_bound(
                s.drop_first(),
                x,
            ) as int]);
        }
    }
}

proof fn lemma_rank_lower_bound_sorted(s: Seq<ScoredTool>, x: ScoredTool)
    requires
        rank_sorted(s),
    ensures
        forall|i: int| rank_lower_bound(s, x) <= i < s.len() ==> !rank_lt(#[trigger] s[i], x),
{
    lemma_rank_lower_bound(s, x);
    lemma_rank_order();
    let p = rank_lower_bound(s, x) as int;
    assert forall|i: int| p <= i < s.len() implies !rank_lt(#[trigger] s[i], x) by {
        if i > p {
            assert(!rank_lt(s[i], s[p]));
            assert(rank_lt(s[p], s[i]) || same_rank(s[p], s[i]) || rank_lt(s[i], s[p]));
        }
    }
}

proof fn lemma_ranked_insert_sorted(s: Seq<ScoredTool>, x: ScoredTool, limit: nat)
    requires
        rank_sorted(s),
    ensures
        rank_sorted(ranked_insert(s, x, limit)),
{
    lemma_rank_lower_bound(s, x);
    lemma_rank_lower_bound_sorted(s, x);
    lemma_rank_order();
    let p = rank_lower_bound(s, x) as int;
    if p < limit {
        let t = s.insert(p, x);
        assert forall|i: int, j: int| 0 <= i < j < t.len() implies !rank_lt(
            #[trigger] t[j],
            #[trigger] t[i],
        ) by {
            if j < p {
                assert(t[i] == s[i] && t[j] == s[j]);
            } else if j == p {
                assert(t[i] == s[i]);
                assert(rank_lt(s[i], x));
            } else if i < p {
                assert(t[i] == s[i] && t[j] == s[j - 1]);
                assert(rank_lt(s[i], x));
                assert(!rank_lt(s[j - 1], x));
                assert(rank_lt(x, s[j - 1]) || same_rank(x, s[j - 1]) || rank_lt(s[j - 1], x));
            } else if i == p {
                assert(t[j] == s[j - 1]);
                assert(!rank_lt(s[j - 1], x));
            } else {
                assert(t[i] == s[i - 1] && t[j] == s[j - 1]);
            }
        }
        if t.len() > limit {
            let u = t.drop_last();
            assert forall|i: int, j: int| 0 <= i < j < u.len() implies !rank_lt(
                #[trigger] u[j],
                #[trigger] u[i],
            ) by {
                assert(u[i] == t[i] && u[j] == t[j]);
            }
        }
    }
}

#[verifier::spinoff_prover]
#[verifier::rlimit(40)]
proof fn lemma_ranked_insert_keeps_best(s: Seq<ScoredTool>, seen: Seq<ScoredTool>, x: ScoredTool, limit: nat)
    requires
        holds_best(s, seen, limit),
    ensures
        holds_best(ranked_insert(s, x, limit), seen.push(x), limit),
{
    lemma_rank_lower_bound(s, x);
    lemma_rank_lower_bound_sorted(s, x);
    lemma_ranked_insert_sorted(s, x, limit);
    lemma_rank_order();
    let seen2 = seen.push(x);
    let r = ranked_insert(s, x, limit);
    let p = rank_lower_bound(s, x) as int;
    assert forall|i: int| 0 <= i < r.len() implies seen2.contains(#[trigger] r[i]) by {
        if p < limit {
            let t = s.insert(p, x);
            assert(r[i] == t[i]);
            if i < p {
                assert(t[i] == s[i]);
                assert(seen.contains(s[i]));
            } else if i == p {
                assert(seen2[seen.len() as int] == x);
            } else {
                assert(t[i] == s[i - 1]);
                assert(seen.contains(s[i - 1]));
            }
        } else {
            assert(seen.contains(s[i]));
        }
        let k = choose|k: int| 0 <= k < seen.len() && seen[k] == r[i];
        if 0 <= k < seen.len() && seen[k] == r[i] {
            assert(seen2[k] == r[i]);
        }
    }
    assert forall|j: int| 0 <= j < seen2.len() implies r.contains(#[trigger] seen2[j]) || (r.len()
        == limit && forall|i: int| 0 <= i < r.len() ==> !rank_lt(seen2[j], #[trigger] r[i])) by {
        let y = seen2[j];
        if limit == 0 {
        } else if p >= limit {
            assert(s.len() == limit);
            if j == seen.len() {
                assert forall|i: int| 0 <= i < r.len() implies !rank_lt(y, #[trigger] r[i]) by {
                    assert(rank_lt(s[i], x));
                }
            } else {
                assert(y == seen[j]);
            }
        } else {
            let t = s.insert(p, x);
            if j == seen.len() {
                assert(y == x);
                assert(t[p] == x);
                assert(r[p] == x);
            } else {
                assert(y == seen[j]);
                if s.contains(y) {
                    let k = choose|k: int| 0 <= k < s.len() && s[k] == y;
                    let kt = if k < p {
                        k
                    } else {
                        k + 1
                    };
                    assert(t[kt] == y);
                    if kt < r.len() {
                        assert(r[kt] == y);
                    } else {
                        assert(t.len() > limit);
                        assert(kt == t.len() - 1);
                        assert forall|i: int| 0 <= i < r.len() implies !rank_lt(
                            y,
                            #[trigger] r[i],
                        ) by {
                            assert(r[i] == t[i]);
                        }
                    }
                } else {
                    assert(s.len() == limit);
                    assert(forall|i: int| 0 <= i < s.len() ==> !rank_lt(y, #[trigger] s[i]));
                    assert(!rank_lt(y, s[p]));
                    assert(!rank_lt(s[p], x));
                    assert forall|i: int| 0 <= i < r.len() implies !rank_lt(y, #[trigger] r[i]) by {
                        assert(r[i] == t[i]);
                        if i < p {
                            assert(t[i] == s[i]);
                        } else if i == p {
                            assert(t[i] == x);
                            assert(rank_lt(x, s[p]) || same_rank(x, s[p]) || rank_lt(s[p], x));
                            assert(rank_lt(y, s[p]) || same_rank(y, s[p]) || rank_lt(s[p], y));
                        } else {
                            assert(t[i] == s[i - 1]);
                        }
                    }
                }
            }
        }
    }
}

/// Law: the ranked selection holds the `limit` best-ranked of the tools that
/// scored above zero, in rank order; no tool left out ranks better than a
/// tool kept.
pub proof fn law_ranked_selection_keeps_the_best(tools: Seq<UpstreamTool>, scores: Seq<u16>, limit: nat)
    requires
        scores.len() >= tools.len(),
    ensures
        holds_best(ranked_scan(tools, scores, limit), nonzero_scored(tools, scores), limit),
    decreases tools.len(),
{
    if tools.len() == 0 {
        assert(holds_best(Seq::<ScoredTool>::empty(), Seq::<ScoredTool>::empty(), limit));
    } else {
        let n = (tools.len() - 1) as int;
        law_ranked_selection_keeps_the_best(tools.take(n), scores, limit);
        if scores[n] != 0 {
            lemma_ranked_insert_keeps_best(
                ranked_scan(tools.take(n), scores, limit),
                nonzero_scored(tools.take(n), scores),
                (tools[n], scores[n]),
                limit,
            );
        }
    }
}

} // verus!
