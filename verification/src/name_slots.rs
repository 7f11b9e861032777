//! What the ambiguity-aware app-tool listing holds once every candidate has
//! been offered, stated directly rather than insertion by insertion.
//!
//! The listing keeps the `limit` smallest distinct tool names of its
//! candidates in ascending order; a name that two or more candidates claim
//! keeps its place but offers no tool.

use vstd::prelude::*;
use crate::order::str_lt;
use crate::tool_catalog::{
    NameSlot, UpstreamTool, find_slot, law_unambiguous_insert_keeps_names_sorted, lemma_find_slot,
    slot_tools, slots_sorted, unambiguous_insert, unambiguous_listing,
};
use crate::bounded::{key_lt, lower_bound, lemma_lower_bound};

verus! {

/// Exactly one candidate claims `name`.
pub open spec fn claimed_once(items: Seq<UpstreamTool>, name: Seq<char>) -> bool {
    &&& exists|j: int| 0 <= j < items.len() && #[trigger] items[j].tool.name@ == name
    &&& forall|j: int, k: int|
        0 <= j < items.len() && 0 <= k < items.len() && #[trigger] items[j].tool.name@ == name
            && #[trigger] items[k].tool.name@ == name ==> j == k
}

/// Two or more candidates claim `name`.
pub open spec fn claimed_twice(items: Seq<UpstreamTool>, name: Seq<char>) -> bool {
    exists|j: int, k: int|
        0 <= j < k < items.len() && #[trigger] items[j].tool.name@ == name && #[trigger] items[k].tool.name@ == name
}

/// A slot is accounted for by the candidates: a candidate claims its name; a
/// tool it offers is the one candidate of that name; a withheld name is
/// claimed twice.
pub open spec fn slot_accounted(items: Seq<UpstreamTool>, sl: NameSlot) -> bool {
    &&& exists|j: int| 0 <= j < items.len() && #[trigger] items[j].tool.name@ == sl.name@
    &&& match sl.tool {
        Some(t) => t.tool.name@ == sl.name@ && items.contains(t) && claimed_once(items, sl.name@),
        None => claimed_twice(items, sl.name@),
    }
}

/// Some slot carries `name`.
pub open spec fn slot_named(s: Seq<NameSlot>, name: Seq<char>) -> bool {
    exists|i: int| 0 <= i < s.len() && #[trigger] s[i].name@ == name
}

/// `name` lies past the listing's cut: the listing is full and every slot
/// sorts before it.
pub open spec fn past_cut(s: Seq<NameSlot>, name: Seq<char>, limit: nat) -> bool {
    s.len() == limit && (limit == 0 || str_lt(s.last().name@, name))
}

proof fn lemma_accounted_extends(pre: Seq<UpstreamTool>, t: UpstreamTool, sl: NameSlot)
    requires
        slot_accounted(pre, sl),
        sl.name@ != t.tool.name@,
    ensures
        slot_accounted(pre.push(t), sl),
{
    let items = pre.push(t);
    assert forall|j: int| 0 <= j < pre.len() implies #[trigger] items[j] == pre[j] by {}
    let j0 = choose|j: int| 0 <= j < pre.len() && #[trigger] pre[j].tool.name@ == sl.name@;
    assert(items[j0].tool.name@ == sl.name@);
    match sl.tool {
        Some(u) => {
            let ju = choose|j: int| 0 <= j < pre.len() && pre[j] == u;
            assert(items[ju] == u);
            assert(items.contains(u));
            assert forall|j: int, k: int|
                0 <= j < items.len() && 0 <= k < items.len() && #[trigger] items[j].tool.name@ == sl.name@
                    && #[trigger] items[k].tool.name@ == sl.name@ implies j == k by {
                assert(j < pre.len() && k < pre.len());
                assert(pre[j].tool.name@ == sl.name@ && pre[k].tool.name@ == sl.name@);
            }
        },
        None => {
            let (j, k) = choose|j: int, k: int|
                0 <= j < k < pre.len() && #[trigger] pre[j].tool.name@ == sl.name@ && #[trigger] pre[k].tool.name@
                    == sl.name@;
            assert(items[j].tool.name@ == sl.name@ && items[k].tool.name@ == sl.name@);
        },
    }
}

/// The new slot of a name no earlier candidate claimed.
proof fn lemma_fresh_slot_accounted(pre: Seq<UpstreamTool>, t: UpstreamTool)
    requires
        forall|j: int| 0 <= j < pre.len() ==> #[trigger] pre[j].tool.name@ != t.tool.name@,
    ensures
        slot_accounted(pre.push(t), NameSlot { name: t.tool.name, tool: Some(t) }),
{
    let items = pre.push(t);
    let n = pre.len() as int;
    assert(items[n] == t);
    assert(items.contains(t));
    assert forall|j: int, k: int|
        0 <= j < items.len() && 0 <= k < items.len() && #[trigger] items[j].tool.name@ == t.tool.name@
            && #[trigger] items[k].tool.name@ == t.tool.name@ implies j == k by {
        if j < n {
            assert(items[j] == pre[j]);
        }
        if k < n {
            assert(items[k] == pre[k]);
        }
    }
}

/// What the listing `s` holds of its candidates: strictly ascending names,
/// at most `limit` slots, each accounted for by the candidates, and every
/// candidate's name either in a slot or past the cut of a full listing.
pub open spec fn listing_accounts(items: Seq<UpstreamTool>, s: Seq<NameSlot>, limit: nat) -> bool {
    &&& slots_sorted(s)
    &&& s.len() <= limit
    &&& forall|i: int| 0 <= i < s.len() ==> slot_accounted(items, #[trigger] s[i])
    &&& forall|j: int|
        0 <= j < items.len() ==> slot_named(s, #[trigger] items[j].tool.name@) || past_cut(
            s,
            items[j].tool.name@,
            limit,
        )
}

/// A name already in a slot: its slot withholds it from now on.
proof fn lemma_step_claimed(pre: Seq<UpstreamTool>, t: UpstreamTool, s0: Seq<NameSlot>, limit: nat, k: int)
    requires
        listing_accounts(pre, s0, limit),
        limit > 0,
        0 <= k < s0.len(),
        s0[k].name@ == t.tool.name@,
        unambiguous_insert(s0, t, limit) == s0.update(k, NameSlot { name: s0[k].name, tool: None }),
    ensures
        listing_accounts(pre.push(t), unambiguous_insert(s0, t, limit), limit),
{
    let items = pre.push(t);
    let n = pre.len() as int;
    let name = t.tool.name@;
    let s = unambiguous_insert(s0, t, limit);
    assert forall|j: int| 0 <= j < n implies #[trigger] items[j] == pre[j] by {}
    assert(items[n] == t);
    law_unambiguous_insert_keeps_names_sorted(s0, t, limit);
    assert forall|i: int| 0 <= i < s.len() implies slot_accounted(items, #[trigger] s[i]) by {
        if i == k {
            assert(slot_accounted(pre, s0[k]));
            let j0 = choose|j: int| 0 <= j < pre.len() && #[trigger] pre[j].tool.name@ == s0[k].name@;
            assert(items[j0].tool.name@ == name);
            assert(items[n].tool.name@ == name);
            assert(claimed_twice(items, s[i].name@));
        } else {
            assert(s[i] == s0[i]);
            crate::order::lemma_str_order();
            assert(s0[i].name@ != name) by {
                if i < k {
                    assert(str_lt(s0[i].name@, s0[k].name@));
                } else {
                    assert(str_lt(s0[k].name@, s0[i].name@));
                }
            }
            lemma_accounted_extends(pre, t, s0[i]);
        }
    }
    assert forall|j: int|
        0 <= j < items.len() implies slot_named(s, #[trigger] items[j].tool.name@) || past_cut(
            s,
            items[j].tool.name@,
            limit,
        ) by {
        let nm = items[j].tool.name@;
        if j == n {
            assert(s[k].name@ == nm);
        } else {
            assert(pre[j].tool.name@ == nm);
            if slot_named(s0, nm) {
                let i = choose|i: int| 0 <= i < s0.len() && #[trigger] s0[i].name@ == nm;
                assert(s[i].name@ == nm);
            } else {
                assert(past_cut(s0, nm, limit));
                assert(s.last().name@ == s0.last().name@);
            }
        }
    }
}

/// A new name past the cut of a full listing: nothing changes.
proof fn lemma_step_past_cut(pre: Seq<UpstreamTool>, t: UpstreamTool, s0: Seq<NameSlot>, limit: nat)
    requires
        listing_accounts(pre, s0, limit),
        limit > 0,
        s0.len() == limit,
        str_lt(s0.last().name@, t.tool.name@),
        unambiguous_insert(s0, t, limit) == s0,
        forall|i: int| 0 <= i < s0.len() ==> #[trigger] s0[i].name@ != t.tool.name@,
    ensures
        listing_accounts(pre.push(t), unambiguous_insert(s0, t, limit), limit),
{
    let items = pre.push(t);
    let n = pre.len() as int;
    assert forall|j: int| 0 <= j < n implies #[trigger] items[j] == pre[j] by {}
    assert(items[n] == t);
    assert forall|i: int| 0 <= i < s0.len() implies slot_accounted(items, #[trigger] s0[i]) by {
        lemma_accounted_extends(pre, t, s0[i]);
    }
    assert forall|j: int|
        0 <= j < items.len() implies slot_named(s0, #[trigger] items[j].tool.name@) || past_cut(
            s0,
            items[j].tool.name@,
            limit,
        ) by {
        if j < n {
            assert(pre[j].tool.name@ == items[j].tool.name@);
        }
    }
}

/// A new name that enters the listing, displacing the largest name when the
/// listing is full.
proof fn lemma_step_enters(pre: Seq<UpstreamTool>, t: UpstreamTool, s0: Seq<NameSlot>, limit: nat)
    requires
        listing_accounts(pre, s0, limit),
        limit > 0,
        s0.len() < limit || (s0.len() > 0 && str_lt(t.tool.name@, s0.last().name@)),
        forall|i: int| 0 <= i < s0.len() ==> #[trigger] s0[i].name@ != t.tool.name@,
        find_slot(s0, t.tool.name@).is_none(),
    ensures
        listing_accounts(pre.push(t), unambiguous_insert(s0, t, limit), limit),
{
    let items = pre.push(t);
    let n = pre.len() as int;
    let name = t.tool.name@;
    let s = unambiguous_insert(s0, t, limit);
    assert forall|j: int| 0 <= j < n implies #[trigger] items[j] == pre[j] by {}
    assert(items[n] == t);
    law_unambiguous_insert_keeps_names_sorted(s0, t, limit);
    let slot = NameSlot { name: t.tool.name, tool: Some(t) };
    lemma_lower_bound(s0, slot);
    let p = lower_bound(s0, slot) as int;
    let ins = s0.insert(p, slot);
    assert forall|i: int| 0 <= i < s0.len() implies slot_accounted(items, #[trigger] s0[i]) by {
        lemma_accounted_extends(pre, t, s0[i]);
    }
    crate::order::lemma_str_order();
    // No earlier candidate claims the name.
    assert forall|j: int| 0 <= j < pre.len() implies #[trigger] pre[j].tool.name@ != name by {
        if pre[j].tool.name@ == name {
            if slot_named(s0, name) {
                let i = choose|i: int| 0 <= i < s0.len() && #[trigger] s0[i].name@ == name;
            }
            assert(past_cut(s0, name, limit));
        }
    }
    lemma_fresh_slot_accounted(pre, t);
    assert(ins[p] == slot);
    assert forall|i: int| 0 <= i < ins.len() implies slot_accounted(items, #[trigger] ins[i]) by {
        if i < p {
            assert(ins[i] == s0[i]);
        } else if i > p {
            assert(ins[i] == s0[i - 1]);
        }
    }
    if s0.len() < limit {
        assert(s == ins);
        assert forall|j: int|
            0 <= j < items.len() implies slot_named(s, #[trigger] items[j].tool.name@) || past_cut(
                s,
                items[j].tool.name@,
                limit,
            ) by {
            let nm = items[j].tool.name@;
            if j == n {
                assert(s[p].name@ == nm);
            } else {
                assert(pre[j].tool.name@ == nm);
                if slot_named(s0, nm) {
                    let i = choose|i: int| 0 <= i < s0.len() && #[trigger] s0[i].name@ == nm;
                    if i < p {
                        assert(s[i] == s0[i]);
                    } else {
                        assert(s[i + 1] == s0[i]);
                    }
                }
            }
        }
    } else {
        let m = s0.len() as int;
        assert(p < m) by {
            if p == m {
                assert(key_lt(s0[m - 1], slot));
            }
        }
        assert(s == ins.drop_last());
        let top = s0.last().name@;
        assert(str_lt(s.last().name@, top)) by {
            if p == m - 1 {
                assert(s.last() == slot);
            } else {
                assert(s.last() == s0[m - 2]);
                assert(str_lt(s0[m - 2].name@, s0[m - 1].name@));
            }
        }
        assert forall|i: int| 0 <= i < s.len() implies slot_accounted(items, #[trigger] s[i]) by {
            assert(s[i] == ins[i]);
        }
        assert forall|j: int|
            0 <= j < items.len() implies slot_named(s, #[trigger] items[j].tool.name@) || past_cut(
                s,
                items[j].tool.name@,
                limit,
            ) by {
            let nm = items[j].tool.name@;
            if j == n {
                assert(s[p].name@ == nm);
            } else {
                assert(pre[j].tool.name@ == nm);
                if slot_named(s0, nm) {
                    let i = choose|i: int| 0 <= i < s0.len() && #[trigger] s0[i].name@ == nm;
                    if i == m - 1 {
                        assert(past_cut(s, nm, limit));
                    } else if i < p {
                        assert(s[i] == s0[i]);
                    } else {
                        assert(s[i + 1] == s0[i]);
                    }
                } else {
                    assert(str_lt(top, nm));
                }
            }
        }
    }
}

/// Law: after every candidate has been offered, the listing's slots are in
/// strictly ascending name order, at most `limit` of them; each is accounted
/// for by the candidates (a tool it offers is the only candidate of its name,
/// a withheld name is claimed twice); and every candidate's name either has
/// a slot or lies past the cut of a full listing. So the slots carry the
/// `limit` smallest distinct names of the candidates.
pub proof fn law_unambiguous_listing_keeps_the_smallest_names(items: Seq<UpstreamTool>, limit: nat)
    ensures
        listing_accounts(items, unambiguous_listing(items, limit), limit),
    decreases items.len(),
{
    if items.len() == 0 {
        return;
    }
    let pre = items.drop_last();
    let t = items.last();
    let name = t.tool.name@;
    law_unambiguous_listing_keeps_the_smallest_names(pre, limit);
    let s0 = unambiguous_listing(pre, limit);
    assert(items =~= pre.push(t));
    lemma_find_slot(s0, name);
    if limit == 0 {
        return;
    }
    match find_slot(s0, name) {
        Some(k) => lemma_step_claimed(pre, t, s0, limit, k),
        None => {
            if s0.len() < limit || (s0.len() > 0 && str_lt(name, s0.last().name@)) {
                lemma_step_enters(pre, t, s0, limit);
            } else {
                crate::order::lemma_str_order();
                assert(s0[s0.len() - 1].name@ != name);
                lemma_step_past_cut(pre, t, s0, limit);
            }
        },
    }
}

/// The tools a sorted listing offers, in slot order.
proof fn lemma_slot_tools(s: Seq<NameSlot>)
    requires
        slots_sorted(s),
        forall|i: int| 0 <= i < s.len() && #[trigger] s[i].tool is Some ==> s[i].tool->Some_0.tool.name@ == s[i].name@,
    ensures
        slot_tools(s).len() <= s.len(),
        forall|k: int| 0 <= k < slot_tools(s).len() ==> exists|i: int| 0 <= i < s.len() && #[trigger] s[i].tool == Some(#[trigger] slot_tools(s)[k]),
        forall|i: int| 0 <= i < s.len() && #[trigger] s[i].tool is Some ==> slot_tools(s).contains(s[i].tool->Some_0),
        forall|a: int, b: int|
            0 <= a < b < slot_tools(s).len() ==> str_lt(#[trigger] slot_tools(s)[a].tool.name@, #[trigger] slot_tools(s)[b].tool.name@),
    decreases s.len(),
{
    if s.len() == 0 {
        return;
    }
    let s1 = s.drop_last();
    let m = s1.len() as int;
    assert forall|i: int| 0 <= i < m implies #[trigger] s1[i] == s[i] by {}
    lemma_slot_tools(s1);
    let r1 = slot_tools(s1);
    let r = slot_tools(s);
    match s.last().tool {
        Some(t) => {
            assert(r == r1.push(t));
            assert(s[m].tool is Some);
            assert forall|k: int| 0 <= k < r.len() implies exists|i: int| 0 <= i < s.len() && #[trigger] s[i].tool == Some(#[trigger] r[k]) by {
                if k < r1.len() {
                    assert(r[k] == r1[k]);
                    let i = choose|i: int| 0 <= i < s1.len() && #[trigger] s1[i].tool == Some(#[trigger] r1[k]);
                    assert(s[i].tool == Some(r[k]));
                } else {
                    assert(s[m].tool == Some(r[k]));
                }
            }
            assert forall|i: int| 0 <= i < s.len() && #[trigger] s[i].tool is Some implies r.contains(s[i].tool->Some_0) by {
                if i < m {
                    assert(s1[i].tool is Some);
                    let k = choose|k: int| 0 <= k < r1.len() && r1[k] == s1[i].tool->Some_0;
                    assert(r[k] == r1[k]);
                } else {
                    assert(r[r1.len() as int] == t);
                }
            }
            assert forall|a: int, b: int| 0 <= a < b < r.len() implies str_lt(#[trigger] r[a].tool.name@, #[trigger] r[b].tool.name@) by {
                assert(r[a] == r1[a]);
                if b < r1.len() {
                    assert(r[b] == r1[b]);
                } else {
                    let i = choose|i: int| 0 <= i < s1.len() && #[trigger] s1[i].tool == Some(#[trigger] r1[a]);
                    assert(s[i].tool is Some);
                    assert(str_lt(s[i].name@, s[m].name@));
                }
            }
        },
        None => {
            assert(r == r1);
            assert forall|k: int| 0 <= k < r.len() implies exists|i: int| 0 <= i < s.len() && #[trigger] s[i].tool == Some(#[trigger] r[k]) by {
                let i = choose|i: int| 0 <= i < s1.len() && #[trigger] s1[i].tool == Some(#[trigger] r1[k]);
                assert(s[i].tool == Some(r[k]));
            }
            assert forall|i: int| 0 <= i < s.len() && #[trigger] s[i].tool is Some implies r.contains(s[i].tool->Some_0) by {
                assert(i < m);
                assert(s1[i].tool is Some);
            }
        },
    }
}

/// Law: the app tools handed out are the tools of the listing's slots in
/// order: names strictly ascending, at most `limit` of them, each the only
/// candidate of its name; a name two candidates claim is never handed out;
/// and every candidate that is the only one of its name and holds a slot is
/// handed out.
pub proof fn law_app_listing_offers_the_smallest_unambiguous_names(items: Seq<UpstreamTool>, limit: nat)
    ensures
        ({
            let s = unambiguous_listing(items, limit);
            let r = slot_tools(s);
            &&& r.len() <= limit
            &&& forall|a: int, b: int|
                0 <= a < b < r.len() ==> str_lt(#[trigger] r[a].tool.name@, #[trigger] r[b].tool.name@)
            &&& forall|k: int| 0 <= k < r.len() ==> items.contains(#[trigger] r[k]) && claimed_once(items, r[k].tool.name@)
            &&& forall|j: int, k: int|
                0 <= j < items.len() && 0 <= k < r.len() && claimed_twice(items, #[trigger] items[j].tool.name@)
                    ==> #[trigger] r[k].tool.name@ != items[j].tool.name@
            &&& forall|j: int|
                0 <= j < items.len() && claimed_once(items, #[trigger] items[j].tool.name@) && slot_named(
                    s,
                    items[j].tool.name@,
                ) ==> r.contains(items[j])
        }),
{
    let s = unambiguous_listing(items, limit);
    law_unambiguous_listing_keeps_the_smallest_names(items, limit);
    assert forall|i: int| 0 <= i < s.len() && #[trigger] s[i].tool is Some implies s[i].tool->Some_0.tool.name@
        == s[i].name@ by {
        assert(slot_accounted(items, s[i]));
    }
    lemma_slot_tools(s);
    let r = slot_tools(s);
    assert forall|k: int| 0 <= k < r.len() implies items.contains(#[trigger] r[k]) && claimed_once(items, r[k].tool.name@) by {
        let i = choose|i: int| 0 <= i < s.len() && #[trigger] s[i].tool == Some(#[trigger] r[k]);
        assert(slot_accounted(items, s[i]));
    }
    assert forall|j: int, k: int|
        0 <= j < items.len() && 0 <= k < r.len() && claimed_twice(items, #[trigger] items[j].tool.name@)
            implies #[trigger] r[k].tool.name@ != items[j].tool.name@ by {
        assert(claimed_once(items, r[k].tool.name@));
        if r[k].tool.name@ == items[j].tool.name@ {
            let nm = items[j].tool.name@;
            let (a, b) = choose|a: int, b: int|
                0 <= a < b < items.len() && #[trigger] items[a].tool.name@ == nm && #[trigger] items[b].tool.name@ == nm;
            assert(a == b);
        }
    }
    assert forall|j: int|
        0 <= j < items.len() && claimed_once(items, #[trigger] items[j].tool.name@) && slot_named(s, items[j].tool.name@)
            implies r.contains(items[j]) by {
        let nm = items[j].tool.name@;
        let i = choose|i: int| 0 <= i < s.len() && #[trigger] s[i].name@ == nm;
        assert(slot_accounted(items, s[i]));
        match s[i].tool {
            Some(t) => {
                let q = choose|q: int| 0 <= q < items.len() && items[q] == t;
                assert(items[q].tool.name@ == nm);
                assert(q == j);
            },
            None => {
                let (a, b) = choose|a: int, b: int|
                    0 <= a < b < items.len() && #[trigger] items[a].tool.name@ == nm && #[trigger] items[b].tool.name@ == nm;
                assert(a == b);
            },
        }
    }
}

} // verus!
