//! Subject-scoped (OAuth) tool discovery as a state machine.
//!
//! The caller owns the I/O: it reads the subject's cached connections, dials
//! the upstreams this scan asks for, and hands each outcome back. The scan
//! decides what is inspected, what is kept, and when the whole enumeration
//! fails closed rather than return a partial view that looks complete.

use vstd::prelude::*;
use crate::bounded::{
    bounded_insert, bounded_listing, insert_bounded, insert_each, pair_less, SortKeyed,
};
use crate::exposure::ExposurePolicy;
use crate::tool_catalog::{
    group_by_upstream, group_fold, groups_view, sat_add, ToolDescriptor, UpstreamTool,
    MAX_SUBJECT_SCOPED_UPSTREAMS, MAX_UPSTREAM_TOOLS,
};

verus! {

broadcast use vstd::string::group_string_axioms;

/// One listed tool with the caller's filter verdict (`true` when the listing
/// has no filter).
#[derive(Debug)]
pub struct ScannedTool {
    pub tool: ToolDescriptor,
    pub selected: bool,
}

/// What one step tells the caller to do next.
#[derive(Debug, Clone, Copy, PartialEq, Eq, Structural)]
pub enum ScanStep {
    Continue,
    /// Stop feeding results; finish the scan.
    Stop,
    /// The enumeration failed closed: report nothing.
    Failed,
}

/// The outcome of one subject-scoped enumeration.
#[derive(Debug)]
pub struct SubjectScopedToolsResult {
    pub tools: Vec<(String, Vec<ToolDescriptor>)>,
    pub inspected: usize,
    pub incomplete: bool,
}

impl SubjectScopedToolsResult {
    /// The empty, incomplete answer of an enumeration that failed closed.
    pub fn failed_closed(inspected: usize) -> (r: Self)
        ensures
            r.tools@.len() == 0,
            r.inspected == inspected,
            r.incomplete,
    {
        SubjectScopedToolsResult { tools: Vec::new(), inspected, incomplete: true }
    }
}

/// A discovered upstream's tools, ordered by upstream name.
impl SortKeyed for (String, Vec<ToolDescriptor>) {
    open spec fn sort_key(&self) -> (Seq<char>, Seq<char>) {
        (self.0@, Seq::empty())
    }

    fn key_less(&self, other: &Self) -> (b: bool) {
        proof {
            reveal_strlit("");
        }
        pair_less(self.0.as_str(), "", other.0.as_str(), "")
    }
}

/// The running state of one enumeration.
#[derive(Debug)]
pub struct SubjectToolsScan {
    /// Result bound; `None` collects complete per-upstream lists instead.
    pub limit: Option<usize>,
    /// Serialized bytes the exposed tools may add up to.
    pub byte_limit: usize,
    pub bounded: Vec<UpstreamTool>,
    pub discovered: Vec<(String, Vec<ToolDescriptor>)>,
    pub exposed_count: usize,
    pub exposed_bytes: usize,
    /// Tools that may still be inspected.
    pub remaining: usize,
    pub inspected: usize,
    pub incomplete: bool,
}

/// The abstract state of a scan.
pub struct ScanView {
    pub bounded: Seq<UpstreamTool>,
    pub exposed_count: int,
    pub exposed_bytes: int,
    pub remaining: int,
    pub inspected: int,
    pub incomplete: bool,
}

pub open spec fn limit_or_max(limit: Option<usize>) -> nat {
    match limit {
        Some(l) => l as nat,
        None => usize::MAX as nat,
    }
}

impl SubjectToolsScan {
    pub open spec fn view_state(&self) -> ScanView {
        ScanView {
            bounded: self.bounded@,
            exposed_count: self.exposed_count as int,
            exposed_bytes: self.exposed_bytes as int,
            remaining: self.remaining as int,
            inspected: self.inspected as int,
            incomplete: self.incomplete,
        }
    }

    /// Counters stay within `usize`: every inspection spends one unit of
    /// the budget.
    pub open spec fn wf(&self) -> bool {
        &&& self.inspected + self.remaining <= usize::MAX
        &&& self.exposed_count <= self.inspected
        &&& self.exposed_bytes <= self.byte_limit
    }
}

/// One tool of a cached connection: spend one inspection; an exposed,
/// selected tool adds its bytes (failing closed past the budget) and enters
/// the bounded listing.
pub open spec fn cached_tool_step(
    s: ScanView,
    upstream: String,
    t: ScannedTool,
    policy: ExposurePolicy,
    byte_limit: int,
    limit: nat,
) -> (ScanView, ScanStep) {
    if s.remaining == 0 {
        (
            ScanView {
                bounded: s.bounded,
                exposed_count: s.exposed_count,
                exposed_bytes: s.exposed_bytes,
                remaining: s.remaining,
                inspected: s.inspected,
                incomplete: true,
            },
            ScanStep::Stop,
        )
    } else if !policy.spec_matches(t.tool.name@) || !t.selected {
        (
            ScanView {
                bounded: s.bounded,
                exposed_count: s.exposed_count,
                exposed_bytes: s.exposed_bytes,
                remaining: s.remaining - 1,
                inspected: s.inspected + 1,
                incomplete: s.incomplete,
            },
            ScanStep::Continue,
        )
    } else {
        let bytes = sat_add(s.exposed_bytes, t.tool.serialized_bytes as int);
        if bytes > byte_limit {
            (
                ScanView {
                    bounded: s.bounded,
                    exposed_count: s.exposed_count + 1,
                    exposed_bytes: bytes,
                    remaining: s.remaining - 1,
                    inspected: s.inspected + 1,
                    incomplete: s.incomplete,
                },
                ScanStep::Failed,
            )
        } else {
            (
                ScanView {
                    bounded: bounded_insert(
                        s.bounded,
                        UpstreamTool { upstream_name: upstream, tool: t.tool },
                        limit,
                    ),
                    exposed_count: s.exposed_count + 1,
                    exposed_bytes: bytes,
                    remaining: s.remaining - 1,
                    inspected: s.inspected + 1,
                    incomplete: s.incomplete,
                },
                ScanStep::Continue,
            )
        }
    }
}

/// The tools of one cached connection, front to back, until a step stops.
pub open spec fn cached_scan(
    s: ScanView,
    upstream: String,
    ts: Seq<ScannedTool>,
    policy: ExposurePolicy,
    byte_limit: int,
    limit: nat,
) -> (ScanView, ScanStep)
    decreases ts.len(),
{
    if ts.len() == 0 {
        (s, ScanStep::Continue)
    } else {
        let (s1, step) = cached_tool_step(s, upstream, ts[0], policy, byte_limit, limit);
        if step == ScanStep::Continue {
            cached_scan(s1, upstream, ts.drop_first(), policy, byte_limit, limit)
        } else {
            (s1, step)
        }
    }
}

/// The exposed, selected tools of `ts`, routed to `upstream`, in order.
pub open spec fn selected_exposed(upstream: String, ts: Seq<ScannedTool>, policy: ExposurePolicy) -> Seq<
    UpstreamTool,
>
    decreases ts.len(),
{
    if ts.len() == 0 {
        Seq::empty()
    } else {
        let r = selected_exposed(upstream, ts.drop_last(), policy);
        let t = ts.last();
        if policy.spec_matches(t.tool.name@) && t.selected {
            r.push(UpstreamTool { upstream_name: upstream, tool: t.tool })
        } else {
            r
        }
    }
}

/// The running byte total after adding each tool's serialized size.
pub open spec fn bytes_after(start: int, ts: Seq<UpstreamTool>) -> int
    decreases ts.len(),
{
    if ts.len() == 0 {
        start
    } else {
        sat_add(bytes_after(start, ts.drop_last()), ts.last().tool.serialized_bytes as int)
    }
}

pub open spec fn descriptors_of_seq(ts: Seq<UpstreamTool>) -> Seq<ToolDescriptor> {
    ts.map_values(|t: UpstreamTool| t.tool)
}

pub open spec fn min_int(a: int, b: int) -> int {
    if a <= b {
        a
    } else {
        b
    }
}

impl SubjectToolsScan {
    /// Begin an enumeration over `eligible_count` OAuth upstreams; `None`
    /// when there are too many to enumerate, which fails closed.
    pub fn start(eligible_count: usize, limit: Option<usize>, has_predicate: bool, byte_limit: usize) -> (r:
        Option<Self>)
        ensures
            eligible_count > MAX_SUBJECT_SCOPED_UPSTREAMS ==> r.is_none(),
            eligible_count <= MAX_SUBJECT_SCOPED_UPSTREAMS ==> r.is_some(),
            r matches Some(s) ==> {
                &&& s.wf()
                &&& s.limit == limit
                &&& s.byte_limit == byte_limit
                &&& s.bounded@.len() == 0
                &&& s.discovered@.len() == 0
                &&& s.exposed_count == 0
                &&& s.exposed_bytes == 0
                &&& s.inspected == 0
                &&& !s.incomplete
                &&& s.remaining == if has_predicate {
                    limit_or_max(limit)
                } else {
                    usize::MAX as nat
                }
            },
    {
        if eligible_count > MAX_SUBJECT_SCOPED_UPSTREAMS {
            return None;
        }
        let remaining = if has_predicate {
            match limit {
                Some(l) => l,
                None => usize::MAX,
            }
        } else {
            usize::MAX
        };
        Some(
            SubjectToolsScan {
                limit,
                byte_limit,
                bounded: Vec::new(),
                discovered: Vec::new(),
                exposed_count: 0,
                exposed_bytes: 0,
                remaining,
                inspected: 0,
                incomplete: false,
            },
        )
    }

    /// Feed the tools of one live cached connection.
    pub fn ingest_cached(&mut self, upstream: &String, policy: &ExposurePolicy, tools: &Vec<ScannedTool>) -> (step:
        ScanStep)
        requires
            old(self).wf(),
        ensures
            step != ScanStep::Failed ==> final(self).wf(),
            final(self).limit == old(self).limit,
            final(self).byte_limit == old(self).byte_limit,
            final(self).discovered == old(self).discovered,
            (final(self).view_state(), step) == cached_scan(
                old(self).view_state(),
                *upstream,
                tools@,
                *policy,
                old(self).byte_limit as int,
                limit_or_max(old(self).limit),
            ),
    {
        let n = tools.len();
        let mut i: usize = 0;
        let ghost s0 = self.view_state();
        proof {
            assert(tools@.subrange(0, n as int) =~= tools@);
        }
        while i < n
            invariant
                i <= n == tools@.len(),
                self.wf(),
                self.limit == old(self).limit,
                self.byte_limit == old(self).byte_limit,
                self.discovered == old(self).discovered,
                s0 == old(self).view_state(),
                cached_scan(
                    s0,
                    *upstream,
                    tools@,
                    *policy,
                    old(self).byte_limit as int,
                    limit_or_max(old(self).limit),
                ) == cached_scan(
                    self.view_state(),
                    *upstream,
                    tools@.subrange(i as int, n as int),
                    *policy,
                    old(self).byte_limit as int,
                    limit_or_max(old(self).limit),
                ),
            decreases n - i,
        {
            let ghost before = self.view_state();
            proof {
                let rest = tools@.subrange(i as int, n as int);
                assert(rest[0] == tools@[i as int]);
                assert(rest.drop_first() =~= tools@.subrange(i + 1, n as int));
            }
            let t = &tools[i];
            if self.remaining == 0 {
                self.incomplete = true;
                return ScanStep::Stop;
            }
            self.remaining = self.remaining - 1;
            self.inspected = self.inspected + 1;
            if policy.matches(t.tool.name.as_str()) && t.selected {
                self.exposed_count = self.exposed_count + 1;
                self.exposed_bytes = self.exposed_bytes.saturating_add(t.tool.serialized_bytes);
                if self.exposed_bytes > self.byte_limit {
                    return ScanStep::Failed;
                }
                let limit = match self.limit {
                    Some(l) => l,
                    None => usize::MAX,
                };
                insert_bounded(
                    &mut self.bounded,
                    UpstreamTool { upstream_name: upstream.clone(), tool: t.tool.clone() },
                    limit,
                );
            }
            i = i + 1;
        }
        ScanStep::Continue
    }

    /// Whether a configured OAuth upstream still needs a live fan-out request:
    /// budget left, enabled, OAuth, and not already read from cache.
    pub fn needs_fanout(&self, enabled: bool, oauth: bool, cached: bool) -> (b: bool)
        ensures
            b == (self.remaining > 0 && enabled && oauth && !cached),
    {
        self.remaining > 0 && enabled && oauth && !cached
    }

    /// The enumeration's shared deadline passed.
    pub fn timed_out(&mut self)
        ensures
            final(self).view_state() == (ScanView { incomplete: true, ..old(self).view_state() }),
            final(self).limit == old(self).limit,
            final(self).byte_limit == old(self).byte_limit,
            final(self).discovered == old(self).discovered,
            final(self).wf() == old(self).wf(),
    {
        self.incomplete = true;
    }

    /// Feed one upstream's fan-out outcome (`None` when discovery failed).
    ///
    /// At most the remaining budget of tools is inspected; the exposed,
    /// selected ones are sorted by name, their bytes counted (failing closed
    /// past the budget), and then either entered into the bounded listing or,
    /// unbounded, kept whole (failing closed past [`MAX_UPSTREAM_TOOLS`]).
    /// A listing cut short by the budget stops the enumeration.
    pub fn ingest_result(
        &mut self,
        upstream: &String,
        policy: &ExposurePolicy,
        result: Option<&Vec<ScannedTool>>,
    ) -> (step: ScanStep)
        requires
            old(self).wf(),
        ensures
            step != ScanStep::Failed ==> final(self).wf(),
            final(self).limit == old(self).limit,
            final(self).byte_limit == old(self).byte_limit,
            match result {
                None => {
                    &&& step == ScanStep::Continue
                    &&& final(self).view_state() == (ScanView {
                        incomplete: true,
                        ..old(self).view_state()
                    })
                    &&& final(self).discovered == old(self).discovered
                },
                Some(ts) => {
                    let k = min_int(ts@.len() as int, old(self).remaining as int);
                    let exhausted = ts@.len() > old(self).remaining;
                    let exposed = bounded_listing(
                        selected_exposed(*upstream, ts@.subrange(0, k), *policy),
                        usize::MAX as nat,
                    );
                    let bytes = bytes_after(old(self).exposed_bytes as int, exposed);
                    let count = sat_add(old(self).exposed_count as int, exposed.len() as int);
                    &&& final(self).remaining == old(self).remaining - k
                    &&& final(self).inspected == old(self).inspected + k
                    &&& if bytes > old(self).byte_limit {
                        step == ScanStep::Failed
                    } else if old(self).limit.is_none() && count > MAX_UPSTREAM_TOOLS {
                        step == ScanStep::Failed
                    } else {
                        &&& final(self).exposed_bytes == bytes
                        &&& final(self).exposed_count == count
                        &&& final(self).incomplete == (old(self).incomplete || exhausted)
                        &&& step == (if exhausted {
                            ScanStep::Stop
                        } else {
                            ScanStep::Continue
                        })
                        &&& match old(self).limit {
                            Some(l) => {
                                &&& final(self).bounded@ == insert_each(
                                    old(self).bounded@,
                                    exposed,
                                    l as nat,
                                )
                                &&& final(self).discovered == old(self).discovered
                            },
                            None => {
                                &&& final(self).bounded@ == old(self).bounded@
                                &&& groups_view(final(self).discovered@) == groups_view(
                                    old(self).discovered@,
                                ).push((upstream@, descriptors_of_seq(exposed)))
                            },
                        }
                    }
                },
            },
    {
        let ts = match result {
            None => {
                self.incomplete = true;
                return ScanStep::Continue;
            },
            Some(ts) => ts,
        };
        let n = ts.len();
        let mut picked: Vec<UpstreamTool> = Vec::new();
        let mut i: usize = 0;
        let ghost r0 = self.remaining;
        let ghost i0 = self.inspected;
        while i < n && self.remaining > 0
            invariant
                i <= n == ts@.len(),
                self.wf(),
                self.remaining == r0 - i,
                self.inspected == i0 + i,
                i <= r0,
                self.limit == old(self).limit,
                self.byte_limit == old(self).byte_limit,
                self.bounded == old(self).bounded,
                self.discovered == old(self).discovered,
                self.exposed_count == old(self).exposed_count,
                self.exposed_bytes == old(self).exposed_bytes,
                self.incomplete == old(self).incomplete,
                r0 == old(self).remaining,
                i0 == old(self).inspected,
                picked@ == selected_exposed(*upstream, ts@.subrange(0, i as int), *policy),
            decreases n - i,
        {
            proof {
                assert(ts@.subrange(0, i + 1).drop_last() =~= ts@.subrange(0, i as int));
            }
            self.remaining = self.remaining - 1;
            self.inspected = self.inspected + 1;
            let t = &ts[i];
            if policy.matches(t.tool.name.as_str()) && t.selected {
                picked.push(UpstreamTool { upstream_name: upstream.clone(), tool: t.tool.clone() });
            }
            i = i + 1;
        }
        let exhausted = i < n;
        assert(i == min_int(n as int, r0 as int));
        let exposed = sorted_by_name(&picked);
        proof {
            lemma_selected_len(*upstream, ts@.subrange(0, i as int), *policy);
            crate::bounded::law_bounded_listing_holds_smallest(picked@, usize::MAX as nat);
        }
        let bytes = match bytes_within(self.exposed_bytes, &exposed, self.byte_limit) {
            Some(b) => b,
            None => return ScanStep::Failed,
        };
        assert(exposed@.len() == picked@.len());
        assert(self.exposed_count + exposed@.len() <= self.inspected);
        self.exposed_bytes = bytes;
        self.exposed_count = self.exposed_count.saturating_add(exposed.len());
        match self.limit {
            Some(l) => {
                let mut q: usize = 0;
                let ghost mid = *self;
                while q < exposed.len()
                    invariant
                        q <= exposed@.len(),
                        self.limit == mid.limit,
                        self.limit == Some(l),
                        self.byte_limit == mid.byte_limit,
                        self.discovered == mid.discovered,
                        self.exposed_count == mid.exposed_count,
                        self.exposed_bytes == mid.exposed_bytes,
                        self.remaining == mid.remaining,
                        self.inspected == mid.inspected,
                        self.incomplete == mid.incomplete,
                        self.bounded@ == insert_each(
                            old(self).bounded@,
                            exposed@.subrange(0, q as int),
                            l as nat,
                        ),
                    decreases exposed.len() - q,
                {
                    proof {
                        assert(exposed@.subrange(0, q + 1).drop_last() =~= exposed@.subrange(
                            0,
                            q as int,
                        ));
                    }
                    insert_bounded(&mut self.bounded, exposed[q].clone(), l);
                    q = q + 1;
                }
                proof {
                    assert(exposed@.subrange(0, exposed@.len() as int) =~= exposed@);
                }
            },
            None => {
                if self.exposed_count > MAX_UPSTREAM_TOOLS {
                    return ScanStep::Failed;
                }
                let mut descs: Vec<ToolDescriptor> = Vec::new();
                let mut q: usize = 0;
                while q < exposed.len()
                    invariant
                        q <= exposed@.len(),
                        descs@ == descriptors_of_seq(exposed@.subrange(0, q as int)),
                    decreases exposed.len() - q,
                {
                    descs.push(exposed[q].tool.clone());
                    proof {
                        assert(descs@ =~= descriptors_of_seq(exposed@.subrange(0, q + 1)));
                    }
                    q = q + 1;
                }
                proof {
                    assert(exposed@.subrange(0, exposed@.len() as int) =~= exposed@);
                }
                self.discovered.push((upstream.clone(), descs));
                proof {
                    assert(groups_view(self.discovered@) =~= groups_view(old(self).discovered@).push(
                        (upstream@, descriptors_of_seq(exposed@)),
                    ));
                }
            },
        }
        if exhausted {
            self.incomplete = true;
            return ScanStep::Stop;
        }
        ScanStep::Continue
    }

    /// The enumeration's answer: the bounded listing grouped by upstream
    /// (incomplete also when candidates were cut), or every upstream's complete
    /// list in upstream-name order.
    pub fn finish(self) -> (r: SubjectScopedToolsResult)
        ensures
            r.inspected == self.inspected,
            match self.limit {
                Some(l) => {
                    &&& groups_view(r.tools@) == group_fold(self.bounded@)
                    &&& r.incomplete == (self.incomplete || self.exposed_count > l)
                },
                None => {
                    &&& r.tools@ == bounded_listing(self.discovered@, usize::MAX as nat)
                    &&& r.incomplete == self.incomplete
                },
            },
    {
        match self.limit {
            Some(l) => {
                let incomplete = self.incomplete || self.exposed_count > l;
                SubjectScopedToolsResult {
                    tools: group_by_upstream(self.bounded),
                    inspected: self.inspected,
                    incomplete,
                }
            },
            None => {
                let inspected = self.inspected;
                let incomplete = self.incomplete;
                let ghost all = self.discovered@;
                let mut rest = self.discovered;
                let mut sorted: Vec<(String, Vec<ToolDescriptor>)> = Vec::new();
                let n = rest.len();
                proof {
                    assert(all.subrange(0, 0) =~= Seq::<(String, Vec<ToolDescriptor>)>::empty());
                    assert(all.subrange(0, n as int) =~= all);
                }
                while rest.len() > 0
                    invariant
                        n == all.len(),
                        rest@.len() <= n,
                        rest@ == all.subrange(n - rest@.len(), n as int),
                        sorted@ == bounded_listing(
                            all.subrange(0, n - rest@.len()),
                            usize::MAX as nat,
                        ),
                    decreases rest.len(),
                {
                    let ghost done = n - rest@.len();
                    let g = rest.remove(0);
                    proof {
                        assert(g == all[done]);
                        assert(all.subrange(0, done + 1).drop_last() =~= all.subrange(0, done));
                        assert(rest@ =~= all.subrange(done + 1, n as int));
                    }
                    insert_bounded(&mut sorted, g, usize::MAX);
                }
                proof {
                    assert(all.subrange(0, n as int) =~= all);
                }
                SubjectScopedToolsResult { tools: sorted, inspected, incomplete }
            },
        }
    }
}

proof fn lemma_selected_len(upstream: String, ts: Seq<ScannedTool>, policy: ExposurePolicy)
    ensures
        selected_exposed(upstream, ts, policy).len() <= ts.len(),
    decreases ts.len(),
{
    if ts.len() > 0 {
        lemma_selected_len(upstream, ts.drop_last(), policy);
    }
}

/// The tools sorted by name (then upstream).
fn sorted_by_name(picked: &Vec<UpstreamTool>) -> (exposed: Vec<UpstreamTool>)
    ensures
        exposed@ == bounded_listing(picked@, usize::MAX as nat),
{
    let mut exposed: Vec<UpstreamTool> = Vec::new();
    let mut j: usize = 0;
    while j < picked.len()
        invariant
            j <= picked@.len(),
            exposed@ == bounded_listing(picked@.subrange(0, j as int), usize::MAX as nat),
        decreases picked.len() - j,
    {
        proof {
            assert(picked@.subrange(0, j + 1).drop_last() =~= picked@.subrange(0, j as int));
        }
        insert_bounded(&mut exposed, picked[j].clone(), usize::MAX);
        j = j + 1;
    }
    proof {
        assert(picked@.subrange(0, picked@.len() as int) =~= picked@);
    }
    exposed
}

/// The running byte total over `ts` from `start`, or `None` once it passes
/// `limit`.
fn bytes_within(start: usize, ts: &Vec<UpstreamTool>, limit: usize) -> (r: Option<usize>)
    requires
        start <= limit,
    ensures
        match r {
            Some(b) => b == bytes_after(start as int, ts@) && b <= limit,
            None => bytes_after(start as int, ts@) > limit,
        },
{
    let mut bytes = start;
    let mut b: usize = 0;
    while b < ts.len()
        invariant
            b <= ts@.len(),
            start <= limit,
            bytes == bytes_after(start as int, ts@.subrange(0, b as int)),
            bytes <= limit,
        decreases ts.len() - b,
    {
        proof {
            assert(ts@.subrange(0, b + 1).drop_last() =~= ts@.subrange(0, b as int));
        }
        bytes = bytes.saturating_add(ts[b].tool.serialized_bytes);
        if bytes > limit {
            proof {
                lemma_bytes_after_monotone(start as int, ts@, b + 1);
            }
            return None;
        }
        b = b + 1;
    }
    proof {
        assert(ts@.subrange(0, ts@.len() as int) =~= ts@);
    }
    Some(bytes)
}

/// The running total never decreases.
proof fn lemma_bytes_after_monotone(start: int, ts: Seq<UpstreamTool>, b: int)
    requires
        0 <= b <= ts.len(),
        0 <= start <= usize::MAX,
    ensures
        bytes_after(start, ts.subrange(0, b)) <= bytes_after(start, ts),
        bytes_after(start, ts) <= usize::MAX,
    decreases ts.len(),
{
    if ts.len() == 0 {
        assert(ts.subrange(0, b) =~= ts);
    } else if b == ts.len() {
        assert(ts.subrange(0, b) =~= ts);
        lemma_bytes_after_monotone(start, ts.drop_last(), 0);
    } else {
        lemma_bytes_after_monotone(start, ts.drop_last(), b);
        assert(ts.drop_last().subrange(0, b) =~= ts.subrange(0, b));
    }
}

} // verus!
