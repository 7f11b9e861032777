//! The `skills/list` pagination walk as a state machine.
//!
//! Budgets engage per page: the walk stops the moment the skill cap, the
//! candidate cap, the page cap or the wall-clock budget is reached, before the
//! next request. A preview walk also stops as soon as it holds its skill cap,
//! since a further page could not contribute. A cursor that repeats ends the
//! walk at once. Truncation by a
//! budget is reported and the snapshot stays cacheable; a failed page fails
//! the whole walk, since a partial traversal is never a complete snapshot.

use vstd::prelude::*;
use crate::kv::{kv_insert, kv_map, kv_remove};
use crate::skills_cache::{ExcludedSkill, SkillBindingRef, SkillRecord, UpstreamSkills};
use crate::text::{concat_parts, concat_views, opt_chars};

verus! {

broadcast use vstd::string::group_string_axioms;

/// One entry of a page, validated: the skill, or why it was excluded.
pub type SkillCandidate = Result<SkillRecord, ExcludedSkill>;

/// One decoded `skills/list` page.
#[derive(Debug)]
pub struct SkillsPage {
    pub entries: Vec<SkillCandidate>,
    pub ttl_ms: Option<u64>,
    pub cache_scope: Option<String>,
    pub next_cursor: Option<String>,
}

/// The running walk.
#[derive(Debug)]
pub struct SkillsWalk {
    pub out: UpstreamSkills,
    pub cursor: Option<String>,
    /// Pages requested so far.
    pub pages: usize,
    pub max_pages: usize,
    pub max_skills: usize,
    pub max_candidates: usize,
    /// When the wall-clock budget runs out, in milliseconds.
    pub deadline_ms: u64,
    /// A preview: once `max_skills` skills are held, follow no further page.
    pub stop_when_full: bool,
}

/// What the walk asks for next.
#[derive(Debug)]
pub enum WalkStep {
    /// Request a page with this cursor (`None`: the first page).
    Request(Option<String>),
    /// The walk is over; take the snapshot.
    Done,
    /// The walk failed with this message.
    Failed(String),
}

/// The abstract accumulation of a walk.
pub struct IngestView {
    pub skills: Seq<SkillRecord>,
    pub excluded: Seq<ExcludedSkill>,
    pub discovered: int,
    pub capped: bool,
}

/// One entry: always discovered; once capped nothing more is kept; the
/// candidate cap bounds valid and excluded entries together, the skill cap
/// bounds valid ones.
pub open spec fn ingest_entry(s: IngestView, e: SkillCandidate, max_skills: nat, max_candidates: nat) -> IngestView {
    let discovered = s.discovered + 1;
    if s.capped {
        IngestView { discovered, ..s }
    } else if s.skills.len() + s.excluded.len() >= max_candidates {
        IngestView { discovered, capped: true, ..s }
    } else {
        match e {
            Ok(skill) => if s.skills.len() >= max_skills {
                IngestView { discovered, capped: true, ..s }
            } else {
                IngestView { discovered, skills: s.skills.push(skill), ..s }
            },
            Err(x) => IngestView { discovered, excluded: s.excluded.push(x), ..s },
        }
    }
}

pub open spec fn ingest_all(s: IngestView, es: Seq<SkillCandidate>, max_skills: nat, max_candidates: nat) -> IngestView
    decreases es.len(),
{
    if es.len() == 0 {
        s
    } else {
        ingest_entry(ingest_all(s, es.drop_last(), max_skills, max_candidates), es.last(), max_skills, max_candidates)
    }
}

/// The smaller of two `ttlMs` values; either when only one is present.
pub open spec fn merge_ttl(a: Option<u64>, b: Option<u64>) -> Option<u64> {
    match (a, b) {
        (Some(x), Some(y)) => Some(if x <= y { x } else { y }),
        (Some(x), None) => Some(x),
        (None, y) => y,
    }
}

impl SkillsWalk {
    pub open spec fn ingest_view(&self) -> IngestView {
        IngestView {
            skills: self.out.skills@,
            excluded: self.out.excluded@,
            discovered: self.out.discovered_count as int,
            capped: false,
        }
    }

    /// A fresh walk with its budgets.
    pub fn new(max_pages: usize, max_skills: usize, max_candidates: usize, deadline_ms: u64) -> (w: Self)
        ensures
            w.out.skills@.len() == 0,
            w.out.excluded@.len() == 0,
            !w.out.truncated,
            w.out.ttl_ms.is_none(),
            w.out.cache_scope.is_none(),
            w.out.discovered_count == 0,
            w.cursor.is_none(),
            w.pages == 0,
            w.max_pages == max_pages,
            w.max_skills == max_skills,
            w.max_candidates == max_candidates,
            w.deadline_ms == deadline_ms,
            !w.stop_when_full,
    {
        SkillsWalk {
            out: UpstreamSkills::empty(),
            cursor: None,
            pages: 0,
            max_pages,
            max_skills,
            max_candidates,
            deadline_ms,
            stop_when_full: false,
        }
    }

    /// A bounded preview walk: as [`SkillsWalk::new`], but once `max_skills`
    /// skills are held it requests no page that could not contribute.
    pub fn preview(max_pages: usize, max_skills: usize, max_candidates: usize, deadline_ms: u64) -> (w: Self)
        ensures
            w.out.skills@.len() == 0,
            w.out.excluded@.len() == 0,
            !w.out.truncated,
            w.out.ttl_ms.is_none(),
            w.out.cache_scope.is_none(),
            w.out.discovered_count == 0,
            w.cursor.is_none(),
            w.pages == 0,
            w.max_pages == max_pages,
            w.max_skills == max_skills,
            w.max_candidates == max_candidates,
            w.deadline_ms == deadline_ms,
            w.stop_when_full,
    {
        let mut w = Self::new(max_pages, max_skills, max_candidates, deadline_ms);
        w.stop_when_full = true;
        w
    }

    /// What to do before the next page: stop at the page cap (a pending
    /// cursor marks the snapshot truncated) or past the deadline (truncated);
    /// otherwise request the page.
    pub fn next_request(&mut self, now_ms: u64) -> (step: WalkStep)
        ensures
            old(self).pages >= old(self).max_pages ==> (step matches WalkStep::Done)
                && final(self).out.truncated == (old(self).out.truncated || old(self).cursor.is_some()),
            old(self).pages < old(self).max_pages && now_ms >= old(self).deadline_ms ==> (step matches WalkStep::Done)
                && final(self).out.truncated,
            old(self).pages < old(self).max_pages && now_ms < old(self).deadline_ms ==> (step matches WalkStep::Request(c)
                && opt_chars(c) == opt_chars(old(self).cursor)) && final(self).out.truncated == old(self).out.truncated,
            final(self).out.skills == old(self).out.skills,
            final(self).out.excluded == old(self).out.excluded,
            final(self).out.ttl_ms == old(self).out.ttl_ms,
            final(self).out.cache_scope == old(self).out.cache_scope,
            final(self).out.discovered_count == old(self).out.discovered_count,
            final(self).cursor == old(self).cursor,
            final(self).pages == old(self).pages,
            final(self).max_pages == old(self).max_pages,
            final(self).max_skills == old(self).max_skills,
            final(self).max_candidates == old(self).max_candidates,
            final(self).deadline_ms == old(self).deadline_ms,
            final(self).stop_when_full == old(self).stop_when_full,
    {
        if self.pages >= self.max_pages {
            if self.cursor.is_some() {
                self.out.truncated = true;
            }
            return WalkStep::Done;
        }
        if now_ms >= self.deadline_ms {
            self.out.truncated = true;
            return WalkStep::Done;
        }
        WalkStep::Request(crate::tool_catalog::clone_opt_string(&self.cursor))
    }
}


/// What one page did to the walk.
#[derive(Debug)]
pub enum PageOutcome {
    /// Ask [`SkillsWalk::next_request`] for the next page.
    Continue,
    /// The walk is over; take the snapshot.
    Done,
    /// The pages do not describe one listing.
    Failed(String),
}

pub open spec fn scope_conflict(first: Option<String>, next: Option<String>) -> bool {
    match (first, next) {
        (Some(a), Some(b)) => a@ != b@,
        _ => false,
    }
}

impl SkillsWalk {
    /// Fold one page into the walk: one `cacheScope` for every page, the
    /// smallest `ttlMs`, the entries under the caps; then stop at a cap, at
    /// the last page, at a cursor that repeats, or, in a preview, once the
    /// skill cap is filled and another page would follow.
    pub fn on_page(&mut self, page: SkillsPage) -> (outcome: PageOutcome)
        requires
            old(self).out.discovered_count + page.entries@.len() <= usize::MAX,
            old(self).pages < usize::MAX,
        ensures
            final(self).max_pages == old(self).max_pages,
            final(self).max_skills == old(self).max_skills,
            final(self).max_candidates == old(self).max_candidates,
            final(self).deadline_ms == old(self).deadline_ms,
            final(self).stop_when_full == old(self).stop_when_full,
            scope_conflict(old(self).out.cache_scope, page.cache_scope) ==> (outcome matches PageOutcome::Failed(m)
                && m@ == "skills/list changed cacheScope from `"@ + old(self).out.cache_scope.unwrap()@
                + "` to `"@ + page.cache_scope.unwrap()@ + "` mid-pagination"@),
            !scope_conflict(old(self).out.cache_scope, page.cache_scope) ==> {
                let ing = ingest_all(
                    old(self).ingest_view(),
                    page.entries@,
                    old(self).max_skills as nat,
                    old(self).max_candidates as nat,
                );
                &&& opt_chars(final(self).out.cache_scope) == if old(self).out.cache_scope.is_none() {
                    opt_chars(page.cache_scope)
                } else {
                    opt_chars(old(self).out.cache_scope)
                }
                &&& final(self).out.ttl_ms == merge_ttl(old(self).out.ttl_ms, page.ttl_ms)
                &&& final(self).out.skills@ == ing.skills
                &&& final(self).out.excluded@ == ing.excluded
                &&& final(self).out.discovered_count == ing.discovered
                &&& if ing.capped {
                    (outcome matches PageOutcome::Done) && final(self).out.truncated
                } else {
                    match page.next_cursor {
                        None => (outcome matches PageOutcome::Done) && final(self).out.truncated
                            == old(self).out.truncated,
                        Some(n) => if opt_chars(old(self).cursor) == Some(n@) || (old(self).stop_when_full
                            && ing.skills.len() >= old(self).max_skills) {
                            (outcome matches PageOutcome::Done) && final(self).out.truncated
                        } else {
                            &&& outcome matches PageOutcome::Continue
                            &&& final(self).out.truncated == old(self).out.truncated
                            &&& opt_chars(final(self).cursor) == Some(n@)
                            &&& final(self).pages == old(self).pages + 1
                        },
                    }
                }
            },
    {
        proof {
            reveal_with_fuel(concat_views, 6);
        }
        let conflict = match (&self.out.cache_scope, &page.cache_scope) {
            (Some(first), Some(next)) => {
                if crate::order::compare_str(first.as_str(), next.as_str()) != crate::order::Cmp::Equal {
                    let m = concat_parts(
                        vec![
                            "skills/list changed cacheScope from `",
                            first.as_str(),
                            "` to `",
                            next.as_str(),
                            "` mid-pagination",
                        ],
                    );
                    Some(m)
                } else {
                    None
                }
            },
            _ => None,
        };
        match conflict {
            Some(m) => return PageOutcome::Failed(m),
            None => {},
        }
        let SkillsPage { entries, ttl_ms, cache_scope, next_cursor } = page;
        if self.out.cache_scope.is_none() {
            self.out.cache_scope = cache_scope;
        }
        self.out.ttl_ms = match (self.out.ttl_ms, ttl_ms) {
            (Some(x), Some(y)) => Some(if x <= y { x } else { y }),
            (Some(x), None) => Some(x),
            (None, y) => y,
        };
        // Ingest the entries under the caps.
        let ghost start = IngestView {
            skills: self.out.skills@,
            excluded: self.out.excluded@,
            discovered: self.out.discovered_count as int,
            capped: false,
        };
        let ghost all = entries@;
        let n = entries.len();
        let mut rest = entries;
        let mut capped = false;
        proof {
            assert(all.subrange(0, 0) =~= Seq::<SkillCandidate>::empty());
            assert(all.subrange(0, n as int) =~= all);
        }
        while rest.len() > 0
            invariant
                n == all.len(),
                rest@.len() <= n,
                rest@ == all.subrange(n - rest@.len(), n as int),
                start.discovered + n <= usize::MAX,
                ({
                    let st = ingest_all(start, all.subrange(0, n - rest@.len()), self.max_skills as nat, self.max_candidates as nat);
                    &&& self.out.skills@ == st.skills
                    &&& self.out.excluded@ == st.excluded
                    &&& self.out.discovered_count == st.discovered
                    &&& capped == st.capped
                }),
                self.max_pages == old(self).max_pages,
                self.max_skills == old(self).max_skills,
                self.max_candidates == old(self).max_candidates,
                self.deadline_ms == old(self).deadline_ms,
                self.stop_when_full == old(self).stop_when_full,
                self.cursor == old(self).cursor,
                self.pages == old(self).pages,
                self.pages < usize::MAX,
                self.out.truncated == old(self).out.truncated,
                self.out.ttl_ms == merge_ttl(old(self).out.ttl_ms, ttl_ms),
                opt_chars(self.out.cache_scope) == if old(self).out.cache_scope.is_none() {
                    opt_chars(cache_scope)
                } else {
                    opt_chars(old(self).out.cache_scope)
                },
            decreases rest.len(),
        {
            let ghost done = n - rest@.len();
            let e = rest.remove(0);
            proof {
                assert(e == all[done]);
                assert(all.subrange(0, done + 1).drop_last() =~= all.subrange(0, done));
                assert(rest@ =~= all.subrange(done + 1, n as int));
                lemma_ingest_discovered(start, all.subrange(0, done), self.max_skills as nat, self.max_candidates as nat);
            }
            self.out.discovered_count = self.out.discovered_count + 1;
            if !capped {
                if self.out.skills.len() >= self.max_candidates || self.out.excluded.len()
                    >= self.max_candidates - self.out.skills.len() {
                    capped = true;
                } else {
                    match e {
                        Ok(skill) => {
                            if self.out.skills.len() >= self.max_skills {
                                capped = true;
                            } else {
                                self.out.skills.push(skill);
                            }
                        },
                        Err(x) => {
                            self.out.excluded.push(x);
                        },
                    }
                }
            }
        }
        proof {
            assert(all.subrange(0, n as int) =~= all);
        }
        if capped {
            self.out.truncated = true;
            return PageOutcome::Done;
        }
        let next = match next_cursor {
            None => return PageOutcome::Done,
            Some(next) => next,
        };
        let repeated = match &self.cursor {
            Some(c) => crate::order::compare_str(c.as_str(), next.as_str()) == crate::order::Cmp::Equal,
            None => false,
        };
        if repeated || (self.stop_when_full && self.out.skills.len() >= self.max_skills) {
            self.out.truncated = true;
            return PageOutcome::Done;
        }
        self.cursor = Some(next);
        self.pages = self.pages + 1;
        PageOutcome::Continue
    }
}

proof fn lemma_ingest_discovered(s: IngestView, es: Seq<SkillCandidate>, max_skills: nat, max_candidates: nat)
    ensures
        ingest_all(s, es, max_skills, max_candidates).discovered == s.discovered + es.len(),
        ingest_all(s, es, max_skills, max_candidates).skills.len() + ingest_all(s, es, max_skills, max_candidates).excluded.len()
            <= s.skills.len() + s.excluded.len() + es.len(),
    decreases es.len(),
{
    if es.len() > 0 {
        lemma_ingest_discovered(s, es.drop_last(), max_skills, max_candidates);
    }
}

/// Every (resource URI, binding) of the skills, skill by skill, resource by
/// resource.
pub open spec fn resource_pairs(skills: Seq<SkillRecord>) -> Seq<(Seq<char>, SkillBindingRef)>
    decreases skills.len(),
{
    if skills.len() == 0 {
        Seq::empty()
    } else {
        resource_pairs(skills.drop_last()) + skill_pairs(
            skills.last(),
            (skills.len() - 1) as usize,
            skills.last().resources@.len() as int,
        )
    }
}

/// The first `n` resources of skill `i`, with their bindings.
pub open spec fn skill_pairs(skill: SkillRecord, i: usize, n: int) -> Seq<(Seq<char>, SkillBindingRef)>
    decreases n,
{
    if n <= 0 {
        Seq::empty()
    } else {
        skill_pairs(skill, i, n - 1).push(
            (skill.resources@[n - 1].uri@, SkillBindingRef { skill: i, resource: (n - 1) as usize }),
        )
    }
}

/// URI to bindings, in the order the pairs come.
pub open spec fn index_of_pairs(pairs: Seq<(Seq<char>, SkillBindingRef)>) -> Map<Seq<char>, Seq<SkillBindingRef>>
    decreases pairs.len(),
{
    if pairs.len() == 0 {
        Map::empty()
    } else {
        let m = index_of_pairs(pairs.drop_last());
        let (u, r) = pairs.last();
        m.insert(u, if m.dom().contains(u) { m[u] } else { Seq::empty() }.push(r))
    }
}

pub open spec fn index_view(index: Seq<(String, Vec<SkillBindingRef>)>) -> Map<Seq<char>, Seq<SkillBindingRef>> {
    kv_map(index).map_values(|v: Vec<SkillBindingRef>| v@)
}

/// Index every listed skill's resources by URI.
pub fn build_resource_index(skills: &Vec<SkillRecord>) -> (index: Vec<(String, Vec<SkillBindingRef>)>)
    ensures
        index_view(index@) == index_of_pairs(resource_pairs(skills@)),
{
    let mut index: Vec<(String, Vec<SkillBindingRef>)> = Vec::new();
    let mut i: usize = 0;
    proof {
        assert(index_view(index@) =~= Map::<Seq<char>, Seq<SkillBindingRef>>::empty());
    }
    while i < skills.len()
        invariant
            i <= skills@.len(),
            index_view(index@) == index_of_pairs(resource_pairs(skills@.subrange(0, i as int))),
        decreases skills.len() - i,
    {
        let ghost prev = resource_pairs(skills@.subrange(0, i as int));
        proof {
            assert(skills@.subrange(0, i + 1).drop_last() =~= skills@.subrange(0, i as int));
        }
        let rs = &skills[i].resources;
        let mut j: usize = 0;
        while j < rs.len()
            invariant
                j <= rs@.len(),
                i < skills@.len(),
                rs@ == skills@[i as int].resources@,
                index_view(index@) == index_of_pairs(prev + skill_pairs(skills@[i as int], i, j as int)),
            decreases rs.len() - j,
        {
            let ghost before = prev + skill_pairs(skills@[i as int], i, j as int);
            let r = SkillBindingRef { skill: i, resource: j };
            let uri = &rs[j].uri;
            let ghost m0 = kv_map(index@);
            let mut list = match kv_remove(&mut index, uri.as_str()) {
                Some(l) => l,
                None => Vec::new(),
            };
            let ghost l0 = list@;
            list.push(r);
            kv_insert(&mut index, uri.clone(), list);
            proof {
                let after = prev + skill_pairs(skills@[i as int], i, j + 1);
                assert(after.drop_last() =~= before);
                assert(after.last() == (uri@, r));
                assert(index_view(index@) =~= index_of_pairs(after));
            }
            j = j + 1;
        }
        proof {
            assert(resource_pairs(skills@.subrange(0, i + 1)) =~= prev + skill_pairs(
                skills@[i as int],
                i,
                rs@.len() as int,
            ));
        }
        i = i + 1;
    }
    proof {
        assert(skills@.subrange(0, skills@.len() as int) =~= skills@);
    }
    index
}

/// Every binding the pairs carry names a listed skill.
pub open spec fn pairs_valid(pairs: Seq<(Seq<char>, SkillBindingRef)>, skills: Seq<SkillRecord>) -> bool {
    forall|k: int| 0 <= k < pairs.len() ==> #[trigger] pairs[k].1.skill < skills.len()
}

proof fn lemma_skill_pairs_valid(skill: SkillRecord, i: usize, n: int, skills: Seq<SkillRecord>)
    requires
        i < skills.len(),
    ensures
        pairs_valid(skill_pairs(skill, i, n), skills),
    decreases n,
{
    if n > 0 {
        lemma_skill_pairs_valid(skill, i, n - 1, skills);
        let p = skill_pairs(skill, i, n - 1);
        assert forall|k: int| 0 <= k < skill_pairs(skill, i, n).len() implies #[trigger] skill_pairs(
            skill,
            i,
            n,
        )[k].1.skill < skills.len() by {
            if k < p.len() {
                assert(skill_pairs(skill, i, n)[k] == p[k]);
            }
        }
    }
}

proof fn lemma_resource_pairs_valid(skills: Seq<SkillRecord>, m: int)
    requires
        0 <= m <= skills.len(),
    ensures
        pairs_valid(resource_pairs(skills.subrange(0, m)), skills),
    decreases m,
{
    if m > 0 {
        lemma_resource_pairs_valid(skills, m - 1);
        let sub = skills.subrange(0, m);
        assert(sub.drop_last() =~= skills.subrange(0, m - 1));
        lemma_skill_pairs_valid(sub.last(), (m - 1) as usize, sub.last().resources@.len() as int, skills);
        let a = resource_pairs(skills.subrange(0, m - 1));
        let b = skill_pairs(sub.last(), (m - 1) as usize, sub.last().resources@.len() as int);
        assert forall|k: int| 0 <= k < (a + b).len() implies #[trigger] (a + b)[k].1.skill < skills.len() by {
            if k < a.len() {
                assert((a + b)[k] == a[k]);
            } else {
                assert((a + b)[k] == b[k - a.len()]);
            }
        }
    }
}

proof fn lemma_index_of_pairs_valid(pairs: Seq<(Seq<char>, SkillBindingRef)>, skills: Seq<SkillRecord>)
    requires
        pairs_valid(pairs, skills),
    ensures
        forall|u: Seq<char>|
            #[trigger] index_of_pairs(pairs).dom().contains(u) ==> forall|k: int|
                0 <= k < index_of_pairs(pairs)[u].len() ==> #[trigger] index_of_pairs(pairs)[u][k].skill
                    < skills.len(),
    decreases pairs.len(),
{
    if pairs.len() > 0 {
        let rest = pairs.drop_last();
        assert(pairs_valid(rest, skills)) by {
            assert forall|k: int| 0 <= k < rest.len() implies #[trigger] rest[k].1.skill < skills.len() by {
                assert(rest[k] == pairs[k]);
            }
        }
        lemma_index_of_pairs_valid(rest, skills);
        let m = index_of_pairs(rest);
        let (u0, r0) = pairs.last();
        assert(r0.skill < skills.len()) by {
            assert(pairs.last() == pairs[pairs.len() - 1]);
        }
        let old_list = if m.dom().contains(u0) {
            m[u0]
        } else {
            Seq::empty()
        };
        assert forall|u: Seq<char>| #[trigger] index_of_pairs(pairs).dom().contains(u) implies forall|k: int|
            0 <= k < index_of_pairs(pairs)[u].len() ==> #[trigger] index_of_pairs(pairs)[u][k].skill
                < skills.len() by {
            if u == u0 {
                assert(index_of_pairs(pairs)[u] == old_list.push(r0));
                assert forall|k: int| 0 <= k < old_list.push(r0).len() implies #[trigger] old_list.push(r0)[k].skill
                    < skills.len() by {
                    if k < old_list.len() {
                        assert(old_list.push(r0)[k] == old_list[k]);
                    }
                }
            } else {
                assert(index_of_pairs(pairs)[u] == m[u]);
            }
        }
    }
}

impl SkillsWalk {
    /// The finished snapshot: the walk's catalog with its resource index.
    pub fn finish(self) -> (skills: UpstreamSkills)
        ensures
            skills.skills@ == self.out.skills@,
            skills.excluded@ == self.out.excluded@,
            skills.truncated == self.out.truncated,
            skills.ttl_ms == self.out.ttl_ms,
            skills.cache_scope == self.out.cache_scope,
            skills.discovered_count == self.out.discovered_count,
            index_view(skills.resource_index@) == index_of_pairs(resource_pairs(skills.skills@)),
            crate::skills_read::index_refs_valid(skills),
    {
        let index = build_resource_index(&self.out.skills);
        let mut out = self.out;
        out.resource_index = index;
        proof {
            lemma_resource_pairs_valid(out.skills@, out.skills@.len() as int);
            assert(out.skills@.subrange(0, out.skills@.len() as int) =~= out.skills@);
            lemma_index_of_pairs_valid(resource_pairs(out.skills@), out.skills@);
            assert forall|u: Seq<char>| #[trigger] kv_map(out.resource_index@).dom().contains(u) implies forall|k: int|
                0 <= k < kv_map(out.resource_index@)[u]@.len() ==> #[trigger] kv_map(
                    out.resource_index@,
                )[u]@[k].skill < out.skills@.len() by {
                assert(index_view(out.resource_index@).dom().contains(u));
                assert(index_view(out.resource_index@)[u] == kv_map(out.resource_index@)[u]@);
            }
        }
        out
    }
}
} // verus!
