//! What callers see of a cached skills catalog: the `expose_skills`
//! allowlist applied to a snapshot, the operator's view of the same catalog,
//! and how a read is served (cached, cached while refreshing, or fetched).

use std::sync::Arc;
use vstd::prelude::*;
use crate::exposure::{
    ExposurePolicy, SkillExposureDecision, SkillExposureReason, opt_patterns_view, opt_string_view,
    resolve_exposure_policy, resolved_policy,
};
use crate::skills_cache::{CachedSkills, ExcludedSkill, SkillRecord, UpstreamSkills, share_skills};
use crate::tool_catalog::{UpstreamConfig, clone_opt_strings, lemma_matches_pview, pview_matches};

verus! {

broadcast use vstd::string::group_string_axioms;

/// The skill allowlist of a configured upstream, compiled failing closed.
pub open spec fn config_skill_policy(c: UpstreamConfig) -> Option<Seq<Seq<char>>> {
    resolved_policy(opt_patterns_view(c.expose_skills))
}

pub fn resolve_request_skill_exposure_policy(config: &UpstreamConfig) -> (p: ExposurePolicy)
    ensures
        p.pview() == config_skill_policy(*config),
{
    resolve_exposure_policy(clone_opt_strings(&config.expose_skills))
}

/// Whether a response reused a snapshot or completed a refresh.
#[derive(Clone, Copy, PartialEq, Eq, Structural)]
pub enum SkillDiscoverySource {
    Cached,
    Refreshed,
}

/// The positions of the skills the policy exposes, ascending.
pub open spec fn matching_indices(skills: Seq<SkillRecord>, pv: Option<Seq<Seq<char>>>) -> Seq<usize>
    decreases skills.len(),
{
    if skills.len() == 0 {
        Seq::empty()
    } else {
        let n = (skills.len() - 1) as int;
        let r = matching_indices(skills.take(n), pv);
        if pview_matches(pv, skills[n].name@) {
            r.push(n as usize)
        } else {
            r
        }
    }
}

/// The skills one caller may see of a cached snapshot, with the snapshot's
/// bookkeeping. The exposed skills are the catalog's at `exposed_indices`.
pub struct ExposedSkills {
    pub exposed_indices: Vec<usize>,
    pub excluded_count: usize,
    pub truncated: bool,
    pub age_secs: u64,
    pub ttl_ms: Option<u64>,
    pub source: SkillDiscoverySource,
    pub refreshing: bool,
    pub refresh_age_secs: Option<u64>,
    pub retry_after_ms: Option<u64>,
    pub catalog: Arc<UpstreamSkills>,
}

impl ExposedSkills {
    /// Nothing exposed: what an upstream that does not proxy skills answers.
    /// Nothing exposed, nothing dropped, no bookkeeping.
    pub open spec fn exposes_nothing(&self) -> bool {
        &&& self.exposed_indices@.len() == 0
        &&& self.excluded_count == 0
        &&& !self.truncated
        &&& self.age_secs == 0
        &&& self.ttl_ms.is_none()
        &&& self.source == SkillDiscoverySource::Cached
        &&& !self.refreshing
        &&& self.refresh_age_secs.is_none()
        &&& self.retry_after_ms.is_none()
        &&& self.catalog.skills@.len() == 0
        &&& self.catalog.excluded@.len() == 0
        &&& self.catalog.discovered_count == 0
    }

    pub fn empty() -> (e: Self)
        ensures
            e.exposes_nothing(),
    {
        ExposedSkills {
            exposed_indices: Vec::new(),
            excluded_count: 0,
            truncated: false,
            age_secs: 0,
            ttl_ms: None,
            source: SkillDiscoverySource::Cached,
            refreshing: false,
            refresh_age_secs: None,
            retry_after_ms: None,
            catalog: Arc::new(UpstreamSkills::empty()),
        }
    }
}

/// The indices of `skills` whose names `policy` admits.
pub fn exposed_skill_indices(skills: &Vec<SkillRecord>, policy: &ExposurePolicy) -> (idx: Vec<usize>)
    ensures
        idx@ == matching_indices(skills@, policy.pview()),
{
    let mut idx: Vec<usize> = Vec::new();
    let mut i: usize = 0;
    while i < skills.len()
        invariant
            i <= skills@.len(),
            idx@ == matching_indices(skills@.take(i as int), policy.pview()),
        decreases skills.len() - i,
    {
        proof {
            assert(skills@.take(i + 1).take(i as int) =~= skills@.take(i as int));
            assert(skills@.take(i + 1)[i as int] == skills@[i as int]);
            lemma_matches_pview(*policy, skills@[i as int].name@);
        }
        if policy.matches(skills[i].name.as_str()) {
            idx.push(i);
        }
        i = i + 1;
    }
    proof {
        assert(skills@.take(skills@.len() as int) =~= skills@);
    }
    idx
}

pub open spec fn since(now_ms: u64, t: u64) -> int {
    if now_ms > t {
        now_ms - t
    } else {
        0
    }
}

/// What a caller sees of `cached` under the upstream's `expose_skills`:
/// the admitted skills by position, the snapshot's counts and flags, and its
/// ages and remaining times as of `now_ms`.
pub open spec fn exposure_of(
    e: ExposedSkills,
    config: UpstreamConfig,
    cached: CachedSkills,
    source: SkillDiscoverySource,
    now_ms: u64,
) -> bool {
    &&& e.exposed_indices@ == matching_indices(cached.skills.skills@, config_skill_policy(config))
    &&& e.excluded_count == cached.skills.excluded@.len()
    &&& e.truncated == cached.skills.truncated
    &&& e.age_secs == since(now_ms, cached.fetched_at_ms) / 1000
    &&& e.ttl_ms == Some(
        (if cached.expires_at_ms > now_ms {
            cached.expires_at_ms - now_ms
        } else {
            0
        }) as u64,
    )
    &&& e.source == source
    &&& e.refreshing == cached.refreshing
    &&& e.refresh_age_secs == (match cached.refresh_started_at_ms {
        Some(t) => Some((since(now_ms, t) / 1000) as u64),
        None => None,
    })
    &&& e.retry_after_ms == (match cached.retry_after_ms {
        Some(t) => Some((if t > now_ms {
            t - now_ms
        } else {
            0
        }) as u64),
        None => None,
    })
    &&& e.catalog == cached.skills
}

/// Apply the upstream's `expose_skills` to a cached snapshot.
pub fn apply_skill_exposure(
    config: &UpstreamConfig,
    cached: &CachedSkills,
    source: SkillDiscoverySource,
    now_ms: u64,
) -> (e: ExposedSkills)
    ensures
        exposure_of(e, *config, *cached, source, now_ms),
{
    let policy = resolve_request_skill_exposure_policy(config);
    let exposed_indices = exposed_skill_indices(&cached.skills.skills, &policy);
    let refresh_age_secs = match cached.refresh_age(now_ms) {
        Some(ms) => Some(ms / 1000),
        None => None,
    };
    ExposedSkills {
        exposed_indices,
        excluded_count: cached.skills.excluded_count(),
        truncated: cached.skills.truncated,
        age_secs: cached.age(now_ms) / 1000,
        ttl_ms: Some(cached.remaining_ttl(now_ms)),
        source,
        refreshing: cached.refreshing,
        refresh_age_secs,
        retry_after_ms: cached.retry_after(now_ms),
        catalog: share_skills(&cached.skills),
    }
}

/// How a skills read is served.
#[derive(Clone, Copy, PartialEq, Eq, Structural)]
pub enum SnapshotPlan {
    /// A fresh snapshot is cached: serve it.
    ServeCached,
    /// An expired snapshot is cached: serve it, and refresh behind it.
    ServeCachedAndRefresh,
    /// Nothing cached: fetch (one caller per shard; the others wait).
    Fetch,
}

/// The plan for a read, from what the cache holds for the caller's shard.
pub fn snapshot_plan(cached: Option<&CachedSkills>, now_ms: u64) -> (p: SnapshotPlan)
    ensures
        p == (match cached {
            Some(c) => if now_ms < c.expires_at_ms {
                SnapshotPlan::ServeCached
            } else {
                SnapshotPlan::ServeCachedAndRefresh
            },
            None => SnapshotPlan::Fetch,
        }),
{
    match cached {
        Some(c) => if c.is_fresh(now_ms) {
            SnapshotPlan::ServeCached
        } else {
            SnapshotPlan::ServeCachedAndRefresh
        },
        None => SnapshotPlan::Fetch,
    }
}

/// What a skills read of one upstream does next.
pub enum UpstreamSkillsStep {
    /// Answer with this; nothing is fetched and the cache is not touched.
    Answer(ExposedSkills),
    /// Answer with this expired snapshot, and refresh the shard behind it.
    AnswerAndRefresh(ExposedSkills),
    /// Nothing is cached for the shard: fetch under its lock.
    Fetch,
}

/// A skills read of one upstream, from what the cache holds for the caller's
/// shard. An upstream that does not proxy skills answers nothing, and is
/// neither fetched nor cached: that is no failure. Otherwise a cached snapshot
/// is answered under the upstream's `expose_skills`, refreshed behind the
/// answer once expired, and an empty shard is fetched.
pub fn upstream_skills(config: &UpstreamConfig, cached: Option<&CachedSkills>, now_ms: u64) -> (s:
    UpstreamSkillsStep)
    ensures
        !config.proxy_skills ==> (s matches UpstreamSkillsStep::Answer(e) && e.exposes_nothing()),
        config.proxy_skills ==> match cached {
            Some(c) => if now_ms < c.expires_at_ms {
                s matches UpstreamSkillsStep::Answer(e) && exposure_of(e, *config, *c, SkillDiscoverySource::Cached, now_ms)
            } else {
                s matches UpstreamSkillsStep::AnswerAndRefresh(e) && exposure_of(
                    e,
                    *config,
                    *c,
                    SkillDiscoverySource::Cached,
                    now_ms,
                )
            },
            None => s matches UpstreamSkillsStep::Fetch,
        },
{
    if !config.proxy_skills {
        return UpstreamSkillsStep::Answer(ExposedSkills::empty());
    }
    match snapshot_plan(cached, now_ms) {
        SnapshotPlan::Fetch => UpstreamSkillsStep::Fetch,
        SnapshotPlan::ServeCached => {
            let c = cached.unwrap();
            UpstreamSkillsStep::Answer(apply_skill_exposure(config, c, SkillDiscoverySource::Cached, now_ms))
        },
        SnapshotPlan::ServeCachedAndRefresh => {
            let c = cached.unwrap();
            UpstreamSkillsStep::AnswerAndRefresh(
                apply_skill_exposure(config, c, SkillDiscoverySource::Cached, now_ms),
            )
        },
    }
}

/// Once the shard's fetch lock is held, a snapshot another caller published
/// meanwhile is served as is; only a still-empty shard is fetched.
pub fn plan_after_fetch_lock(cached_now: bool) -> (p: SnapshotPlan)
    ensures
        p == (if cached_now {
            SnapshotPlan::ServeCached
        } else {
            SnapshotPlan::Fetch
        }),
{
    if cached_now {
        SnapshotPlan::ServeCached
    } else {
        SnapshotPlan::Fetch
    }
}

/// One skill as the operator sees it: its identity and the exposure decision.
pub struct OperatorSkill {
    pub name: String,
    pub uri: String,
    pub exposure: SkillExposureDecision,
}

/// One skill dropped at ingest, as the operator sees it.
pub struct OperatorSkillRejection {
    pub reason: String,
    pub uri: String,
    pub detail: String,
}

/// The operator's view of one upstream's skills.
pub struct OperatorSkills {
    pub supports_skills: Option<bool>,
    pub discovered_count: usize,
    pub skills: Vec<OperatorSkill>,
    pub rejected: Vec<OperatorSkillRejection>,
    pub truncated: bool,
    pub age_secs: u64,
    pub refreshing: bool,
    pub refresh_age_secs: Option<u64>,
    pub retry_after_ms: Option<u64>,
}

/// `o` is the operator view of skill `s` under `policy`.
pub open spec fn operator_skill_of(o: OperatorSkill, s: SkillRecord, policy: ExposurePolicy) -> bool {
    &&& o.name@ == s.name@
    &&& o.uri@ == s.uri@
    &&& o.exposure.exposed == policy.spec_matches(s.name@)
    &&& opt_string_view(o.exposure.matched_pattern) == policy.spec_matched_by(s.name@)
    &&& o.exposure.reason == (if policy == ExposurePolicy::All {
        SkillExposureReason::AllowAll
    } else if policy.spec_matches(s.name@) {
        SkillExposureReason::MatchedPattern
    } else {
        SkillExposureReason::NotMatched
    })
}

pub open spec fn rejection_of(r: OperatorSkillRejection, x: ExcludedSkill) -> bool {
    r.reason@ == x.reason@ && r.uri@ == x.uri@ && r.detail@ == x.detail@
}

/// The operator view of an upstream that does not proxy skills: nothing but
/// whether its handshake declared the extension.
pub fn operator_skills_unproxied(supports_skills: Option<bool>) -> (o: OperatorSkills)
    ensures
        o.supports_skills == supports_skills,
        o.discovered_count == 0,
        o.skills@.len() == 0,
        o.rejected@.len() == 0,
        !o.truncated,
        o.age_secs == 0,
        !o.refreshing,
        o.refresh_age_secs.is_none(),
        o.retry_after_ms.is_none(),
{
    OperatorSkills {
        supports_skills,
        discovered_count: 0,
        skills: Vec::new(),
        rejected: Vec::new(),
        truncated: false,
        age_secs: 0,
        refreshing: false,
        refresh_age_secs: None,
        retry_after_ms: None,
    }
}

/// The operator view of a proxied upstream: every listed skill with the
/// exposure decision for it (hidden ones included), every skill dropped at
/// ingest with its reason, and the snapshot's bookkeeping.
pub fn upstream_skills_operator(
    config: &UpstreamConfig,
    exposed: &ExposedSkills,
    supports_skills: Option<bool>,
) -> (o: OperatorSkills)
    ensures
        o.supports_skills == supports_skills,
        o.discovered_count == exposed.catalog.discovered_count,
        o.skills@.len() == exposed.catalog.skills@.len(),
        forall|i: int|
            0 <= i < o.skills@.len() ==> exists|p: ExposurePolicy|
                p.pview() == config_skill_policy(*config) && operator_skill_of(
                    #[trigger] o.skills@[i],
                    exposed.catalog.skills@[i],
                    p,
                ),
        o.rejected@.len() == exposed.catalog.excluded@.len(),
        forall|i: int|
            0 <= i < o.rejected@.len() ==> rejection_of(
                #[trigger] o.rejected@[i],
                exposed.catalog.excluded@[i],
            ),
        o.truncated == exposed.truncated,
        o.age_secs == exposed.age_secs,
        o.refreshing == exposed.refreshing,
        o.refresh_age_secs == exposed.refresh_age_secs,
        o.retry_after_ms == exposed.retry_after_ms,
{
    let policy = resolve_request_skill_exposure_policy(config);
    let catalog = &exposed.catalog;
    let mut skills: Vec<OperatorSkill> = Vec::new();
    let mut i: usize = 0;
    while i < catalog.skills.len()
        invariant
            i <= catalog.skills@.len(),
            *catalog == exposed.catalog,
            policy.pview() == config_skill_policy(*config),
            skills@.len() == i,
            forall|k: int|
                0 <= k < i ==> operator_skill_of(#[trigger] skills@[k], catalog.skills@[k], policy),
        decreases catalog.skills.len() - i,
    {
        let s = &catalog.skills[i];
        let exposure = SkillExposureDecision::evaluate(&policy, s.name.as_str());
        skills.push(OperatorSkill { name: s.name.clone(), uri: s.uri.clone(), exposure });
        i = i + 1;
    }
    proof {
        assert forall|k: int| 0 <= k < skills@.len() implies exists|p: ExposurePolicy|
            p.pview() == config_skill_policy(*config) && operator_skill_of(
                #[trigger] skills@[k],
                exposed.catalog.skills@[k],
                p,
            ) by {
            assert(operator_skill_of(skills@[k], catalog.skills@[k], policy));
        }
    }
    let mut rejected: Vec<OperatorSkillRejection> = Vec::new();
    let mut j: usize = 0;
    while j < catalog.excluded.len()
        invariant
            j <= catalog.excluded@.len(),
            rejected@.len() == j,
            forall|k: int|
                0 <= k < j ==> rejection_of(#[trigger] rejected@[k], catalog.excluded@[k]),
        decreases catalog.excluded.len() - j,
    {
        let x = &catalog.excluded[j];
        rejected.push(
            OperatorSkillRejection {
                reason: x.reason.clone(),
                uri: x.uri.clone(),
                detail: x.detail.clone(),
            },
        );
        j = j + 1;
    }
    OperatorSkills {
        supports_skills,
        discovered_count: catalog.discovered_count,
        skills,
        rejected,
        truncated: exposed.truncated,
        age_secs: exposed.age_secs,
        refreshing: exposed.refreshing,
        refresh_age_secs: exposed.refresh_age_secs,
        retry_after_ms: exposed.retry_after_ms,
    }
}

/// How a size-bounded discovery is answered.
#[derive(Clone, Copy, PartialEq, Eq, Structural)]
pub enum DiscoveryPlan {
    /// The upstream does not proxy skills: nothing.
    Empty,
    /// The request is as large as a full listing: the ordinary cached path.
    FullListing,
    /// A fresh snapshot is cached: answer from it.
    ServeCached,
    /// Fetch an uncached preview of at most the requested size.
    FetchPreview,
}

/// The plan for a discovery of at most `max_items` skills. A preview is
/// never cached: it is no proof of absence for a later full read.
pub fn discovery_plan(proxy_skills: bool, max_items: usize, max_per_upstream: usize, cached_fresh: bool) -> (p:
    DiscoveryPlan)
    ensures
        p == (if !proxy_skills {
            DiscoveryPlan::Empty
        } else if max_items >= max_per_upstream {
            DiscoveryPlan::FullListing
        } else if cached_fresh {
            DiscoveryPlan::ServeCached
        } else {
            DiscoveryPlan::FetchPreview
        }),
{
    if !proxy_skills {
        DiscoveryPlan::Empty
    } else if max_items >= max_per_upstream {
        DiscoveryPlan::FullListing
    } else if cached_fresh {
        DiscoveryPlan::ServeCached
    } else {
        DiscoveryPlan::FetchPreview
    }
}

/// A preview fetched under `epoch_before` is answered only if no
/// invalidation happened meanwhile; otherwise the read fails as invalidated.
pub fn preview_admitted(epoch_before: u64, epoch_after: u64) -> (b: bool)
    ensures
        b == (epoch_before == epoch_after),
{
    epoch_before == epoch_after
}

} // verus!
