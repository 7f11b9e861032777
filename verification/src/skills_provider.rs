//! One caller-scoped upstream seen through the provider-neutral skills seam:
//! its identity, its deadline, and how its discovery, get and read answers
//! are shaped from the pool's.

use vstd::prelude::*;
use crate::order::{compare_str, Cmp};
use crate::skills_read::SkillReadError;
use crate::skills_cache::{SkillRecord, skills_cache_subject};
use crate::skills_direct::unlisted_owner_lookup;
use crate::skills_store::SkillsStore;
use crate::skills_view::{
    ExposedSkills, SkillDiscoverySource, config_skill_policy, resolve_request_skill_exposure_policy,
};
use crate::text::opt_chars;
use crate::tool_catalog::UpstreamConfig;

verus! {

broadcast use vstd::string::group_string_axioms;

/// The kinds of skill provider.
#[derive(Clone, Copy, PartialEq, Eq, Structural)]
pub enum SkillProviderKind {
    McpUpstream,
}

/// A provider's identity: its kind and the upstream it fronts.
pub struct SkillProviderId {
    pub kind: SkillProviderKind,
    pub name: String,
}

impl SkillProviderId {
    pub fn new(kind: SkillProviderKind, name: &str) -> (id: Self)
        ensures
            id.kind == kind,
            id.name@ == name@,
    {
        SkillProviderId { kind, name: name.to_string() }
    }

    /// Whether two identities name the same provider.
    pub fn same_as(&self, other: &SkillProviderId) -> (b: bool)
        ensures
            b == (self.kind == other.kind && self.name@ == other.name@),
    {
        self.kind == other.kind && compare_str(self.name.as_str(), other.name.as_str()) == Cmp::Equal
    }
}

/// Failures a provider reports.
#[derive(PartialEq, Eq)]
pub enum SkillProviderError {
    WrongProvider,
    DeadlineExceeded,
    SkillNotFound,
    ManifestStale,
    LimitExceeded { limit: usize },
    Integrity,
    Provider { reason: String },
}

/// A request addressed to another provider is refused.
pub fn validate_provider(own: &SkillProviderId, requested: &SkillProviderId) -> (r: Result<
    (),
    SkillProviderError,
>)
    ensures
        r is Ok <==> (own.kind == requested.kind && own.name@ == requested.name@),
        r is Err ==> r == Err::<(), SkillProviderError>(SkillProviderError::WrongProvider),
{
    if !own.same_as(requested) {
        return Err(SkillProviderError::WrongProvider);
    }
    Ok(())
}

/// The deadline of a provider operation: the gateway's configured timeout,
/// unless the caller asked for a shorter one.
pub fn operation_timeout_ms(requested_ms: u64, configured_ms: u64) -> (t: u64)
    ensures
        t == (if requested_ms < configured_ms {
            requested_ms
        } else {
            configured_ms
        }),
{
    if requested_ms < configured_ms {
        requested_ms
    } else {
        configured_ms
    }
}

/// One caller-scoped upstream behind the provider seam. The subject is
/// captured with it, so that cached discovery and every direct get and read
/// keep the gateway's isolation boundary; `request_timeout_ms` is the pool's
/// configured operation timeout.
pub struct SepSkillProvider {
    pub id: SkillProviderId,
    pub config: UpstreamConfig,
    pub subject: Option<String>,
    pub request_timeout_ms: u64,
}

impl SepSkillProvider {
    pub fn new(config: UpstreamConfig, subject: Option<String>, request_timeout_ms: u64) -> (p: Self)
        ensures
            p.id.kind == SkillProviderKind::McpUpstream,
            p.id.name@ == config.name@,
            p.config == config,
            p.subject == subject,
            p.request_timeout_ms == request_timeout_ms,
    {
        let id = SkillProviderId::new(SkillProviderKind::McpUpstream, config.name.as_str());
        SepSkillProvider { id, config, subject, request_timeout_ms }
    }

    /// A request addressed to another provider is refused.
    pub fn validate_provider(&self, requested: &SkillProviderId) -> (r: Result<(), SkillProviderError>)
        ensures
            r is Ok <==> (self.id.kind == requested.kind && self.id.name@ == requested.name@),
            r is Err ==> r == Err::<(), SkillProviderError>(SkillProviderError::WrongProvider),
    {
        validate_provider(&self.id, requested)
    }

    /// The deadline of one operation: the configured timeout, unless the
    /// caller asked for a shorter one.
    pub fn operation_timeout(&self, requested_ms: u64) -> (t: u64)
        ensures
            t == (if requested_ms < self.request_timeout_ms {
                requested_ms
            } else {
                self.request_timeout_ms
            }),
    {
        operation_timeout_ms(requested_ms, self.request_timeout_ms)
    }

    /// The cached fetched skill that uniquely owns resource `canonical_uri`
    /// in this provider's shard, if the live `expose_skills` policy still
    /// exposes it. The answer stays provider-scoped (its provider is
    /// `self.id`): it does not authorize a resource-only read.
    pub fn cached_owner_for_resource(&self, store: &mut SkillsStore, canonical_uri: &str, now_ms: u64) -> (r:
        Option<SkillRecord>)
        ensures
            final(store).epochs == old(store).epochs,
            unlisted_owner_lookup(
                old(store).slots@,
                final(store).slots@,
                self.config.name@,
                opt_chars(self.subject),
                canonical_uri@,
                config_skill_policy(self.config),
                now_ms,
                r,
            ),
    {
        let policy = resolve_request_skill_exposure_policy(&self.config);
        let subject: Option<&str> = match &self.subject {
            Some(s) => Some(s.as_str()),
            None => None,
        };
        let shard = skills_cache_subject(subject);
        store.cached_unlisted_skill_owner(self.config.name.as_str(), shard, canonical_uri, &policy, now_ms)
    }
}

/// A discovery answer: the catalog positions of the skills handed out, and
/// what the caller may tell of their freshness and completeness.
pub struct SkillDiscoverResult {
    pub skill_indices: Vec<usize>,
    pub source: SkillDiscoverySource,
    pub cache_age_secs: Option<u64>,
    pub ttl_ms: Option<u64>,
    pub excluded_count: usize,
    pub truncated: bool,
}

/// Shape a discovery answer from the exposed skills: at most `max_items` of
/// them, in order; the cache age only for a cached answer; truncated when
/// the upstream walk was cut short or `max_items` left skills out.
pub fn discover_result(exposed: &ExposedSkills, max_items: usize) -> (r: SkillDiscoverResult)
    ensures
        r.skill_indices@ == exposed.exposed_indices@.take(
            if max_items < exposed.exposed_indices@.len() {
                max_items as int
            } else {
                exposed.exposed_indices@.len() as int
            },
        ),
        r.source == exposed.source,
        r.cache_age_secs == (if exposed.source == SkillDiscoverySource::Cached {
            Some(exposed.age_secs)
        } else {
            None
        }),
        r.ttl_ms == exposed.ttl_ms,
        r.excluded_count == exposed.excluded_count,
        r.truncated == (exposed.truncated || exposed.exposed_indices@.len() > max_items),
{
    let available = exposed.exposed_indices.len();
    let mut skill_indices: Vec<usize> = Vec::new();
    let mut i: usize = 0;
    while i < available && i < max_items
        invariant
            available == exposed.exposed_indices@.len(),
            i <= available,
            i <= max_items,
            skill_indices@ == exposed.exposed_indices@.take(i as int),
        decreases available - i,
    {
        skill_indices.push(exposed.exposed_indices[i]);
        proof {
            assert(exposed.exposed_indices@.take(i + 1) =~= exposed.exposed_indices@.take(
                i as int,
            ).push(exposed.exposed_indices@[i as int]));
        }
        i = i + 1;
    }
    let cache_age_secs = if exposed.source == SkillDiscoverySource::Cached {
        Some(exposed.age_secs)
    } else {
        None
    };
    SkillDiscoverResult {
        skill_indices,
        source: exposed.source,
        cache_age_secs,
        ttl_ms: exposed.ttl_ms,
        excluded_count: exposed.excluded_count,
        truncated: exposed.truncated || available > max_items,
    }
}

/// The first exposed skill whose URI is `source_id`, by catalog position.
pub open spec fn listed_skill(exposed: ExposedSkills, source_id: Seq<char>) -> Option<int>
    decreases exposed.exposed_indices@.len(),
{
    listed_skill_from(exposed, source_id, 0)
}

pub open spec fn listed_skill_from(exposed: ExposedSkills, source_id: Seq<char>, i: int) -> Option<int>
    decreases exposed.exposed_indices@.len() - i,
{
    if i < 0 || i >= exposed.exposed_indices@.len() {
        None
    } else {
        let idx = exposed.exposed_indices@[i] as int;
        if 0 <= idx < exposed.catalog.skills@.len() && exposed.catalog.skills@[idx].uri@ == source_id {
            Some(idx)
        } else {
            listed_skill_from(exposed, source_id, i + 1)
        }
    }
}

/// A `get` first looks among the exposed skills; only on a miss does it
/// fetch the skill by URI.
pub fn find_listed_skill(exposed: &ExposedSkills, source_id: &str) -> (k: Option<usize>)
    ensures
        match k {
            Some(i) => listed_skill(*exposed, source_id@) == Some(i as int),
            None => listed_skill(*exposed, source_id@).is_none(),
        },
{
    let n = exposed.exposed_indices.len();
    let mut i: usize = n;
    let mut found: Option<usize> = None;
    while i > 0
        invariant
            i <= n == exposed.exposed_indices@.len(),
            match found {
                Some(x) => listed_skill_from(*exposed, source_id@, i as int) == Some(x as int),
                None => listed_skill_from(*exposed, source_id@, i as int).is_none(),
            },
        decreases i,
    {
        i = i - 1;
        let idx = exposed.exposed_indices[i];
        if idx < exposed.catalog.skills.len() && compare_str(
            exposed.catalog.skills[idx].uri.as_str(),
            source_id,
        ) == Cmp::Equal {
            found = Some(idx);
        }
    }
    found
}

/// A resource read failure, as the provider reports it: a too-large body is
/// a limit, a digest or frontmatter disagreement an integrity failure, a
/// stale manifest its own kind.
pub fn map_skill_read_error(e: SkillReadError, max_bytes: usize) -> (p: SkillProviderError)
    ensures
        match e {
            SkillReadError::TooLarge(_) => p == SkillProviderError::LimitExceeded { limit: max_bytes },
            SkillReadError::Integrity(_) => p == SkillProviderError::Integrity,
            SkillReadError::Stale(_) => p == SkillProviderError::ManifestStale,
        },
{
    match e {
        SkillReadError::TooLarge(_) => SkillProviderError::LimitExceeded { limit: max_bytes },
        SkillReadError::Integrity(_) => SkillProviderError::Integrity,
        SkillReadError::Stale(_) => SkillProviderError::ManifestStale,
    }
}

} // verus!
