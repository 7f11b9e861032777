//! Per-(upstream, subject) cache of upstream skill catalogs.
//!
//! Every entry is keyed by subject whatever scope the upstream declares:
//! under-sharing is always allowed, over-sharing never. Expired entries keep
//! being served while one refresh runs behind them, and upstream `ttlMs`
//! hints are clamped: a zero would make every read a fetch, a huge value
//! would pin a stale catalog.
//!
//! Time is a monotonic clock reading in milliseconds, passed in by the caller.

use std::sync::Arc;
use vstd::prelude::*;
use crate::kv::{kv_get, kv_insert, kv_map, kv_remove};
use crate::order::strings_view;

verus! {

broadcast use vstd::string::group_string_axioms;

/// Shortest refresh interval honored from an upstream's `ttlMs`.
pub const SKILLS_TTL_FLOOR_MS: u64 = 5_000;

/// Longest refresh interval honored from an upstream's `ttlMs`.
pub const SKILLS_TTL_CEILING_MS: u64 = 3_600_000;

/// Refresh interval used when an upstream publishes no `ttlMs`.
pub const SKILLS_TTL_DEFAULT_MS: u64 = 300_000;

/// A cached catalog untouched this long is evicted.
pub const SKILLS_CACHE_IDLE_TTL_MS: u64 = 1_800_000;

/// Subject-scoped catalogs kept per upstream.
pub const SKILLS_CACHE_MAX_SUBJECTS_PER_UPSTREAM: usize = 64;

/// First retry delay after a failed background refresh.
pub const SKILLS_REFRESH_BACKOFF_BASE_MS: u64 = 5_000;

/// Longest retry delay after repeated failed refreshes.
pub const SKILLS_REFRESH_BACKOFF_MAX_MS: u64 = 60_000;

/// The refresh interval honored for an upstream `ttlMs` hint, in milliseconds.
pub open spec fn spec_clamp_ttl(ttl_ms: Option<u64>) -> u64 {
    match ttl_ms {
        None => SKILLS_TTL_DEFAULT_MS,
        Some(ms) => if ms < SKILLS_TTL_FLOOR_MS {
            SKILLS_TTL_FLOOR_MS
        } else if ms > SKILLS_TTL_CEILING_MS {
            SKILLS_TTL_CEILING_MS
        } else {
            ms
        },
    }
}

/// Clamp an untrusted `ttlMs` hint into the range honored.
pub fn clamp_ttl(ttl_ms: Option<u64>) -> (ms: u64)
    ensures
        ms == spec_clamp_ttl(ttl_ms),
        SKILLS_TTL_FLOOR_MS <= ms <= SKILLS_TTL_CEILING_MS,
{
    match ttl_ms {
        None => SKILLS_TTL_DEFAULT_MS,
        Some(ms) => if ms < SKILLS_TTL_FLOOR_MS {
            SKILLS_TTL_FLOOR_MS
        } else if ms > SKILLS_TTL_CEILING_MS {
            SKILLS_TTL_CEILING_MS
        } else {
            ms
        },
    }
}

/// One resource a skill's manifest publishes: its canonical URI, declared
/// size and digest.
#[derive(Debug)]
pub struct SkillResourceEntry {
    pub uri: String,
    pub size: u64,
    pub digest: String,
}

/// A validated upstream skill: its name, canonical `skill://` URI, and the
/// resources its manifest publishes.
#[derive(Debug)]
pub struct SkillRecord {
    pub name: String,
    pub uri: String,
    pub resources: Vec<SkillResourceEntry>,
}

/// Where a resource URI appears: skill `skill`'s resource `resource`.
#[derive(Debug, Clone, Copy, PartialEq, Eq, Structural)]
pub struct SkillBindingRef {
    pub skill: usize,
    pub resource: usize,
}

/// A skill entry dropped at ingest, and why.
#[derive(Debug)]
pub struct ExcludedSkill {
    pub reason: String,
    pub uri: String,
    pub detail: String,
}

/// One upstream's validated skills plus what was dropped getting there.
#[derive(Debug)]
pub struct UpstreamSkills {
    pub skills: Vec<SkillRecord>,
    pub excluded: Vec<ExcludedSkill>,
    /// A budget stopped the walk early; the snapshot is complete as far as
    /// it goes.
    pub truncated: bool,
    /// Smallest `ttlMs` seen across the pages.
    pub ttl_ms: Option<u64>,
    /// `cacheScope` as reported; advisory only.
    pub cache_scope: Option<String>,
    /// Entries the walk saw, before validation.
    pub discovered_count: usize,
    /// Canonical resource URI to the listed skills' resources that carry it.
    pub resource_index: Vec<(String, Vec<SkillBindingRef>)>,
}

impl UpstreamSkills {
    /// An empty catalog: what an upstream without the extension has.
    pub fn empty() -> (s: Self)
        ensures
            s.skills@.len() == 0,
            s.excluded@.len() == 0,
            !s.truncated,
            s.ttl_ms.is_none(),
            s.cache_scope.is_none(),
            s.discovered_count == 0,
            s.resource_index@.len() == 0,
    {
        UpstreamSkills {
            skills: Vec::new(),
            excluded: Vec::new(),
            truncated: false,
            ttl_ms: None,
            cache_scope: None,
            discovered_count: 0,
            resource_index: Vec::new(),
        }
    }

    /// Count of skills dropped for integrity or budget reasons.
    pub fn excluded_count(&self) -> (n: usize)
        ensures
            n == self.excluded@.len(),
    {
        self.excluded.len()
    }

    pub open spec fn listed_resources(&self) -> Set<Seq<char>> {
        kv_map(self.resource_index@).dom()
    }

    /// Whether a listed skill owns the canonical resource `uri`.
    pub fn lists_resource(&self, uri: &str) -> (b: bool)
        ensures
            b == self.listed_resources().contains(uri@),
    {
        kv_get(&self.resource_index, uri).is_some()
    }
}

/// Share a catalog snapshot: another handle to the same value.
#[verifier::external_body]
pub(crate) fn share_skills(a: &Arc<UpstreamSkills>) -> (r: Arc<UpstreamSkills>)
    ensures
        r == *a,
{
    Arc::clone(a)
}

/// A `skills/get` manifest cached beside a catalog shard. It never joins the
/// listed catalog: getting an unlisted skill must not make it listed.
#[derive(Debug)]
pub struct CachedDirectSkill {
    pub skill: SkillRecord,
    /// Canonical resource URIs this manifest owns (its own URI included).
    pub owned_uris: Vec<String>,
    pub expires_at_ms: u64,
    pub last_used_ms: u64,
}

pub open spec fn owned_set(d: CachedDirectSkill) -> Set<Seq<char>> {
    strings_view(d.owned_uris@).to_set()
}

impl CachedDirectSkill {
    pub fn new(skill: SkillRecord, owned_uris: Vec<String>, now_ms: u64) -> (d: Self)
        requires
            now_ms + SKILLS_TTL_DEFAULT_MS <= u64::MAX,
        ensures
            d.skill == skill,
            d.owned_uris@ == owned_uris@,
            d.expires_at_ms == now_ms + SKILLS_TTL_DEFAULT_MS,
            d.last_used_ms == now_ms,
    {
        CachedDirectSkill {
            skill,
            owned_uris,
            expires_at_ms: now_ms + SKILLS_TTL_DEFAULT_MS,
            last_used_ms: now_ms,
        }
    }

    pub fn is_fresh(&self, now_ms: u64) -> (b: bool)
        ensures
            b == (now_ms < self.expires_at_ms),
    {
        now_ms < self.expires_at_ms
    }

    pub fn touch(&mut self, now_ms: u64)
        ensures
            final(self).last_used_ms == now_ms,
            final(self).skill == old(self).skill,
            final(self).owned_uris == old(self).owned_uris,
            final(self).expires_at_ms == old(self).expires_at_ms,
    {
        self.last_used_ms = now_ms;
    }
}

/// A cached catalog snapshot and the bookkeeping that governs its lifetime.
#[derive(Debug)]
pub struct CachedSkills {
    pub skills: Arc<UpstreamSkills>,
    /// Direct `skills/get` manifests, by owning skill URI.
    pub direct: Vec<(String, CachedDirectSkill)>,
    /// Resource URI to the direct manifest that owns it.
    pub direct_resource_index: Vec<(String, String)>,
    pub fetched_at_ms: u64,
    /// When the snapshot stops being fresh, already clamped.
    pub expires_at_ms: u64,
    pub last_used_ms: u64,
    /// A background refresh is in flight.
    pub refreshing: bool,
    pub refresh_started_at_ms: Option<u64>,
    /// Earliest time a failed refresh may be retried.
    pub retry_after_ms: Option<u64>,
    /// Consecutive failed background refreshes.
    pub refresh_failures: u32,
}

/// The retry delay after `failures` consecutive failed refreshes:
/// `base * 2^min(failures - 1, 6)`, capped.
pub open spec fn backoff_delay(failures: u32) -> u64 {
    let shift: nat = if failures == 0 {
        0
    } else if failures - 1 > 6 {
        6
    } else {
        (failures - 1) as nat
    };
    let d = SKILLS_REFRESH_BACKOFF_BASE_MS * pow2(shift);
    if d > SKILLS_REFRESH_BACKOFF_MAX_MS {
        SKILLS_REFRESH_BACKOFF_MAX_MS
    } else {
        d as u64
    }
}

pub open spec fn pow2(n: nat) -> nat
    decreases n,
{
    if n == 0 {
        1
    } else {
        2 * pow2((n - 1) as nat)
    }
}

/// Every index entry names a cached manifest that owns the indexed URI.
pub open spec fn index_consistent(
    direct: Map<Seq<char>, CachedDirectSkill>,
    index: Map<Seq<char>, String>,
) -> bool {
    forall|uri: Seq<char>|
        #[trigger] index.dom().contains(uri) ==> direct.dom().contains(index[uri]@) && owned_set(
            direct[index[uri]@],
        ).contains(uri)
}

/// The index after dropping the entries of `owner` for the URIs in `owned`.
pub open spec fn index_without_owner(
    index: Map<Seq<char>, String>,
    owner: Seq<char>,
    owned: Set<Seq<char>>,
) -> Map<Seq<char>, String> {
    index.restrict(index.dom().filter(|u: Seq<char>| !(owned.contains(u) && index[u]@ == owner)))
}

/// The index after pointing every URI in `owned` at `owner`.
pub open spec fn index_with_owner(
    index: Map<Seq<char>, String>,
    owner: String,
    owned: Set<Seq<char>>,
) -> Map<Seq<char>, String> {
    index.union_prefer_right(Map::new(|u: Seq<char>| owned.contains(u), |u: Seq<char>| owner))
}

impl CachedSkills {
    pub open spec fn direct_view(&self) -> Map<Seq<char>, CachedDirectSkill> {
        kv_map(self.direct@)
    }

    pub open spec fn index_view(&self) -> Map<Seq<char>, String> {
        kv_map(self.direct_resource_index@)
    }

    /// A fresh snapshot of `skills` fetched at `now_ms`.
    pub fn new(skills: UpstreamSkills, now_ms: u64) -> (c: Self)
        requires
            now_ms + SKILLS_TTL_CEILING_MS <= u64::MAX,
        ensures
            *c.skills == skills,
            c.direct@.len() == 0,
            c.direct_resource_index@.len() == 0,
            c.fetched_at_ms == now_ms,
            c.expires_at_ms == now_ms + spec_clamp_ttl(skills.ttl_ms),
            c.last_used_ms == now_ms,
            !c.refreshing,
            c.refresh_started_at_ms.is_none(),
            c.retry_after_ms.is_none(),
            c.refresh_failures == 0,
    {
        let ttl = clamp_ttl(skills.ttl_ms);
        CachedSkills {
            skills: Arc::new(skills),
            direct: Vec::new(),
            direct_resource_index: Vec::new(),
            fetched_at_ms: now_ms,
            expires_at_ms: now_ms + ttl,
            last_used_ms: now_ms,
            refreshing: false,
            refresh_started_at_ms: None,
            retry_after_ms: None,
            refresh_failures: 0,
        }
    }

    pub fn is_fresh(&self, now_ms: u64) -> (b: bool)
        ensures
            b == (now_ms < self.expires_at_ms),
    {
        now_ms < self.expires_at_ms
    }

    /// A shallow copy for list and status readers: the same catalog and
    /// bookkeeping, without the direct-get side cache.
    pub fn read_snapshot(&self) -> (c: Self)
        ensures
            c.skills == self.skills,
            c.direct@.len() == 0,
            c.direct_resource_index@.len() == 0,
            c.fetched_at_ms == self.fetched_at_ms,
            c.expires_at_ms == self.expires_at_ms,
            c.last_used_ms == self.last_used_ms,
            c.refreshing == self.refreshing,
            c.refresh_started_at_ms == self.refresh_started_at_ms,
            c.retry_after_ms == self.retry_after_ms,
            c.refresh_failures == self.refresh_failures,
    {
        CachedSkills {
            skills: share_skills(&self.skills),
            direct: Vec::new(),
            direct_resource_index: Vec::new(),
            fetched_at_ms: self.fetched_at_ms,
            expires_at_ms: self.expires_at_ms,
            last_used_ms: self.last_used_ms,
            refreshing: self.refreshing,
            refresh_started_at_ms: self.refresh_started_at_ms,
            retry_after_ms: self.retry_after_ms,
            refresh_failures: self.refresh_failures,
        }
    }

    /// How long the snapshot stays fresh; zero once expired. A listing built
    /// on it must not advertise more.
    pub fn remaining_ttl(&self, now_ms: u64) -> (ms: u64)
        ensures
            ms == if self.expires_at_ms > now_ms {
                self.expires_at_ms - now_ms
            } else {
                0
            },
    {
        self.expires_at_ms.saturating_sub(now_ms)
    }

    pub fn age(&self, now_ms: u64) -> (ms: u64)
        ensures
            ms == if now_ms > self.fetched_at_ms {
                now_ms - self.fetched_at_ms
            } else {
                0
            },
    {
        now_ms.saturating_sub(self.fetched_at_ms)
    }

    pub fn touch(&mut self, now_ms: u64)
        ensures
            final(self).last_used_ms == now_ms,
            final(self).skills == old(self).skills,
            final(self).fetched_at_ms == old(self).fetched_at_ms,
            final(self).refresh_started_at_ms == old(self).refresh_started_at_ms,
            final(self).direct == old(self).direct,
            final(self).direct_resource_index == old(self).direct_resource_index,
            final(self).expires_at_ms == old(self).expires_at_ms,
            final(self).refreshing == old(self).refreshing,
            final(self).retry_after_ms == old(self).retry_after_ms,
            final(self).refresh_failures == old(self).refresh_failures,
    {
        self.last_used_ms = now_ms;
    }

    /// Drop the direct manifest of `owner`, with its index entries.
    pub fn remove_direct(&mut self, owner: &str) -> (removed: Option<CachedDirectSkill>)
        ensures
            final(self).direct_view() == old(self).direct_view().remove(owner@),
            removed == if old(self).direct_view().dom().contains(owner@) {
                Some(old(self).direct_view()[owner@])
            } else {
                None::<CachedDirectSkill>
            },
            final(self).index_view() == match removed {
                Some(d) => index_without_owner(old(self).index_view(), owner@, owned_set(d)),
                None => old(self).index_view(),
            },
            final(self).skills == old(self).skills,
            final(self).expires_at_ms == old(self).expires_at_ms,
            final(self).fetched_at_ms == old(self).fetched_at_ms,
            final(self).last_used_ms == old(self).last_used_ms,
            final(self).refreshing == old(self).refreshing,
            final(self).refresh_started_at_ms == old(self).refresh_started_at_ms,
            final(self).retry_after_ms == old(self).retry_after_ms,
            final(self).refresh_failures == old(self).refresh_failures,
    {
        let removed = match kv_remove(&mut self.direct, owner) {
            Some(d) => d,
            None => {
                return None;
            },
        };
        let ghost idx0 = self.index_view();
        let ghost mid = *self;
        let mut j: usize = 0;
        proof {
            assert(index_without_owner(
                idx0,
                owner@,
                strings_view(removed.owned_uris@.subrange(0, 0)).to_set(),
            ) =~= idx0);
        }
        while j < removed.owned_uris.len()
            invariant
                j <= removed.owned_uris@.len(),
                self.index_view() == index_without_owner(
                    idx0,
                    owner@,
                    strings_view(removed.owned_uris@.subrange(0, j as int)).to_set(),
                ),
                self.direct == mid.direct,
                self.skills == mid.skills,
                self.expires_at_ms == mid.expires_at_ms,
                self.fetched_at_ms == mid.fetched_at_ms,
                self.last_used_ms == mid.last_used_ms,
                self.refreshing == mid.refreshing,
                self.refresh_started_at_ms == mid.refresh_started_at_ms,
                self.retry_after_ms == mid.retry_after_ms,
                self.refresh_failures == mid.refresh_failures,
            decreases removed.owned_uris.len() - j,
        {
            let uri = &removed.owned_uris[j];
            let ghost set0 = strings_view(removed.owned_uris@.subrange(0, j as int)).to_set();
            let ghost cur = self.index_view();
            proof {
                assert(strings_view(removed.owned_uris@.subrange(0, j + 1)) =~= strings_view(
                    removed.owned_uris@.subrange(0, j as int),
                ).push(uri@));
                strings_view(removed.owned_uris@.subrange(0, j as int)).lemma_push_to_set_commute(
                    uri@,
                );
            }
            let points_here = match kv_get(&self.direct_resource_index, uri.as_str()) {
                Some(o) => crate::order::compare_str(o.as_str(), owner) == crate::order::Cmp::Equal,
                None => false,
            };
            if points_here {
                kv_remove(&mut self.direct_resource_index, uri.as_str());
                proof {
                    assert(self.index_view() =~= index_without_owner(idx0, owner@, set0.insert(uri@)));
                }
            } else {
                proof {
                    assert(cur =~= index_without_owner(idx0, owner@, set0.insert(uri@)));
                }
            }
            j = j + 1;
        }
        proof {
            assert(removed.owned_uris@.subrange(0, removed.owned_uris@.len() as int)
                =~= removed.owned_uris@);
        }
        Some(removed)
    }
}


impl CachedSkills {
    /// Cache a direct manifest under `owner`, replacing any earlier one, and
    /// point every resource it owns at it.
    pub fn insert_direct(&mut self, owner: String, snapshot: CachedDirectSkill)
        ensures
            final(self).direct_view() == old(self).direct_view().insert(owner@, snapshot),
            final(self).index_view() == index_with_owner(
                if old(self).direct_view().dom().contains(owner@) {
                    index_without_owner(
                        old(self).index_view(),
                        owner@,
                        owned_set(old(self).direct_view()[owner@]),
                    )
                } else {
                    old(self).index_view()
                },
                owner,
                owned_set(snapshot),
            ),
            final(self).skills == old(self).skills,
            final(self).expires_at_ms == old(self).expires_at_ms,
            final(self).fetched_at_ms == old(self).fetched_at_ms,
            final(self).last_used_ms == old(self).last_used_ms,
            final(self).refreshing == old(self).refreshing,
            final(self).refresh_started_at_ms == old(self).refresh_started_at_ms,
            final(self).retry_after_ms == old(self).retry_after_ms,
            final(self).refresh_failures == old(self).refresh_failures,
    {
        self.remove_direct(owner.as_str());
        let ghost idx0 = self.index_view();
        let ghost mid = *self;
        let mut j: usize = 0;
        proof {
            assert(index_with_owner(
                idx0,
                owner,
                strings_view(snapshot.owned_uris@.subrange(0, 0)).to_set(),
            ) =~= idx0);
        }
        while j < snapshot.owned_uris.len()
            invariant
                j <= snapshot.owned_uris@.len(),
                self.index_view() == index_with_owner(
                    idx0,
                    owner,
                    strings_view(snapshot.owned_uris@.subrange(0, j as int)).to_set(),
                ),
                self.direct == mid.direct,
                self.skills == mid.skills,
                self.expires_at_ms == mid.expires_at_ms,
                self.fetched_at_ms == mid.fetched_at_ms,
                self.last_used_ms == mid.last_used_ms,
                self.refreshing == mid.refreshing,
                self.refresh_started_at_ms == mid.refresh_started_at_ms,
                self.retry_after_ms == mid.retry_after_ms,
                self.refresh_failures == mid.refresh_failures,
            decreases snapshot.owned_uris.len() - j,
        {
            let uri = &snapshot.owned_uris[j];
            let ghost set0 = strings_view(snapshot.owned_uris@.subrange(0, j as int)).to_set();
            proof {
                assert(strings_view(snapshot.owned_uris@.subrange(0, j + 1)) =~= strings_view(
                    snapshot.owned_uris@.subrange(0, j as int),
                ).push(uri@));
                strings_view(snapshot.owned_uris@.subrange(0, j as int)).lemma_push_to_set_commute(
                    uri@,
                );
            }
            kv_insert(&mut self.direct_resource_index, uri.clone(), owner.clone());
            proof {
                assert(self.index_view() =~= index_with_owner(idx0, owner, set0.insert(uri@)));
            }
            j = j + 1;
        }
        proof {
            assert(snapshot.owned_uris@.subrange(0, snapshot.owned_uris@.len() as int)
                =~= snapshot.owned_uris@);
        }
        kv_insert(&mut self.direct, owner, snapshot);
    }

    /// Mark a background refresh in flight, unless one already is or a
    /// failed refresh's cooldown has not passed.
    pub fn begin_refresh(&mut self, now_ms: u64) -> (started: bool)
        ensures
            started == !(old(self).refreshing || (old(self).retry_after_ms matches Some(t) && t
                > now_ms)),
            started ==> final(self).refreshing && final(self).refresh_started_at_ms == Some(now_ms),
            !started ==> final(self).refreshing == old(self).refreshing
                && final(self).refresh_started_at_ms == old(self).refresh_started_at_ms,
            final(self).retry_after_ms == old(self).retry_after_ms,
            final(self).refresh_failures == old(self).refresh_failures,
            final(self).skills == old(self).skills,
            final(self).direct == old(self).direct,
            final(self).direct_resource_index == old(self).direct_resource_index,
            final(self).expires_at_ms == old(self).expires_at_ms,
            final(self).fetched_at_ms == old(self).fetched_at_ms,
            final(self).last_used_ms == old(self).last_used_ms,
    {
        let cooling = match self.retry_after_ms {
            Some(t) => t > now_ms,
            None => false,
        };
        if self.refreshing || cooling {
            return false;
        }
        self.refreshing = true;
        self.refresh_started_at_ms = Some(now_ms);
        true
    }

    /// Clear refresh state after a failure and arm the bounded exponential
    /// backoff.
    pub fn fail_refresh(&mut self, now_ms: u64)
        requires
            now_ms + SKILLS_REFRESH_BACKOFF_MAX_MS <= u64::MAX,
        ensures
            !final(self).refreshing,
            final(self).refresh_started_at_ms.is_none(),
            final(self).refresh_failures == if old(self).refresh_failures == u32::MAX {
                u32::MAX
            } else {
                (old(self).refresh_failures + 1) as u32
            },
            final(self).retry_after_ms == Some(
                (now_ms + backoff_delay(final(self).refresh_failures)) as u64,
            ),
            final(self).skills == old(self).skills,
            final(self).direct == old(self).direct,
            final(self).direct_resource_index == old(self).direct_resource_index,
            final(self).expires_at_ms == old(self).expires_at_ms,
            final(self).fetched_at_ms == old(self).fetched_at_ms,
            final(self).last_used_ms == old(self).last_used_ms,
    {
        self.refreshing = false;
        self.refresh_started_at_ms = None;
        self.refresh_failures = self.refresh_failures.saturating_add(1);
        let failures = self.refresh_failures;
        let shift: u32 = if failures.saturating_sub(1) > 6 {
            6
        } else {
            failures.saturating_sub(1)
        };
        let mut multiplier: u64 = 1;
        let mut k: u32 = 0;
        while k < shift
            invariant
                k <= shift <= 6,
                multiplier == pow2(k as nat),
                multiplier <= 64,
            decreases shift - k,
        {
            proof {
                lemma_pow2_le((k + 1) as nat, 6);
                reveal_with_fuel(pow2, 7);
                assert(pow2(6) == 64);
            }
            multiplier = multiplier * 2;
            k = k + 1;
        }
        proof {
            lemma_pow2_le(shift as nat, 6);
        }
        let delay = SKILLS_REFRESH_BACKOFF_BASE_MS * multiplier;
        let delay = if delay > SKILLS_REFRESH_BACKOFF_MAX_MS {
            SKILLS_REFRESH_BACKOFF_MAX_MS
        } else {
            delay
        };
        self.retry_after_ms = Some(now_ms + delay);
    }

    /// How long the current background refresh has run, if one has.
    pub fn refresh_age(&self, now_ms: u64) -> (age: Option<u64>)
        ensures
            age == match self.refresh_started_at_ms {
                Some(t) => Some(
                    if now_ms > t {
                        (now_ms - t) as u64
                    } else {
                        0u64
                    },
                ),
                None => None,
            },
    {
        match self.refresh_started_at_ms {
            Some(t) => Some(now_ms.saturating_sub(t)),
            None => None,
        }
    }

    /// What remains of the failure cooldown, if one was armed.
    pub fn retry_after(&self, now_ms: u64) -> (left: Option<u64>)
        ensures
            left == match self.retry_after_ms {
                Some(t) => Some(
                    if t > now_ms {
                        (t - now_ms) as u64
                    } else {
                        0u64
                    },
                ),
                None => None,
            },
    {
        match self.retry_after_ms {
            Some(t) => Some(t.saturating_sub(now_ms)),
            None => None,
        }
    }
}

proof fn lemma_pow2_le(n: nat, m: nat)
    requires
        n <= m,
    ensures
        1 <= pow2(n) <= pow2(m),
    decreases m,
{
    if n < m {
        lemma_pow2_le(n, (m - 1) as nat);
    } else if m > 0 {
        lemma_pow2_le((m - 1) as nat, (m - 1) as nat);
    }
}

/// Law: the delay after a failed refresh never exceeds the cap, and never
/// shrinks as failures repeat.
pub proof fn law_backoff_bounded_and_growing(failures: u32)
    ensures
        SKILLS_REFRESH_BACKOFF_BASE_MS <= backoff_delay(failures) <= SKILLS_REFRESH_BACKOFF_MAX_MS,
        failures < u32::MAX ==> backoff_delay(failures) <= backoff_delay((failures + 1) as u32),
{
    let s1: nat = if failures == 0 {
        0
    } else if failures - 1 > 6 {
        6
    } else {
        (failures - 1) as nat
    };
    lemma_pow2_le(0, s1);
    if failures < u32::MAX {
        let f2 = (failures + 1) as u32;
        let s2: nat = if f2 - 1 > 6 {
            6
        } else {
            (f2 - 1) as nat
        };
        lemma_pow2_le(s1, s2);
        assert(SKILLS_REFRESH_BACKOFF_BASE_MS * pow2(s1) <= SKILLS_REFRESH_BACKOFF_BASE_MS * pow2(s2))
            by (nonlinear_arith)
            requires
                pow2(s1) <= pow2(s2),
        ;
    }
    assert(SKILLS_REFRESH_BACKOFF_BASE_MS <= SKILLS_REFRESH_BACKOFF_BASE_MS * pow2(s1))
        by (nonlinear_arith)
        requires
            1 <= pow2(s1),
    ;
}

/// Law: dropping a direct manifest keeps the resource index consistent, and
/// no index entry names the dropped owner afterwards.
pub proof fn law_remove_direct_keeps_index_consistent(
    direct: Map<Seq<char>, CachedDirectSkill>,
    index: Map<Seq<char>, String>,
    owner: Seq<char>,
)
    requires
        index_consistent(direct, index),
    ensures
        ({
            let index2 = if direct.dom().contains(owner) {
                index_without_owner(index, owner, owned_set(direct[owner]))
            } else {
                index
            };
            &&& index_consistent(direct.remove(owner), index2)
            &&& forall|u: Seq<char>| #[trigger] index2.dom().contains(u) ==> index2[u]@ != owner
        }),
{
}

/// Law: caching a direct manifest keeps the resource index consistent, and
/// every resource the manifest owns then resolves to it.
pub proof fn law_insert_direct_keeps_index_consistent(
    direct: Map<Seq<char>, CachedDirectSkill>,
    index: Map<Seq<char>, String>,
    owner: String,
    snapshot: CachedDirectSkill,
)
    requires
        index_consistent(direct, index),
    ensures
        ({
            let index1 = if direct.dom().contains(owner@) {
                index_without_owner(index, owner@, owned_set(direct[owner@]))
            } else {
                index
            };
            let index2 = index_with_owner(index1, owner, owned_set(snapshot));
            &&& index_consistent(direct.insert(owner@, snapshot), index2)
            &&& forall|u: Seq<char>| #[trigger] owned_set(snapshot).contains(u) ==> index2.dom().contains(u)
                && index2[u] == owner
        }),
{
    let index1 = if direct.dom().contains(owner@) {
        index_without_owner(index, owner@, owned_set(direct[owner@]))
    } else {
        index
    };
    law_remove_direct_keeps_index_consistent(direct, index, owner@);
    let index2 = index_with_owner(index1, owner, owned_set(snapshot));
    let direct2 = direct.insert(owner@, snapshot);
    assert forall|uri: Seq<char>| #[trigger] index2.dom().contains(uri) implies direct2.dom().contains(
        index2[uri]@,
    ) && owned_set(direct2[index2[uri]@]).contains(uri) by {
        if !owned_set(snapshot).contains(uri) {
            assert(index1.dom().contains(uri));
            assert(index1[uri]@ != owner@);
        }
    }
}

pub open spec fn elapsed_ms(now_ms: u64, then_ms: u64) -> int {
    if now_ms > then_ms {
        now_ms - then_ms
    } else {
        0
    }
}

/// A direct manifest that expired or sat idle.
pub open spec fn direct_stale(d: CachedDirectSkill, now_ms: u64) -> bool {
    !(now_ms < d.expires_at_ms) || elapsed_ms(now_ms, d.last_used_ms) >= SKILLS_CACHE_IDLE_TTL_MS
}

/// Under a consistent index, dropping one owner's entries is dropping every
/// entry that names it.
proof fn lemma_without_owner_is_restrict(
    direct: Map<Seq<char>, CachedDirectSkill>,
    index: Map<Seq<char>, String>,
    owner: Seq<char>,
)
    requires
        index_consistent(direct, index),
        direct.dom().contains(owner),
    ensures
        index_without_owner(index, owner, owned_set(direct[owner])) == index.restrict(
            index.dom().filter(|u: Seq<char>| index[u]@ != owner),
        ),
{
    assert(index_without_owner(index, owner, owned_set(direct[owner])) =~= index.restrict(
        index.dom().filter(|u: Seq<char>| index[u]@ != owner),
    ));
}

impl CachedSkills {
    /// Drop direct manifests that expired or sat idle, with their index entries.
    pub fn prune_direct(&mut self, now_ms: u64)
        ensures
            final(self).direct_view() == old(self).direct_view().restrict(
                old(self).direct_view().dom().filter(
                    |k: Seq<char>| !direct_stale(old(self).direct_view()[k], now_ms),
                ),
            ),
            index_consistent(old(self).direct_view(), old(self).index_view()) ==> {
                &&& index_consistent(final(self).direct_view(), final(self).index_view())
                &&& final(self).index_view() == old(self).index_view().restrict(
                    old(self).index_view().dom().filter(
                        |u: Seq<char>| final(self).direct_view().dom().contains(old(self).index_view()[u]@),
                    ),
                )
            },
            final(self).skills == old(self).skills,
            final(self).expires_at_ms == old(self).expires_at_ms,
            final(self).fetched_at_ms == old(self).fetched_at_ms,
            final(self).last_used_ms == old(self).last_used_ms,
            final(self).refreshing == old(self).refreshing,
            final(self).refresh_started_at_ms == old(self).refresh_started_at_ms,
            final(self).retry_after_ms == old(self).retry_after_ms,
            final(self).refresh_failures == old(self).refresh_failures,
    {
        let ghost dv0 = self.direct_view();
        let ghost iv0 = self.index_view();
        // The owners whose current manifest is stale.
        let mut stale: Vec<String> = Vec::new();
        let mut i: usize = 0;
        while i < self.direct.len()
            invariant
                i <= self.direct@.len(),
                dv0 == self.direct_view(),
                forall|j: int|
                    0 <= j < stale@.len() ==> dv0.dom().contains(#[trigger] stale@[j]@) && direct_stale(
                        dv0[stale@[j]@],
                        now_ms,
                    ),
                forall|j: int|
                    0 <= j < i && #[trigger] direct_stale(dv0[self.direct@[j].0@], now_ms)
                        ==> strings_view(stale@).contains(self.direct@[j].0@),
            decreases self.direct.len() - i,
        {
            let key = &self.direct[i].0;
            proof {
                crate::kv::lemma_kv_dom(self.direct@, key@);
            }
            let d = kv_get(&self.direct, key.as_str()).unwrap();
            let expired = !(now_ms < d.expires_at_ms);
            let idle = now_ms.saturating_sub(d.last_used_ms) >= SKILLS_CACHE_IDLE_TTL_MS;
            if expired || idle {
                let ghost before = stale@;
                stale.push(key.clone());
                proof {
                    assert(strings_view(stale@)[stale@.len() - 1] == key@);
                    assert forall|j: int|
                        0 <= j < i && #[trigger] direct_stale(dv0[self.direct@[j].0@], now_ms)
                            implies strings_view(stale@).contains(self.direct@[j].0@) by {
                        let k = choose|k: int|
                            0 <= k < strings_view(before).len() && strings_view(before)[k]
                                == self.direct@[j].0@;
                        assert(strings_view(stale@)[k] == self.direct@[j].0@);
                    }
                }
            }
            i = i + 1;
        }
        proof {
            assert forall|k: Seq<char>| #[trigger] dv0.dom().contains(k) && direct_stale(dv0[k], now_ms)
                implies strings_view(stale@).contains(k) by {
                crate::kv::lemma_kv_dom(self.direct@, k);
                let j = choose|j: int| 0 <= j < self.direct@.len() && #[trigger] self.direct@[j].0@ == k;
            }
        }
        // Drop them one by one.
        let ghost mid = *self;
        let ghost consistent0 = index_consistent(dv0, iv0);
        let mut j: usize = 0;
        proof {
            assert(dv0.remove_keys(strings_view(stale@.subrange(0, 0)).to_set()) =~= dv0);
            assert(iv0.restrict(
                iv0.dom().filter(
                    |u: Seq<char>| !strings_view(stale@.subrange(0, 0)).to_set().contains(iv0[u]@),
                ),
            ) =~= iv0);
        }
        while j < stale.len()
            invariant
                j <= stale@.len(),
                forall|k: int|
                    0 <= k < stale@.len() ==> dv0.dom().contains(#[trigger] stale@[k]@) && direct_stale(
                        dv0[stale@[k]@],
                        now_ms,
                    ),
                self.direct_view() == dv0.remove_keys(strings_view(stale@.subrange(0, j as int)).to_set()),
                consistent0 == index_consistent(dv0, iv0),
                consistent0 ==> index_consistent(self.direct_view(), self.index_view()),
                consistent0 ==> self.index_view() == iv0.restrict(
                    iv0.dom().filter(
                        |u: Seq<char>| !strings_view(stale@.subrange(0, j as int)).to_set().contains(
                            iv0[u]@,
                        ),
                    ),
                ),
                self.skills == mid.skills,
                self.expires_at_ms == mid.expires_at_ms,
                self.fetched_at_ms == mid.fetched_at_ms,
                self.last_used_ms == mid.last_used_ms,
                self.refreshing == mid.refreshing,
                self.refresh_started_at_ms == mid.refresh_started_at_ms,
                self.retry_after_ms == mid.retry_after_ms,
                self.refresh_failures == mid.refresh_failures,
            decreases stale.len() - j,
        {
            let owner = &stale[j];
            let ghost set0 = strings_view(stale@.subrange(0, j as int)).to_set();
            let ghost dv = self.direct_view();
            let ghost iv = self.index_view();
            proof {
                assert(strings_view(stale@.subrange(0, j + 1)) =~= strings_view(
                    stale@.subrange(0, j as int),
                ).push(owner@));
                strings_view(stale@.subrange(0, j as int)).lemma_push_to_set_commute(owner@);
                if consistent0 {
                    law_remove_direct_keeps_index_consistent(dv, iv, owner@);
                    if dv.dom().contains(owner@) {
                        lemma_without_owner_is_restrict(dv, iv, owner@);
                    }
                }
            }
            self.remove_direct(owner.as_str());
            proof {
                assert(self.direct_view() =~= dv0.remove_keys(set0.insert(owner@)));
                if consistent0 {
                    if dv.dom().contains(owner@) {
                        assert(self.index_view() =~= iv0.restrict(
                            iv0.dom().filter(|u: Seq<char>| !set0.insert(owner@).contains(iv0[u]@)),
                        ));
                    } else {
                        assert forall|u: Seq<char>| #[trigger] iv.dom().contains(u) implies iv[u]@ != owner@ by {
                        }
                        assert(self.index_view() =~= iv0.restrict(
                            iv0.dom().filter(|u: Seq<char>| !set0.insert(owner@).contains(iv0[u]@)),
                        ));
                    }
                }
            }
            j = j + 1;
        }
        proof {
            let all = strings_view(stale@.subrange(0, stale@.len() as int)).to_set();
            assert(stale@.subrange(0, stale@.len() as int) =~= stale@);
            assert forall|k: Seq<char>| #[trigger] all.contains(k) implies dv0.dom().contains(k)
                && direct_stale(dv0[k], now_ms) by {
                let q = choose|q: int| 0 <= q < strings_view(stale@).len() && strings_view(stale@)[q] == k;
                assert(stale@[q]@ == k);
            }
            assert(self.direct_view() =~= dv0.restrict(
                dv0.dom().filter(|k: Seq<char>| !direct_stale(dv0[k], now_ms)),
            ));
            if consistent0 {
                assert(self.index_view() =~= iv0.restrict(
                    iv0.dom().filter(|u: Seq<char>| self.direct_view().dom().contains(iv0[u]@)),
                ));
            }
        }
    }
}

/// The direct-cache maps after [`CachedSkills::insert_direct`].
pub open spec fn direct_insert_maps(
    dv: Map<Seq<char>, CachedDirectSkill>,
    iv: Map<Seq<char>, String>,
    owner: String,
    d: CachedDirectSkill,
) -> (Map<Seq<char>, CachedDirectSkill>, Map<Seq<char>, String>) {
    (
        dv.insert(owner@, d),
        index_with_owner(
            if dv.dom().contains(owner@) {
                index_without_owner(iv, owner@, owned_set(dv[owner@]))
            } else {
                iv
            },
            owner,
            owned_set(d),
        ),
    )
}

/// Carry over the fresh direct manifests of `items`, in order, that own no
/// resource the new listing owns.
pub open spec fn retain_fold(
    dv: Map<Seq<char>, CachedDirectSkill>,
    iv: Map<Seq<char>, String>,
    items: Seq<(String, CachedDirectSkill)>,
    listed: Set<Seq<char>>,
    now_ms: u64,
) -> (Map<Seq<char>, CachedDirectSkill>, Map<Seq<char>, String>)
    decreases items.len(),
{
    if items.len() == 0 {
        (dv, iv)
    } else {
        let prev = retain_fold(dv, iv, items.drop_last(), listed, now_ms);
        let (owner, d) = items.last();
        if now_ms < d.expires_at_ms && owned_set(d).disjoint(listed) {
            direct_insert_maps(prev.0, prev.1, owner, d)
        } else {
            prev
        }
    }
}

impl CachedSkills {
    /// Whether a listed skill of this snapshot owns any of `uris`.
    fn lists_any(&self, uris: &Vec<String>) -> (b: bool)
        ensures
            b == !strings_view(uris@).to_set().disjoint(self.skills.listed_resources()),
    {
        let mut i: usize = 0;
        while i < uris.len()
            invariant
                i <= uris@.len(),
                forall|k: int|
                    0 <= k < i ==> !self.skills.listed_resources().contains(#[trigger] uris@[k]@),
            decreases uris.len() - i,
        {
            if self.skills.lists_resource(uris[i].as_str()) {
                proof {
                    assert(strings_view(uris@)[i as int] == uris@[i as int]@);
                    assert(strings_view(uris@).to_set().contains(uris@[i as int]@));
                }
                return true;
            }
            i = i + 1;
        }
        proof {
            assert forall|u: Seq<char>| #[trigger] strings_view(uris@).to_set().contains(u)
                implies !self.skills.listed_resources().contains(u) by {
                let k = choose|k: int| 0 <= k < strings_view(uris@).len() && strings_view(uris@)[k] == u;
                assert(uris@[k]@ == u);
            }
        }
        false
    }

    /// Carry the still-fresh direct manifests of the snapshot this one
    /// replaces, except those now shadowed by a listed skill's resources.
    pub fn retain_direct_from(&mut self, previous: CachedSkills, now_ms: u64)
        ensures
            (final(self).direct_view(), final(self).index_view()) == retain_fold(
                old(self).direct_view(),
                old(self).index_view(),
                previous.direct@,
                old(self).skills.listed_resources(),
                now_ms,
            ),
            final(self).skills == old(self).skills,
            final(self).expires_at_ms == old(self).expires_at_ms,
            final(self).fetched_at_ms == old(self).fetched_at_ms,
            final(self).last_used_ms == old(self).last_used_ms,
            final(self).refreshing == old(self).refreshing,
            final(self).refresh_started_at_ms == old(self).refresh_started_at_ms,
            final(self).retry_after_ms == old(self).retry_after_ms,
            final(self).refresh_failures == old(self).refresh_failures,
    {
        let ghost items = previous.direct@;
        let ghost listed = self.skills.listed_resources();
        let ghost dv0 = self.direct_view();
        let ghost iv0 = self.index_view();
        let ghost mid = *self;
        let mut rest = previous.direct;
        let n = rest.len();
        proof {
            assert(items.subrange(0, 0) =~= Seq::<(String, CachedDirectSkill)>::empty());
            assert(items.subrange(0, n as int) =~= items);
        }
        while rest.len() > 0
            invariant
                n == items.len(),
                rest@.len() <= n,
                rest@ == items.subrange(n - rest@.len(), n as int),
                (self.direct_view(), self.index_view()) == retain_fold(
                    dv0,
                    iv0,
                    items.subrange(0, n - rest@.len()),
                    listed,
                    now_ms,
                ),
                listed == self.skills.listed_resources(),
                self.skills == mid.skills,
                self.expires_at_ms == mid.expires_at_ms,
                self.fetched_at_ms == mid.fetched_at_ms,
                self.last_used_ms == mid.last_used_ms,
                self.refreshing == mid.refreshing,
                self.refresh_started_at_ms == mid.refresh_started_at_ms,
                self.retry_after_ms == mid.retry_after_ms,
                self.refresh_failures == mid.refresh_failures,
            decreases rest.len(),
        {
            let ghost done = n - rest@.len();
            let (owner, snapshot) = rest.remove(0);
            proof {
                assert((owner, snapshot) == items[done]);
                assert(items.subrange(0, done + 1).drop_last() =~= items.subrange(0, done));
                assert(rest@ =~= items.subrange(done + 1, n as int));
            }
            if snapshot.is_fresh(now_ms) && !self.lists_any(&snapshot.owned_uris) {
                self.insert_direct(owner, snapshot);
            }
        }
        proof {
            assert(items.subrange(0, n as int) =~= items);
        }
    }
}

/// The subject a catalog is cached under: the caller's own subject, for
/// every upstream, OAuth or not. Two authorization contexts never share a
/// cached catalog, so one caller is never served a catalog listed for
/// another.
pub fn skills_cache_subject<'a>(subject: Option<&'a str>) -> (s: Option<&'a str>)
    ensures
        s == subject,
{
    subject
}

/// One cache entry under its (upstream, subject) key.
#[derive(Debug)]
pub struct SkillsCacheSlot {
    pub upstream: String,
    pub subject: Option<String>,
    pub entry: CachedSkills,
}

pub open spec fn slot_live(s: SkillsCacheSlot, now_ms: u64) -> bool {
    elapsed_ms(now_ms, s.entry.last_used_ms) < SKILLS_CACHE_IDLE_TTL_MS
}

/// The slots not idle past the eviction threshold, in order.
pub open spec fn live_slots(s: Seq<SkillsCacheSlot>, now_ms: u64) -> Seq<SkillsCacheSlot>
    decreases s.len(),
{
    if s.len() == 0 {
        Seq::empty()
    } else {
        let r = live_slots(s.drop_last(), now_ms);
        if slot_live(s.last(), now_ms) {
            r.push(s.last())
        } else {
            r
        }
    }
}

/// Slot `k` is more recently used than slot `i` of the same upstream (ties
/// go to the later slot).
pub open spec fn newer(live: Seq<SkillsCacheSlot>, k: int, i: int) -> bool {
    &&& live[k].upstream@ == live[i].upstream@
    &&& (live[k].entry.last_used_ms > live[i].entry.last_used_ms || (live[k].entry.last_used_ms
        == live[i].entry.last_used_ms && k > i))
}

/// How many of the first `j` slots are newer than slot `i`.
pub open spec fn newer_count(live: Seq<SkillsCacheSlot>, i: int, j: int) -> nat
    decreases j,
{
    if j <= 0 {
        0
    } else {
        newer_count(live, i, j - 1) + if newer(live, j - 1, i) {
            1nat
        } else {
            0nat
        }
    }
}

/// How many of the first `j` slots belong to `upstream`.
pub open spec fn upstream_count(live: Seq<SkillsCacheSlot>, upstream: Seq<char>, j: int) -> nat
    decreases j,
{
    if j <= 0 {
        0
    } else {
        upstream_count(live, upstream, j - 1) + if live[j - 1].upstream@ == upstream {
            1nat
        } else {
            0nat
        }
    }
}

/// A slot survives the per-upstream cap when fewer than the cap of its
/// upstream's slots are newer.
pub open spec fn within_cap(live: Seq<SkillsCacheSlot>, i: int) -> bool {
    newer_count(live, i, live.len() as int) < SKILLS_CACHE_MAX_SUBJECTS_PER_UPSTREAM
}

/// The first `n` slots of `live` that survive the cap, in order.
pub open spec fn capped_slots(live: Seq<SkillsCacheSlot>, n: int) -> Seq<SkillsCacheSlot>
    decreases n,
{
    if n <= 0 {
        Seq::empty()
    } else {
        let r = capped_slots(live, n - 1);
        if within_cap(live, n - 1) {
            r.push(live[n - 1])
        } else {
            r
        }
    }
}

proof fn lemma_newer_count_le(live: Seq<SkillsCacheSlot>, i: int, j: int)
    requires
        0 <= i < live.len(),
        0 <= j <= live.len(),
    ensures
        newer_count(live, i, j) + (if i < j {
            1nat
        } else {
            0nat
        }) <= upstream_count(live, live[i].upstream@, j),
    decreases j,
{
    if j > 0 {
        lemma_newer_count_le(live, i, j - 1);
    }
}

/// Law: an upstream with no more live slots than the cap keeps all of them.
pub proof fn law_evict_spares_upstreams_within_cap(live: Seq<SkillsCacheSlot>, i: int)
    requires
        0 <= i < live.len(),
        upstream_count(live, live[i].upstream@, live.len() as int)
            <= SKILLS_CACHE_MAX_SUBJECTS_PER_UPSTREAM,
    ensures
        within_cap(live, i),
{
    lemma_newer_count_le(live, i, live.len() as int);
}

proof fn lemma_live_slots_members(s: Seq<SkillsCacheSlot>, now_ms: u64)
    ensures
        forall|k: int|
            0 <= k < live_slots(s, now_ms).len() ==> s.contains(#[trigger] live_slots(s, now_ms)[k])
                && slot_live(live_slots(s, now_ms)[k], now_ms),
    decreases s.len(),
{
    if s.len() > 0 {
        lemma_live_slots_members(s.drop_last(), now_ms);
        let r = live_slots(s.drop_last(), now_ms);
        assert forall|k: int| 0 <= k < r.len() implies s.contains(#[trigger] r[k]) by {
            let j = choose|j: int| 0 <= j < s.drop_last().len() && s.drop_last()[j] == r[k];
            assert(s[j] == r[k]);
        }
        assert(s[s.len() - 1] == s.last());
    }
}

proof fn lemma_capped_slots_members(live: Seq<SkillsCacheSlot>, n: int)
    requires
        0 <= n <= live.len(),
    ensures
        forall|k: int|
            0 <= k < capped_slots(live, n).len() ==> live.contains(#[trigger] capped_slots(live, n)[k]),
    decreases n,
{
    if n > 0 {
        lemma_capped_slots_members(live, n - 1);
        let r = capped_slots(live, n - 1);
        assert(live[n - 1] == live[n - 1]);
        assert forall|k: int| 0 <= k < capped_slots(live, n).len() implies live.contains(
            #[trigger] capped_slots(live, n)[k],
        ) by {
            if k < r.len() {
                assert(capped_slots(live, n)[k] == r[k]);
            } else {
                assert(capped_slots(live, n)[k] == live[n - 1]);
            }
        }
    }
}

/// Law: eviction only removes. Every slot that survives an eviction at
/// `now_ms` is, unchanged, a slot of the cache before it, and was used
/// within the idle threshold.
pub proof fn law_evict_keeps_unchanged_live_members(old: Seq<SkillsCacheSlot>, now_ms: u64)
    ensures
        forall|k: int|
            0 <= k < capped_slots(live_slots(old, now_ms), live_slots(old, now_ms).len() as int).len()
                ==> old.contains(
                #[trigger] capped_slots(live_slots(old, now_ms), live_slots(old, now_ms).len() as int)[k],
            ) && slot_live(
                capped_slots(live_slots(old, now_ms), live_slots(old, now_ms).len() as int)[k],
                now_ms,
            ),
{
    let live = live_slots(old, now_ms);
    let kept = capped_slots(live, live.len() as int);
    lemma_live_slots_members(old, now_ms);
    lemma_capped_slots_members(live, live.len() as int);
    assert forall|k: int| 0 <= k < kept.len() implies old.contains(#[trigger] kept[k]) && slot_live(
        kept[k],
        now_ms,
    ) by {
        let j = choose|j: int| 0 <= j < live.len() && live[j] == kept[k];
        assert(old.contains(live[j]));
    }
}

/// Drop idle entries, then keep only the most recently used slots of each
/// upstream up to the cap. Returns how many entries left.
pub fn evict(cache: &mut Vec<SkillsCacheSlot>, now_ms: u64) -> (evicted: usize)
    ensures
        final(cache)@ == capped_slots(
            live_slots(old(cache)@, now_ms),
            live_slots(old(cache)@, now_ms).len() as int,
        ),
        evicted == old(cache)@.len() - final(cache)@.len(),
{
    let before = cache.len();
    let ghost all = cache@;
    // Keep the live slots.
    let mut live: Vec<SkillsCacheSlot> = Vec::new();
    let n = cache.len();
    proof {
        assert(all.subrange(0, 0) =~= Seq::<SkillsCacheSlot>::empty());
        assert(all.subrange(0, n as int) =~= all);
    }
    while cache.len() > 0
        invariant
            n == all.len(),
            cache@.len() <= n,
            cache@ == all.subrange(n - cache@.len(), n as int),
            live@ == live_slots(all.subrange(0, n - cache@.len()), now_ms),
            live@.len() <= n - cache@.len(),
        decreases cache.len(),
    {
        let ghost done = n - cache@.len();
        let slot = cache.remove(0);
        proof {
            assert(slot == all[done]);
            assert(all.subrange(0, done + 1).drop_last() =~= all.subrange(0, done));
            assert(cache@ =~= all.subrange(done + 1, n as int));
        }
        if now_ms.saturating_sub(slot.entry.last_used_ms) < SKILLS_CACHE_IDLE_TTL_MS {
            live.push(slot);
        }
    }
    proof {
        assert(all.subrange(0, n as int) =~= all);
    }
    let ghost lv = live@;
    // Decide, per slot, whether it is within its upstream's cap.
    let m = live.len();
    let mut keep: Vec<bool> = Vec::new();
    let mut i: usize = 0;
    while i < m
        invariant
            i <= m == lv.len(),
            live@ == lv,
            keep@.len() == i,
            forall|k: int| 0 <= k < i ==> #[trigger] keep@[k] == within_cap(lv, k),
        decreases m - i,
    {
        let mut count: usize = 0;
        let mut j: usize = 0;
        while j < m
            invariant
                j <= m == lv.len(),
                i < m,
                live@ == lv,
                count == newer_count(lv, i as int, j as int),
                count <= j,
            decreases m - j,
        {
            let same = crate::order::compare_str(live[j].upstream.as_str(), live[i].upstream.as_str())
                == crate::order::Cmp::Equal;
            let lj = live[j].entry.last_used_ms;
            let li = live[i].entry.last_used_ms;
            if same && (lj > li || (lj == li && j > i)) {
                count = count + 1;
            }
            j = j + 1;
        }
        keep.push(count < SKILLS_CACHE_MAX_SUBJECTS_PER_UPSTREAM);
        i = i + 1;
    }
    // Move the survivors back.
    let mut rest = live;
    proof {
        assert(lv.subrange(0, m as int) =~= lv);
    }
    while rest.len() > 0
        invariant
            m == lv.len(),
            keep@.len() == m,
            forall|k: int| 0 <= k < m ==> #[trigger] keep@[k] == within_cap(lv, k),
            rest@.len() <= m,
            rest@ == lv.subrange(m - rest@.len(), m as int),
            cache@ == capped_slots(lv, m - rest@.len()),
        decreases rest.len(),
    {
        let ghost done = m - rest@.len();
        let slot = rest.remove(0);
        let k = m - rest.len() - 1;
        proof {
            assert(slot == lv[done]);
            assert(rest@ =~= lv.subrange(done + 1, m as int));
        }
        if keep[k] {
            cache.push(slot);
        }
    }
    proof {
        lemma_capped_len(lv, m as int);
        lemma_live_len(all, now_ms);
    }
    before - cache.len()
}

proof fn lemma_capped_len(live: Seq<SkillsCacheSlot>, n: int)
    requires
        0 <= n,
    ensures
        capped_slots(live, n).len() <= n,
    decreases n,
{
    if n > 0 {
        lemma_capped_len(live, n - 1);
    }
}

proof fn lemma_live_len(s: Seq<SkillsCacheSlot>, now_ms: u64)
    ensures
        live_slots(s, now_ms).len() <= s.len(),
    decreases s.len(),
{
    if s.len() > 0 {
        lemma_live_len(s.drop_last(), now_ms);
    }
}

/// A newer slot has strictly fewer newer slots than the older one.
proof fn lemma_newer_rank(live: Seq<SkillsCacheSlot>, i: int, j: int, m: int)
    requires
        0 <= i < live.len(),
        0 <= j < live.len(),
        0 <= m <= live.len(),
        newer(live, j, i),
    ensures
        newer_count(live, i, m) >= newer_count(live, j, m) + (if j < m {
            1nat
        } else {
            0nat
        }),
    decreases m,
{
    if m > 0 {
        lemma_newer_rank(live, i, j, m - 1);
        let k = m - 1;
        if newer(live, k, j) {
            assert(newer(live, k, i));
        }
    }
}

/// The positions of `live` whose slot belongs to `upstream` and survives.
pub open spec fn kept_positions(live: Seq<SkillsCacheSlot>, upstream: Seq<char>, n: int) -> Set<int> {
    Set::new(|i: int| 0 <= i < n && live[i].upstream@ == upstream && within_cap(live, i))
}

proof fn lemma_upstream_count_push(s: Seq<SkillsCacheSlot>, x: SkillsCacheSlot, u: Seq<char>, j: int)
    requires
        0 <= j <= s.len(),
    ensures
        upstream_count(s.push(x), u, j) == upstream_count(s, u, j),
    decreases j,
{
    if j > 0 {
        lemma_upstream_count_push(s, x, u, j - 1);
        assert(s.push(x)[j - 1] == s[j - 1]);
    }
}

/// Counting an upstream's survivors is counting its kept positions.
proof fn lemma_capped_count(live: Seq<SkillsCacheSlot>, u: Seq<char>, n: int)
    requires
        0 <= n <= live.len(),
    ensures
        kept_positions(live, u, n).finite(),
        upstream_count(capped_slots(live, n), u, capped_slots(live, n).len() as int) == kept_positions(
            live,
            u,
            n,
        ).len(),
    decreases n,
{
    if n == 0 {
        assert(kept_positions(live, u, n) =~= Set::<int>::empty());
    } else {
        lemma_capped_count(live, u, n - 1);
        let prev = capped_slots(live, n - 1);
        let k0 = kept_positions(live, u, n - 1);
        if within_cap(live, n - 1) {
            lemma_upstream_count_push(prev, live[n - 1], u, prev.len() as int);
            assert(prev.push(live[n - 1])[prev.len() as int] == live[n - 1]);
            if live[n - 1].upstream@ == u {
                assert(kept_positions(live, u, n) =~= k0.insert(n - 1));
            } else {
                assert(kept_positions(live, u, n) =~= k0);
            }
        } else {
            assert(kept_positions(live, u, n) =~= k0);
        }
    }
}

/// Law: after eviction no upstream holds more than the cap of live slots.
pub proof fn law_evict_caps_each_upstream(live: Seq<SkillsCacheSlot>, u: Seq<char>)
    ensures
        upstream_count(
            capped_slots(live, live.len() as int),
            u,
            capped_slots(live, live.len() as int).len() as int,
        ) <= SKILLS_CACHE_MAX_SUBJECTS_PER_UPSTREAM,
{
    let n = live.len() as int;
    lemma_capped_count(live, u, n);
    let kept = kept_positions(live, u, n);
    let rank = |i: int| newer_count(live, i, n) as int;
    let cap = SKILLS_CACHE_MAX_SUBJECTS_PER_UPSTREAM as int;
    assert forall|a: int, b: int| kept.contains(a) && kept.contains(b) && #[trigger] rank(a) == #[trigger] rank(b)
        implies a == b by {
        if a != b {
            if live[a].entry.last_used_ms > live[b].entry.last_used_ms || (
            live[a].entry.last_used_ms == live[b].entry.last_used_ms && a > b) {
                assert(newer(live, a, b));
                lemma_newer_rank(live, b, a, n);
            } else {
                assert(newer(live, b, a));
                lemma_newer_rank(live, a, b, n);
            }
        }
    }
    assert(vstd::relations::injective_on(rank, kept));
    let img = kept.map(rank);
    vstd::set_lib::lemma_map_size(kept, img, rank);
    vstd::set_lib::lemma_int_range(0, cap);
    assert(img.subset_of(vstd::set_lib::set_int_range(0, cap))) by {
        assert forall|r: int| #[trigger] img.contains(r) implies 0 <= r < cap by {
            let a = choose|a: int| kept.contains(a) && rank(a) == r;
        }
    }
    vstd::set_lib::lemma_len_subset(img, vstd::set_lib::set_int_range(0, cap));
}
} // verus!
