//! Skills fetched by URI (`skills/get`) for an upstream that did not list
//! them: cached beside the listed catalog, never inside it, and refused when
//! they would claim a resource somebody else already owns.

use vstd::prelude::*;
use crate::exposure::ExposurePolicy;
use crate::kv::{kv_get, kv_insert, kv_map, kv_remove};
use crate::order::{compare_str, strings_view, Cmp};
use crate::skills_cache::{
    CachedDirectSkill, CachedSkills, SkillsCacheSlot, SkillRecord, SkillResourceEntry, SKILLS_TTL_DEFAULT_MS,
    direct_stale, index_consistent, index_with_owner, index_without_owner, owned_set,
};
use crate::skills_store::{SkillsStore, find_slot_index, opt_str, slot_index};
use crate::skills_view::{config_skill_policy, resolve_request_skill_exposure_policy};
use crate::tool_catalog::{UpstreamConfig, lemma_matches_pview, pview_matches};

verus! {

broadcast use vstd::string::group_string_axioms;

impl Clone for SkillResourceEntry {
    fn clone(&self) -> (c: Self)
        ensures
            c == *self,
    {
        SkillResourceEntry { uri: self.uri.clone(), size: self.size, digest: self.digest.clone() }
    }
}

/// Two records of the same skill.
pub open spec fn same_skill(a: SkillRecord, b: SkillRecord) -> bool {
    a.name == b.name && a.uri == b.uri && a.resources@ == b.resources@
}

impl SkillRecord {
    /// A copy of the record.
    pub fn duplicate(&self) -> (c: Self)
        ensures
            same_skill(c, *self),
    {
        let resources = self.resources.clone();
        proof {
            assert(resources@ =~= self.resources@);
        }
        SkillRecord { name: self.name.clone(), uri: self.uri.clone(), resources }
    }
}

/// `pe` is `e` after a recency update at `now_ms` and a prune of its stale
/// direct manifests.
pub open spec fn pruned_from(pe: CachedSkills, e: CachedSkills, now_ms: u64) -> bool {
    &&& pe.direct_view() == e.direct_view().restrict(
        e.direct_view().dom().filter(|k: Seq<char>| !direct_stale(e.direct_view()[k], now_ms)),
    )
    &&& index_consistent(e.direct_view(), e.index_view()) ==> pe.index_view() == e.index_view().restrict(
        e.index_view().dom().filter(|u: Seq<char>| pe.direct_view().dom().contains(e.index_view()[u]@)),
    )
    &&& pe.skills == e.skills
    &&& pe.last_used_ms == now_ms
    &&& pe.fetched_at_ms == e.fetched_at_ms
    &&& pe.expires_at_ms == e.expires_at_ms
    &&& pe.refreshing == e.refreshing
    &&& pe.refresh_started_at_ms == e.refresh_started_at_ms
    &&& pe.retry_after_ms == e.retry_after_ms
    &&& pe.refresh_failures == e.refresh_failures
}

/// Why a fetched skill could not be cached.
#[derive(Clone, Copy, PartialEq, Eq, Structural)]
pub enum DirectStoreError {
    /// The caller's catalog shard is gone.
    CacheMissing,
    /// The skill claims a resource a listed skill, or another fetched
    /// skill, already owns.
    Collision,
    /// The shard already holds as many fetched skills as allowed.
    LimitExceeded,
}

/// A resource of `owned` is listed by the catalog or owned by another
/// fetched skill.
pub open spec fn direct_collides(pe: CachedSkills, owner: Seq<char>, owned: Seq<Seq<char>>) -> bool {
    exists|i: int|
        0 <= i < owned.len() && (pe.skills.listed_resources().contains(#[trigger] owned[i]) || (
        pe.index_view().dom().contains(owned[i]) && pe.index_view()[owned[i]]@ != owner))
}

/// Caching one more fetched skill would exceed `max_skills`.
pub open spec fn direct_full(pe: CachedSkills, owner: Seq<char>, max_skills: usize) -> bool {
    pe.direct_view().dom().len() >= max_skills && !pe.direct_view().dom().contains(owner)
}

pub open spec fn direct_decision(pe: CachedSkills, owner: Seq<char>, owned: Seq<Seq<char>>, max_skills: usize) -> Result<
    (),
    DirectStoreError,
> {
    if direct_collides(pe, owner, owned) {
        Err(DirectStoreError::Collision)
    } else if direct_full(pe, owner, max_skills) {
        Err(DirectStoreError::LimitExceeded)
    } else {
        Ok(())
    }
}

/// `ne` is `pe` with manifest `d` cached under `owner`.
pub open spec fn direct_inserted(ne: CachedSkills, pe: CachedSkills, owner: String, d: CachedDirectSkill) -> bool {
    &&& ne.direct_view() == pe.direct_view().insert(owner@, d)
    &&& ne.index_view() == index_with_owner(
        if pe.direct_view().dom().contains(owner@) {
            index_without_owner(pe.index_view(), owner@, owned_set(pe.direct_view()[owner@]))
        } else {
            pe.index_view()
        },
        owner,
        owned_set(d),
    )
    &&& ne.skills == pe.skills
    &&& ne.last_used_ms == pe.last_used_ms
    &&& ne.expires_at_ms == pe.expires_at_ms
    &&& ne.refreshing == pe.refreshing
}

/// Number of distinct keys among the pairs.
pub open spec fn distinct_keys<V>(s: Seq<(String, V)>) -> nat
    decreases s.len(),
{
    if s.len() == 0 {
        0
    } else {
        distinct_keys(s.drop_last()) + if kv_map(s.drop_last()).dom().contains(s.last().0@) {
            0nat
        } else {
            1nat
        }
    }
}

proof fn lemma_distinct_keys<V>(s: Seq<(String, V)>)
    ensures
        kv_map(s).dom().finite(),
        distinct_keys(s) == kv_map(s).dom().len(),
    decreases s.len(),
{
    if s.len() > 0 {
        lemma_distinct_keys(s.drop_last());
        assert(kv_map(s).dom() =~= kv_map(s.drop_last()).dom().insert(s.last().0@));
    } else {
        assert(kv_map(s).dom() =~= Set::<Seq<char>>::empty());
    }
}

fn count_distinct_keys<V>(v: &Vec<(String, V)>) -> (n: usize)
    ensures
        n == kv_map(v@).dom().len(),
{
    proof {
        lemma_distinct_keys(v@);
    }
    let mut n: usize = 0;
    let mut i: usize = 0;
    while i < v.len()
        invariant
            i <= v@.len(),
            n == distinct_keys(v@.take(i as int)),
            n <= i,
        decreases v.len() - i,
    {
        let ghost pre = v@.take(i as int);
        let mut seen = false;
        let mut j: usize = 0;
        while j < i
            invariant
                j <= i < v@.len(),
                pre == v@.take(i as int),
                seen == exists|k: int| 0 <= k < j && #[trigger] pre[k].0@ == v@[i as int].0@,
            decreases i - j,
        {
            if compare_str(v[j].0.as_str(), v[i].0.as_str()) == Cmp::Equal {
                assert(pre[j as int].0@ == v@[i as int].0@);
                seen = true;
            }
            j = j + 1;
        }
        proof {
            crate::kv::lemma_kv_dom(pre, v@[i as int].0@);
            assert(v@.take(i + 1).drop_last() =~= pre);
            assert(v@.take(i + 1).last() == v@[i as int]);
        }
        if !seen {
            n = n + 1;
        }
        i = i + 1;
    }
    proof {
        assert(v@.take(v@.len() as int) =~= v@);
    }
    n
}

impl SkillsStore {
    /// Cache `skill`, fetched by URI, beside the shard (`name`, `subject`).
    /// The shard is first marked used and pruned; the skill is then refused
    /// when any resource it owns (`owned_uris`) is listed or owned by another
    /// fetched skill, or when the shard is full and does not hold it yet.
    pub fn store_direct_skill(
        &mut self,
        name: &str,
        subject: Option<&str>,
        skill: SkillRecord,
        owned_uris: Vec<String>,
        max_skills: usize,
        now_ms: u64,
    ) -> (r: Result<(), DirectStoreError>)
        requires
            now_ms + SKILLS_TTL_DEFAULT_MS <= u64::MAX,
        ensures
            final(self).epochs == old(self).epochs,
            match slot_index(old(self).slots@, name@, opt_str(subject)) {
                None => r == Err::<(), DirectStoreError>(DirectStoreError::CacheMissing)
                    && final(self).slots@ == old(self).slots@,
                Some(k) => exists|pe: CachedSkills|
                    {
                        &&& #[trigger] pruned_from(pe, old(self).slots@[k].entry, now_ms)
                        &&& r == direct_decision(pe, skill.uri@, strings_view(owned_uris@), max_skills)
                        &&& final(self).slots@.len() == old(self).slots@.len()
                        &&& forall|j: int|
                            0 <= j < old(self).slots@.len() && j != k ==> #[trigger] final(self).slots@[j] == old(self).slots@[j]
                        &&& final(self).slots@[k].upstream == old(self).slots@[k].upstream
                        &&& final(self).slots@[k].subject == old(self).slots@[k].subject
                        &&& if r is Ok {
                            exists|d: CachedDirectSkill|
                                {
                                    &&& d.skill == skill
                                    &&& d.owned_uris@ == owned_uris@
                                    &&& d.expires_at_ms == now_ms + SKILLS_TTL_DEFAULT_MS
                                    &&& d.last_used_ms == now_ms
                                    &&& #[trigger] direct_inserted(
                                        final(self).slots@[k].entry,
                                        pe,
                                        skill.uri,
                                        d,
                                    )
                                }
                        } else {
                            final(self).slots@[k].entry == pe
                        }
                    },
            },
    {
        let k = match find_slot_index(&self.slots, name, subject) {
            None => return Err(DirectStoreError::CacheMissing),
            Some(k) => k,
        };
        let ghost before = self.slots@;
        let mut slot = self.slots.remove(k);
        let ghost e = slot.entry;
        slot.entry.touch(now_ms);
        slot.entry.prune_direct(now_ms);
        let ghost pe = slot.entry;
        proof {
            assert(pruned_from(pe, e, now_ms));
        }
        let owner = skill.uri.clone();
        let mut collides = false;
        let mut i: usize = 0;
        while i < owned_uris.len()
            invariant
                i <= owned_uris@.len(),
                slot.entry == pe,
                owner@ == skill.uri@,
                collides == exists|j: int|
                    0 <= j < i && (pe.skills.listed_resources().contains(
                        #[trigger] strings_view(owned_uris@)[j],
                    ) || (pe.index_view().dom().contains(strings_view(owned_uris@)[j])
                        && pe.index_view()[strings_view(owned_uris@)[j]]@ != owner@)),
            decreases owned_uris.len() - i,
        {
            let uri = owned_uris[i].as_str();
            let ghost u = strings_view(owned_uris@)[i as int];
            assert(uri@ == u);
            if slot.entry.skills.lists_resource(uri) {
                collides = true;
            } else {
                match kv_get(&slot.entry.direct_resource_index, uri) {
                    Some(existing) => {
                        if compare_str(existing.as_str(), owner.as_str()) != Cmp::Equal {
                            collides = true;
                        }
                    },
                    None => {},
                }
            }
            i = i + 1;
        }
        proof {
            assert(collides == direct_collides(pe, skill.uri@, strings_view(owned_uris@)));
        }
        let ghost skill0 = skill;
        let ghost owned0 = owned_uris;
        let ghost mut ins: Option<CachedDirectSkill> = None;
        let result = if collides {
            Err(DirectStoreError::Collision)
        } else {
            let held = count_distinct_keys(&slot.entry.direct);
            let present = kv_get(&slot.entry.direct, owner.as_str()).is_some();
            if held >= max_skills && !present {
                Err(DirectStoreError::LimitExceeded)
            } else {
                let candidate = CachedDirectSkill::new(skill, owned_uris, now_ms);
                proof {
                    ins = Some(candidate);
                }
                slot.entry.insert_direct(owner, candidate);
                proof {
                    assert(direct_inserted(slot.entry, pe, skill0.uri, ins.unwrap()));
                }
                Ok(())
            }
        };
        proof {
            assert(result == direct_decision(pe, skill0.uri@, strings_view(owned0@), max_skills));
        }
        self.slots.insert(k, slot);
        proof {
            assert(self.slots@[k as int] == slot);
            assert forall|j: int| 0 <= j < before.len() && j != k implies #[trigger] self.slots@[j]
                == before[j] by {}
            if result is Ok {
                assert(direct_inserted(self.slots@[k as int].entry, pe, skill0.uri, ins.unwrap()));
            }
        }
        result
    }

    /// The cached fetched skill `skill_uri` of shard (`name`, `subject`), if
    /// it is cached, still fresh, and exposed by `policy`. The shard (and the
    /// manifest, when found) are marked used.
    pub fn cached_direct_skill(
        &mut self,
        name: &str,
        subject: Option<&str>,
        skill_uri: &str,
        policy: &ExposurePolicy,
        now_ms: u64,
    ) -> (r: Option<SkillRecord>)
        ensures
            final(self).epochs == old(self).epochs,
            match slot_index(old(self).slots@, name@, opt_str(subject)) {
                None => r.is_none() && final(self).slots@ == old(self).slots@,
                Some(k) => exists|pe: CachedSkills|
                    {
                        &&& #[trigger] pruned_from(pe, old(self).slots@[k].entry, now_ms)
                        &&& match r {
                            Some(s) => pe.direct_view().dom().contains(skill_uri@) && same_skill(
                                s,
                                pe.direct_view()[skill_uri@].skill,
                            ) && policy.spec_matches(s.name@),
                            None => !pe.direct_view().dom().contains(skill_uri@)
                                || !policy.spec_matches(pe.direct_view()[skill_uri@].skill.name@),
                        }
                        &&& final(self).slots@.len() == old(self).slots@.len()
                        &&& forall|j: int|
                            0 <= j < old(self).slots@.len() && j != k ==> #[trigger] final(self).slots@[j] == old(self).slots@[j]
                        &&& final(self).slots@[k].upstream == old(self).slots@[k].upstream
                        &&& final(self).slots@[k].subject == old(self).slots@[k].subject
                        &&& final(self).slots@[k].entry == CachedSkills {
                            direct: final(self).slots@[k].entry.direct,
                            ..pe
                        }
                        &&& final(self).slots@[k].entry.direct_view().dom() == pe.direct_view().dom()
                        &&& forall|u: Seq<char>|
                            #![trigger final(self).slots@[k].entry.direct_view()[u]]
                            pe.direct_view().dom().contains(u) && u != skill_uri@
                                ==> final(self).slots@[k].entry.direct_view()[u] == pe.direct_view()[u]
                        &&& pe.direct_view().dom().contains(skill_uri@)
                            ==> final(self).slots@[k].entry.direct_view()[skill_uri@]
                            == CachedDirectSkill { last_used_ms: now_ms, ..pe.direct_view()[skill_uri@] }
                    },
            },
    {
        proof {
            assert forall|n: Seq<char>|
                #![trigger policy.spec_matches(n)]
                #![trigger pview_matches(policy.pview(), n)]
                policy.spec_matches(n) == pview_matches(policy.pview(), n) by {
                lemma_matches_pview(*policy, n);
            }
        }
        let k = match find_slot_index(&self.slots, name, subject) {
            None => return None,
            Some(k) => k,
        };
        let ghost before = self.slots@;
        let mut slot = self.slots.remove(k);
        let ghost e = slot.entry;
        slot.entry.touch(now_ms);
        slot.entry.prune_direct(now_ms);
        let ghost pe = slot.entry;
        proof {
            assert(pruned_from(pe, e, now_ms));
        }
        let result = match kv_remove(&mut slot.entry.direct, skill_uri) {
            None => None,
            Some(mut snapshot) => {
                snapshot.touch(now_ms);
                let found = if policy.matches(snapshot.skill.name.as_str()) {
                    Some(snapshot.skill.duplicate())
                } else {
                    None
                };
                kv_insert(&mut slot.entry.direct, skill_uri.to_string(), snapshot);
                proof {
                    assert(slot.entry.direct_view().dom() =~= pe.direct_view().dom());
                }
                found
            },
        };
        self.slots.insert(k, slot);
        proof {
            assert(self.slots@[k as int] == slot);
            assert forall|j: int| 0 <= j < before.len() && j != k implies #[trigger] self.slots@[j]
                == before[j] by {}
        }
        result
    }
}

/// What a lookup of the fetched skill owning resource `uri` in shard
/// (`name`, `subject`) leaves behind: with no such shard, nothing changes and
/// nothing is found; otherwise the shard is pruned of stale fetched skills and
/// marked used (the other shards untouched), and the owner is found when the
/// resource index names one that is still cached and `policy` exposes it. A
/// found owner is marked used too; every other fetched skill stays as it was.
pub open spec fn unlisted_owner_lookup(
    before: Seq<SkillsCacheSlot>,
    after: Seq<SkillsCacheSlot>,
    name: Seq<char>,
    subject: Option<Seq<char>>,
    uri: Seq<char>,
    policy: Option<Seq<Seq<char>>>,
    now_ms: u64,
    r: Option<SkillRecord>,
) -> bool {
    match slot_index(before, name, subject) {
        None => r.is_none() && after == before,
        Some(k) => exists|pe: CachedSkills|
            {
                &&& #[trigger] pruned_from(pe, before[k].entry, now_ms)
                &&& match r {
                    Some(s) => pe.index_view().dom().contains(uri) && pe.direct_view().dom().contains(
                        pe.index_view()[uri]@,
                    ) && same_skill(s, pe.direct_view()[pe.index_view()[uri]@].skill) && pview_matches(
                        policy,
                        s.name@,
                    ),
                    None => !pe.index_view().dom().contains(uri) || !pe.direct_view().dom().contains(
                        pe.index_view()[uri]@,
                    ) || !pview_matches(policy, pe.direct_view()[pe.index_view()[uri]@].skill.name@),
                }
                &&& after.len() == before.len()
                &&& forall|j: int| 0 <= j < before.len() && j != k ==> #[trigger] after[j] == before[j]
                &&& after[k].upstream == before[k].upstream
                &&& after[k].subject == before[k].subject
                &&& after[k].entry == CachedSkills { direct: after[k].entry.direct, ..pe }
                &&& after[k].entry.direct_view().dom() == pe.direct_view().dom()
                &&& forall|u: Seq<char>|
                    #![trigger after[k].entry.direct_view()[u]]
                    pe.direct_view().dom().contains(u) && (r is None || u != pe.index_view()[uri]@)
                        ==> after[k].entry.direct_view()[u] == pe.direct_view()[u]
                &&& r is Some ==> after[k].entry.direct_view()[pe.index_view()[uri]@] == CachedDirectSkill {
                    last_used_ms: now_ms,
                    ..pe.direct_view()[pe.index_view()[uri]@]
                }
            },
    }
}

impl SkillsStore {
    /// The fetched skill that owns resource `resource_uri` (canonical) in
    /// shard (`name`, `subject`), if one does and `policy` exposes it. This
    /// only recovers the manifest; a read still needs its identity. The shard
    /// (and the owner, when exposed) are marked used.
    pub fn cached_unlisted_skill_owner(
        &mut self,
        name: &str,
        subject: Option<&str>,
        resource_uri: &str,
        policy: &ExposurePolicy,
        now_ms: u64,
    ) -> (r: Option<SkillRecord>)
        ensures
            final(self).epochs == old(self).epochs,
            unlisted_owner_lookup(
                old(self).slots@,
                final(self).slots@,
                name@,
                opt_str(subject),
                resource_uri@,
                policy.pview(),
                now_ms,
                r,
            ),
    {
        proof {
            assert forall|n: Seq<char>|
                #![trigger policy.spec_matches(n)]
                #![trigger pview_matches(policy.pview(), n)]
                policy.spec_matches(n) == pview_matches(policy.pview(), n) by {
                lemma_matches_pview(*policy, n);
            }
        }
        let k = match find_slot_index(&self.slots, name, subject) {
            None => return None,
            Some(k) => k,
        };
        let ghost before = self.slots@;
        let mut slot = self.slots.remove(k);
        let ghost e = slot.entry;
        slot.entry.touch(now_ms);
        slot.entry.prune_direct(now_ms);
        let ghost pe = slot.entry;
        proof {
            assert(pruned_from(pe, e, now_ms));
        }
        let owner = match kv_get(&slot.entry.direct_resource_index, resource_uri) {
            Some(o) => o.clone(),
            None => String::new(),
        };
        let result = if !kv_get(&slot.entry.direct_resource_index, resource_uri).is_some() {
            None
        } else {
            match kv_remove(&mut slot.entry.direct, owner.as_str()) {
                None => None,
                Some(mut snapshot) => {
                    let found = if policy.matches(snapshot.skill.name.as_str()) {
                        snapshot.touch(now_ms);
                        Some(snapshot.skill.duplicate())
                    } else {
                        None
                    };
                    kv_insert(&mut slot.entry.direct, owner, snapshot);
                    proof {
                        assert(slot.entry.direct_view().dom() =~= pe.direct_view().dom());
                    }
                    found
                },
            }
        };
        self.slots.insert(k, slot);
        proof {
            assert(self.slots@[k as int] == slot);
            assert forall|j: int| 0 <= j < before.len() && j != k implies #[trigger] self.slots@[j]
                == before[j] by {}
            assert(before[k as int].entry == e);
            assert(pruned_from(pe, before[k as int].entry, now_ms));
            assert(slot_index(before, name@, opt_str(subject)) == Some(k as int));
            assert(self.slots@.len() == before.len());
            assert(self.slots@[k as int].upstream == before[k as int].upstream);
            assert(self.slots@[k as int].subject == before[k as int].subject);
            assert(self.slots@[k as int].entry.index_view() == pe.index_view());
            assert(self.slots@[k as int].entry.skills == pe.skills);
            assert(self.slots@[k as int].entry.direct_view().dom() == pe.direct_view().dom());
            if result is Some {
                assert(pe.index_view().dom().contains(resource_uri@));
                assert(pview_matches(policy.pview(), result->0.name@));
            }
        }
        result
    }
}

/// What becomes of a skill fetched by URI.
#[derive(Clone, Copy, PartialEq, Eq, Structural)]
pub enum FetchedSkillVerdict {
    /// `expose_skills` hides it: answered as if absent.
    Hidden,
    /// The upstream answered with a different skill than the one asked for.
    IdentityMismatch,
    /// Cache it and hand it out.
    Admit,
}

/// Judge a skill fetched by its canonical URI: the allowlist applies to it
/// exactly as to a listed skill, and it must be the skill that was asked for.
pub fn judge_fetched_skill(config: &UpstreamConfig, canonical_uri: &str, skill: &SkillRecord) -> (v:
    FetchedSkillVerdict)
    ensures
        v == (if !pview_matches(config_skill_policy(*config), skill.name@) {
            FetchedSkillVerdict::Hidden
        } else if skill.uri@ != canonical_uri@ {
            FetchedSkillVerdict::IdentityMismatch
        } else {
            FetchedSkillVerdict::Admit
        }),
{
    let policy = resolve_request_skill_exposure_policy(config);
    proof {
        lemma_matches_pview(policy, skill.name@);
    }
    if !policy.matches(skill.name.as_str()) {
        FetchedSkillVerdict::Hidden
    } else if compare_str(skill.uri.as_str(), canonical_uri) != Cmp::Equal {
        FetchedSkillVerdict::IdentityMismatch
    } else {
        FetchedSkillVerdict::Admit
    }
}

} // verus!
