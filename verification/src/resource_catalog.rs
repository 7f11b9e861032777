//! What a resource listing does to an upstream's catalog entry, and the
//! cached resource URIs the catalog hands out.

use vstd::prelude::*;
use crate::order::{same_strings, strings_view};
use crate::skills_store::{SkillsStore, epoch_of, next_epoch, without_upstream};
use crate::tool_catalog::{entry_index, find_entry, UpstreamEntry};

verus! {

broadcast use vstd::string::group_string_axioms;

/// The entry fields a resource listing leaves alone.
pub open spec fn same_but_resources(a: UpstreamEntry, b: UpstreamEntry) -> bool {
    &&& a.name == b.name
    &&& a.tools_routable == b.tools_routable
    &&& a.resources_routable == b.resources_routable
    &&& a.prompts_routable == b.prompts_routable
    &&& a.skills_routable == b.skills_routable
    &&& a.proxy_resources == b.proxy_resources
    &&& a.proxy_skills == b.proxy_skills
    &&& a.exposure_policy == b.exposure_policy
    &&& a.resource_exposure_policy == b.resource_exposure_policy
    &&& a.skill_exposure_policy == b.skill_exposure_policy
    &&& a.tools == b.tools
    &&& a.prompt_count == b.prompt_count
    &&& a.skill_count == b.skill_count
    &&& a.skill_names == b.skill_names
    &&& a.supports_skills == b.supports_skills
}

/// A listing succeeded: record the listed (bare) URIs and their count.
/// Returns whether the URI list changed, which decides whether the
/// upstream's subscriptions need reconciling.
pub fn apply_resource_list_success(entry: &mut UpstreamEntry, resource_uris: Vec<String>) -> (changed:
    bool)
    ensures
        changed == (strings_view(old(entry).resource_uris@) != strings_view(resource_uris@)),
        final(entry).resource_uris@ == resource_uris@,
        final(entry).resource_count == resource_uris@.len(),
        same_but_resources(*final(entry), *old(entry)),
{
    let changed = !same_strings(&entry.resource_uris, &resource_uris);
    entry.resource_count = resource_uris.len();
    entry.resource_uris = resource_uris;
    changed
}

/// A listing failed: the entry no longer claims any resource.
pub fn apply_resource_list_failure(entry: &mut UpstreamEntry)
    ensures
        final(entry).resource_uris@.len() == 0,
        final(entry).resource_count == 0,
        same_but_resources(*final(entry), *old(entry)),
{
    entry.resource_count = 0;
    entry.resource_uris = Vec::new();
}

/// A listing observed on connection incarnation `observed` of an upstream
/// applies only while the catalog still holds that same incarnation: an
/// outcome from a replaced connection is applied neither as a success nor
/// as a failure.
pub fn observed_listing_applies(observed: u64, current: Option<u64>) -> (b: bool)
    ensures
        b == (current == Some(observed)),
{
    match current {
        Some(c) => c == observed,
        None => false,
    }
}

/// Apply a successful listing observed on incarnation `observed` to the
/// entry whose live incarnation is `current`: `None` (and the entry
/// untouched) when the observation is stale, else whether the URI list
/// changed, as [`apply_resource_list_success`] records it.
pub fn apply_observed_resource_list_success(
    entry: &mut UpstreamEntry,
    observed: u64,
    current: Option<u64>,
    resource_uris: Vec<String>,
) -> (r: Option<bool>)
    ensures
        current != Some(observed) ==> r.is_none() && *final(entry) == *old(entry),
        current == Some(observed) ==> {
            &&& r == Some(strings_view(old(entry).resource_uris@) != strings_view(resource_uris@))
            &&& final(entry).resource_uris@ == resource_uris@
            &&& final(entry).resource_count == resource_uris@.len()
            &&& same_but_resources(*final(entry), *old(entry))
        },
{
    if !observed_listing_applies(observed, current) {
        return None;
    }
    Some(apply_resource_list_success(entry, resource_uris))
}

/// Apply a failed listing observed on incarnation `observed`: whether it
/// applied; a stale failure leaves the entry untouched.
pub fn apply_observed_resource_list_failure(entry: &mut UpstreamEntry, observed: u64, current: Option<u64>) -> (applied:
    bool)
    ensures
        applied == (current == Some(observed)),
        !applied ==> *final(entry) == *old(entry),
        applied ==> final(entry).resource_uris@.len() == 0 && final(entry).resource_count == 0
            && same_but_resources(*final(entry), *old(entry)),
{
    if !observed_listing_applies(observed, current) {
        return false;
    }
    apply_resource_list_failure(entry);
    true
}

/// The upstreams with at least one listed resource, each with its URIs, in
/// catalog order.
pub open spec fn cached_uris(entries: Seq<UpstreamEntry>) -> Seq<(Seq<char>, Seq<Seq<char>>)>
    decreases entries.len(),
{
    if entries.len() == 0 {
        Seq::empty()
    } else {
        let r = cached_uris(entries.drop_last());
        if entries.last().resource_uris@.len() > 0 {
            r.push((entries.last().name@, strings_view(entries.last().resource_uris@)))
        } else {
            r
        }
    }
}

pub open spec fn uri_lists_view(v: Seq<(String, Vec<String>)>) -> Seq<(Seq<char>, Seq<Seq<char>>)> {
    v.map_values(|p: (String, Vec<String>)| (p.0@, strings_view(p.1@)))
}

fn clone_strings(v: &Vec<String>) -> (r: Vec<String>)
    ensures
        strings_view(r@) == strings_view(v@),
{
    let mut r: Vec<String> = Vec::new();
    let mut i: usize = 0;
    while i < v.len()
        invariant
            i <= v@.len(),
            strings_view(r@) == strings_view(v@).take(i as int),
        decreases v.len() - i,
    {
        let ghost r0 = strings_view(r@);
        r.push(v[i].clone());
        proof {
            assert(strings_view(r@) =~= r0.push(v@[i as int]@));
            assert(strings_view(v@).take(i + 1) =~= strings_view(v@).take(i as int).push(
                strings_view(v@)[i as int],
            ));
        }
        i = i + 1;
    }
    proof {
        assert(strings_view(v@).take(v@.len() as int) =~= strings_view(v@));
    }
    r
}

/// The cached resource URIs, by upstream, of upstreams that listed any.
pub fn cached_upstream_resource_uris(catalog: &Vec<UpstreamEntry>) -> (out: Vec<(String, Vec<String>)>)
    ensures
        uri_lists_view(out@) == cached_uris(catalog@),
{
    let mut out: Vec<(String, Vec<String>)> = Vec::new();
    let mut i: usize = 0;
    while i < catalog.len()
        invariant
            i <= catalog@.len(),
            uri_lists_view(out@) == cached_uris(catalog@.subrange(0, i as int)),
        decreases catalog.len() - i,
    {
        proof {
            assert(catalog@.subrange(0, i + 1).drop_last() =~= catalog@.subrange(0, i as int));
            assert(catalog@.subrange(0, i + 1).last() == catalog@[i as int]);
        }
        if catalog[i].resource_uris.len() > 0 {
            let ghost o0 = uri_lists_view(out@);
            out.push((catalog[i].name.clone(), clone_strings(&catalog[i].resource_uris)));
            proof {
                assert(uri_lists_view(out@) =~= o0.push(
                    (catalog@[i as int].name@, strings_view(catalog@[i as int].resource_uris@)),
                ));
            }
        }
        i = i + 1;
    }
    proof {
        assert(catalog@.subrange(0, catalog@.len() as int) =~= catalog@);
    }
    out
}

/// The entry fields a skills listing leaves alone.
pub open spec fn same_but_skills(a: UpstreamEntry, b: UpstreamEntry) -> bool {
    &&& a.name == b.name
    &&& a.tools_routable == b.tools_routable
    &&& a.resources_routable == b.resources_routable
    &&& a.prompts_routable == b.prompts_routable
    &&& a.skills_routable == b.skills_routable
    &&& a.proxy_resources == b.proxy_resources
    &&& a.proxy_skills == b.proxy_skills
    &&& a.exposure_policy == b.exposure_policy
    &&& a.resource_exposure_policy == b.resource_exposure_policy
    &&& a.skill_exposure_policy == b.skill_exposure_policy
    &&& a.tools == b.tools
    &&& a.resource_uris == b.resource_uris
    &&& a.resource_count == b.resource_count
    &&& a.prompt_count == b.prompt_count
}

/// A skills listing completed: record whether the upstream declared the
/// extension and, when it did, how many entries it listed and the names of
/// the skills that passed validation.
pub fn record_skills_listing(entry: &mut UpstreamEntry, declared: bool, discovered_count: usize, skill_names: Vec<String>)
    ensures
        final(entry).supports_skills == Some(declared),
        final(entry).skill_count == (if declared {
            discovered_count
        } else {
            0
        }),
        final(entry).skill_names@ == (if declared {
            skill_names@
        } else {
            Seq::<String>::empty()
        }),
        same_but_skills(*final(entry), *old(entry)),
{
    entry.supports_skills = Some(declared);
    if declared {
        entry.skill_count = discovered_count;
        entry.skill_names = skill_names;
    } else {
        entry.skill_count = 0;
        entry.skill_names = Vec::new();
    }
}

/// The upstream's skill catalogs were invalidated: the entry claims no skill
/// until the next listing.
pub fn clear_skills_listing(entry: &mut UpstreamEntry)
    ensures
        final(entry).skill_count == 0,
        final(entry).skill_names@.len() == 0,
        final(entry).supports_skills == old(entry).supports_skills,
        same_but_skills(*final(entry), *old(entry)),
{
    entry.skill_count = 0;
    entry.skill_names = Vec::new();
}

/// Invalidate one upstream's skills everywhere they are held: its epoch is
/// advanced and every subject's shard dropped (as
/// `SkillsStore::invalidate_upstream_skills` does), and its catalog entry, if it has one,
/// claims no skill until the next listing. Every other upstream's shards,
/// epoch and entry are left as they were.
pub fn invalidate_upstream_skills_everywhere(store: &mut SkillsStore, catalog: &mut Vec<UpstreamEntry>, name: &str)
    ensures
        final(store).epochs_view() == old(store).epochs_view().insert(
            name@,
            next_epoch(epoch_of(old(store).epochs_view(), name@)),
        ),
        final(store).slots@ == without_upstream(old(store).slots@, name@),
        final(catalog)@.len() == old(catalog)@.len(),
        forall|k: int|
            0 <= k < old(catalog)@.len() ==> if entry_index(old(catalog)@, name@) == Some(k) {
                &&& final(catalog)@[k].skill_count == 0
                &&& final(catalog)@[k].skill_names@.len() == 0
                &&& final(catalog)@[k].supports_skills == old(catalog)@[k].supports_skills
                &&& same_but_skills(#[trigger] final(catalog)@[k], old(catalog)@[k])
            } else {
                final(catalog)@[k] == old(catalog)@[k]
            },
{
    store.invalidate_upstream_skills(name);
    match find_entry(catalog, name) {
        Some(k) => {
            let ghost before = catalog@;
            let mut e = catalog.remove(k);
            clear_skills_listing(&mut e);
            catalog.insert(k, e);
            proof {
                assert forall|j: int| 0 <= j < before.len() && j != k implies catalog@[j] == before[j] by {}
            }
        },
        None => {},
    }
}

} // verus!

verus! {

/// A started resource snapshot warm-up: the upstreams it covers (those never
/// listed, and those whose snapshot went stale with no push channel), and
/// whether a fan-out was started for them. A started fan-out always runs to
/// completion; a caller that stops waiting serves the snapshot it has.
pub struct ResourceSnapshotWarmup {
    pub missing: Vec<String>,
    pub stale: Vec<String>,
    pub started: bool,
}

impl ResourceSnapshotWarmup {
    /// Plan a warm-up over the cold snapshots: a fan-out starts exactly when
    /// something is cold.
    pub fn plan(missing: Vec<String>, stale: Vec<String>) -> (w: Self)
        ensures
            w.missing@ == missing@,
            w.stale@ == stale@,
            w.started == (missing@.len() > 0 || stale@.len() > 0),
    {
        let started = missing.len() > 0 || stale.len() > 0;
        ResourceSnapshotWarmup { missing, stale, started }
    }

    /// Whether making the cached listing usable must wait for this warm-up:
    /// only a started fan-out that covers a never-listed upstream is awaited;
    /// stale snapshots refresh in the background.
    pub fn must_wait(&self) -> (b: bool)
        ensures
            b == (self.started && self.missing@.len() > 0),
    {
        self.started && self.missing.len() > 0
    }
}

} // verus!
