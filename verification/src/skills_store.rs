//! The skills cache as a whole: one catalog shard per (upstream, subject),
//! published only under the invalidation epoch captured before the fetch, so a
//! response that outlived an invalidation can never repopulate the cache.

use vstd::prelude::*;
use crate::kv::{kv_get, kv_insert, kv_map};
use crate::order::{compare_str, sorted_strict, sorted_unique, strings_view, Cmp};
use crate::skills_cache::{
    CachedSkills, SkillsCacheSlot, capped_slots, evict, live_slots, retain_fold,
};
use crate::text::opt_chars;

verus! {

broadcast use vstd::string::group_string_axioms;

/// The epoch after one invalidation (wrapping, as the counter does).
pub open spec fn next_epoch(e: u64) -> u64 {
    if e == u64::MAX {
        0
    } else {
        (e + 1) as u64
    }
}

/// An upstream's epoch; zero until first recorded.
pub open spec fn epoch_of(m: Map<Seq<char>, u64>, name: Seq<char>) -> u64 {
    if m.dom().contains(name) {
        m[name]
    } else {
        0
    }
}

/// Every recorded epoch advanced once.
pub open spec fn bump_all(m: Map<Seq<char>, u64>) -> Map<Seq<char>, u64> {
    Map::new(|k: Seq<char>| m.dom().contains(k), |k: Seq<char>| next_epoch(m[k]))
}

pub open spec fn opt_str(o: Option<&str>) -> Option<Seq<char>> {
    match o {
        Some(s) => Some(s@),
        None => None,
    }
}

/// The slot is the shard of (`name`, `subject`).
pub open spec fn slot_is(s: SkillsCacheSlot, name: Seq<char>, subject: Option<Seq<char>>) -> bool {
    s.upstream@ == name && opt_chars(s.subject) == subject
}

/// The first slot of the shard (`name`, `subject`).
pub open spec fn slot_index(slots: Seq<SkillsCacheSlot>, name: Seq<char>, subject: Option<Seq<char>>) -> Option<
    int,
>
    decreases slots.len(),
{
    if slots.len() == 0 {
        None
    } else if slot_is(slots[0], name, subject) {
        Some(0)
    } else {
        match slot_index(slots.drop_first(), name, subject) {
            Some(k) => Some(k + 1),
            None => None,
        }
    }
}

proof fn lemma_slot_index(slots: Seq<SkillsCacheSlot>, name: Seq<char>, subject: Option<Seq<char>>)
    ensures
        match slot_index(slots, name, subject) {
            Some(k) => 0 <= k < slots.len() && slot_is(slots[k], name, subject) && forall|j: int|
                0 <= j < k ==> !slot_is(#[trigger] slots[j], name, subject),
            None => forall|j: int| 0 <= j < slots.len() ==> !slot_is(#[trigger] slots[j], name, subject),
        },
    decreases slots.len(),
{
    if slots.len() > 0 && !slot_is(slots[0], name, subject) {
        lemma_slot_index(slots.drop_first(), name, subject);
        assert forall|j: int| 1 <= j < slots.len() implies slots[j] == slots.drop_first()[j - 1] by {}
    }
}

/// The slots of every upstream but `name`, in order.
pub open spec fn without_upstream(slots: Seq<SkillsCacheSlot>, name: Seq<char>) -> Seq<SkillsCacheSlot>
    decreases slots.len(),
{
    if slots.len() == 0 {
        Seq::empty()
    } else {
        let r = without_upstream(slots.drop_last(), name);
        if slots.last().upstream@ == name {
            r
        } else {
            r.push(slots.last())
        }
    }
}

/// What publishing `entry` over the shard's previous snapshot stores: the new
/// snapshot, carrying the previous one's still-valid direct manifests.
pub open spec fn published(new: CachedSkills, entry: CachedSkills, previous: Option<CachedSkills>, now_ms: u64) -> bool {
    match previous {
        None => new == entry,
        Some(p) => {
            &&& (new.direct_view(), new.index_view()) == retain_fold(
                entry.direct_view(),
                entry.index_view(),
                p.direct@,
                entry.skills.listed_resources(),
                now_ms,
            )
            &&& new.skills == entry.skills
            &&& new.fetched_at_ms == entry.fetched_at_ms
            &&& new.expires_at_ms == entry.expires_at_ms
            &&& new.last_used_ms == entry.last_used_ms
            &&& new.refreshing == entry.refreshing
            &&& new.refresh_started_at_ms == entry.refresh_started_at_ms
            &&& new.retry_after_ms == entry.retry_after_ms
            &&& new.refresh_failures == entry.refresh_failures
        },
    }
}

/// The slots before eviction once the shard's old slot is taken out.
pub open spec fn staged(slots: Seq<SkillsCacheSlot>, name: Seq<char>, subject: Option<Seq<char>>) -> Seq<
    SkillsCacheSlot,
> {
    match slot_index(slots, name, subject) {
        Some(k) => slots.remove(k),
        None => slots,
    }
}

pub open spec fn previous_entry(slots: Seq<SkillsCacheSlot>, name: Seq<char>, subject: Option<Seq<char>>) -> Option<
    CachedSkills,
> {
    match slot_index(slots, name, subject) {
        Some(k) => Some(slots[k].entry),
        None => None,
    }
}

pub open spec fn bump_pairs(s: Seq<(String, u64)>) -> Seq<(String, u64)> {
    s.map_values(|p: (String, u64)| (p.0, next_epoch(p.1)))
}

proof fn lemma_bump_pairs(s: Seq<(String, u64)>)
    ensures
        kv_map(bump_pairs(s)) == bump_all(kv_map(s)),
    decreases s.len(),
{
    if s.len() == 0 {
        assert(kv_map(bump_pairs(s)) =~= bump_all(kv_map(s)));
    } else {
        lemma_bump_pairs(s.drop_last());
        assert(bump_pairs(s).drop_last() =~= bump_pairs(s.drop_last()));
        assert(kv_map(bump_pairs(s)) =~= bump_all(kv_map(s)));
    }
}

/// The upstream names of the slots.
pub open spec fn slot_upstreams(slots: Seq<SkillsCacheSlot>) -> Seq<Seq<char>> {
    slots.map_values(|s: SkillsCacheSlot| s.upstream@)
}

/// Every cached catalog shard, with the invalidation epoch of each upstream.
pub struct SkillsStore {
    pub epochs: Vec<(String, u64)>,
    pub slots: Vec<SkillsCacheSlot>,
}

fn subject_matches(a: &Option<String>, b: Option<&str>) -> (r: bool)
    ensures
        r == (opt_chars(*a) == opt_str(b)),
{
    match (a, b) {
        (Some(x), Some(y)) => compare_str(x.as_str(), y) == Cmp::Equal,
        (None, None) => true,
        _ => false,
    }
}

pub(crate) fn find_slot_index(slots: &Vec<SkillsCacheSlot>, name: &str, subject: Option<&str>) -> (k: Option<usize>)
    ensures
        match k {
            Some(i) => slot_index(slots@, name@, opt_str(subject)) == Some(i as int) && i < slots@.len(),
            None => slot_index(slots@, name@, opt_str(subject)).is_none(),
        },
{
    proof {
        lemma_slot_index(slots@, name@, opt_str(subject));
    }
    let mut i: usize = 0;
    while i < slots.len()
        invariant
            i <= slots@.len(),
            forall|j: int| 0 <= j < i ==> !slot_is(#[trigger] slots@[j], name@, opt_str(subject)),
        decreases slots.len() - i,
    {
        if compare_str(slots[i].upstream.as_str(), name) == Cmp::Equal && subject_matches(
            &slots[i].subject,
            subject,
        ) {
            proof {
                lemma_slot_index(slots@, name@, opt_str(subject));
                assert(slot_is(slots@[i as int], name@, opt_str(subject)));
                match slot_index(slots@, name@, opt_str(subject)) {
                    Some(k) => {
                        if k < i {
                            assert(!slot_is(slots@[k], name@, opt_str(subject)));
                        } else if k > i {
                            assert(!slot_is(slots@[i as int], name@, opt_str(subject)));
                        }
                    },
                    None => {
                        assert(!slot_is(slots@[i as int], name@, opt_str(subject)));
                    },
                }
            }
            return Some(i);
        }
        i = i + 1;
    }
    None
}

impl SkillsStore {
    pub open spec fn epochs_view(&self) -> Map<Seq<char>, u64> {
        kv_map(self.epochs@)
    }

    pub fn new() -> (s: Self)
        ensures
            s.epochs_view() == Map::<Seq<char>, u64>::empty(),
            s.slots@.len() == 0,
    {
        SkillsStore { epochs: Vec::new(), slots: Vec::new() }
    }

    /// The epoch of `name`, recorded (as zero) if it never was. A fetch
    /// captures it before any I/O and publishes under it.
    pub fn skills_cache_epoch(&mut self, name: &str) -> (e: u64)
        ensures
            e == epoch_of(old(self).epochs_view(), name@),
            final(self).epochs_view() == old(self).epochs_view().insert(name@, e),
            final(self).slots == old(self).slots,
    {
        let e = match kv_get(&self.epochs, name) {
            Some(v) => *v,
            None => 0,
        };
        kv_insert(&mut self.epochs, name.to_string(), e);
        e
    }

    /// Publish a fetched snapshot for (`name`, `subject`), unless `name` was
    /// invalidated since `expected_epoch` was captured. A published snapshot
    /// replaces the shard's previous one (keeping its still-valid direct
    /// manifests), and eviction runs after it. Returns whether it was stored.
    pub fn store_skills(
        &mut self,
        name: &str,
        subject: Option<&str>,
        expected_epoch: u64,
        entry: CachedSkills,
        now_ms: u64,
    ) -> (stored: bool)
        ensures
            stored == (epoch_of(old(self).epochs_view(), name@) == expected_epoch),
            final(self).epochs == old(self).epochs,
            !stored ==> final(self).slots@ == old(self).slots@,
            stored ==> exists|ns: SkillsCacheSlot|
                {
                    &&& #[trigger] slot_is(ns, name@, opt_str(subject))
                    &&& published(
                        ns.entry,
                        entry,
                        previous_entry(old(self).slots@, name@, opt_str(subject)),
                        now_ms,
                    )
                    &&& final(self).slots@ == capped_slots(
                        live_slots(staged(old(self).slots@, name@, opt_str(subject)).push(ns), now_ms),
                        live_slots(
                            staged(old(self).slots@, name@, opt_str(subject)).push(ns),
                            now_ms,
                        ).len() as int,
                    )
                },
    {
        let current = match kv_get(&self.epochs, name) {
            Some(v) => *v,
            None => 0,
        };
        if current != expected_epoch {
            return false;
        }
        let ghost old_slots = self.slots@;
        let mut entry = entry;
        let ghost e0 = entry;
        match find_slot_index(&self.slots, name, subject) {
            Some(k) => {
                let previous = self.slots.remove(k);
                entry.retain_direct_from(previous.entry, now_ms);
            },
            None => {},
        }
        let subject_owned = match subject {
            Some(s) => Some(s.to_string()),
            None => None,
        };
        let ns = SkillsCacheSlot { upstream: name.to_string(), subject: subject_owned, entry };
        let ghost nsg = ns;
        proof {
            assert(self.slots@ == staged(old_slots, name@, opt_str(subject)));
            assert(slot_is(nsg, name@, opt_str(subject)));
            assert(published(nsg.entry, e0, previous_entry(old_slots, name@, opt_str(subject)), now_ms));
        }
        self.slots.push(ns);
        evict(&mut self.slots, now_ms);
        true
    }

    /// Drop every shard of `name` after advancing its epoch, so that no fetch
    /// begun before this call can publish afterwards.
    pub fn invalidate_upstream_skills(&mut self, name: &str)
        ensures
            final(self).epochs_view() == old(self).epochs_view().insert(
                name@,
                next_epoch(epoch_of(old(self).epochs_view(), name@)),
            ),
            final(self).slots@ == without_upstream(old(self).slots@, name@),
    {
        let e = match kv_get(&self.epochs, name) {
            Some(v) => *v,
            None => 0,
        };
        let next = if e == u64::MAX {
            0
        } else {
            e + 1
        };
        kv_insert(&mut self.epochs, name.to_string(), next);
        let ghost ep = self.epochs@;
        let mut rest: Vec<SkillsCacheSlot> = Vec::new();
        std::mem::swap(&mut rest, &mut self.slots);
        let ghost all = rest@;
        let n = rest.len();
        proof {
            assert(all.subrange(0, 0) =~= Seq::<SkillsCacheSlot>::empty());
            assert(all.subrange(0, n as int) =~= all);
        }
        while rest.len() > 0
            invariant
                n == all.len(),
                rest@.len() <= n,
                rest@ == all.subrange(n - rest@.len(), n as int),
                self.slots@ == without_upstream(all.subrange(0, n - rest@.len()), name@),
                self.epochs@ == ep,
            decreases rest.len(),
        {
            let ghost done = n - rest@.len();
            let slot = rest.remove(0);
            proof {
                assert(slot == all[done]);
                assert(all.subrange(0, done + 1).drop_last() =~= all.subrange(0, done));
                assert(rest@ =~= all.subrange(done + 1, n as int));
            }
            if compare_str(slot.upstream.as_str(), name) != Cmp::Equal {
                self.slots.push(slot);
            }
        }
    }

    /// Drop every shard after advancing every recorded epoch. Returns how many
    /// shards were dropped.
    pub fn clear_all_cached_skills(&mut self) -> (cleared: usize)
        ensures
            cleared == old(self).slots@.len(),
            final(self).epochs_view() == bump_all(old(self).epochs_view()),
            final(self).slots@.len() == 0,
    {
        let ghost s0 = self.epochs@;
        let ghost sl0 = self.slots@;
        let mut i: usize = 0;
        while i < self.epochs.len()
            invariant
                i <= self.epochs@.len() == s0.len(),
                self.slots@ == sl0,
                forall|j: int| 0 <= j < i ==> #[trigger] self.epochs@[j] == (s0[j].0, next_epoch(s0[j].1)),
                forall|j: int| i <= j < s0.len() ==> #[trigger] self.epochs@[j] == s0[j],
            decreases s0.len() - i,
        {
            let key = self.epochs[i].0.clone();
            let e = self.epochs[i].1;
            let next = if e == u64::MAX {
                0
            } else {
                e + 1
            };
            self.epochs.set(i, (key, next));
            i = i + 1;
        }
        proof {
            assert(self.epochs@ =~= bump_pairs(s0));
            lemma_bump_pairs(s0);
        }
        let cleared = self.slots.len();
        self.slots = Vec::new();
        cleared
    }

    /// The upstreams with at least one cached shard, distinct and sorted.
    pub fn upstreams_with_cached_skills(&self) -> (names: Vec<String>)
        ensures
            sorted_strict(strings_view(names@)),
            strings_view(names@).to_set() == slot_upstreams(self.slots@).to_set(),
    {
        let mut all: Vec<String> = Vec::new();
        let mut i: usize = 0;
        while i < self.slots.len()
            invariant
                i <= self.slots@.len(),
                strings_view(all@) == slot_upstreams(self.slots@).take(i as int),
            decreases self.slots.len() - i,
        {
            let ghost a0 = strings_view(all@);
            all.push(self.slots[i].upstream.clone());
            proof {
                assert(strings_view(all@) =~= a0.push(self.slots@[i as int].upstream@));
                assert(slot_upstreams(self.slots@).take(i + 1) =~= slot_upstreams(self.slots@).take(
                    i as int,
                ).push(slot_upstreams(self.slots@)[i as int]));
                assert(strings_view(all@) =~= slot_upstreams(self.slots@).take(i + 1));
            }
            i = i + 1;
        }
        proof {
            assert(slot_upstreams(self.slots@).take(self.slots@.len() as int) =~= slot_upstreams(
                self.slots@,
            ));
        }
        sorted_unique(all)
    }

    /// A read-only snapshot of the shard (`name`, `subject`), if cached. When
    /// the recency update gets the lock (`touch`), the shard is marked used.
    pub fn cached_skills(&mut self, name: &str, subject: Option<&str>, now_ms: u64, touch: bool) -> (r:
        Option<CachedSkills>)
        ensures
            final(self).epochs == old(self).epochs,
            match slot_index(old(self).slots@, name@, opt_str(subject)) {
                None => r.is_none() && final(self).slots@ == old(self).slots@,
                Some(k) => r matches Some(c) && {
                    let e = old(self).slots@[k].entry;
                    &&& c.skills == e.skills
                    &&& c.direct@.len() == 0
                    &&& c.fetched_at_ms == e.fetched_at_ms
                    &&& c.expires_at_ms == e.expires_at_ms
                    &&& c.last_used_ms == e.last_used_ms
                    &&& c.refreshing == e.refreshing
                    &&& c.refresh_started_at_ms == e.refresh_started_at_ms
                    &&& c.retry_after_ms == e.retry_after_ms
                    &&& c.refresh_failures == e.refresh_failures
                    &&& final(self).slots@.len() == old(self).slots@.len()
                    &&& forall|j: int|
                        0 <= j < old(self).slots@.len() && j != k ==> #[trigger] final(self).slots@[j]
                            == old(self).slots@[j]
                    &&& final(self).slots@[k].upstream == old(self).slots@[k].upstream
                    &&& final(self).slots@[k].subject == old(self).slots@[k].subject
                    &&& final(self).slots@[k].entry == (if touch {
                        CachedSkills { last_used_ms: now_ms, ..e }
                    } else {
                        e
                    })
                },
            },
    {
        match find_slot_index(&self.slots, name, subject) {
            None => None,
            Some(k) => {
                let snapshot = self.slots[k].entry.read_snapshot();
                if touch {
                    let mut slot = self.slots.remove(k);
                    slot.entry.touch(now_ms);
                    self.slots.insert(k, slot);
                }
                Some(snapshot)
            },
        }
    }
}

/// Law: a fetch that captured an upstream's epoch cannot publish once the
/// upstream was invalidated or the whole cache cleared after the capture —
/// its store is refused. (For the whole-cache clear the epoch was recorded
/// by the capture itself.)
pub proof fn law_invalidated_fetch_cannot_publish(epochs: Map<Seq<char>, u64>, name: Seq<char>, other: Seq<char>)
    ensures
        epoch_of(
            epochs.insert(name, next_epoch(epoch_of(epochs, name))),
            name,
        ) != epoch_of(epochs, name),
        epochs.dom().contains(name) ==> epoch_of(bump_all(epochs), name) != epoch_of(epochs, name),
        other != name ==> epoch_of(
            epochs.insert(name, next_epoch(epoch_of(epochs, name))),
            other,
        ) == epoch_of(epochs, other),
{
}

/// Law: a read for (`name`, `subject`) reaches only a shard cached under that
/// same upstream and that same subject, so one caller's catalog is never
/// served to another; with no such shard, nothing is served.
pub proof fn law_shards_never_cross_subjects(
    slots: Seq<SkillsCacheSlot>,
    name: Seq<char>,
    subject: Option<Seq<char>>,
)
    ensures
        match slot_index(slots, name, subject) {
            Some(k) => 0 <= k < slots.len() && slots[k].upstream@ == name && opt_chars(
                slots[k].subject,
            ) == subject,
            None => forall|j: int|
                0 <= j < slots.len() ==> !(#[trigger] slots[j].upstream@ == name && opt_chars(
                    slots[j].subject,
                ) == subject),
        },
{
    lemma_slot_index(slots, name, subject);
}

/// Law: invalidating an upstream leaves no shard of it and every shard of
/// every other upstream.
pub proof fn law_invalidate_drops_exactly_that_upstream(slots: Seq<SkillsCacheSlot>, name: Seq<char>)
    ensures
        forall|i: int|
            0 <= i < without_upstream(slots, name).len() ==> #[trigger] without_upstream(
                slots,
                name,
            )[i].upstream@ != name,
        forall|j: int|
            0 <= j < slots.len() && slots[j].upstream@ != name ==> without_upstream(
                slots,
                name,
            ).contains(#[trigger] slots[j]),
    decreases slots.len(),
{
    if slots.len() > 0 {
        law_invalidate_drops_exactly_that_upstream(slots.drop_last(), name);
        let r = without_upstream(slots.drop_last(), name);
        assert forall|j: int|
            0 <= j < slots.len() && slots[j].upstream@ != name implies without_upstream(
            slots,
            name,
        ).contains(#[trigger] slots[j]) by {
            if j < slots.len() - 1 {
                assert(slots.drop_last()[j] == slots[j]);
                let k = choose|k: int| 0 <= k < r.len() && r[k] == slots[j];
                if slots.last().upstream@ != name {
                    assert(r.push(slots.last())[k] == slots[j]);
                }
            } else {
                assert(r.push(slots.last())[r.len() as int] == slots[j]);
            }
        }
    }
}

/// Only slot `k` may differ, and it keeps its key.
pub open spec fn only_slot_changed(before: Seq<SkillsCacheSlot>, after: Seq<SkillsCacheSlot>, k: int) -> bool {
    &&& after.len() == before.len()
    &&& forall|j: int| 0 <= j < before.len() && j != k ==> #[trigger] after[j] == before[j]
    &&& after[k].upstream == before[k].upstream
    &&& after[k].subject == before[k].subject
}

impl SkillsStore {
    /// Mark a background refresh of shard (`name`, `subject`) in flight.
    /// Refused when the shard is gone, already refreshing, or cooling down
    /// after a failed refresh; a burst of expired reads starts one refresh.
    pub fn begin_shard_refresh(&mut self, name: &str, subject: Option<&str>, now_ms: u64) -> (started:
        bool)
        ensures
            final(self).epochs == old(self).epochs,
            match slot_index(old(self).slots@, name@, opt_str(subject)) {
                None => !started && final(self).slots@ == old(self).slots@,
                Some(k) => {
                    let e = old(self).slots@[k].entry;
                    let f = final(self).slots@[k].entry;
                    &&& started == !(e.refreshing || (e.retry_after_ms matches Some(t) && t > now_ms))
                    &&& only_slot_changed(old(self).slots@, final(self).slots@, k)
                    &&& f == if started {
                        CachedSkills { refreshing: true, refresh_started_at_ms: Some(now_ms), ..e }
                    } else {
                        e
                    }
                },
            },
    {
        let k = match find_slot_index(&self.slots, name, subject) {
            None => return false,
            Some(k) => k,
        };
        let ghost before = self.slots@;
        let mut slot = self.slots.remove(k);
        let ghost e = slot.entry;
        let started = slot.entry.begin_refresh(now_ms);
        proof {
            if !started {
                assert(slot.entry == e);
            }
        }
        self.slots.insert(k, slot);
        proof {
            assert(self.slots@[k as int] == slot);
            assert forall|j: int| 0 <= j < before.len() && j != k implies #[trigger] self.slots@[j]
                == before[j] by {}
        }
        started
    }

    /// A background refresh of shard (`name`, `subject`) failed or was
    /// abandoned: clear its refresh state and arm the retry backoff.
    pub fn fail_shard_refresh(&mut self, name: &str, subject: Option<&str>, now_ms: u64)
        requires
            now_ms + crate::skills_cache::SKILLS_REFRESH_BACKOFF_MAX_MS <= u64::MAX,
        ensures
            final(self).epochs == old(self).epochs,
            match slot_index(old(self).slots@, name@, opt_str(subject)) {
                None => final(self).slots@ == old(self).slots@,
                Some(k) => {
                    let e = old(self).slots@[k].entry;
                    let f = final(self).slots@[k].entry;
                    let failures: u32 = if e.refresh_failures == u32::MAX {
                        u32::MAX
                    } else {
                        (e.refresh_failures + 1) as u32
                    };
                    &&& only_slot_changed(old(self).slots@, final(self).slots@, k)
                    &&& f == CachedSkills {
                        refreshing: false,
                        refresh_started_at_ms: None,
                        refresh_failures: failures,
                        retry_after_ms: Some(
                            (now_ms + crate::skills_cache::backoff_delay(failures)) as u64,
                        ),
                        ..e
                    }
                },
            },
    {
        let k = match find_slot_index(&self.slots, name, subject) {
            None => return,
            Some(k) => k,
        };
        let ghost before = self.slots@;
        let mut slot = self.slots.remove(k);
        slot.entry.fail_refresh(now_ms);
        self.slots.insert(k, slot);
        proof {
            assert(self.slots@[k as int] == slot);
            assert forall|j: int| 0 <= j < before.len() && j != k implies #[trigger] self.slots@[j]
                == before[j] by {}
        }
    }
}

/// Guards a background refresh: if the refresh task dies before finishing
/// (panic or abort), dropping the still-armed guard fails the refresh, so the
/// shard cannot stay marked refreshing forever.
pub struct RefreshStateGuard {
    pub armed: bool,
}

impl RefreshStateGuard {
    pub fn new() -> (g: Self)
        ensures
            g.armed,
    {
        RefreshStateGuard { armed: true }
    }

    /// The refresh finished (well or badly) and recorded its own outcome.
    pub fn disarm(&mut self)
        ensures
            !final(self).armed,
    {
        self.armed = false;
    }

    /// Whether dropping the guard must fail the shard's refresh: only while
    /// armed, and only with a runtime left to do it.
    pub fn on_drop(&mut self, runtime_available: bool) -> (fail_refresh: bool)
        ensures
            fail_refresh == (old(self).armed && runtime_available),
            !final(self).armed,
    {
        let fail = self.armed && runtime_available;
        self.armed = false;
        fail
    }
}

} // verus!
