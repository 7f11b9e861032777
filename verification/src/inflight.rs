//! Registry of in-flight requests per stdio connection generation, so a
//! child exit can name exactly which requests it invalidated.

use vstd::prelude::*;
use crate::order::{compare_str, Cmp};
use crate::text::{decimal, u64_to_decimal_string};
use vstd::string::StringExecFns;

verus! {

broadcast use vstd::string::group_string_axioms;

/// What a request log line says about one upstream request.
pub struct UpstreamRequestLog {
    pub upstream: String,
    pub capability: String,
    pub operation: String,
    pub item: Option<String>,
}

/// One registered request: its connection generation, id and label.
pub struct InflightEntry {
    pub upstream: String,
    pub generation: u64,
    pub id: u64,
    pub label: String,
}

/// Handle for one registration; hand it back to `release` when the request ends.
pub struct StdioInflightGuard {
    pub upstream: String,
    pub generation: u64,
    pub id: u64,
}

/// `capability:operation:item#id`, with `<none>` for a missing item.
pub open spec fn inflight_label(event: UpstreamRequestLog, id: u64) -> Seq<char> {
    event.capability@ + ":"@ + event.operation@ + ":"@ + match event.item {
        Some(i) => i@,
        None => "<none>"@,
    } + "#"@ + decimal(id as nat)
}

pub open spec fn entry_key_is(e: InflightEntry, upstream: Seq<char>, generation: u64) -> bool {
    e.upstream@ == upstream && e.generation == generation
}

/// In-flight requests of all stdio connections.
pub struct InflightRegistry {
    entries: Vec<InflightEntry>,
    next_generation: u64,
    next_id: u64,
}

impl InflightRegistry {
    pub closed spec fn entries_view(&self) -> Seq<InflightEntry> {
        self.entries@
    }

    pub closed spec fn next_generation_view(&self) -> u64 {
        self.next_generation
    }

    pub closed spec fn next_id_view(&self) -> u64 {
        self.next_id
    }

    pub fn new() -> (r: Self)
        ensures
            r.entries_view().len() == 0,
            r.next_generation_view() == 1,
            r.next_id_view() == 1,
    {
        InflightRegistry { entries: Vec::new(), next_generation: 1, next_id: 1 }
    }

    /// Allocate the generation of a new stdio connection.
    pub fn begin_generation(&mut self) -> (g: u64)
        ensures
            g == old(self).next_generation_view(),
            final(self).next_generation_view() == old(self).next_generation_view().wrapping_add(1),
            final(self).next_id_view() == old(self).next_id_view(),
            final(self).entries_view() == old(self).entries_view(),
    {
        let g = self.next_generation;
        self.next_generation = g.wrapping_add(1);
        g
    }

    /// Register one request on `generation`; without a generation (not a
    /// stdio connection) nothing is registered.
    pub fn register_inflight(&mut self, event: &UpstreamRequestLog, generation: Option<u64>) -> (g:
        Option<StdioInflightGuard>)
        ensures
            generation.is_none() ==> g.is_none() && *final(self) == *old(self),
            generation matches Some(gen) ==> {
                &&& g matches Some(guard) && guard.upstream@ == event.upstream@ && guard.generation
                    == gen && guard.id == old(self).next_id_view()
                &&& final(self).next_id_view() == old(self).next_id_view().wrapping_add(1)
                &&& final(self).next_generation_view() == old(self).next_generation_view()
                &&& final(self).entries_view().len() == old(self).entries_view().len() + 1
                &&& final(self).entries_view().drop_last() == old(self).entries_view()
                &&& final(self).entries_view().last().upstream@ == event.upstream@
                &&& final(self).entries_view().last().generation == gen
                &&& final(self).entries_view().last().id == old(self).next_id_view()
                &&& final(self).entries_view().last().label@ == inflight_label(
                    *event,
                    old(self).next_id_view(),
                )
            },
    {
        let generation = match generation {
            None => {
                return None;
            },
            Some(g) => g,
        };
        let id = self.next_id;
        self.next_id = id.wrapping_add(1);
        let mut label = event.capability.clone();
        label.append(":");
        label.append(event.operation.as_str());
        label.append(":");
        match &event.item {
            Some(i) => label.append(i.as_str()),
            None => label.append("<none>"),
        }
        label.append("#");
        let digits = u64_to_decimal_string(id);
        label.append(digits.as_str());
        self.entries.push(
            InflightEntry { upstream: event.upstream.clone(), generation, id, label },
        );
        Some(StdioInflightGuard { upstream: event.upstream.clone(), generation, id })
    }

    /// Remove and return the labels of every request on `upstream`'s
    /// `generation`, in registration order.
    pub fn take_inflight(&mut self, upstream: &str, generation: u64) -> (labels: Vec<String>)
        ensures
            final(self).next_id_view() == old(self).next_id_view(),
            final(self).next_generation_view() == old(self).next_generation_view(),
            final(self).entries_view() == old(self).entries_view().filter(
                |e: InflightEntry| !entry_key_is(e, upstream@, generation),
            ),
            labels@.map_values(|s: String| s@) == old(self).entries_view().filter(
                |e: InflightEntry| entry_key_is(e, upstream@, generation),
            ).map_values(|e: InflightEntry| e.label@),
    {
        let ghost old_e = self.entries@;
        let ghost keep = |e: InflightEntry| !entry_key_is(e, upstream@, generation);
        let ghost hit = |e: InflightEntry| entry_key_is(e, upstream@, generation);
        let mut kept: Vec<InflightEntry> = Vec::new();
        let mut labels: Vec<String> = Vec::new();
        let n = self.entries.len();
        let mut i: usize = 0;
        proof {
            reveal(Seq::filter);
            assert(old_e.take(0) =~= Seq::<InflightEntry>::empty());
        }
        while i < n
            invariant
                i <= n == old_e.len(),
                old_e == self.entries@,
                kept@ == old_e.take(i as int).filter(keep),
                labels@.map_values(|s: String| s@) == old_e.take(i as int).filter(hit).map_values(
                    |e: InflightEntry| e.label@,
                ),
                keep == (|e: InflightEntry| !entry_key_is(e, upstream@, generation)),
                hit == (|e: InflightEntry| entry_key_is(e, upstream@, generation)),
            decreases n - i,
        {
            let e = &self.entries[i];
            proof {
                assert(old_e.take(i + 1) =~= old_e.take(i as int).push(old_e[i as int]));
                old_e.take(i as int).lemma_filter_push(old_e[i as int], keep);
                old_e.take(i as int).lemma_filter_push(old_e[i as int], hit);
            }
            let is_hit = compare_str(e.upstream.as_str(), upstream) == Cmp::Equal && e.generation
                == generation;
            let ghost lb = labels@;
            if is_hit {
                labels.push(e.label.clone());
                proof {
                    assert(labels@.map_values(|s: String| s@) =~= lb.map_values(|s: String| s@).push(
                        e.label@,
                    ));
                }
            } else {
                kept.push(
                    InflightEntry {
                        upstream: e.upstream.clone(),
                        generation: e.generation,
                        id: e.id,
                        label: e.label.clone(),
                    },
                );
                proof {
                    assert(kept@.last() == old_e[i as int]);
                }
            }
            i = i + 1;
        }
        proof {
            assert(old_e.take(n as int) =~= old_e);
        }
        self.entries = kept;
        labels
    }

    /// End one registration (the guard's drop).
    pub fn release(&mut self, guard: StdioInflightGuard)
        ensures
            final(self).next_id_view() == old(self).next_id_view(),
            final(self).next_generation_view() == old(self).next_generation_view(),
            final(self).entries_view() == old(self).entries_view().filter(
                |e: InflightEntry|
                    !(entry_key_is(e, guard.upstream@, guard.generation) && e.id == guard.id),
            ),
    {
        let ghost old_e = self.entries@;
        let ghost keep = |e: InflightEntry|
            !(entry_key_is(e, guard.upstream@, guard.generation) && e.id == guard.id);
        let mut kept: Vec<InflightEntry> = Vec::new();
        let n = self.entries.len();
        let mut i: usize = 0;
        proof {
            reveal(Seq::filter);
            assert(old_e.take(0) =~= Seq::<InflightEntry>::empty());
        }
        while i < n
            invariant
                i <= n == old_e.len(),
                old_e == self.entries@,
                kept@ == old_e.take(i as int).filter(keep),
                keep == (|e: InflightEntry|
                    !(entry_key_is(e, guard.upstream@, guard.generation) && e.id == guard.id)),
            decreases n - i,
        {
            let e = &self.entries[i];
            proof {
                assert(old_e.take(i + 1) =~= old_e.take(i as int).push(old_e[i as int]));
                old_e.take(i as int).lemma_filter_push(old_e[i as int], keep);
            }
            let is_hit = compare_str(e.upstream.as_str(), guard.upstream.as_str()) == Cmp::Equal
                && e.generation == guard.generation && e.id == guard.id;
            if !is_hit {
                kept.push(
                    InflightEntry {
                        upstream: e.upstream.clone(),
                        generation: e.generation,
                        id: e.id,
                        label: e.label.clone(),
                    },
                );
                proof {
                    assert(kept@.last() == old_e[i as int]);
                }
            }
            i = i + 1;
        }
        proof {
            assert(old_e.take(n as int) =~= old_e);
        }
        self.entries = kept;
    }
}


/// The registration a guard releases.
pub open spec fn guard_holds(e: InflightEntry, upstream: Seq<char>, generation: u64, id: u64) -> bool {
    entry_key_is(e, upstream, generation) && e.id == id
}

/// Law: releasing a registration undoes it. When `register_inflight` has
/// appended `e` to the in-flight entries under a fresh id (no entry already
/// carries its upstream, generation and id), `release` with its guard
/// leaves exactly the entries that were there before; every other
/// connection's (and generation's) entries are untouched throughout.
pub proof fn law_release_undoes_register(entries: Seq<InflightEntry>, e: InflightEntry)
    requires
        forall|k: int|
            0 <= k < entries.len() ==> !guard_holds(#[trigger] entries[k], e.upstream@, e.generation, e.id),
    ensures
        entries.push(e).filter(
            |x: InflightEntry| !(entry_key_is(x, e.upstream@, e.generation) && x.id == e.id),
        ) == entries,
{
    let keep = |x: InflightEntry| !(entry_key_is(x, e.upstream@, e.generation) && x.id == e.id);
    entries.lemma_filter_push(e, keep);
    lemma_filter_keeps_all(entries, keep);
}

proof fn lemma_filter_keeps_all(s: Seq<InflightEntry>, keep: spec_fn(InflightEntry) -> bool)
    requires
        forall|k: int| 0 <= k < s.len() ==> keep(#[trigger] s[k]),
    ensures
        s.filter(keep) == s,
    decreases s.len(),
{
    reveal(Seq::filter);
    if s.len() > 0 {
        lemma_filter_keeps_all(s.drop_last(), keep);
        assert(s.drop_last().push(s.last()) =~= s);
    }
}

} // verus!
