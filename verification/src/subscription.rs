//! Coalescing of resource-subscription refreshes: an upstream already queued
//! for a refresh is not queued again until its batch has finished.

use vstd::prelude::*;
use crate::order::{contains_str, sorted_strict, sorted_unique, strings_view, str_lt};

verus! {

broadcast use vstd::string::group_string_axioms;

/// Whether an upstream's subscriptions must be reconciled: its resource URIs
/// changed, or it has no subscription task yet.
pub fn subscription_refresh_required(resource_uris_changed: bool, has_subscription_task: bool) -> (b:
    bool)
    ensures
        b == (resource_uris_changed || !has_subscription_task),
{
    resource_uris_changed || !has_subscription_task
}

/// The upstreams whose refresh is scheduled and not yet finished.
pub struct PendingSubscriptionRefreshes {
    pending: Vec<String>,
}

impl View for PendingSubscriptionRefreshes {
    type V = Set<Seq<char>>;

    closed spec fn view(&self) -> Set<Seq<char>> {
        strings_view(self.pending@).to_set()
    }
}

pub open spec fn names_of(v: Seq<String>) -> Set<Seq<char>> {
    strings_view(v).to_set()
}

impl PendingSubscriptionRefreshes {
    pub fn new() -> (p: Self)
        ensures
            p@ == Set::<Seq<char>>::empty(),
    {
        let p = PendingSubscriptionRefreshes { pending: Vec::new() };
        proof {
            assert(strings_view(p.pending@).to_set() =~= Set::<Seq<char>>::empty());
        }
        p
    }

    pub fn is_pending(&self, upstream: &str) -> (b: bool)
        ensures
            b == self@.contains(upstream@),
    {
        contains_str(&self.pending, upstream)
    }

    /// Schedule a refresh of `upstreams`: the ones not already pending become
    /// pending and come back, distinct and sorted, as the batch to run. An
    /// empty batch means every requested upstream was already pending.
    pub fn claim(&mut self, upstreams: Vec<String>) -> (batch: Vec<String>)
        ensures
            sorted_strict(strings_view(batch@)),
            names_of(batch@) == names_of(upstreams@).difference(old(self)@),
            final(self)@ == old(self)@.union(names_of(upstreams@)),
    {
        let requested = sorted_unique(upstreams);
        let ghost req = strings_view(requested@);
        let ghost p0 = self@;
        let mut batch: Vec<String> = Vec::new();
        let mut i: usize = 0;
        proof {
            assert(strings_view(batch@).to_set() =~= Set::<Seq<char>>::empty());
            assert(req.take(0).to_set() =~= Set::<Seq<char>>::empty());
        }
        while i < requested.len()
            invariant
                i <= requested@.len(),
                req == strings_view(requested@),
                sorted_strict(req),
                sorted_strict(strings_view(batch@)),
                forall|k: int|
                    0 <= k < batch@.len() ==> exists|j: int|
                        0 <= j < i && #[trigger] strings_view(batch@)[k] == req[j],
                names_of(batch@) == req.take(i as int).to_set().difference(p0),
                self@ == p0.union(req.take(i as int).to_set()),
            decreases requested.len() - i,
        {
            let ghost b0 = strings_view(batch@);
            proof {
                assert(req.take(i + 1) =~= req.take(i as int).push(req[i as int]));
                req.take(i as int).lemma_push_to_set_commute(req[i as int]);
            }
            let ghost x = req[i as int];
            let ghost before = req.take(i as int).to_set();
            assert(requested@[i as int]@ == x);
            if !contains_str(&self.pending, requested[i].as_str()) {
                let ghost pv = strings_view(self.pending@);
                assert(!pv.to_set().contains(x));
                assert(!p0.contains(x));
                self.pending.push(requested[i].clone());
                batch.push(requested[i].clone());
                proof {
                    assert(strings_view(self.pending@) =~= pv.push(req[i as int]));
                    pv.lemma_push_to_set_commute(req[i as int]);
                    assert(strings_view(batch@) =~= b0.push(req[i as int]));
                    b0.lemma_push_to_set_commute(req[i as int]);
                    assert forall|a: int, b: int|
                        0 <= a < b < strings_view(batch@).len() implies str_lt(
                        #[trigger] strings_view(batch@)[a],
                        #[trigger] strings_view(batch@)[b],
                    ) by {
                        if b == b0.len() {
                            let j = choose|j: int| 0 <= j < i && b0[a] == req[j];
                            assert(b0[a] == req[j]);
                        }
                    }
                    assert forall|k: int| 0 <= k < batch@.len() implies exists|j: int|
                        0 <= j < i + 1 && #[trigger] strings_view(batch@)[k] == req[j] by {
                        if k == b0.len() {
                            assert(strings_view(batch@)[k] == req[i as int]);
                        } else {
                            let j = choose|j: int| 0 <= j < i && b0[k] == req[j];
                            assert(strings_view(batch@)[k] == req[j]);
                        }
                    }
                    assert(names_of(batch@) == before.difference(p0).insert(x));
                    assert(names_of(batch@) =~= before.insert(x).difference(p0));
                    assert(self@ =~= p0.union(req.take(i + 1).to_set()));
                }
            } else {
                proof {
                    assert(strings_view(self.pending@).to_set().contains(x));
                    assert(p0.contains(x) || before.contains(x));
                    assert(names_of(batch@) =~= before.insert(x).difference(p0));
                    assert(self@ =~= p0.union(req.take(i + 1).to_set()));
                }
            }
            i = i + 1;
        }
        proof {
            assert(req.take(requested@.len() as int) =~= req);
        }
        batch
    }

    /// A batch has finished, cancelled or not: its upstreams stop being pending.
    pub fn release(&mut self, batch: &Vec<String>)
        ensures
            final(self)@ == old(self)@.difference(names_of(batch@)),
    {
        let ghost p0 = self@;
        let mut kept: Vec<String> = Vec::new();
        let mut i: usize = 0;
        proof {
            assert(strings_view(kept@).to_set() =~= Set::<Seq<char>>::empty());
        }
        while i < self.pending.len()
            invariant
                i <= self.pending@.len(),
                p0 == strings_view(self.pending@).to_set(),
                names_of(kept@) == strings_view(self.pending@).take(i as int).to_set().difference(
                    names_of(batch@),
                ),
            decreases self.pending.len() - i,
        {
            let ghost pv = strings_view(self.pending@);
            let ghost kv = strings_view(kept@);
            proof {
                assert(pv.take(i + 1) =~= pv.take(i as int).push(pv[i as int]));
                pv.take(i as int).lemma_push_to_set_commute(pv[i as int]);
            }
            if !contains_str(batch, self.pending[i].as_str()) {
                kept.push(self.pending[i].clone());
                proof {
                    assert(strings_view(kept@) =~= kv.push(pv[i as int]));
                    kv.lemma_push_to_set_commute(pv[i as int]);
                }
            }
            proof {
                assert(names_of(kept@) =~= pv.take(i + 1).to_set().difference(names_of(batch@)));
            }
            i = i + 1;
        }
        proof {
            assert(strings_view(self.pending@).take(self.pending@.len() as int) =~= strings_view(
                self.pending@,
            ));
        }
        self.pending = kept;
    }
}

/// Law: two schedulings with no release between them never hand out the
/// same upstream twice; releasing a batch right after scheduling it leaves
/// exactly the upstreams that were pending before.
pub proof fn law_refresh_batches_are_disjoint(
    pending: Set<Seq<char>>,
    first: Set<Seq<char>>,
    second: Set<Seq<char>>,
)
    ensures
        first.difference(pending).disjoint(second.difference(pending.union(first))),
        pending.union(first).difference(first.difference(pending)) == pending,
{
    assert(pending.union(first).difference(first.difference(pending)) =~= pending);
}

} // verus!
