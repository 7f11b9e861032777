//! Gateway-owned task handles: the authorization snapshot captured when a
//! handle is minted, and the table that routes a handle back to its upstream.

use vstd::prelude::*;
use crate::order::{
    compare_str, contains_str, same_strings, sorted_strict, sorted_unique, strings_view, Cmp,
};
use crate::text::{hex_chars, hex_fixed, string_from_chars};
use vstd::string::StringExecFns;

verus! {

broadcast use vstd::string::group_string_axioms;

/// Routes idle this long are dropped.
pub const TASK_ROUTE_IDLE_TTL_MS: u64 = 86_400_000;

/// The table never holds this many routes after pruning.
pub const TASK_ROUTE_MAX_ENTRIES: usize = 4096;

/// Authorization boundary captured when an upstream task handle is minted.
///
/// The allowed upstreams are held sorted and without duplicates, so two
/// snapshots are equal exactly when their keys and upstream sets are.
#[derive(Debug, PartialEq, Eq)]
pub struct TaskRouteAuthorization {
    route_key: String,
    allowed_upstreams: Option<Vec<String>>,
}

impl TaskRouteAuthorization {
    pub closed spec fn key_view(&self) -> Seq<char> {
        self.route_key@
    }

    /// The allowed upstream set, `None` when every upstream is allowed.
    pub closed spec fn allowed_view(&self) -> Option<Set<Seq<char>>> {
        match self.allowed_upstreams {
            None => None,
            Some(v) => Some(strings_view(v@).to_set()),
        }
    }

    #[verifier::type_invariant]
    pub closed spec fn wf(&self) -> bool {
        match self.allowed_upstreams {
            None => true,
            Some(v) => sorted_strict(strings_view(v@)),
        }
    }

    pub fn new(route_key: String, allowed_upstreams: Option<Vec<String>>) -> (a: Self)
        ensures
            a.key_view() == route_key@,
            a.allowed_view() == match allowed_upstreams {
                None => None,
                Some(v) => Some(strings_view(v@).to_set()),
            },
    {
        let allowed_upstreams = match allowed_upstreams {
            None => None,
            Some(v) => Some(sorted_unique(v)),
        };
        TaskRouteAuthorization { route_key, allowed_upstreams }
    }

    /// The unscoped snapshot used by the root route.
    pub fn root() -> (a: Self)
        ensures
            a.key_view() == "root"@,
            a.allowed_view().is_none(),
    {
        Self::new(String::from_str("root"), None)
    }

    pub fn route_key(&self) -> (k: &str)
        ensures
            k@ == self.key_view(),
    {
        self.route_key.as_str()
    }

    /// Whether `upstream` lies inside this boundary.
    pub fn allows(&self, upstream: &str) -> (b: bool)
        ensures
            b == match self.allowed_view() {
                None => true,
                Some(s) => s.contains(upstream@),
            },
    {
        match &self.allowed_upstreams {
            None => true,
            Some(v) => {
                let b = contains_str(v, upstream);
                proof {
                    if strings_view(v@).contains(upstream@) {
                        assert(strings_view(v@).to_set().contains(upstream@));
                    }
                }
                b
            },
        }
    }

    /// Whether two snapshots describe the same boundary.
    pub fn same_as(&self, other: &Self) -> (b: bool)
        ensures
            b == (self.key_view() == other.key_view() && self.allowed_view()
                == other.allowed_view()),
    {
        proof {
            use_type_invariant(self);
            use_type_invariant(other);
        }
        if compare_str(self.route_key.as_str(), other.route_key.as_str()) != Cmp::Equal {
            return false;
        }
        match (&self.allowed_upstreams, &other.allowed_upstreams) {
            (None, None) => true,
            (Some(a), Some(b)) => {
                let r = same_strings(a, b);
                proof {
                    if !r && strings_view(a@).to_set() == strings_view(b@).to_set() {
                        lemma_sorted_set_eq(strings_view(a@), strings_view(b@));
                    }
                }
                r
            },
            _ => false,
        }
    }
}

impl Clone for TaskRouteAuthorization {
    fn clone(&self) -> (c: Self)
        ensures
            c.key_view() == self.key_view(),
            c.allowed_view() == self.allowed_view(),
    {
        proof {
            use_type_invariant(self);
        }
        let allowed_upstreams = match &self.allowed_upstreams {
            None => None,
            Some(v) => {
                let c = v.clone();
                assert(c@ =~= v@);
                Some(c)
            },
        };
        TaskRouteAuthorization { route_key: self.route_key.clone(), allowed_upstreams }
    }
}

/// Two strictly sorted sequences with the same elements are equal.
pub proof fn lemma_sorted_set_eq(a: Seq<Seq<char>>, b: Seq<Seq<char>>)
    requires
        sorted_strict(a),
        sorted_strict(b),
        a.to_set() == b.to_set(),
    ensures
        a == b,
    decreases a.len() + b.len(),
{
    crate::order::lemma_str_order();
    if a.len() == 0 {
        if b.len() > 0 {
            assert(b.to_set().contains(b[0]));
        }
        assert(a =~= b);
    } else if b.len() == 0 {
        assert(a.to_set().contains(a[0]));
    } else {
        // The first elements are each the least element of the common set.
        assert(a.to_set().contains(a[0]));
        assert(b.to_set().contains(b[0]));
        let ka = choose|k: int| 0 <= k < a.len() && a[k] == b[0];
        let kb = choose|k: int| 0 <= k < b.len() && b[k] == a[0];
        if ka > 0 {
            assert(crate::order::str_lt(a[0], a[ka]));
            if kb > 0 {
                assert(crate::order::str_lt(b[0], b[kb]));
            }
        }
        assert(a[0] == b[0]);
        let ta = a.drop_first();
        let tb = b.drop_first();
        assert(ta.to_set() =~= tb.to_set()) by {
            assert forall|x: Seq<char>| ta.to_set().contains(x) implies tb.to_set().contains(x) by {
                let k = choose|k: int| 0 <= k < ta.len() && ta[k] == x;
                assert(a[k + 1] == x);
                assert(a.to_set().contains(x));
                let j = choose|j: int| 0 <= j < b.len() && b[j] == x;
                assert(crate::order::str_lt(a[0], a[k + 1]));
                assert(j != 0);
                assert(tb[j - 1] == x);
            }
            assert forall|x: Seq<char>| tb.to_set().contains(x) implies ta.to_set().contains(x) by {
                let k = choose|k: int| 0 <= k < tb.len() && tb[k] == x;
                assert(b[k + 1] == x);
                assert(b.to_set().contains(x));
                let j = choose|j: int| 0 <= j < a.len() && a[j] == x;
                assert(crate::order::str_lt(b[0], b[k + 1]));
                assert(j != 0);
                assert(ta[j - 1] == x);
            }
        }
        lemma_sorted_set_eq(ta, tb);
        assert forall|k: int| 0 <= k < a.len() implies a[k] == b[k] by {
            if k > 0 {
                assert(a[k] == ta[k - 1]);
                assert(b[k] == tb[k - 1]);
            }
        }
        assert(a =~= b);
    }
}

/// A retained task route: where a gateway handle leads and who may use it.
pub struct TaskRoute {
    pub upstream_name: String,
    pub native_task_id: String,
    pub caller_subject: Option<String>,
    pub oauth_subject: Option<String>,
    pub authorization: TaskRouteAuthorization,
    pub last_used_ms: u64,
}

pub open spec fn opt_view(o: Option<String>) -> Option<Seq<char>> {
    match o {
        Some(s) => Some(s@),
        None => None,
    }
}

pub open spec fn opt_str_view(o: Option<&str>) -> Option<Seq<char>> {
    match o {
        Some(s) => Some(s@),
        None => None,
    }
}

/// Milliseconds from `since` to `now`, zero if the clock reads earlier.
pub open spec fn elapsed_ms(now: u64, since: u64) -> int {
    if now >= since {
        now - since
    } else {
        0
    }
}

/// Whether a route survives pruning at `now` when the connections named in
/// `closed` have shut.
pub open spec fn route_live(id: Seq<char>, r: TaskRoute, now: u64, closed: Seq<Seq<char>>) -> bool {
    elapsed_ms(now, r.last_used_ms) < TASK_ROUTE_IDLE_TTL_MS && !closed.contains(id)
}

/// The caller may use this route: same caller subject, the same
/// authorization snapshot, and the route's upstream inside it.
pub open spec fn route_authorized(
    r: TaskRoute,
    caller_subject: Option<Seq<char>>,
    authorization: TaskRouteAuthorization,
) -> bool {
    &&& opt_view(r.caller_subject) == caller_subject
    &&& r.authorization.key_view() == authorization.key_view()
    &&& r.authorization.allowed_view() == authorization.allowed_view()
    &&& match authorization.allowed_view() {
        None => true,
        Some(s) => s.contains(r.upstream_name@),
    }
}

pub fn task_not_found() -> (s: String)
    ensures
        s@ == "task not found"@,
{
    String::from_str("task not found")
}

/// Check a caller against a route; every refusal reads `task not found`.
pub fn authorize_task_route(
    route: &TaskRoute,
    caller_subject: Option<&str>,
    authorization: &TaskRouteAuthorization,
) -> (r: Result<(), String>)
    ensures
        r is Ok <==> route_authorized(*route, opt_str_view(caller_subject), *authorization),
        r matches Err(e) ==> e@ == "task not found"@,
{
    let subject_matches = match (&route.caller_subject, caller_subject) {
        (None, None) => true,
        (Some(a), Some(b)) => compare_str(a.as_str(), b) == Cmp::Equal,
        _ => false,
    };
    let scope_matches = route.authorization.same_as(authorization) && authorization.allows(
        route.upstream_name.as_str(),
    );
    if subject_matches && scope_matches {
        Ok(())
    } else {
        Err(task_not_found())
    }
}

/// Which OAuth routes an invalidation removes.
pub enum OauthRouteFilter {
    /// Routes of one OAuth subject on one upstream.
    Subject { upstream: String, subject: String },
    /// Every OAuth route.
    All,
    /// OAuth routes on any of these upstreams.
    Upstreams(Vec<String>),
}

pub open spec fn filter_removes(f: OauthRouteFilter, r: TaskRoute) -> bool {
    match f {
        OauthRouteFilter::Subject { upstream, subject } => r.upstream_name@ == upstream@
            && opt_view(r.oauth_subject) == Some(subject@),
        OauthRouteFilter::All => r.oauth_subject.is_some(),
        OauthRouteFilter::Upstreams(v) => r.oauth_subject.is_some() && strings_view(v@).contains(
            r.upstream_name@,
        ),
    }
}

/// Gateway task handles and the routes they resolve to.
pub struct TaskRoutes {
    entries: Vec<(String, TaskRoute)>,
    next_handle: u64,
}

/// Index of the entry for `id`, if any.
pub open spec fn find_entry(e: Seq<(String, TaskRoute)>, id: Seq<char>) -> Option<int> {
    if exists|k: int| 0 <= k < e.len() && #[trigger] e[k].0@ == id {
        Some(choose|k: int| 0 <= k < e.len() && #[trigger] e[k].0@ == id)
    } else {
        None
    }
}

/// Number of entries that would survive the idle and closed filters.
pub open spec fn live_count(e: Seq<(String, TaskRoute)>, now: u64, closed: Seq<Seq<char>>) -> nat
    decreases e.len(),
{
    if e.len() == 0 {
        0
    } else {
        live_count(e.drop_first(), now, closed) + if route_live(e[0].0@, e[0].1, now, closed) {
            1nat
        } else {
            0nat
        }
    }
}

/// Gateway handle text for counter value `n`.
pub open spec fn task_handle(n: u64) -> Seq<char> {
    "labby-task-"@ + hex_fixed(n as nat, 16)
}

/// `new` is what pruning `old` at `now` (with the connections in `closed`
/// shut) may leave: fewer routes than the cap, each of them a live route of
/// `old` (unchanged), and — when the live routes fit under the cap — every
/// live route of `old`. Past the cap the least recently used go first.
pub open spec fn routes_pruned(
    old: Seq<(String, TaskRoute)>,
    new: Seq<(String, TaskRoute)>,
    now: u64,
    closed: Seq<Seq<char>>,
) -> bool {
    &&& new.len() < TASK_ROUTE_MAX_ENTRIES
    &&& forall|k: int|
        0 <= k < new.len() ==> route_live(#[trigger] new[k].0@, new[k].1, now, closed) && old.contains(
            new[k],
        )
    &&& live_count(old, now, closed) < TASK_ROUTE_MAX_ENTRIES ==> forall|k: int|
        0 <= k < old.len() && route_live(#[trigger] old[k].0@, old[k].1, now, closed) ==> new.contains(
            old[k],
        )
}

/// `removed` names exactly the routes of `old` that `new` no longer holds.
pub open spec fn names_dropped(
    old: Seq<(String, TaskRoute)>,
    new: Seq<(String, TaskRoute)>,
    removed: Seq<Seq<char>>,
) -> bool {
    &&& forall|k: int|
        0 <= k < old.len() ==> new.contains(#[trigger] old[k]) || removed.contains(old[k].0@)
    &&& forall|j: int|
        0 <= j < removed.len() ==> exists|k: int|
            0 <= k < old.len() && old[k].0@ == #[trigger] removed[j] && !new.contains(old[k])
}

impl TaskRoutes {
    pub closed spec fn entries_view(&self) -> Seq<(String, TaskRoute)> {
        self.entries@
    }

    pub closed spec fn next_handle_view(&self) -> u64 {
        self.next_handle
    }

    /// Handles are unique.
    pub closed spec fn wf(&self) -> bool {
        forall|i: int, j: int|
            0 <= i < j < self.entries@.len() ==> #[trigger] self.entries@[i].0@
                != #[trigger] self.entries@[j].0@
    }

    pub fn new() -> (t: Self)
        ensures
            t.wf(),
            t.entries_view().len() == 0,
            t.next_handle_view() == 1,
    {
        TaskRoutes { entries: Vec::new(), next_handle: 1 }
    }

    pub fn len(&self) -> (n: usize)
        ensures
            n == self.entries_view().len(),
    {
        self.entries.len()
    }

    /// Mint the next gateway handle: `labby-task-` and the counter as 16
    /// lowercase hex digits.
    pub fn mint_task_handle(&mut self) -> (h: String)
        ensures
            h@ == task_handle(old(self).next_handle_view()),
            final(self).next_handle_view() == old(self).next_handle_view().wrapping_add(1),
            final(self).entries_view() == old(self).entries_view(),
    {
        let n = self.next_handle;
        self.next_handle = n.wrapping_add(1);
        let mut h = String::from_str("labby-task-");
        let digits = string_from_chars(&hex_chars(n, 16));
        h.append(digits.as_str());
        h
    }

    /// Drop idle routes and routes whose connection has closed, then the
    /// least recently used until the table is under its cap. Returns the
    /// handles removed.
    #[verifier::spinoff_prover]
    #[verifier::rlimit(60)]
    pub fn prune(&mut self, now_ms: u64, closed: &Vec<String>) -> (removed: Vec<String>)
        requires
            old(self).wf(),
        ensures
            final(self).wf(),
            final(self).next_handle_view() == old(self).next_handle_view(),
            routes_pruned(
                old(self).entries_view(),
                final(self).entries_view(),
                now_ms,
                strings_view(closed@),
            ),
            names_dropped(old(self).entries_view(), final(self).entries_view(), strings_view(removed@)),
    {
        let ghost old_e = self.entries@;
        let ghost cv = strings_view(closed@);
        let mut kept: Vec<(String, TaskRoute)> = Vec::new();
        let mut removed: Vec<String> = Vec::new();
        let mut old_entries: Vec<(String, TaskRoute)> = Vec::new();
        std::mem::swap(&mut old_entries, &mut self.entries);
        let n = old_entries.len();
        let mut rest = old_entries;
        let mut i: usize = n;
        proof {
            assert(rest@ =~= old_e.subrange(0, n as int));
        }
        while i > 0
            invariant
                i <= n == old_e.len(),
                rest@ =~= old_e.subrange(0, i as int),
                forall|k: int|
                    0 <= k < kept@.len() ==> route_live(
                        #[trigger] kept@[k].0@,
                        kept@[k].1,
                        now_ms,
                        cv,
                    ) && old_e.subrange(i as int, n as int).contains(kept@[k]),
                forall|k: int|
                    i <= k < n && route_live(#[trigger] old_e[k].0@, old_e[k].1, now_ms, cv)
                        ==> kept@.contains(old_e[k]),
                kept@.len() == live_count(old_e.subrange(i as int, n as int), now_ms, cv),
                forall|a: int, b: int|
                    0 <= a < b < old_e.len() ==> #[trigger] old_e[a].0@ != #[trigger] old_e[b].0@,
                forall|a: int, b: int|
                    0 <= a < b < kept@.len() ==> #[trigger] kept@[a].0@ != #[trigger] kept@[b].0@,
                cv == strings_view(closed@),
                forall|k: int|
                    i <= k < n ==> kept@.contains(#[trigger] old_e[k]) || strings_view(removed@).contains(
                        old_e[k].0@,
                    ),
                forall|j: int|
                    0 <= j < removed@.len() ==> exists|k: int|
                        i <= k < n && old_e[k].0@ == #[trigger] strings_view(removed@)[j] && !route_live(
                            old_e[k].0@,
                            old_e[k].1,
                            now_ms,
                            cv,
                        ),
            decreases i,
        {
            let e = rest.pop().unwrap();
            let ghost ii = (i - 1) as int;
            proof {
                assert(e == old_e[ii]);
                assert(old_e.subrange(ii, n as int).drop_first() =~= old_e.subrange(i as int, n as int));
                assert(old_e.subrange(ii, n as int)[0] == old_e[ii]);
            }
            let idle = now_ms >= e.1.last_used_ms && now_ms - e.1.last_used_ms
                >= TASK_ROUTE_IDLE_TTL_MS;
            let is_closed = contains_str(closed, e.0.as_str());
            let ghost kept_before = kept@;
            let ghost removed_before = strings_view(removed@);
            if idle || is_closed {
                removed.push(e.0);
                proof {
                    assert(strings_view(removed@) =~= removed_before.push(old_e[ii].0@));
                    assert(strings_view(removed@)[removed_before.len() as int] == old_e[ii].0@);
                    assert forall|k: int|
                        ii <= k < n implies kept@.contains(#[trigger] old_e[k]) || strings_view(
                            removed@,
                        ).contains(old_e[k].0@) by {
                        if k == ii {
                            assert(strings_view(removed@)[removed_before.len() as int] == old_e[k].0@);
                        } else if !kept@.contains(old_e[k]) {
                            let j = choose|j: int| 0 <= j < removed_before.len() && removed_before[j] == old_e[k].0@;
                            assert(strings_view(removed@)[j] == old_e[k].0@);
                        }
                    }
                    assert forall|j: int| 0 <= j < removed@.len() implies exists|k: int|
                        ii <= k < n && old_e[k].0@ == #[trigger] strings_view(removed@)[j] && !route_live(
                            old_e[k].0@,
                            old_e[k].1,
                            now_ms,
                            cv,
                        ) by {
                        if j < removed_before.len() {
                            assert(strings_view(removed@)[j] == removed_before[j]);
                            let k = choose|k: int|
                                i <= k < n && old_e[k].0@ == #[trigger] removed_before[j] && !route_live(
                                    old_e[k].0@,
                                    old_e[k].1,
                                    now_ms,
                                    cv,
                                );
                            assert(old_e[k].0@ == strings_view(removed@)[j]);
                        } else {
                            assert(old_e[ii].0@ == strings_view(removed@)[j]);
                            assert(!route_live(old_e[ii].0@, old_e[ii].1, now_ms, cv));
                        }
                    }
                }
            } else {
                proof {
                    assert forall|k: int| 0 <= k < kept@.len() implies #[trigger] kept@[k].0@
                        != e.0@ by {
                        assert(route_live(kept@[k].0@, kept@[k].1, now_ms, cv));
                        assert(old_e.subrange(i as int, n as int).contains(kept@[k]));
                        let j = choose|j: int|
                            0 <= j < old_e.subrange(i as int, n as int).len()
                                && old_e.subrange(i as int, n as int)[j] == kept@[k];
                        assert(old_e.subrange(i as int, n as int)[j] == old_e[j + i]);
                        assert(old_e[j + i] == kept@[k]);
                    }
                }
                kept.push(e);
                proof {
                    assert(strings_view(removed@) == removed_before);
                    assert forall|k: int|
                        ii <= k < n implies kept@.contains(#[trigger] old_e[k]) || strings_view(
                            removed@,
                        ).contains(old_e[k].0@) by {
                        if k == ii {
                            assert(kept@[kept@.len() - 1] == old_e[k]);
                        } else if kept_before.contains(old_e[k]) {
                            let j = choose|j: int| 0 <= j < kept_before.len() && kept_before[j] == old_e[k];
                            assert(kept@[j] == old_e[k]);
                        }
                    }
                    assert forall|j: int| 0 <= j < removed@.len() implies exists|k: int|
                        ii <= k < n && old_e[k].0@ == #[trigger] strings_view(removed@)[j] && !route_live(
                            old_e[k].0@,
                            old_e[k].1,
                            now_ms,
                            cv,
                        ) by {
                        let k = choose|k: int|
                            i <= k < n && old_e[k].0@ == #[trigger] removed_before[j] && !route_live(
                                old_e[k].0@,
                                old_e[k].1,
                                now_ms,
                                cv,
                            );
                        assert(old_e[k].0@ == strings_view(removed@)[j]);
                    }
                }
            }
            proof {
                assert forall|k: int| 0 <= k < kept@.len() implies old_e.subrange(
                    ii,
                    n as int,
                ).contains(#[trigger] kept@[k]) by {
                    if k < kept_before.len() {
                        assert(kept@[k] == kept_before[k]);
                        assert(route_live(kept_before[k].0@, kept_before[k].1, now_ms, cv));
                        assert(old_e.subrange(i as int, n as int).contains(kept_before[k]));
                        let j = choose|j: int|
                            0 <= j < old_e.subrange(i as int, n as int).len()
                                && old_e.subrange(i as int, n as int)[j] == kept_before[k];
                        assert(old_e.subrange(i as int, n as int)[j] == old_e[j + i]);
                        assert(old_e.subrange(ii, n as int)[j + 1] == old_e[j + i]);
                    } else {
                        assert(old_e.subrange(ii, n as int)[0] == kept@[k]);
                    }
                }
                assert forall|k: int|
                    ii <= k < n && route_live(
                        #[trigger] old_e[k].0@,
                        old_e[k].1,
                        now_ms,
                        cv,
                    ) implies kept@.contains(old_e[k]) by {
                    if k > ii {
                        let j = choose|j: int| 0 <= j < kept_before.len() && kept_before[j] == old_e[k];
                        assert(kept@[j] == old_e[k]);
                    } else {
                        assert(kept@[kept@.len() - 1] == old_e[k]);
                    }
                }
            }
            i = i - 1;
        }
        assert(old_e.subrange(0, n as int) =~= old_e);
        assert forall|k: int| 0 <= k < kept@.len() implies old_e.contains(#[trigger] kept@[k]) by {
            assert(route_live(kept@[k].0@, kept@[k].1, now_ms, cv));
            assert(old_e.subrange(0, n as int).contains(kept@[k]));
        }
        proof {
            assert forall|j: int| 0 <= j < removed@.len() implies exists|k: int|
                0 <= k < n && old_e[k].0@ == #[trigger] strings_view(removed@)[j] && !kept@.contains(
                    old_e[k],
                ) by {
                let k = choose|k: int|
                    0 <= k < n && old_e[k].0@ == #[trigger] strings_view(removed@)[j] && !route_live(
                        old_e[k].0@,
                        old_e[k].1,
                        now_ms,
                        cv,
                    );
                if kept@.contains(old_e[k]) {
                    let m = choose|m: int| 0 <= m < kept@.len() && kept@[m] == old_e[k];
                    assert(route_live(kept@[m].0@, kept@[m].1, now_ms, cv));
                }
            }
        }
        let ghost filtered = kept@;
        while kept.len() >= TASK_ROUTE_MAX_ENTRIES
            invariant
                n == old_e.len(),
                forall|k: int|
                    0 <= k < n ==> kept@.contains(#[trigger] old_e[k]) || strings_view(removed@).contains(
                        old_e[k].0@,
                    ),
                forall|j: int|
                    0 <= j < removed@.len() ==> exists|k: int|
                        0 <= k < n && old_e[k].0@ == #[trigger] strings_view(removed@)[j] && !kept@.contains(
                            old_e[k],
                        ),
                forall|k: int|
                    0 <= k < kept@.len() ==> route_live(
                        #[trigger] kept@[k].0@,
                        kept@[k].1,
                        now_ms,
                        cv,
                    ) && old_e.contains(kept@[k]),
                forall|a: int, b: int|
                    0 <= a < b < kept@.len() ==> #[trigger] kept@[a].0@ != #[trigger] kept@[b].0@,
                filtered.len() < TASK_ROUTE_MAX_ENTRIES ==> kept@ == filtered,
                filtered.len() == live_count(old_e, now_ms, cv),
            decreases kept@.len(),
        {
            let mut oldest: usize = 0;
            let mut j: usize = 1;
            while j < kept.len()
                invariant
                    1 <= j <= kept@.len(),
                    oldest < kept@.len(),
                decreases kept@.len() - j,
            {
                if kept[j].1.last_used_ms < kept[oldest].1.last_used_ms {
                    oldest = j;
                }
                j = j + 1;
            }
            let ghost before = kept@;
            let e = kept.remove(oldest);
            proof {
                assert forall|k: int| 0 <= k < kept@.len() implies route_live(
                    #[trigger] kept@[k].0@,
                    kept@[k].1,
                    now_ms,
                    cv,
                ) && old_e.contains(kept@[k]) by {
                    if k < oldest {
                        assert(kept@[k] == before[k]);
                    } else {
                        assert(kept@[k] == before[k + 1]);
                    }
                }
                assert forall|a: int, b: int| 0 <= a < b < kept@.len() implies #[trigger] kept@[a].0@
                    != #[trigger] kept@[b].0@ by {
                    let a2 = if a < oldest { a } else { a + 1 };
                    let b2 = if b < oldest { b } else { b + 1 };
                    assert(kept@[a] == before[a2]);
                    assert(kept@[b] == before[b2]);
                }
            }
            let ghost removed_before = strings_view(removed@);
            let ghost eid = e.0@;
            let ghost ev = e;
            removed.push(e.0);
            proof {
                assert(strings_view(removed@) =~= removed_before.push(eid));
                assert(ev == before[oldest as int]);
                assert(old_e.contains(ev));
                assert forall|k: int|
                    0 <= k < n implies kept@.contains(#[trigger] old_e[k]) || strings_view(removed@).contains(
                        old_e[k].0@,
                    ) by {
                    if before.contains(old_e[k]) {
                        let m = choose|m: int| 0 <= m < before.len() && before[m] == old_e[k];
                        if m < oldest {
                            assert(kept@[m] == old_e[k]);
                        } else if m > oldest {
                            assert(kept@[m - 1] == old_e[k]);
                        } else {
                            assert(strings_view(removed@)[removed_before.len() as int] == old_e[k].0@);
                        }
                    } else {
                        let j = choose|j: int| 0 <= j < removed_before.len() && removed_before[j] == old_e[k].0@;
                        assert(strings_view(removed@)[j] == old_e[k].0@);
                    }
                }
                assert forall|j: int| 0 <= j < removed@.len() implies exists|k: int|
                    0 <= k < n && old_e[k].0@ == #[trigger] strings_view(removed@)[j] && !kept@.contains(
                        old_e[k],
                    ) by {
                    if j < removed_before.len() {
                        assert(strings_view(removed@)[j] == removed_before[j]);
                        let k = choose|k: int|
                            0 <= k < n && old_e[k].0@ == #[trigger] removed_before[j] && !before.contains(
                                old_e[k],
                            );
                        if kept@.contains(old_e[k]) {
                            let m = choose|m: int| 0 <= m < kept@.len() && kept@[m] == old_e[k];
                            if m < oldest {
                                assert(before[m] == old_e[k]);
                            } else {
                                assert(before[m + 1] == old_e[k]);
                            }
                        }
                        assert(old_e[k].0@ == strings_view(removed@)[j]);
                    } else {
                        let k = choose|k: int| 0 <= k < old_e.len() && old_e[k] == ev;
                        assert(old_e[k].0@ == strings_view(removed@)[j]);
                        if kept@.contains(ev) {
                            let m = choose|m: int| 0 <= m < kept@.len() && kept@[m] == ev;
                            if m < oldest {
                                assert(before[m] == ev);
                                assert(before[m].0@ == before[oldest as int].0@);
                            } else {
                                assert(before[m + 1] == ev);
                                assert(before[m + 1].0@ == before[oldest as int].0@);
                            }
                        }
                    }
                }
            }
        }
        self.entries = kept;
        removed
    }

    /// Index of the entry holding `id`.
    fn find_index(&self, id: &str) -> (r: Option<usize>)
        requires
            self.wf(),
        ensures
            match r {
                Some(k) => k < self.entries_view().len() && self.entries_view()[k as int].0@ == id@,
                None => forall|k: int|
                    0 <= k < self.entries_view().len() ==> #[trigger] self.entries_view()[k].0@
                        != id@,
            },
    {
        let mut i: usize = 0;
        while i < self.entries.len()
            invariant
                i <= self.entries@.len(),
                forall|k: int| 0 <= k < i ==> #[trigger] self.entries@[k].0@ != id@,
            decreases self.entries.len() - i,
        {
            if compare_str(self.entries[i].0.as_str(), id) == Cmp::Equal {
                return Some(i);
            }
            i = i + 1;
        }
        None
    }

    /// Resolve a gateway handle for a caller. Prunes first; touches the
    /// route on success. Every refusal reads `task not found`.
    pub fn lookup(
        &mut self,
        gateway_task_id: &str,
        caller_subject: Option<&str>,
        authorization: &TaskRouteAuthorization,
        now_ms: u64,
        closed: &Vec<String>,
    ) -> (r: Result<(String, String), String>)
        requires
            old(self).wf(),
        ensures
            final(self).wf(),
            final(self).next_handle_view() == old(self).next_handle_view(),
            r matches Err(e) ==> e@ == "task not found"@,
            r matches Ok((native, upstream)) ==> exists|k: int|
                0 <= k < old(self).entries_view().len() && #[trigger] old(self).entries_view()[k].0@ == gateway_task_id@ && route_live(
                    old(self).entries_view()[k].0@,
                    old(self).entries_view()[k].1,
                    now_ms,
                    strings_view(closed@),
                ) && route_authorized(
                    old(self).entries_view()[k].1,
                    opt_str_view(caller_subject),
                    *authorization,
                ) && native@ == old(self).entries_view()[k].1.native_task_id@ && upstream@ == old(self).entries_view()[k].1.upstream_name@,
            (exists|k: int|
                0 <= k < old(self).entries_view().len() && #[trigger] old(self).entries_view()[k].0@ == gateway_task_id@ && route_live(
                    old(self).entries_view()[k].0@,
                    old(self).entries_view()[k].1,
                    now_ms,
                    strings_view(closed@),
                ) && route_authorized(
                    old(self).entries_view()[k].1,
                    opt_str_view(caller_subject),
                    *authorization,
                )) && live_count(old(self).entries_view(), now_ms, strings_view(closed@))
                < TASK_ROUTE_MAX_ENTRIES ==> r is Ok,
            exists|p: Seq<(String, TaskRoute)>|
                {
                    &&& #[trigger] routes_pruned(old(self).entries_view(), p, now_ms, strings_view(closed@))
                    &&& match r {
                        Err(_) => final(self).entries_view() == p,
                        Ok(_) => exists|k: int|
                            0 <= k < p.len() && #[trigger] p[k].0@ == gateway_task_id@
                                && final(self).entries_view() == p.update(
                                k,
                                (p[k].0, TaskRoute { last_used_ms: now_ms, ..p[k].1 }),
                            ),
                    }
                },
    {
        let ghost old_e = self.entries_view();
        self.prune(now_ms, closed);
        let ghost pruned = self.entries_view();
        let idx = match self.find_index(gateway_task_id) {
            None => {
                proof {
                    assert(routes_pruned(old_e, pruned, now_ms, strings_view(closed@)));
                    if live_count(old_e, now_ms, strings_view(closed@)) < TASK_ROUTE_MAX_ENTRIES {
                        assert forall|k: int|
                            0 <= k < old_e.len() && #[trigger] old_e[k].0@ == gateway_task_id@
                                && route_live(old_e[k].0@, old_e[k].1, now_ms, strings_view(closed@))
                            implies false by {
                            assert(pruned.contains(old_e[k]));
                            let j = choose|j: int| 0 <= j < pruned.len() && pruned[j] == old_e[k];
                            assert(pruned[j].0@ != gateway_task_id@);
                        }
                    }
                }
                return Err(task_not_found());
            },
            Some(i) => i,
        };
        proof {
            assert(route_live(pruned[idx as int].0@, pruned[idx as int].1, now_ms, strings_view(closed@)));
            assert(old_e.contains(pruned[idx as int]));
        }
        match authorize_task_route(&self.entries[idx].1, caller_subject, authorization) {
            Err(e) => {
                proof {
                    assert(routes_pruned(old_e, pruned, now_ms, strings_view(closed@)));
                    if live_count(old_e, now_ms, strings_view(closed@)) < TASK_ROUTE_MAX_ENTRIES {
                        assert forall|k: int|
                            0 <= k < old_e.len() && #[trigger] old_e[k].0@ == gateway_task_id@
                                && route_live(old_e[k].0@, old_e[k].1, now_ms, strings_view(closed@))
                                && route_authorized(old_e[k].1, opt_str_view(caller_subject), *authorization)
                            implies false by {
                            assert(pruned.contains(old_e[k]));
                            let j = choose|j: int| 0 <= j < pruned.len() && pruned[j] == old_e[k];
                            if j != idx {
                                assert(pruned[j].0@ == pruned[idx as int].0@);
                            }
                        }
                    }
                }
                return Err(e);
            },
            Ok(()) => {},
        }
        let mut e = self.entries.remove(idx);
        let native = e.1.native_task_id.clone();
        let upstream = e.1.upstream_name.clone();
        e.1.last_used_ms = now_ms;
        let ghost touched = e;
        self.entries.insert(idx, e);
        proof {
            let k = choose|k: int| 0 <= k < old_e.len() && old_e[k] == pruned[idx as int];
            assert(old_e[k].0@ == gateway_task_id@);
            assert(self.entries@ =~= pruned.update(idx as int, touched));
            assert(touched == (pruned[idx as int].0, TaskRoute { last_used_ms: now_ms, ..pruned[idx as int].1 }));
            assert(routes_pruned(old_e, pruned, now_ms, strings_view(closed@)));
            assert(pruned[idx as int].0@ == gateway_task_id@);
            assert forall|a: int, b: int|
                0 <= a < b < self.entries@.len() implies #[trigger] self.entries@[a].0@
                    != #[trigger] self.entries@[b].0@ by {
                assert(self.entries@[a].0@ == pruned[a].0@);
                assert(self.entries@[b].0@ == pruned[b].0@);
            }
        }
        Ok((native, upstream))
    }

    /// Retain a new route and return its freshly minted handle together with
    /// the handles pruned to make room.
    pub fn register(
        &mut self,
        route: TaskRoute,
        now_ms: u64,
        closed: &Vec<String>,
    ) -> (r: (String, Vec<String>))
        requires
            old(self).wf(),
        ensures
            final(self).wf(),
            r.0@ == task_handle(old(self).next_handle_view()),
            final(self).next_handle_view() == old(self).next_handle_view().wrapping_add(1),
            exists|k: int|
                0 <= k < final(self).entries_view().len() && #[trigger] final(self).entries_view()[k].0@ == r.0@ && final(self).entries_view()[k].1 == route,
            exists|p: Seq<(String, TaskRoute)>|
                {
                    &&& #[trigger] routes_pruned(old(self).entries_view(), p, now_ms, strings_view(closed@))
                    &&& names_dropped(old(self).entries_view(), p, strings_view(r.1@))
                    &&& final(self).entries_view().len() > 0
                    &&& final(self).entries_view().last().0@ == r.0@
                    &&& final(self).entries_view().last().1 == route
                    &&& final(self).entries_view().drop_last() == match find_entry(p, r.0@) {
                        Some(i) => p.remove(i),
                        None => p,
                    }
                },
    {
        let ghost old_e = self.entries@;
        let removed = self.prune(now_ms, closed);
        let ghost pruned = self.entries@;
        proof {
            assert(routes_pruned(old_e, pruned, now_ms, strings_view(closed@)));
        }
        let id = self.mint_task_handle();
        match self.find_index(id.as_str()) {
            Some(i) => {
                proof {
                    let k = choose|k: int| 0 <= k < pruned.len() && #[trigger] pruned[k].0@ == id@;
                    if k != i {
                        if k < i {
                            assert(pruned[k].0@ != pruned[i as int].0@);
                        } else {
                            assert(pruned[i as int].0@ != pruned[k].0@);
                        }
                    }
                    assert(find_entry(pruned, id@) == Some(i as int));
                }
                self.entries.remove(i);
            },
            None => {
                proof {
                    assert(find_entry(pruned, id@).is_none());
                }
            },
        }
        let ghost before = self.entries@;
        proof {
            assert forall|k: int| 0 <= k < before.len() implies #[trigger] before[k].0@ != id@ by {
                // after removing the only entry that could carry `id`
            }
        }
        let id_copy = id.clone();
        let ghost rg = route;
        self.entries.push((id, route));
        proof {
            assert(self.entries@.drop_last() =~= before);
            assert(self.entries@[before.len() as int].0@ == id_copy@);
            assert(self.entries_view()[before.len() as int].1 == rg);
            assert(self.entries_view()[before.len() as int].0@ == id_copy@);
            assert forall|a: int, b: int|
                0 <= a < b < self.entries@.len() implies #[trigger] self.entries@[a].0@
                    != #[trigger] self.entries@[b].0@ by {
                if b == before.len() {
                    assert(before[a].0@ != id_copy@);
                } else {
                    assert(self.entries@[a] == before[a]);
                    assert(self.entries@[b] == before[b]);
                }
            }
        }
        (id_copy, removed)
    }

    /// Register the task an upstream created, provided its relay connection
    /// is still held: without one the task could never be followed, so it is
    /// refused and the table stays as it was. Otherwise as
    /// [`TaskRoutes::register`].
    pub fn register_task_response(
        &mut self,
        relay_available: bool,
        route: TaskRoute,
        now_ms: u64,
        closed: &Vec<String>,
    ) -> (r: Result<(String, Vec<String>), String>)
        requires
            old(self).wf(),
        ensures
            final(self).wf(),
            !relay_available ==> (r matches Err(m) && m@ == "upstream task registration failed"@)
                && final(self).entries_view() == old(self).entries_view()
                && final(self).next_handle_view() == old(self).next_handle_view(),
            relay_available ==> (r matches Ok(x) && {
                &&& x.0@ == task_handle(old(self).next_handle_view())
                &&& final(self).next_handle_view() == old(self).next_handle_view().wrapping_add(1)
                &&& exists|p: Seq<(String, TaskRoute)>|
                    {
                        &&& #[trigger] routes_pruned(old(self).entries_view(), p, now_ms, strings_view(closed@))
                        &&& names_dropped(old(self).entries_view(), p, strings_view(x.1@))
                        &&& final(self).entries_view().len() > 0
                        &&& final(self).entries_view().last().0@ == x.0@
                        &&& final(self).entries_view().last().1 == route
                        &&& final(self).entries_view().drop_last() == match find_entry(p, x.0@) {
                            Some(i) => p.remove(i),
                            None => p,
                        }
                    }
            }),
    {
        if !relay_available {
            return Err(String::from_str("upstream task registration failed"));
        }
        Ok(self.register(route, now_ms, closed))
    }

    /// Remove the OAuth routes `filter` selects and return them.
    pub fn invalidate_oauth_routes(&mut self, filter: &OauthRouteFilter) -> (removed: Vec<
        (String, TaskRoute),
    >)
        requires
            old(self).wf(),
        ensures
            final(self).wf(),
            final(self).next_handle_view() == old(self).next_handle_view(),
            forall|k: int|
                0 <= k < final(self).entries_view().len() ==> !filter_removes(
                    *filter,
                    #[trigger] final(self).entries_view()[k].1,
                ) && old(self).entries_view().contains(final(self).entries_view()[k]),
            forall|k: int|
                0 <= k < removed@.len() ==> filter_removes(*filter, #[trigger] removed@[k].1)
                    && old(self).entries_view().contains(removed@[k]),
            forall|k: int|
                0 <= k < old(self).entries_view().len() ==> if filter_removes(
                    *filter,
                    #[trigger] old(self).entries_view()[k].1,
                ) {
                    removed@.contains(old(self).entries_view()[k])
                } else {
                    final(self).entries_view().contains(old(self).entries_view()[k])
                },
    {
        let ghost old_e = self.entries@;
        let mut kept: Vec<(String, TaskRoute)> = Vec::new();
        let mut removed: Vec<(String, TaskRoute)> = Vec::new();
        let mut rest: Vec<(String, TaskRoute)> = Vec::new();
        std::mem::swap(&mut rest, &mut self.entries);
        let n = rest.len();
        let mut i: usize = n;
        assert(rest@ =~= old_e.subrange(0, n as int));
        while i > 0
            invariant
                i <= n == old_e.len(),
                rest@ =~= old_e.subrange(0, i as int),
                forall|k: int|
                    0 <= k < kept@.len() ==> !filter_removes(*filter, #[trigger] kept@[k].1),
                forall|k: int|
                    0 <= k < kept@.len() ==> old_e.subrange(i as int, n as int).contains(
                        #[trigger] kept@[k],
                    ),
                forall|k: int|
                    0 <= k < removed@.len() ==> filter_removes(*filter, #[trigger] removed@[k].1),
                forall|k: int|
                    0 <= k < removed@.len() ==> old_e.subrange(i as int, n as int).contains(
                        #[trigger] removed@[k],
                    ),
                forall|k: int|
                    i <= k < n ==> if filter_removes(*filter, #[trigger] old_e[k].1) {
                        removed@.contains(old_e[k])
                    } else {
                        kept@.contains(old_e[k])
                    },
                forall|a: int, b: int|
                    0 <= a < b < old_e.len() ==> #[trigger] old_e[a].0@ != #[trigger] old_e[b].0@,
                forall|a: int, b: int|
                    0 <= a < b < kept@.len() ==> #[trigger] kept@[a].0@ != #[trigger] kept@[b].0@,
            decreases i,
        {
            let e = rest.pop().unwrap();
            let ghost ii = (i - 1) as int;
            let ghost kb = kept@;
            let ghost rb = removed@;
            proof {
                assert(e == old_e[ii]);
            }
            let hit = route_matches_filter(&e.1, filter);
            let ghost eg = e;
            if hit {
                removed.push(e);
            } else {
                proof {
                    assert forall|k: int| 0 <= k < kb.len() implies #[trigger] kb[k].0@ != e.0@ by {
                        assert(!filter_removes(*filter, kb[k].1));
                        assert(old_e.subrange(i as int, n as int).contains(kb[k]));
                        let j = choose|j: int|
                            0 <= j < old_e.subrange(i as int, n as int).len()
                                && old_e.subrange(i as int, n as int)[j] == kb[k];
                        assert(old_e.subrange(i as int, n as int)[j] == old_e[j + i]);
                    }
                }
                kept.push(e);
            }
            proof {
                assert forall|k: int| 0 <= k < kept@.len() implies !filter_removes(
                    *filter,
                    #[trigger] kept@[k].1,
                ) && old_e.subrange(ii, n as int).contains(kept@[k]) by {
                    if k < kb.len() {
                        assert(kept@[k] == kb[k]);
                        assert(!filter_removes(*filter, kb[k].1));
                        assert(old_e.subrange(i as int, n as int).contains(kb[k]));
                        let j = choose|j: int|
                            0 <= j < old_e.subrange(i as int, n as int).len()
                                && old_e.subrange(i as int, n as int)[j] == kb[k];
                        assert(old_e.subrange(i as int, n as int)[j] == old_e[j + i]);
                        assert(old_e.subrange(ii, n as int)[j + 1] == old_e[j + i]);
                    } else {
                        assert(kept@[k] == eg);
                        assert(old_e.subrange(ii, n as int)[0] == old_e[ii]);
                    }
                }
                assert forall|k: int| 0 <= k < removed@.len() implies filter_removes(
                    *filter,
                    #[trigger] removed@[k].1,
                ) && old_e.subrange(ii, n as int).contains(removed@[k]) by {
                    if k < rb.len() {
                        assert(removed@[k] == rb[k]);
                        assert(filter_removes(*filter, rb[k].1));
                        assert(old_e.subrange(i as int, n as int).contains(rb[k]));
                        let j = choose|j: int|
                            0 <= j < old_e.subrange(i as int, n as int).len()
                                && old_e.subrange(i as int, n as int)[j] == rb[k];
                        assert(old_e.subrange(i as int, n as int)[j] == old_e[j + i]);
                        assert(old_e.subrange(ii, n as int)[j + 1] == old_e[j + i]);
                    } else {
                        assert(removed@[k] == eg);
                        assert(old_e.subrange(ii, n as int)[0] == old_e[ii]);
                    }
                }
                assert forall|k: int| ii <= k < n implies if filter_removes(
                    *filter,
                    #[trigger] old_e[k].1,
                ) {
                    removed@.contains(old_e[k])
                } else {
                    kept@.contains(old_e[k])
                } by {
                    if k == ii {
                        if hit {
                            assert(removed@[removed@.len() - 1] == old_e[k]);
                        } else {
                            assert(kept@[kept@.len() - 1] == old_e[k]);
                        }
                    } else if filter_removes(*filter, old_e[k].1) {
                        let j = choose|j: int| 0 <= j < rb.len() && rb[j] == old_e[k];
                        assert(removed@[j] == old_e[k]);
                    } else {
                        let j = choose|j: int| 0 <= j < kb.len() && kb[j] == old_e[k];
                        assert(kept@[j] == old_e[k]);
                    }
                }
            }
            proof {
                assert forall|k: int| 0 <= k < kept@.len() implies old_e.subrange(
                    ii,
                    n as int,
                ).contains(#[trigger] kept@[k]) by {
                    assert(!filter_removes(*filter, kept@[k].1));
                }
                assert forall|k: int| 0 <= k < removed@.len() implies old_e.subrange(
                    ii,
                    n as int,
                ).contains(#[trigger] removed@[k]) by {
                    assert(filter_removes(*filter, removed@[k].1));
                }
            }
            i = i - 1;
            assert(i as int == ii);
        }
        assert(old_e.subrange(0, n as int) =~= old_e);
        assert forall|k: int| 0 <= k < kept@.len() implies old_e.contains(#[trigger] kept@[k]) by {
            assert(!filter_removes(*filter, kept@[k].1));
            assert(old_e.subrange(0, n as int).contains(kept@[k]));
        }
        assert forall|k: int| 0 <= k < removed@.len() implies old_e.contains(#[trigger] removed@[k]) by {
            assert(filter_removes(*filter, removed@[k].1));
            assert(old_e.subrange(0, n as int).contains(removed@[k]));
        }
        self.entries = kept;
        removed
    }
}

/// Whether `filter` selects `route`.
pub fn route_matches_filter(route: &TaskRoute, filter: &OauthRouteFilter) -> (b: bool)
    ensures
        b == filter_removes(*filter, *route),
{
    match filter {
        OauthRouteFilter::Subject { upstream, subject } => {
            compare_str(route.upstream_name.as_str(), upstream.as_str()) == Cmp::Equal
                && match &route.oauth_subject {
                Some(s) => compare_str(s.as_str(), subject.as_str()) == Cmp::Equal,
                None => false,
            }
        },
        OauthRouteFilter::All => route.oauth_subject.is_some(),
        OauthRouteFilter::Upstreams(v) => route.oauth_subject.is_some() && contains_str(
            v,
            route.upstream_name.as_str(),
        ),
    }
}

/// A route registered at `now` for a caller is live and authorized for that
/// same caller and snapshot, as long as its connection has not closed.
pub proof fn law_fresh_route_is_authorized_for_its_caller(
    id: Seq<char>,
    route: TaskRoute,
    caller_subject: Option<Seq<char>>,
    authorization: TaskRouteAuthorization,
    now_ms: u64,
    closed: Seq<Seq<char>>,
)
    requires
        route.last_used_ms == now_ms,
        !closed.contains(id),
        opt_view(route.caller_subject) == caller_subject,
        route.authorization.key_view() == authorization.key_view(),
        route.authorization.allowed_view() == authorization.allowed_view(),
        match authorization.allowed_view() {
            None => true,
            Some(s) => s.contains(route.upstream_name@),
        },
    ensures
        route_live(id, route, now_ms, closed),
        route_authorized(route, caller_subject, authorization),
{
}


/// Law: a live task route keeps resolving. As long as the live routes fit
/// under the cap, pruning keeps the route; a lookup of another handle then
/// only refreshes that other route; and a registration (of a handle other
/// than this route's) only removes a route carrying the new handle and
/// appends the new one. So the route stays in the table unchanged, and a
/// later lookup by its own caller, still live, resolves it again.
pub proof fn law_live_route_survives_other_operations(
    old: Seq<(String, TaskRoute)>,
    p: Seq<(String, TaskRoute)>,
    now_ms: u64,
    closed: Seq<Seq<char>>,
    k: int,
    touched: int,
    new_entry: (String, TaskRoute),
)
    requires
        routes_pruned(old, p, now_ms, closed),
        live_count(old, now_ms, closed) < TASK_ROUTE_MAX_ENTRIES,
        0 <= k < old.len(),
        route_live(old[k].0@, old[k].1, now_ms, closed),
        0 <= touched < p.len(),
        p[touched].0@ != old[k].0@,
        new_entry.0@ != old[k].0@,
    ensures
        p.contains(old[k]),
        p.update(touched, (p[touched].0, TaskRoute { last_used_ms: now_ms, ..p[touched].1 })).contains(
            old[k],
        ),
        (match find_entry(p, new_entry.0@) {
            Some(i) => p.remove(i),
            None => p,
        }).push(new_entry).contains(old[k]),
{
    assert(p.contains(old[k]));
    let m = choose|m: int| 0 <= m < p.len() && p[m] == old[k];
    let u = p.update(touched, (p[touched].0, TaskRoute { last_used_ms: now_ms, ..p[touched].1 }));
    assert(m != touched);
    assert(u[m] == old[k]);
    match find_entry(p, new_entry.0@) {
        Some(i) => {
            assert(p[i].0@ == new_entry.0@);
            assert(i != m);
            let r = p.remove(i);
            if m < i {
                assert(r[m] == old[k]);
                assert(r.push(new_entry)[m] == old[k]);
            } else {
                assert(r[m - 1] == old[k]);
                assert(r.push(new_entry)[m - 1] == old[k]);
            }
        },
        None => {
            assert(p.push(new_entry)[m] == old[k]);
        },
    }
}

} // verus!
