//! Cache-only, identity-scoped operator projections: what one subject's
//! cached connection to an OAuth upstream shows, without dialling it.

use vstd::prelude::*;
use crate::exposure::{opt_patterns_view, resolve_exposure_policy, resolved_policy};
use crate::tool_catalog::{
    clone_opt_strings, config_resource_policy, config_tool_policy, lemma_matches_pview,
    pview_matches, resolve_request_exposure_policy, resolve_request_resource_exposure_policy,
    ToolDescriptor, UpstreamCachedSummary, UpstreamConfig,
};
use crate::resources::ResourceRow;
use crate::skills_cache::elapsed_ms;

verus! {

/// What a subject's cached connection to one upstream holds.
#[derive(Debug)]
pub struct SubjectConnectionSnapshot {
    pub transport_closed: bool,
    pub last_used_ms: u64,
    pub tools: Vec<ToolDescriptor>,
    /// The resources listed over this connection (native URI and published
    /// size), if listed; what a later listing can serve from cache.
    pub resources: Option<Vec<ResourceRow>>,
    /// When `resources` was listed.
    pub resources_listed_at_ms: Option<u64>,
    /// Names of the prompts listed over this connection, if listed.
    pub prompts: Option<Vec<String>>,
}

/// A subject's last failed connect attempt.
#[derive(Debug)]
pub struct SubjectConnectError {
    pub message: String,
    pub recorded_at_ms: u64,
}

/// One subject's view of an OAuth upstream.
#[derive(Debug)]
pub struct SubjectSummary {
    pub summary: UpstreamCachedSummary,
    pub connected: bool,
    pub tools_known: bool,
    pub resources_known: bool,
    pub prompts_known: bool,
    /// Why the last connect failed, while no live connection replaced it.
    pub last_error: Option<String>,
}

pub open spec fn empty_summary() -> UpstreamCachedSummary {
    UpstreamCachedSummary {
        discovered_tool_count: 0,
        exposed_tool_count: 0,
        discovered_resource_count: 0,
        exposed_resource_count: 0,
        discovered_prompt_count: 0,
        exposed_prompt_count: 0,
        discovered_skill_count: 0,
        exposed_skill_count: 0,
        supports_skills: None,
    }
}

pub open spec fn config_prompt_policy(c: UpstreamConfig) -> Option<Seq<Seq<char>>> {
    resolved_policy(opt_patterns_view(c.expose_prompts))
}

/// How many of `names` the policy admits.
pub open spec fn count_admitted(names: Seq<Seq<char>>, pv: Option<Seq<Seq<char>>>) -> nat
    decreases names.len(),
{
    if names.len() == 0 {
        0
    } else {
        count_admitted(names.drop_last(), pv) + if pview_matches(pv, names.last()) {
            1nat
        } else {
            0nat
        }
    }
}

pub open spec fn tool_names_view(ts: Seq<ToolDescriptor>) -> Seq<Seq<char>> {
    ts.map_values(|t: ToolDescriptor| t.name@)
}

pub open spec fn strings_of(v: Seq<String>) -> Seq<Seq<char>> {
    v.map_values(|s: String| s@)
}

fn count_admitted_exec(names: &Vec<String>, policy: &crate::exposure::ExposurePolicy) -> (n: usize)
    ensures
        n == count_admitted(strings_of(names@), policy.pview()),
{
    let mut n: usize = 0;
    let mut i: usize = 0;
    while i < names.len()
        invariant
            i <= names@.len(),
            n <= i,
            n == count_admitted(strings_of(names@.subrange(0, i as int)), policy.pview()),
        decreases names.len() - i,
    {
        proof {
            assert(strings_of(names@.subrange(0, i + 1)).drop_last() =~= strings_of(
                names@.subrange(0, i as int),
            ));
            lemma_matches_pview(*policy, names@[i as int]@);
        }
        if policy.matches(names[i].as_str()) {
            n = n + 1;
        }
        i = i + 1;
    }
    proof {
        assert(names@.subrange(0, names@.len() as int) =~= names@);
    }
    n
}

fn count_tools_admitted(tools: &Vec<ToolDescriptor>, policy: &crate::exposure::ExposurePolicy) -> (n:
    usize)
    ensures
        n == count_admitted(tool_names_view(tools@), policy.pview()),
{
    let mut n: usize = 0;
    let mut i: usize = 0;
    while i < tools.len()
        invariant
            i <= tools@.len(),
            n <= i,
            n == count_admitted(tool_names_view(tools@.subrange(0, i as int)), policy.pview()),
        decreases tools.len() - i,
    {
        proof {
            assert(tool_names_view(tools@.subrange(0, i + 1)).drop_last() =~= tool_names_view(
                tools@.subrange(0, i as int),
            ));
            lemma_matches_pview(*policy, tools@[i as int].name@);
        }
        if policy.matches(tools[i].name.as_str()) {
            n = n + 1;
        }
        i = i + 1;
    }
    proof {
        assert(tools@.subrange(0, tools@.len() as int) =~= tools@);
    }
    n
}

/// A connection is live when its config is enabled, its transport open and
/// it has not sat idle.
pub open spec fn subject_connected(
    c: UpstreamConfig,
    s: SubjectConnectionSnapshot,
    now_ms: u64,
    idle_ttl_ms: u64,
) -> bool {
    c.enabled && !s.transport_closed && elapsed_ms(now_ms, s.last_used_ms) < idle_ttl_ms
}

pub open spec fn row_uris(v: Seq<ResourceRow>) -> Seq<Seq<char>> {
    v.map_values(|r: ResourceRow| r.uri@)
}

pub open spec fn opt_rows_len(o: Option<Vec<ResourceRow>>) -> nat {
    match o {
        Some(v) => v@.len(),
        None => 0,
    }
}

pub open spec fn opt_rows_admitted(o: Option<Vec<ResourceRow>>, pv: Option<Seq<Seq<char>>>) -> nat {
    match o {
        Some(v) => count_admitted(row_uris(v@), pv),
        None => 0,
    }
}

fn count_rows_admitted(rows: &Vec<ResourceRow>, policy: &crate::exposure::ExposurePolicy) -> (n: usize)
    ensures
        n == count_admitted(row_uris(rows@), policy.pview()),
{
    let mut n: usize = 0;
    let mut i: usize = 0;
    while i < rows.len()
        invariant
            i <= rows@.len(),
            n <= i,
            n == count_admitted(row_uris(rows@.subrange(0, i as int)), policy.pview()),
        decreases rows.len() - i,
    {
        proof {
            assert(row_uris(rows@.subrange(0, i + 1)).drop_last() =~= row_uris(rows@.subrange(0, i as int)));
            lemma_matches_pview(*policy, rows@[i as int].uri@);
        }
        if policy.matches(rows[i].uri.as_str()) {
            n = n + 1;
        }
        i = i + 1;
    }
    proof {
        assert(rows@.subrange(0, rows@.len() as int) =~= rows@);
    }
    n
}

pub open spec fn opt_len(o: Option<Vec<String>>) -> nat {
    match o {
        Some(v) => v@.len(),
        None => 0,
    }
}

pub open spec fn opt_admitted(o: Option<Vec<String>>, pv: Option<Seq<Seq<char>>>) -> nat {
    match o {
        Some(v) => count_admitted(strings_of(v@), pv),
        None => 0,
    }
}

/// The summary one subject sees of one OAuth upstream's cached connection.
/// Without a subject nothing is known; without a cached connection only a
/// recent connect error is reported.
pub fn cached_subject_summary(
    config: &UpstreamConfig,
    subject_present: bool,
    last_error: Option<&SubjectConnectError>,
    connection: Option<&SubjectConnectionSnapshot>,
    now_ms: u64,
    idle_ttl_ms: u64,
) -> (s: SubjectSummary)
    ensures
        !subject_present ==> s.summary == empty_summary() && !s.connected && !s.tools_known
            && !s.resources_known && !s.prompts_known && s.last_error.is_none(),
        subject_present && connection.is_none() ==> {
            &&& s.summary == empty_summary()
            &&& !s.connected && !s.tools_known && !s.resources_known && !s.prompts_known
            &&& match last_error {
                Some(e) => if elapsed_ms(now_ms, e.recorded_at_ms) < idle_ttl_ms {
                    s.last_error.is_some() && s.last_error.unwrap()@ == e.message@
                } else {
                    s.last_error.is_none()
                },
                None => s.last_error.is_none(),
            }
        },
        subject_present && connection.is_some() ==> {
            let c = connection.unwrap();
            let live = subject_connected(*config, *c, now_ms, idle_ttl_ms);
            &&& s.connected == live
            &&& s.last_error.is_none()
            &&& s.tools_known
            &&& s.resources_known == (!config.proxy_resources || c.resources.is_some())
            &&& s.prompts_known == (!config.proxy_prompts || c.prompts.is_some())
            &&& s.summary.discovered_tool_count == c.tools@.len()
            &&& s.summary.exposed_tool_count == if live {
                count_admitted(tool_names_view(c.tools@), config_tool_policy(*config))
            } else {
                0
            }
            &&& s.summary.discovered_resource_count == opt_rows_len(c.resources)
            &&& s.summary.exposed_resource_count == if live && config.proxy_resources {
                opt_rows_admitted(c.resources, config_resource_policy(*config))
            } else {
                0
            }
            &&& s.summary.discovered_prompt_count == opt_len(c.prompts)
            &&& s.summary.exposed_prompt_count == if live && config.proxy_prompts {
                opt_admitted(c.prompts, config_prompt_policy(*config))
            } else {
                0
            }
            &&& s.summary.discovered_skill_count == 0
            &&& s.summary.exposed_skill_count == 0
            &&& s.summary.supports_skills.is_none()
        },
{
    let empty = UpstreamCachedSummary {
        discovered_tool_count: 0,
        exposed_tool_count: 0,
        discovered_resource_count: 0,
        exposed_resource_count: 0,
        discovered_prompt_count: 0,
        exposed_prompt_count: 0,
        discovered_skill_count: 0,
        exposed_skill_count: 0,
        supports_skills: None,
    };
    if !subject_present {
        return SubjectSummary {
            summary: empty,
            connected: false,
            tools_known: false,
            resources_known: false,
            prompts_known: false,
            last_error: None,
        };
    }
    let c = match connection {
        None => {
            let recent = match last_error {
                Some(e) => if now_ms.saturating_sub(e.recorded_at_ms) < idle_ttl_ms {
                    Some(e.message.clone())
                } else {
                    None
                },
                None => None,
            };
            return SubjectSummary {
                summary: empty,
                connected: false,
                tools_known: false,
                resources_known: false,
                prompts_known: false,
                last_error: recent,
            };
        },
        Some(c) => c,
    };
    let connected = config.enabled && !c.transport_closed && now_ms.saturating_sub(c.last_used_ms)
        < idle_ttl_ms;
    let tool_policy = resolve_request_exposure_policy(config);
    let resource_policy = resolve_request_resource_exposure_policy(config);
    let prompt_policy = resolve_exposure_policy(clone_opt_strings(&config.expose_prompts));
    let exposed_tools = if connected {
        count_tools_admitted(&c.tools, &tool_policy)
    } else {
        0
    };
    let (discovered_resources, exposed_resources) = match &c.resources {
        Some(items) => (
            items.len(),
            if connected && config.proxy_resources {
                count_rows_admitted(items, &resource_policy)
            } else {
                0
            },
        ),
        None => (0, 0),
    };
    let (discovered_prompts, exposed_prompts) = match &c.prompts {
        Some(items) => (
            items.len(),
            if connected && config.proxy_prompts {
                count_admitted_exec(items, &prompt_policy)
            } else {
                0
            },
        ),
        None => (0, 0),
    };
    SubjectSummary {
        summary: UpstreamCachedSummary {
            discovered_tool_count: c.tools.len(),
            exposed_tool_count: exposed_tools,
            discovered_resource_count: discovered_resources,
            exposed_resource_count: exposed_resources,
            discovered_prompt_count: discovered_prompts,
            exposed_prompt_count: exposed_prompts,
            discovered_skill_count: 0,
            exposed_skill_count: 0,
            supports_skills: None,
        },
        connected,
        tools_known: true,
        resources_known: !config.proxy_resources || c.resources.is_some(),
        prompts_known: !config.proxy_prompts || c.prompts.is_some(),
        last_error: None,
    }
}

/// Drop every subject's cached resource listing of `upstream`, with its
/// listing time; the connections stay. Returns how many listings were
/// dropped.
pub fn invalidate_subject_resource_catalogs(
    connections: &mut Vec<(String, SubjectConnectionSnapshot)>,
    upstream: &str,
) -> (cleared: usize)
    ensures
        final(connections)@.len() == old(connections)@.len(),
        forall|i: int|
            0 <= i < old(connections)@.len() ==> {
                let before = #[trigger] old(connections)@[i];
                let after = final(connections)@[i];
                &&& after.0 == before.0
                &&& after.1.transport_closed == before.1.transport_closed
                &&& after.1.last_used_ms == before.1.last_used_ms
                &&& after.1.tools == before.1.tools
                &&& after.1.prompts == before.1.prompts
                &&& if before.0@ == upstream@ && before.1.resources.is_some() {
                    after.1.resources.is_none() && after.1.resources_listed_at_ms.is_none()
                } else {
                    after.1.resources == before.1.resources && after.1.resources_listed_at_ms
                        == before.1.resources_listed_at_ms
                }
            },
        cleared == cleared_count(old(connections)@, upstream@),
{
    let ghost orig = connections@;
    let mut cleared: usize = 0;
    let mut i: usize = 0;
    let n = connections.len();
    while i < n
        invariant
            i <= n == connections@.len() == orig.len(),
            cleared <= i,
            cleared == cleared_count(orig.subrange(0, i as int), upstream@),
            forall|k: int| i <= k < n ==> #[trigger] connections@[k] == orig[k],
            forall|k: int|
                0 <= k < i ==> {
                    let before = #[trigger] orig[k];
                    let after = connections@[k];
                    &&& after.0 == before.0
                    &&& after.1.transport_closed == before.1.transport_closed
                    &&& after.1.last_used_ms == before.1.last_used_ms
                    &&& after.1.tools == before.1.tools
                    &&& after.1.prompts == before.1.prompts
                    &&& if before.0@ == upstream@ && before.1.resources.is_some() {
                        after.1.resources.is_none() && after.1.resources_listed_at_ms.is_none()
                    } else {
                        after.1.resources == before.1.resources && after.1.resources_listed_at_ms
                            == before.1.resources_listed_at_ms
                    }
                },
        decreases n - i,
    {
        proof {
            assert(orig.subrange(0, i + 1).drop_last() =~= orig.subrange(0, i as int));
        }
        let matches = crate::order::compare_str(connections[i].0.as_str(), upstream)
            == crate::order::Cmp::Equal;
        if matches && connections[i].1.resources.is_some() {
            let (name, mut snap) = connections.remove(i);
            snap.resources = None;
            snap.resources_listed_at_ms = None;
            connections.insert(i, (name, snap));
            cleared = cleared + 1;
        }
        i = i + 1;
    }
    proof {
        assert(orig.subrange(0, n as int) =~= orig);
    }
    cleared
}

/// Record the optional catalogs a subject connection listed. A reply read
/// from a replaced session (`same_session` false: the connection no longer
/// holds the handshake the reply came through) or from a closed transport is
/// dropped without touching its successor. Otherwise each listing that came
/// back replaces the cached one; a resource listing also stamps its time.
pub fn record_subject_optional_catalog(
    snap: &mut SubjectConnectionSnapshot,
    same_session: bool,
    resources: Option<Vec<ResourceRow>>,
    prompts: Option<Vec<String>>,
    now_ms: u64,
)
    ensures
        final(snap).transport_closed == old(snap).transport_closed,
        final(snap).last_used_ms == old(snap).last_used_ms,
        final(snap).tools == old(snap).tools,
        if old(snap).transport_closed || !same_session {
            *final(snap) == *old(snap)
        } else {
            &&& final(snap).resources == (if resources.is_some() {
                resources
            } else {
                old(snap).resources
            })
            &&& final(snap).resources_listed_at_ms == (if resources.is_some() {
                Some(now_ms)
            } else {
                old(snap).resources_listed_at_ms
            })
            &&& final(snap).prompts == (if prompts.is_some() {
                prompts
            } else {
                old(snap).prompts
            })
        },
{
    if snap.transport_closed || !same_session {
        return;
    }
    if resources.is_some() {
        snap.resources = resources;
        snap.resources_listed_at_ms = Some(now_ms);
    }
    if prompts.is_some() {
        snap.prompts = prompts;
    }
}

/// Law: a subject's fresh resource listing is reused, and only while fresh.
/// Once [`record_subject_optional_catalog`] has stored a listing at
/// `listed_ms` on an open connection, a request at `now_ms` that comes
/// within both the idle TTL (from the connection's last use) and the
/// snapshot age serves that listing without listing again; once the listing
/// is `max_age_ms` old, or after [`invalidate_subject_resource_catalogs`]
/// cleared it, the next request lists again.
pub proof fn law_fresh_subject_listing_is_reused(
    before: SubjectConnectionSnapshot,
    after: SubjectConnectionSnapshot,
    resources: Vec<ResourceRow>,
    listed_ms: u64,
    now_ms: u64,
    idle_ttl_ms: u64,
    max_age_ms: u64,
)
    requires
        !before.transport_closed,
        after == (SubjectConnectionSnapshot {
            resources: Some(resources),
            resources_listed_at_ms: Some(listed_ms),
            ..before
        }),
        listed_ms <= now_ms,
    ensures
        (elapsed_ms(now_ms, after.last_used_ms) < idle_ttl_ms && now_ms - listed_ms < max_age_ms)
            ==> crate::resources::resource_cache_usable(
            after.transport_closed,
            now_ms,
            after.last_used_ms,
            idle_ttl_ms,
            after.resources_listed_at_ms,
            max_age_ms,
        ),
        now_ms - listed_ms >= max_age_ms ==> !crate::resources::resource_cache_usable(
            after.transport_closed,
            now_ms,
            after.last_used_ms,
            idle_ttl_ms,
            after.resources_listed_at_ms,
            max_age_ms,
        ),
        forall|cleared: SubjectConnectionSnapshot|
            cleared.resources_listed_at_ms.is_none() ==> !crate::resources::resource_cache_usable(
                #[trigger] cleared.transport_closed,
                now_ms,
                cleared.last_used_ms,
                idle_ttl_ms,
                cleared.resources_listed_at_ms,
                max_age_ms,
            ),
{
}

/// How many of `conns` hold a resource listing of `upstream`.
pub open spec fn cleared_count(conns: Seq<(String, SubjectConnectionSnapshot)>, upstream: Seq<char>) -> nat
    decreases conns.len(),
{
    if conns.len() == 0 {
        0
    } else {
        cleared_count(conns.drop_last(), upstream) + if conns.last().0@ == upstream
            && conns.last().1.resources.is_some() {
            1nat
        } else {
            0nat
        }
    }
}

} // verus!
