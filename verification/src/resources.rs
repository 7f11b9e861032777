//! Resource routing: gateway resource URIs, read targets and their exposure
//! gate, MCP App `ui://` ownership, and the bounded resource listings.
//!
//! Sizes are the JSON encodings of resources as the gateway publishes them,
//! measured where the resources are decoded.

use vstd::prelude::*;
use crate::bounded::{bounded_listing, insert_bounded, insert_stable, pair_less, stable_sorted, SortKeyed};
use crate::exposure::ExposurePolicy;
use crate::order::strings_view;
use crate::text::{
    chars_of, concat3, find_char_from, has_prefix, index_of_char, lemma_index_of_char, prefix_to,
    starts_with, suffix_from, ui_authority, ui_uri_authority, opt_chars,
};
use crate::tool_catalog::{
    allowed_view, entry_index, find_entry, lemma_matches_pview, mcp_tool_owns_mcp_app_resource,
    owns_resource, pview_matches, config_resource_policy, resolve_request_resource_exposure_policy,
    spec_upstream_allowed, upstream_allowed, UpstreamConfig, UpstreamEntry, MAX_UPSTREAM_RESOURCES,
};

verus! {

broadcast use vstd::string::group_string_axioms;

/// Wall-clock cap for one upstream's catalog listing, in milliseconds.
pub const CATALOG_LISTING_TIMEOUT_MS: u64 = 10_000;

/// The budget of one catalog listing: the request budget, but never more than
/// [`CATALOG_LISTING_TIMEOUT_MS`].
pub fn catalog_listing_timeout(request_timeout_ms: u64) -> (ms: u64)
    ensures
        ms == if request_timeout_ms < CATALOG_LISTING_TIMEOUT_MS {
            request_timeout_ms
        } else {
            CATALOG_LISTING_TIMEOUT_MS
        },
{
    if request_timeout_ms < CATALOG_LISTING_TIMEOUT_MS {
        request_timeout_ms
    } else {
        CATALOG_LISTING_TIMEOUT_MS
    }
}

pub open spec fn gateway_prefix() -> Seq<char> {
    "lab://upstream/"@
}

/// The gateway form of an upstream's native resource URI.
pub open spec fn gateway_uri(upstream: Seq<char>, native: Seq<char>) -> Seq<char> {
    gateway_prefix() + upstream + "/"@ + native
}

/// `lab://upstream/{upstream}/{native}`.
pub fn rewrite_resource_uri(native: &str, upstream: &str) -> (uri: String)
    ensures
        uri@ == gateway_uri(upstream@, native@),
{
    let head = concat3("lab://upstream/", upstream, "/");
    let uri = concat3(head.as_str(), native, "");
    proof {
        reveal_strlit("");
        assert(uri@ =~= gateway_uri(upstream@, native@));
    }
    uri
}

/// Namespace a resource template under its upstream: the name always, the URI
/// template unless it is a native MCP App `ui://` template.
pub fn rewrite_resource_template(name: &str, uri_template: &str, upstream: &str) -> (r: (String, String))
    ensures
        r.0@ == upstream@ + "/"@ + name@,
        r.1@ == if has_prefix(uri_template@, "ui://"@) {
            uri_template@
        } else {
            gateway_uri(upstream@, uri_template@)
        },
{
    proof {
        reveal_strlit("ui://");
    }
    let new_name = concat3(upstream, "/", name);
    let new_uri = if starts_with(uri_template, "ui://") {
        concat3(uri_template, "", "")
    } else {
        rewrite_resource_uri(uri_template, upstream)
    };
    proof {
        reveal_strlit("");
        assert(uri_template@ + ""@ + ""@ =~= uri_template@);
    }
    (new_name, new_uri)
}

/// `(upstream, native URI)` of a `lab://upstream/{upstream}/{native}` URI.
pub open spec fn parse_gateway_uri(uri: Seq<char>) -> Option<(Seq<char>, Seq<char>)> {
    if has_prefix(uri, gateway_prefix()) {
        let rest = uri.subrange(15, uri.len() as int);
        let k = index_of_char(rest, '/') as int;
        if k < rest.len() {
            Some((rest.subrange(0, k), rest.subrange(k + 1, rest.len() as int)))
        } else {
            None
        }
    } else {
        None
    }
}

/// The upstream segment of a gateway URI (all of the rest when it has no `/`).
pub open spec fn gateway_uri_upstream(uri: Seq<char>) -> Option<Seq<char>> {
    if has_prefix(uri, gateway_prefix()) {
        let rest = uri.subrange(15, uri.len() as int);
        Some(rest.subrange(0, index_of_char(rest, '/') as int))
    } else {
        None
    }
}

pub fn parse_gateway_resource_uri(uri: &str) -> (r: Option<(String, String)>)
    ensures
        match r {
            Some((u, n)) => parse_gateway_uri(uri@) == Some((u@, n@)),
            None => parse_gateway_uri(uri@).is_none(),
        },
{
    proof {
        reveal_strlit("lab://upstream/");
    }
    if !starts_with(uri, "lab://upstream/") {
        return None;
    }
    let v = chars_of(uri);
    let k = find_char_from(&v, '/', 15);
    proof {
        assert(v@.subrange(15, v@.len() as int) == uri@.subrange(15, uri@.len() as int));
    }
    if k >= v.len() {
        return None;
    }
    let upstream = prefix_to(uri, k);
    let upstream = suffix_from(upstream.as_str(), 15);
    let native = suffix_from(uri, k + 1);
    proof {
        let rest = uri@.subrange(15, uri@.len() as int);
        assert(upstream@ =~= rest.subrange(0, k - 15));
        assert(native@ =~= rest.subrange(k - 15 + 1, rest.len() as int));
    }
    Some((upstream, native))
}

pub fn gateway_resource_uri_upstream(uri: &str) -> (r: Option<String>)
    ensures
        opt_chars(r) == gateway_uri_upstream(uri@),
{
    proof {
        reveal_strlit("lab://upstream/");
    }
    if !starts_with(uri, "lab://upstream/") {
        return None;
    }
    let v = chars_of(uri);
    let k = find_char_from(&v, '/', 15);
    let upstream = prefix_to(uri, k);
    let upstream = suffix_from(upstream.as_str(), 15);
    proof {
        let rest = uri@.subrange(15, uri@.len() as int);
        assert(v@.subrange(15, v@.len() as int) == rest);
        assert(upstream@ =~= rest.subrange(0, k - 15));
    }
    Some(upstream)
}

/// Whether a route scope lets a gateway resource URI through: unscoped, or the
/// URI names an upstream inside the scope.
pub fn resource_read_in_scope(uri: &str, allowed: Option<&Vec<String>>) -> (b: bool)
    ensures
        b == match allowed_view(allowed) {
            None => true,
            Some(names) => match gateway_uri_upstream(uri@) {
                Some(u) => names.contains(u),
                None => false,
            },
        },
{
    match allowed {
        None => true,
        Some(names) => match gateway_resource_uri_upstream(uri) {
            Some(u) => upstream_allowed(Some(names), u.as_str()),
            None => false,
        },
    }
}

/// The upstream and native URI a catalog-backed gateway read goes to: the URI
/// must parse, name an upstream configured for resources whose resources are
/// routable, and its allowlist must expose the native URI (an upstream without
/// a catalog entry exposes nothing).
pub open spec fn spec_gateway_read_target(
    entries: Seq<UpstreamEntry>,
    resource_upstreams: Seq<String>,
    uri: Seq<char>,
) -> Option<(Seq<char>, Seq<char>)> {
    match parse_gateway_uri(uri) {
        None => None,
        Some((upstream, native)) => match entry_index(entries, upstream) {
            Some(k) => if strings_view(resource_upstreams).contains(upstream)
                && entries[k].resources_routable && entries[k].resource_exposure_policy.spec_matches(
                native,
            ) {
                Some((upstream, native))
            } else {
                None
            },
            None => None,
        },
    }
}

pub fn gateway_read_target(
    catalog: &Vec<UpstreamEntry>,
    resource_upstreams: &Vec<String>,
    uri: &str,
) -> (r: Option<(String, String)>)
    ensures
        match r {
            Some((u, n)) => spec_gateway_read_target(catalog@, resource_upstreams@, uri@) == Some(
                (u@, n@),
            ),
            None => spec_gateway_read_target(catalog@, resource_upstreams@, uri@).is_none(),
        },
{
    let (upstream, native) = match parse_gateway_resource_uri(uri) {
        Some(p) => p,
        None => return None,
    };
    let configured = upstream_allowed(Some(resource_upstreams), upstream.as_str());
    let k = match find_entry(catalog, upstream.as_str()) {
        Some(k) => k,
        None => return None,
    };
    let e = &catalog[k];
    if configured && e.resources_routable && e.resource_exposure_policy.matches(native.as_str()) {
        Some((upstream, native))
    } else {
        None
    }
}

/// Why an OAuth (subject-scoped) resource read is refused before any I/O.
#[derive(Debug, Clone, PartialEq, Eq)]
pub enum SubjectReadError {
    /// The URI is neither this upstream's gateway form nor a `ui://` URI.
    UriMismatch,
    /// The upstream's allowlist does not expose the resource.
    NotExposed(String),
}

impl SubjectReadError {
    pub open spec fn spec_message(&self) -> Seq<char> {
        match self {
            SubjectReadError::UriMismatch => "resource uri does not match upstream"@,
            SubjectReadError::NotExposed(name) => "resource is not exposed by upstream `"@ + name@
                + "`"@,
        }
    }

    pub fn message(&self) -> (m: String)
        ensures
            m@ == self.spec_message(),
    {
        match self {
            SubjectReadError::UriMismatch => {
                proof {
                    reveal_strlit("resource uri does not match upstream");
                    reveal_strlit("");
                }
                let m = concat3("resource uri does not match upstream", "", "");
                assert(m@ =~= "resource uri does not match upstream"@);
                m
            },
            SubjectReadError::NotExposed(name) => concat3(
                "resource is not exposed by upstream `",
                name.as_str(),
                "`",
            ),
        }
    }
}

/// The native URI an OAuth read sends: the config's gateway prefix stripped,
/// or a `ui://` URI as is; then the configured allowlist must expose it.
pub open spec fn spec_subject_read_target(c: UpstreamConfig, uri: Seq<char>) -> Result<
    Seq<char>,
    SubjectReadError,
> {
    let prefix = gateway_prefix() + c.name@ + "/"@;
    let native = if has_prefix(uri, prefix) {
        Some(uri.subrange(prefix.len() as int, uri.len() as int))
    } else if has_prefix(uri, "ui://"@) {
        Some(uri)
    } else {
        None
    };
    match native {
        None => Err(SubjectReadError::UriMismatch),
        Some(n) => if pview_matches(config_resource_policy(c), n) {
            Ok(n)
        } else {
            Err(SubjectReadError::NotExposed(c.name))
        },
    }
}

pub fn subject_read_target(config: &UpstreamConfig, uri: &str) -> (r: Result<String, SubjectReadError>)
    ensures
        match r {
            Ok(n) => spec_subject_read_target(*config, uri@) == Ok::<Seq<char>, SubjectReadError>(n@),
            Err(e) => spec_subject_read_target(*config, uri@) == Err::<Seq<char>, SubjectReadError>(e),
        },
{
    proof {
        reveal_strlit("ui://");
    }
    let prefix = concat3("lab://upstream/", config.name.as_str(), "/");
    proof {
        reveal_strlit("lab://upstream/");
        reveal_strlit("/");
    }
    let native = if starts_with(uri, prefix.as_str()) {
        suffix_from(uri, prefix.as_str().unicode_len())
    } else if starts_with(uri, "ui://") {
        let n = concat3(uri, "", "");
        proof {
            reveal_strlit("");
            assert(n@ =~= uri@);
        }
        n
    } else {
        return Err(SubjectReadError::UriMismatch);
    };
    let policy = resolve_request_resource_exposure_policy(config);
    proof {
        lemma_matches_pview(policy, native@);
    }
    if policy.matches(native.as_str()) {
        Ok(native)
    } else {
        Err(SubjectReadError::NotExposed(config.name.clone()))
    }
}

/// How a native `ui://` resource's owner was found.
#[derive(Debug, Clone, Copy, PartialEq, Eq, Structural)]
pub enum UiOwnerResolution {
    /// The upstream listed the URI, or an exposed tool of it binds it.
    CachedResourceUri,
    /// The URI's authority names a known upstream.
    UriAuthority,
}

/// An upstream that may serve the native `ui://` resource `uri`: admitted by
/// the scope, resources routable, and listing the URI or exposing a tool that
/// binds it.
pub open spec fn ui_cached_owner(e: UpstreamEntry, uri: Seq<char>, allowed: Option<Seq<Seq<char>>>) -> bool {
    &&& spec_upstream_allowed(allowed, e.name@)
    &&& e.resources_routable
    &&& (strings_view(e.resource_uris@).contains(uri) || exists|k: int|
        0 <= k < e.tools@.len() && e.exposure_policy.spec_matches(e.tools@[k].tool.name@)
            && #[trigger] owns_resource(e.tools@[k].tool, uri))
}

/// Index of the first catalog entry that owns `uri`.
pub open spec fn first_ui_owner(entries: Seq<UpstreamEntry>, uri: Seq<char>, allowed: Option<Seq<Seq<char>>>) -> Option<
    int,
>
    decreases entries.len(),
{
    if entries.len() == 0 {
        None
    } else if ui_cached_owner(entries[0], uri, allowed) {
        Some(0)
    } else {
        match first_ui_owner(entries.drop_first(), uri, allowed) {
            Some(k) => Some(k + 1),
            None => None,
        }
    }
}

/// The owner of a native `ui://` resource: the first catalog owner, else the
/// upstream its authority names when the scope admits it and the catalog
/// knows it.
pub open spec fn spec_ui_resource_owner(
    entries: Seq<UpstreamEntry>,
    uri: Seq<char>,
    allowed: Option<Seq<Seq<char>>>,
) -> Option<(Seq<char>, UiOwnerResolution)> {
    match first_ui_owner(entries, uri, allowed) {
        Some(k) => Some((entries[k].name@, UiOwnerResolution::CachedResourceUri)),
        None => match ui_authority(uri) {
            Some(a) => if spec_upstream_allowed(allowed, a) && entry_index(entries, a).is_some() {
                Some((a, UiOwnerResolution::UriAuthority))
            } else {
                None
            },
            None => None,
        },
    }
}

fn ui_owner_here(e: &UpstreamEntry, uri: &str, allowed: Option<&Vec<String>>) -> (b: bool)
    ensures
        b == ui_cached_owner(*e, uri@, allowed_view(allowed)),
{
    if !upstream_allowed(allowed, e.name.as_str()) || !e.resources_routable {
        return false;
    }
    if upstream_allowed(Some(&e.resource_uris), uri) {
        return true;
    }
    let mut i: usize = 0;
    while i < e.tools.len()
        invariant
            i <= e.tools@.len(),
            spec_upstream_allowed(allowed_view(allowed), e.name@),
            e.resources_routable,
            !strings_view(e.resource_uris@).contains(uri@),
            forall|k: int|
                0 <= k < i ==> !(e.exposure_policy.spec_matches(e.tools@[k].tool.name@)
                    && #[trigger] owns_resource(e.tools@[k].tool, uri@)),
        decreases e.tools.len() - i,
    {
        if e.exposure_policy.matches(e.tools[i].tool.name.as_str()) && mcp_tool_owns_mcp_app_resource(
            &e.tools[i].tool,
            uri,
        ) {
            assert(owns_resource(e.tools@[i as int].tool, uri@));
            return true;
        }
        i = i + 1;
    }
    false
}

pub fn ui_resource_owner(catalog: &Vec<UpstreamEntry>, uri: &str, allowed: Option<&Vec<String>>) -> (r:
    Option<(String, UiOwnerResolution)>)
    ensures
        match r {
            Some((n, how)) => spec_ui_resource_owner(catalog@, uri@, allowed_view(allowed)) == Some(
                (n@, how),
            ),
            None => spec_ui_resource_owner(catalog@, uri@, allowed_view(allowed)).is_none(),
        },
{
    let n = catalog.len();
    let mut i: usize = 0;
    proof {
        assert(catalog@.subrange(0, n as int) =~= catalog@);
    }
    while i < n
        invariant
            i <= n == catalog@.len(),
            first_ui_owner(catalog@, uri@, allowed_view(allowed)) == match first_ui_owner(
                catalog@.subrange(i as int, n as int),
                uri@,
                allowed_view(allowed),
            ) {
                Some(k) => Some(k + i),
                None => None,
            },
        decreases n - i,
    {
        proof {
            let rest = catalog@.subrange(i as int, n as int);
            assert(rest[0] == catalog@[i as int]);
            assert(rest.drop_first() =~= catalog@.subrange(i + 1, n as int));
        }
        if ui_owner_here(&catalog[i], uri, allowed) {
            return Some((catalog[i].name.clone(), UiOwnerResolution::CachedResourceUri));
        }
        i = i + 1;
    }
    match ui_uri_authority(uri) {
        Some(a) => {
            if upstream_allowed(allowed, a.as_str()) && find_entry(catalog, a.as_str()).is_some() {
                Some((a, UiOwnerResolution::UriAuthority))
            } else {
                None
            }
        },
        None => None,
    }
}

/// The upstream a native `ui://` read is sent to: the resolved owner, and
/// only when that owner's resource allowlist exposes the URI.
pub open spec fn spec_ui_read_target(
    entries: Seq<UpstreamEntry>,
    uri: Seq<char>,
    allowed: Option<Seq<Seq<char>>>,
) -> Option<Seq<char>> {
    match spec_ui_resource_owner(entries, uri, allowed) {
        Some((n, _)) => match entry_index(entries, n) {
            Some(k) => if entries[k].resource_exposure_policy.spec_matches(uri) {
                Some(n)
            } else {
                None
            },
            None => None,
        },
        None => None,
    }
}

/// Where a native `ui://` read goes, checked before any request: the owner
/// [`ui_resource_owner`] resolves, refused (`None`) when the owner's
/// `expose_resources` allowlist hides the URI. The read is sent with the
/// native URI, which is also what its contents are published under.
pub fn ui_read_target(catalog: &Vec<UpstreamEntry>, uri: &str, allowed: Option<&Vec<String>>) -> (r:
    Option<String>)
    ensures
        match r {
            Some(n) => spec_ui_read_target(catalog@, uri@, allowed_view(allowed)) == Some(n@),
            None => spec_ui_read_target(catalog@, uri@, allowed_view(allowed)).is_none(),
        },
{
    let owner = match ui_resource_owner(catalog, uri, allowed) {
        Some((n, _)) => n,
        None => return None,
    };
    match find_entry(catalog, owner.as_str()) {
        Some(k) => {
            if catalog[k].resource_exposure_policy.matches(uri) {
                Some(owner)
            } else {
                None
            }
        },
        None => None,
    }
}

} // verus!

verus! {

// ---------------------------------------------------------------------------
// Listings
// ---------------------------------------------------------------------------

/// One resource as an upstream listed it: its native URI and the size of its
/// JSON encoding as the gateway will publish it (`usize::MAX` when it could
/// not be encoded).
#[derive(Debug)]
pub struct ResourceRow {
    pub uri: String,
    pub json_bytes: usize,
}

/// One listed resource with its provenance: the upstream, its native URI, and
/// the URI the gateway publishes (native for `ui://`, gateway form otherwise).
#[derive(Debug)]
pub struct ListedUpstreamResource {
    pub upstream_name: String,
    pub native_uri: String,
    pub uri: String,
    pub json_bytes: usize,
}

/// Listings order by upstream, then native URI.
impl SortKeyed for ListedUpstreamResource {
    open spec fn sort_key(&self) -> (Seq<char>, Seq<char>) {
        (self.upstream_name@, self.native_uri@)
    }

    fn key_less(&self, other: &Self) -> (b: bool) {
        pair_less(
            self.upstream_name.as_str(),
            self.native_uri.as_str(),
            other.upstream_name.as_str(),
            other.native_uri.as_str(),
        )
    }
}

/// The published URI of a listed native URI.
pub open spec fn published_uri(upstream: Seq<char>, native: Seq<char>) -> Seq<char> {
    if has_prefix(native, "ui://"@) {
        native
    } else {
        gateway_uri(upstream, native)
    }
}

/// `l` lists row `r` of `upstream`.
pub open spec fn lists_row(l: ListedUpstreamResource, upstream: Seq<char>, r: ResourceRow) -> bool {
    &&& l.upstream_name@ == upstream
    &&& l.native_uri@ == r.uri@
    &&& l.uri@ == published_uri(upstream, r.uri@)
    &&& l.json_bytes == r.json_bytes
}

/// The rows of `rows` the allowlist exposes, in order.
pub open spec fn exposed_rows(rows: Seq<ResourceRow>, policy: ExposurePolicy) -> Seq<ResourceRow>
    decreases rows.len(),
{
    if rows.len() == 0 {
        Seq::empty()
    } else {
        let r = exposed_rows(rows.drop_last(), policy);
        if policy.spec_matches(rows.last().uri@) {
            r.push(rows.last())
        } else {
            r
        }
    }
}

/// The exposed resources of one upstream's listing, with provenance; `ui://`
/// resources keep their native URI so tool metadata can reference them.
pub fn listed_resources_for(upstream: &String, policy: &ExposurePolicy, rows: Vec<ResourceRow>) -> (listed:
    Vec<ListedUpstreamResource>)
    ensures
        listed@.len() == exposed_rows(rows@, *policy).len(),
        forall|i: int|
            0 <= i < listed@.len() ==> lists_row(
                #[trigger] listed@[i],
                upstream@,
                exposed_rows(rows@, *policy)[i],
            ),
{
    let ghost all = rows@;
    let mut listed: Vec<ListedUpstreamResource> = Vec::new();
    let mut i: usize = 0;
    while i < rows.len()
        invariant
            i <= rows@.len(),
            rows@ == all,
            listed@.len() == exposed_rows(all.subrange(0, i as int), *policy).len(),
            forall|k: int|
                0 <= k < listed@.len() ==> lists_row(
                    #[trigger] listed@[k],
                    upstream@,
                    exposed_rows(all.subrange(0, i as int), *policy)[k],
                ),
        decreases rows.len() - i,
    {
        proof {
            assert(all.subrange(0, i + 1).drop_last() =~= all.subrange(0, i as int));
        }
        let r = &rows[i];
        if policy.matches(r.uri.as_str()) {
            proof {
                reveal_strlit("ui://");
            }
            let uri = if starts_with(r.uri.as_str(), "ui://") {
                r.uri.clone()
            } else {
                rewrite_resource_uri(r.uri.as_str(), upstream.as_str())
            };
            listed.push(
                ListedUpstreamResource {
                    upstream_name: upstream.clone(),
                    native_uri: r.uri.clone(),
                    uri,
                    json_bytes: r.json_bytes,
                },
            );
        }
        i = i + 1;
    }
    proof {
        assert(all.subrange(0, all.len() as int) =~= all);
    }
    listed
}

/// What one listed resource costs the response: its encoding plus a comma.
pub open spec fn listing_cost(l: ListedUpstreamResource) -> int {
    if l.json_bytes == usize::MAX {
        usize::MAX as int
    } else {
        l.json_bytes + 1
    }
}

/// The longest prefix whose running (saturating) total from `used` stays
/// within `max`.
pub open spec fn listing_prefix(ls: Seq<ListedUpstreamResource>, used: int, max: int) -> Seq<
    ListedUpstreamResource,
>
    decreases ls.len(),
{
    if ls.len() == 0 {
        Seq::empty()
    } else {
        let next = crate::tool_catalog::sat_add(used, listing_cost(ls[0]));
        if next > max {
            Seq::empty()
        } else {
            seq![ls[0]] + listing_prefix(ls.drop_first(), next, max)
        }
    }
}

pub open spec fn take_at_most<T>(s: Seq<T>, n: nat) -> Seq<T> {
    if s.len() <= n {
        s
    } else {
        s.take(n as int)
    }
}

pub proof fn lemma_take_at_most_len<T>(s: Seq<T>, n: nat)
    ensures
        take_at_most(s, n).len() == if s.len() <= n {
            s.len()
        } else {
            n
        },
        forall|i: int| 0 <= i < take_at_most(s, n).len() ==> #[trigger] take_at_most(s, n)[i] == s[i],
{
}

/// Bound a merged listing: sort stably by (upstream, native URI) (rows with
/// equal keys keep their arrival order), keep the prefix
/// that fits `max_bytes` (two bytes for the brackets), then at most
/// [`MAX_UPSTREAM_RESOURCES`] items.
pub fn bound_listed_resources(resources: Vec<ListedUpstreamResource>, max_bytes: usize) -> (bounded: Vec<
    ListedUpstreamResource,
>)
    ensures
        bounded@ == take_at_most(
            listing_prefix(stable_sorted(resources@), 2, max_bytes as int),
            MAX_UPSTREAM_RESOURCES as nat,
        ),
{
    let ghost all = resources@;
    let mut sorted: Vec<ListedUpstreamResource> = Vec::new();
    let mut rest = resources;
    let n = rest.len();
    proof {
        assert(all.subrange(0, 0) =~= Seq::<ListedUpstreamResource>::empty());
        assert(all.subrange(0, n as int) =~= all);
    }
    while rest.len() > 0
        invariant
            n == all.len(),
            rest@.len() <= n,
            rest@ == all.subrange(n - rest@.len(), n as int),
            sorted@ == stable_sorted(all.subrange(0, n - rest@.len())),
        decreases rest.len(),
    {
        let ghost done = n - rest@.len();
        let item = rest.remove(0);
        proof {
            assert(item == all[done]);
            assert(all.subrange(0, done + 1).drop_last() =~= all.subrange(0, done));
            assert(rest@ =~= all.subrange(done + 1, n as int));
        }
        insert_stable(&mut sorted, item);
    }
    proof {
        assert(all.subrange(0, n as int) =~= all);
    }
    // Keep the prefix that fits the byte budget.
    let ghost srt = sorted@;
    let m = sorted.len();
    let mut kept: Vec<ListedUpstreamResource> = Vec::new();
    let mut used: usize = 2;
    let mut src = sorted;
    proof {
        assert(srt.subrange(0, m as int) =~= srt);
        assert(kept@ + listing_prefix(srt.subrange(0, m as int), 2, max_bytes as int) =~= listing_prefix(
            srt,
            2,
            max_bytes as int,
        ));
    }
    while src.len() > 0
        invariant
            m == srt.len(),
            srt == stable_sorted(all),
            all == resources@,
            src@.len() <= m,
            src@ == srt.subrange(m - src@.len(), m as int),
            kept@ + listing_prefix(src@, used as int, max_bytes as int) == listing_prefix(
                srt,
                2,
                max_bytes as int,
            ),
        decreases src.len(),
    {
        let item = src.remove(0);
        let ghost whole = seq![item] + src@;
        proof {
            assert(whole.drop_first() =~= src@);
            assert(whole[0] == item);
        }
        let cost = if item.json_bytes == usize::MAX {
            usize::MAX
        } else {
            item.json_bytes + 1
        };
        let next = used.saturating_add(cost);
        if next > max_bytes {
            proof {
                assert(listing_prefix(whole, used as int, max_bytes as int) =~= Seq::<
                    ListedUpstreamResource,
                >::empty());
                assert(kept@ + Seq::<ListedUpstreamResource>::empty() =~= kept@);
            }
            return truncate_listing(kept);
        }
        used = next;
        let ghost before = kept@;
        kept.push(item);
        proof {
            assert(before + (seq![item] + listing_prefix(src@, used as int, max_bytes as int)) =~= kept@
                + listing_prefix(src@, used as int, max_bytes as int));
        }
    }
    proof {
        assert(listing_prefix(src@, used as int, max_bytes as int) =~= Seq::<
            ListedUpstreamResource,
        >::empty());
        assert(kept@ + Seq::<ListedUpstreamResource>::empty() =~= kept@);
    }
    truncate_listing(kept)
}

fn truncate_listing(kept: Vec<ListedUpstreamResource>) -> (r: Vec<ListedUpstreamResource>)
    ensures
        r@ == take_at_most(kept@, MAX_UPSTREAM_RESOURCES as nat),
{
    let mut kept = kept;
    if kept.len() > MAX_UPSTREAM_RESOURCES {
        kept.truncate(MAX_UPSTREAM_RESOURCES);
    }
    kept
}

/// The cached listing of the regular upstreams with provenance, bounded
/// exactly like the live listing: each cached `(upstream, row)` is published
/// under its gateway URI (its native one for `ui://`), then the merged
/// listing is bounded by [`bound_listed_resources`]. It reads no peer.
pub fn cached_upstream_resources_with_provenance_allowed(
    cached: Vec<(String, ResourceRow)>,
    max_bytes: usize,
) -> (listed: Vec<ListedUpstreamResource>)
    ensures
        exists|ls: Seq<ListedUpstreamResource>|
            {
                &&& ls.len() == cached@.len()
                &&& forall|i: int| 0 <= i < ls.len() ==> lists_row(#[trigger] ls[i], cached@[i].0@, cached@[i].1)
                &&& listed@ == take_at_most(
                    listing_prefix(stable_sorted(ls), 2, max_bytes as int),
                    MAX_UPSTREAM_RESOURCES as nat,
                )
            },
{
    let mut all: Vec<ListedUpstreamResource> = Vec::new();
    let mut i: usize = 0;
    while i < cached.len()
        invariant
            i <= cached@.len(),
            all@.len() == i,
            forall|k: int| 0 <= k < i ==> lists_row(#[trigger] all@[k], cached@[k].0@, cached@[k].1),
        decreases cached.len() - i,
    {
        let (upstream, row) = (&cached[i].0, &cached[i].1);
        proof {
            reveal_strlit("ui://");
        }
        let uri = if starts_with(row.uri.as_str(), "ui://") {
            row.uri.clone()
        } else {
            rewrite_resource_uri(row.uri.as_str(), upstream.as_str())
        };
        all.push(
            ListedUpstreamResource {
                upstream_name: upstream.clone(),
                native_uri: row.uri.clone(),
                uri,
                json_bytes: row.json_bytes,
            },
        );
        i = i + 1;
    }
    let ghost ls = all@;
    let listed = bound_listed_resources(all, max_bytes);
    proof {
        assert(ls.len() == cached@.len());
    }
    listed
}

/// One resource template as an upstream listed it.
#[derive(Debug)]
pub struct TemplateRow {
    pub name: String,
    pub uri_template: String,
}

/// One namespaced resource template with its provenance.
#[derive(Debug)]
pub struct ListedUpstreamResourceTemplate {
    pub upstream_name: String,
    pub native_uri_template: String,
    pub name: String,
    pub uri_template: String,
}

/// One upstream's templates, ordered by upstream name.
impl SortKeyed for (String, Vec<TemplateRow>) {
    open spec fn sort_key(&self) -> (Seq<char>, Seq<char>) {
        (self.0@, Seq::empty())
    }

    fn key_less(&self, other: &Self) -> (b: bool) {
        proof {
            reveal_strlit("");
        }
        pair_less(self.0.as_str(), "", other.0.as_str(), "")
    }
}

/// `l` is template `t` of `upstream`, namespaced.
pub open spec fn lists_template(l: ListedUpstreamResourceTemplate, upstream: Seq<char>, t: TemplateRow) -> bool {
    &&& l.upstream_name@ == upstream
    &&& l.native_uri_template@ == t.uri_template@
    &&& l.name@ == upstream + "/"@ + t.name@
    &&& l.uri_template@ == published_uri(upstream, t.uri_template@)
}

/// The templates of upstream results taken in order, one by one, while fewer
/// than [`MAX_UPSTREAM_RESOURCES`] are held: pairs of (upstream, template).
pub open spec fn template_stream(results: Seq<(String, Vec<TemplateRow>)>) -> Seq<(Seq<char>, TemplateRow)>
    decreases results.len(),
{
    if results.len() == 0 {
        Seq::empty()
    } else {
        template_stream(results.drop_last()) + results.last().1@.map_values(
            |t: TemplateRow| (results.last().0@, t),
        )
    }
}

/// Every upstream's templates, upstreams in name order, namespaced, at most
/// [`MAX_UPSTREAM_RESOURCES`] in all.
pub fn collect_resource_templates(results: Vec<(String, Vec<TemplateRow>)>) -> (templates: Vec<
    ListedUpstreamResourceTemplate,
>)
    ensures
        ({
            let stream = template_stream(bounded_listing(results@, usize::MAX as nat));
            let taken = take_at_most(stream, MAX_UPSTREAM_RESOURCES as nat);
            &&& templates@.len() == taken.len()
            &&& forall|i: int|
                0 <= i < taken.len() ==> lists_template(
                    #[trigger] templates@[i],
                    taken[i].0,
                    taken[i].1,
                )
        }),
{
    let ghost all = results@;
    let mut sorted: Vec<(String, Vec<TemplateRow>)> = Vec::new();
    let mut rest = results;
    let n = rest.len();
    proof {
        assert(all.subrange(0, 0) =~= Seq::<(String, Vec<TemplateRow>)>::empty());
        assert(all.subrange(0, n as int) =~= all);
    }
    while rest.len() > 0
        invariant
            n == all.len(),
            rest@.len() <= n,
            rest@ == all.subrange(n - rest@.len(), n as int),
            sorted@ == bounded_listing(all.subrange(0, n - rest@.len()), usize::MAX as nat),
        decreases rest.len(),
    {
        let ghost done = n - rest@.len();
        let item = rest.remove(0);
        proof {
            assert(item == all[done]);
            assert(all.subrange(0, done + 1).drop_last() =~= all.subrange(0, done));
            assert(rest@ =~= all.subrange(done + 1, n as int));
        }
        insert_bounded(&mut sorted, item, usize::MAX);
    }
    proof {
        assert(all.subrange(0, n as int) =~= all);
    }
    let ghost srt = sorted@;
    let mut templates: Vec<ListedUpstreamResourceTemplate> = Vec::new();
    let mut g: usize = 0;
    while g < sorted.len()
        invariant
            g <= sorted@.len(),
            sorted@ == srt,
            templates@.len() == take_at_most(
                template_stream(srt.subrange(0, g as int)),
                MAX_UPSTREAM_RESOURCES as nat,
            ).len(),
            forall|i: int|
                0 <= i < templates@.len() ==> lists_template(
                    #[trigger] templates@[i],
                    template_stream(srt.subrange(0, g as int))[i].0,
                    template_stream(srt.subrange(0, g as int))[i].1,
                ),
            templates@.len() <= MAX_UPSTREAM_RESOURCES,
            templates@.len() < MAX_UPSTREAM_RESOURCES ==> templates@.len() == template_stream(
                srt.subrange(0, g as int),
            ).len(),
        decreases sorted.len() - g,
    {
        let ghost prev = template_stream(srt.subrange(0, g as int));
        let upstream = &sorted[g].0;
        let rows = &sorted[g].1;
        let ghost added = rows@.map_values(|t: TemplateRow| (upstream@, t));
        proof {
            assert(srt.subrange(0, g + 1).drop_last() =~= srt.subrange(0, g as int));
            assert(template_stream(srt.subrange(0, g + 1)) =~= prev + added);
        }
        let mut j: usize = 0;
        while j < rows.len()
            invariant
                j <= rows@.len(),
                templates@.len() <= MAX_UPSTREAM_RESOURCES,
                templates@.len() < MAX_UPSTREAM_RESOURCES ==> templates@.len() == prev.len() + j,
                templates@.len() == take_at_most(
                    prev + added.subrange(0, j as int),
                    MAX_UPSTREAM_RESOURCES as nat,
                ).len(),
                forall|i: int|
                    0 <= i < templates@.len() ==> lists_template(
                        #[trigger] templates@[i],
                        (prev + added)[i].0,
                        (prev + added)[i].1,
                    ),
                added.len() == rows@.len(),
                forall|k: int| 0 <= k < rows@.len() ==> #[trigger] added[k] == (upstream@, rows@[k]),
            ensures
                templates@.len() < MAX_UPSTREAM_RESOURCES ==> j == rows@.len(),
                j <= rows@.len(),
                templates@.len() <= MAX_UPSTREAM_RESOURCES,
                templates@.len() < MAX_UPSTREAM_RESOURCES ==> templates@.len() == prev.len() + j,
                templates@.len() == take_at_most(
                    prev + added.subrange(0, j as int),
                    MAX_UPSTREAM_RESOURCES as nat,
                ).len(),
                forall|i: int|
                    0 <= i < templates@.len() ==> lists_template(
                        #[trigger] templates@[i],
                        (prev + added)[i].0,
                        (prev + added)[i].1,
                    ),
            decreases rows.len() - j,
        {
            if templates.len() >= MAX_UPSTREAM_RESOURCES {
                break;
            }
            let t = &rows[j];
            let (name, uri_template) = rewrite_resource_template(
                t.name.as_str(),
                t.uri_template.as_str(),
                upstream.as_str(),
            );
            proof {
                reveal_strlit("ui://");
            }
            templates.push(
                ListedUpstreamResourceTemplate {
                    upstream_name: upstream.clone(),
                    native_uri_template: t.uri_template.clone(),
                    name,
                    uri_template,
                },
            );
            proof {
                assert((prev + added)[prev.len() + j] == added[j as int]);
            }
            j = j + 1;
        }
        proof {
            let next = template_stream(srt.subrange(0, g + 1));
            lemma_take_at_most_len(next, MAX_UPSTREAM_RESOURCES as nat);
            lemma_take_at_most_len(prev + added.subrange(0, j as int), MAX_UPSTREAM_RESOURCES as nat);
            if templates@.len() < MAX_UPSTREAM_RESOURCES {
                assert(j == rows@.len());
                assert(added.subrange(0, rows@.len() as int) =~= added);
            } else {
                assert((prev + added.subrange(0, j as int)).len() <= next.len());
            }
            assert forall|i: int| 0 <= i < templates@.len() implies lists_template(
                #[trigger] templates@[i],
                template_stream(srt.subrange(0, g + 1))[i].0,
                template_stream(srt.subrange(0, g + 1))[i].1,
            ) by {}
        }
        g = g + 1;
    }
    proof {
        assert(srt.subrange(0, srt.len() as int) =~= srt);
    }
    templates
}

} // verus!

verus! {

// ---------------------------------------------------------------------------
// OAuth (subject-scoped) resource listings
// ---------------------------------------------------------------------------

/// One OAuth upstream's listing outcome: its name, resource allowlist and
/// rows (`None` when discovery failed).
pub type SubjectResourceResult = (String, ExposurePolicy, Option<Vec<ResourceRow>>);

impl SortKeyed for (String, ExposurePolicy, Option<Vec<ResourceRow>>) {
    open spec fn sort_key(&self) -> (Seq<char>, Seq<char>) {
        (self.0@, Seq::empty())
    }

    fn key_less(&self, other: &Self) -> (b: bool) {
        proof {
            reveal_strlit("");
        }
        pair_less(self.0.as_str(), "", other.0.as_str(), "")
    }
}

/// Order the outcomes by upstream name.
pub fn sort_subject_resource_results(results: Vec<SubjectResourceResult>) -> (sorted: Vec<
    SubjectResourceResult,
>)
    ensures
        sorted@ == bounded_listing(results@, usize::MAX as nat),
{
    let ghost all = results@;
    let mut sorted: Vec<SubjectResourceResult> = Vec::new();
    let mut rest = results;
    let n = rest.len();
    proof {
        assert(all.subrange(0, 0) =~= Seq::<SubjectResourceResult>::empty());
        assert(all.subrange(0, n as int) =~= all);
    }
    while rest.len() > 0
        invariant
            n == all.len(),
            rest@.len() <= n,
            rest@ == all.subrange(n - rest@.len(), n as int),
            sorted@ == bounded_listing(all.subrange(0, n - rest@.len()), usize::MAX as nat),
        decreases rest.len(),
    {
        let ghost done = n - rest@.len();
        let item = rest.remove(0);
        proof {
            assert(item == all[done]);
            assert(all.subrange(0, done + 1).drop_last() =~= all.subrange(0, done));
            assert(rest@ =~= all.subrange(done + 1, n as int));
        }
        insert_bounded(&mut sorted, item, usize::MAX);
    }
    proof {
        assert(all.subrange(0, n as int) =~= all);
    }
    sorted
}

/// A resource as the gateway publishes it: its gateway URI and encoded size.
#[derive(Debug)]
pub struct PublishedResource {
    pub uri: String,
    pub json_bytes: usize,
}

/// The exposed rows of every successful outcome, in order, with their upstream.
pub open spec fn subject_stream(results: Seq<SubjectResourceResult>) -> Seq<(Seq<char>, ResourceRow)>
    decreases results.len(),
{
    if results.len() == 0 {
        Seq::empty()
    } else {
        let prev = subject_stream(results.drop_last());
        let (name, policy, outcome) = results.last();
        match outcome {
            Some(rows) => prev + exposed_rows(rows@, policy).map_values(
                |r: ResourceRow| (name@, r),
            ),
            None => prev,
        }
    }
}

/// How many leading items of `stream` fit: fewer than `item_limit` already
/// taken, and the running (saturating) byte total within `byte_limit`.
pub open spec fn fitting_count(stream: Seq<(Seq<char>, ResourceRow)>, taken: int, used: int, item_limit: int, byte_limit: int) -> int
    decreases stream.len(),
{
    if stream.len() == 0 || taken >= item_limit {
        0
    } else {
        let next = crate::tool_catalog::sat_add(used, stream[0].1.json_bytes as int);
        if next > byte_limit {
            0
        } else {
            1 + fitting_count(stream.drop_first(), taken + 1, next, item_limit, byte_limit)
        }
    }
}

/// `p` publishes `row` of `upstream` under its gateway URI.
pub open spec fn publishes(p: PublishedResource, item: (Seq<char>, ResourceRow)) -> bool {
    &&& p.uri@ == gateway_uri(item.0, item.1.uri@)
    &&& p.json_bytes == item.1.json_bytes
}

impl Clone for ResourceRow {
    fn clone(&self) -> (c: Self)
        ensures
            c == *self,
    {
        ResourceRow { uri: self.uri.clone(), json_bytes: self.json_bytes }
    }
}

pub open spec fn stream_view(v: Seq<(String, ResourceRow)>) -> Seq<(Seq<char>, ResourceRow)> {
    v.map_values(|p: (String, ResourceRow)| (p.0@, p.1))
}

/// The exposed rows of `rows`, each paired with `name`.
fn exposed_stream(name: &String, policy: &ExposurePolicy, rows: &Vec<ResourceRow>) -> (v: Vec<
    (String, ResourceRow),
>)
    ensures
        stream_view(v@) == exposed_rows(rows@, *policy).map_values(|r: ResourceRow| (name@, r)),
{
    let mut v: Vec<(String, ResourceRow)> = Vec::new();
    let mut j: usize = 0;
    while j < rows.len()
        invariant
            j <= rows@.len(),
            stream_view(v@) == exposed_rows(rows@.subrange(0, j as int), *policy).map_values(
                |r: ResourceRow| (name@, r),
            ),
        decreases rows.len() - j,
    {
        proof {
            assert(rows@.subrange(0, j + 1).drop_last() =~= rows@.subrange(0, j as int));
        }
        let ghost before = v@;
        if policy.matches(rows[j].uri.as_str()) {
            v.push((name.clone(), rows[j].clone()));
            proof {
                assert(stream_view(v@) =~= stream_view(before).push((name@, rows@[j as int])));
                assert(exposed_rows(rows@.subrange(0, j + 1), *policy).map_values(
                    |r: ResourceRow| (name@, r),
                ) =~= exposed_rows(rows@.subrange(0, j as int), *policy).map_values(
                    |r: ResourceRow| (name@, r),
                ).push((name@, rows@[j as int])));
            }
        } else {
            proof {
                assert(stream_view(v@) =~= stream_view(before));
            }
        }
        j = j + 1;
    }
    proof {
        assert(rows@.subrange(0, rows@.len() as int) =~= rows@);
    }
    v
}

/// Merge subject-scoped listings under one global item cap and byte cap:
/// the exposed resources in outcome order, rewritten to the gateway form,
/// stopping at the first that would break either cap.
pub fn aggregate_subject_resources(
    results: Vec<SubjectResourceResult>,
    item_limit: usize,
    byte_limit: usize,
) -> (resources: Vec<PublishedResource>)
    ensures
        ({
            let stream = subject_stream(results@);
            let k = fitting_count(stream, 0, 0, item_limit as int, byte_limit as int);
            &&& resources@.len() == k
            &&& forall|i: int| 0 <= i < k ==> publishes(#[trigger] resources@[i], stream[i])
        }),
{
    // Every exposed row, in outcome order, with its upstream.
    let mut stream: Vec<(String, ResourceRow)> = Vec::new();
    let mut g: usize = 0;
    while g < results.len()
        invariant
            g <= results@.len(),
            stream_view(stream@) == subject_stream(results@.subrange(0, g as int)),
        decreases results.len() - g,
    {
        proof {
            assert(results@.subrange(0, g + 1).drop_last() =~= results@.subrange(0, g as int));
        }
        match &results[g].2 {
            None => {},
            Some(rows) => {
                let ghost before = stream@;
                let more = exposed_stream(&results[g].0, &results[g].1, rows);
                let mut k: usize = 0;
                while k < more.len()
                    invariant
                        k <= more@.len(),
                        stream@ == before + more@.subrange(0, k as int),
                    decreases more.len() - k,
                {
                    stream.push((more[k].0.clone(), more[k].1.clone()));
                    proof {
                        assert(stream@ =~= before + more@.subrange(0, k + 1));
                    }
                    k = k + 1;
                }
                proof {
                    assert(more@.subrange(0, more@.len() as int) =~= more@);
                    assert(stream_view(before + more@) =~= stream_view(before) + stream_view(more@));
                }
            },
        }
        g = g + 1;
    }
    proof {
        assert(results@.subrange(0, results@.len() as int) =~= results@);
    }
    let ghost sv = stream_view(stream@);
    // The longest prefix within both caps.
    let mut resources: Vec<PublishedResource> = Vec::new();
    let mut used: usize = 0;
    let mut i: usize = 0;
    let n = stream.len();
    proof {
        assert(sv.subrange(0, n as int) =~= sv);
    }
    while i < n
        invariant
            i <= n == stream@.len(),
            sv == stream_view(stream@),
            sv == subject_stream(results@),
            sv.len() == n,
            resources@.len() == i,
            fitting_count(sv, 0, 0, item_limit as int, byte_limit as int) == i + fitting_count(
                sv.subrange(i as int, n as int),
                i as int,
                used as int,
                item_limit as int,
                byte_limit as int,
            ),
            forall|k: int| 0 <= k < i ==> publishes(#[trigger] resources@[k], sv[k]),
        decreases n - i,
    {
        let ghost rest = sv.subrange(i as int, n as int);
        proof {
            assert(rest[0] == sv[i as int]);
            assert(rest.drop_first() =~= sv.subrange(i + 1, n as int));
        }
        if i >= item_limit {
            return resources;
        }
        let next = used.saturating_add(stream[i].1.json_bytes);
        if next > byte_limit {
            return resources;
        }
        used = next;
        let uri = rewrite_resource_uri(stream[i].1.uri.as_str(), stream[i].0.as_str());
        resources.push(PublishedResource { uri, json_bytes: stream[i].1.json_bytes });
        i = i + 1;
    }
    resources
}

/// A subject connection's cached resource listing can be served: the
/// transport is open, the connection not idle, and the listing young.
pub open spec fn resource_cache_usable(
    transport_closed: bool,
    now_ms: u64,
    last_used_ms: u64,
    idle_ttl_ms: u64,
    listed_at_ms: Option<u64>,
    max_age_ms: u64,
) -> bool {
    !transport_closed && crate::skills_cache::elapsed_ms(now_ms, last_used_ms) < idle_ttl_ms
        && match listed_at_ms {
        Some(t) => crate::skills_cache::elapsed_ms(now_ms, t) < max_age_ms,
        None => false,
    }
}

/// Whether a subject connection's cached resource listing can be served:
/// the transport is open, the connection not idle, and the listing young.
pub fn subject_resource_cache_usable(
    transport_closed: bool,
    now_ms: u64,
    last_used_ms: u64,
    idle_ttl_ms: u64,
    listed_at_ms: Option<u64>,
    max_age_ms: u64,
) -> (b: bool)
    ensures
        b == resource_cache_usable(transport_closed, now_ms, last_used_ms, idle_ttl_ms, listed_at_ms, max_age_ms),
{
    if transport_closed || now_ms.saturating_sub(last_used_ms) >= idle_ttl_ms {
        return false;
    }
    match listed_at_ms {
        Some(t) => now_ms.saturating_sub(t) < max_age_ms,
        None => false,
    }
}

// ---------------------------------------------------------------------------
// Exact reads of published resources
// ---------------------------------------------------------------------------

/// Why an exact read of a published resource failed.
#[derive(Debug, Clone, Copy, PartialEq, Eq, Structural)]
pub enum ExactResourceReadError {
    Unavailable,
    QueueUnavailable,
    Upstream,
    Timeout,
    Cancelled,
    TooLarge,
}

impl ExactResourceReadError {
    pub open spec fn spec_message(self) -> Seq<char> {
        match self {
            ExactResourceReadError::Unavailable => "published resource target is unavailable"@,
            ExactResourceReadError::QueueUnavailable => "published resource read queue is unavailable"@,
            ExactResourceReadError::Upstream => "upstream resource read failed"@,
            ExactResourceReadError::Timeout => "upstream resource read timed out"@,
            ExactResourceReadError::Cancelled => "upstream resource read was cancelled"@,
            ExactResourceReadError::TooLarge => "upstream resource response is too large"@,
        }
    }

    pub fn message(self) -> (m: &'static str)
        ensures
            m@ == self.spec_message(),
    {
        match self {
            ExactResourceReadError::Unavailable => "published resource target is unavailable",
            ExactResourceReadError::QueueUnavailable => "published resource read queue is unavailable",
            ExactResourceReadError::Upstream => "upstream resource read failed",
            ExactResourceReadError::Timeout => "upstream resource read timed out",
            ExactResourceReadError::Cancelled => "upstream resource read was cancelled",
            ExactResourceReadError::TooLarge => "upstream resource response is too large",
        }
    }
}

/// The admission steps before an exact read reaches the upstream, in order:
/// the request names the published URI, a call permit was granted, the
/// publication still matches, and budget remains.
pub fn exact_read_admission(
    requested_uri: &str,
    native_uri: &str,
    permit_granted: bool,
    publication_current: bool,
    remaining_ms: u64,
) -> (r: Result<(), ExactResourceReadError>)
    ensures
        r == if requested_uri@ != native_uri@ {
            Err(ExactResourceReadError::Unavailable)
        } else if !permit_granted {
            Err(ExactResourceReadError::QueueUnavailable)
        } else if !publication_current {
            Err(ExactResourceReadError::Unavailable)
        } else if remaining_ms == 0 {
            Err(ExactResourceReadError::QueueUnavailable)
        } else {
            Ok(())
        },
{
    if crate::order::compare_str(requested_uri, native_uri) != crate::order::Cmp::Equal {
        return Err(ExactResourceReadError::Unavailable);
    }
    if !permit_granted {
        return Err(ExactResourceReadError::QueueUnavailable);
    }
    if !publication_current {
        return Err(ExactResourceReadError::Unavailable);
    }
    if remaining_ms == 0 {
        return Err(ExactResourceReadError::QueueUnavailable);
    }
    Ok(())
}

/// How an upstream read call ended.
#[derive(Debug, Clone, Copy, PartialEq, Eq, Structural)]
pub enum ReadOutcome {
    /// A result, and whether it exceeds the response size cap.
    Completed { too_large: bool },
    /// An MCP error, and whether it says the connection is unhealthy.
    UpstreamError { affects_health: bool },
    Timeout,
    Cancelled,
}

/// What an outcome does to the upstream's resource health.
#[derive(Debug, Clone, Copy, PartialEq, Eq, Structural)]
pub enum HealthUpdate {
    RecordSuccess,
    RecordFailure,
    Untouched,
}

/// The health update an exact read's outcome records. `applied` is whether
/// the outcome still applies to what was read ([`exact_read_applies`]); a
/// stale outcome records nothing, and neither does a cancelled read.
pub fn exact_read_health_update(outcome: ReadOutcome, applied: bool) -> (h: HealthUpdate)
    ensures
        h == if !applied {
            HealthUpdate::Untouched
        } else {
            match outcome {
                ReadOutcome::Completed { .. } => HealthUpdate::RecordSuccess,
                ReadOutcome::UpstreamError { affects_health } => if affects_health {
                    HealthUpdate::RecordFailure
                } else {
                    HealthUpdate::RecordSuccess
                },
                ReadOutcome::Timeout => HealthUpdate::RecordFailure,
                ReadOutcome::Cancelled => HealthUpdate::Untouched,
            }
        },
{
    if !applied {
        return HealthUpdate::Untouched;
    }
    match outcome {
        ReadOutcome::Completed { .. } => HealthUpdate::RecordSuccess,
        ReadOutcome::UpstreamError { affects_health } => if affects_health {
            HealthUpdate::RecordFailure
        } else {
            HealthUpdate::RecordSuccess
        },
        ReadOutcome::Timeout => HealthUpdate::RecordFailure,
        ReadOutcome::Cancelled => HealthUpdate::Untouched,
    }
}

/// A read result is published under the gateway URI it was read through:
/// every content's URI (given in order as `content_uris`) becomes
/// `gateway_uri`, whatever URI the upstream reported for it.
pub fn normalize_resource_result_uri(content_uris: Vec<String>, gateway_uri: &str) -> (uris: Vec<String>)
    ensures
        uris@.len() == content_uris@.len(),
        forall|i: int| 0 <= i < uris@.len() ==> #[trigger] uris@[i]@ == gateway_uri@,
{
    let mut uris: Vec<String> = Vec::new();
    let mut i: usize = 0;
    while i < content_uris.len()
        invariant
            i <= content_uris@.len(),
            uris@.len() == i,
            forall|k: int| 0 <= k < i ==> #[trigger] uris@[k]@ == gateway_uri@,
        decreases content_uris.len() - i,
    {
        uris.push(gateway_uri.to_string());
        i = i + 1;
    }
    uris
}

/// Whether the outcome of an exact read still applies to what was read: the
/// upstream still runs the connection incarnation and generation the read
/// was issued on, and its resource allowlist still exposes the native URI.
/// Otherwise the outcome records no health and answers `Unavailable`.
pub fn exact_read_applies(
    entry: &crate::tool_catalog::UpstreamEntry,
    observed_incarnation: u64,
    current_incarnation: Option<u64>,
    observed_generation: u64,
    current_generation: Option<u64>,
    native_uri: &str,
) -> (b: bool)
    ensures
        b == (current_incarnation == Some(observed_incarnation) && current_generation == Some(
            observed_generation,
        ) && entry.resource_exposure_policy.spec_matches(native_uri@)),
{
    let same_incarnation = match current_incarnation {
        Some(c) => c == observed_incarnation,
        None => false,
    };
    let same_generation = match current_generation {
        Some(g) => g == observed_generation,
        None => false,
    };
    same_incarnation && same_generation && entry.resource_exposure_policy.matches(native_uri)
}

/// The answer of an exact read, given its outcome and whether the health
/// update still applied to the same publication (a replaced one makes the
/// target unavailable).
pub fn exact_read_result(outcome: ReadOutcome, applied: bool) -> (r: Result<(), ExactResourceReadError>)
    ensures
        r == match outcome {
            ReadOutcome::Completed { too_large } => if !applied {
                Err(ExactResourceReadError::Unavailable)
            } else if too_large {
                Err(ExactResourceReadError::TooLarge)
            } else {
                Ok(())
            },
            ReadOutcome::UpstreamError { .. } => if applied {
                Err(ExactResourceReadError::Upstream)
            } else {
                Err(ExactResourceReadError::Unavailable)
            },
            ReadOutcome::Timeout => if applied {
                Err(ExactResourceReadError::Timeout)
            } else {
                Err(ExactResourceReadError::Unavailable)
            },
            ReadOutcome::Cancelled => Err(ExactResourceReadError::Cancelled),
        },
{
    match outcome {
        ReadOutcome::Completed { too_large } => if !applied {
            Err(ExactResourceReadError::Unavailable)
        } else if too_large {
            Err(ExactResourceReadError::TooLarge)
        } else {
            Ok(())
        },
        ReadOutcome::UpstreamError { .. } => if applied {
            Err(ExactResourceReadError::Upstream)
        } else {
            Err(ExactResourceReadError::Unavailable)
        },
        ReadOutcome::Timeout => if applied {
            Err(ExactResourceReadError::Timeout)
        } else {
            Err(ExactResourceReadError::Unavailable)
        },
        ReadOutcome::Cancelled => Err(ExactResourceReadError::Cancelled),
    }
}

} // verus!
