//! The gateway's synthetic documents: the index of registered upstreams, the
//! per-upstream tool schema listing, and the synthetic resources that point at
//! them. Only exposed tools appear, and every listing is sorted by name.

use vstd::prelude::*;
use crate::bounded::{SortKeyed, bounded_listing, insert_bounded, law_bounded_listing_holds_smallest, pair_less};
use crate::order::{sorted_strict, sorted_unique, strings_view};
use crate::text::{concat_parts, concat_views};
use crate::exposure::ExposurePolicy;
use crate::tool_catalog::{
    ToolDescriptor, UpstreamEntry, UpstreamTool, allowed_view, entry_exposed, entry_index,
    exposed_of, exposed_tools, find_entry, insert_all_bounded, lemma_entry_index_first,
    lemma_exposed_of_is_filter, spec_upstream_allowed, tool_admitted_by, upstream_allowed,
};

verus! {

broadcast use vstd::string::group_string_axioms;

pub const GATEWAY_SERVERS_URI: &'static str = "lab://gateway/servers";

/// One row of the upstream index document.
pub struct GatewayServerRow {
    pub name: String,
    pub tool_count: usize,
    pub prompt_count: usize,
    pub resource_count: usize,
    pub tools_routable: bool,
}

impl SortKeyed for GatewayServerRow {
    open spec fn sort_key(&self) -> (Seq<char>, Seq<char>) {
        (self.name@, Seq::empty())
    }

    fn key_less(&self, other: &Self) -> (b: bool) {
        proof {
            reveal_strlit("");
        }
        pair_less(self.name.as_str(), "", other.name.as_str(), "")
    }
}

/// The index row of an upstream: its exposed-tool count and catalog counts.
pub open spec fn server_row_of(e: UpstreamEntry) -> GatewayServerRow {
    GatewayServerRow {
        name: e.name,
        tool_count: entry_exposed(e).len() as usize,
        prompt_count: e.prompt_count,
        resource_count: e.resource_count,
        tools_routable: e.tools_routable,
    }
}

/// The rows of the upstreams the scope admits, healthy or not, in catalog order.
pub open spec fn server_rows(entries: Seq<UpstreamEntry>, allowed: Option<Seq<Seq<char>>>) -> Seq<
    GatewayServerRow,
>
    decreases entries.len(),
{
    if entries.len() == 0 {
        Seq::empty()
    } else {
        let r = server_rows(entries.drop_last(), allowed);
        if spec_upstream_allowed(allowed, entries.last().name@) {
            r.push(server_row_of(entries.last()))
        } else {
            r
        }
    }
}

/// `r` is the index row of `e`: its name, the number of its tools that its
/// tool policy admits, and its prompt and resource counts and tool health.
pub open spec fn row_counts(r: GatewayServerRow, e: UpstreamEntry) -> bool {
    &&& r.name@ == e.name@
    &&& r.tool_count == e.tools@.filter(tool_admitted_by(e.exposure_policy)).len()
    &&& r.prompt_count == e.prompt_count
    &&& r.resource_count == e.resource_count
    &&& r.tools_routable == e.tools_routable
}

/// Every row of the unsorted index is that of an admitted upstream, and every
/// admitted upstream has its row.
proof fn lemma_server_rows(entries: Seq<UpstreamEntry>, allowed: Option<Seq<Seq<char>>>)
    ensures
        server_rows(entries, allowed).len() <= entries.len(),
        forall|i: int|
            #![trigger server_rows(entries, allowed)[i]]
            0 <= i < server_rows(entries, allowed).len() ==> exists|k: int|
                #![trigger entries[k]]
                0 <= k < entries.len() && spec_upstream_allowed(allowed, entries[k].name@)
                    && server_rows(entries, allowed)[i] == server_row_of(entries[k]),
        forall|k: int|
            0 <= k < entries.len() && spec_upstream_allowed(allowed, #[trigger] entries[k].name@)
                ==> server_rows(entries, allowed).contains(server_row_of(entries[k])),
    decreases entries.len(),
{
    if entries.len() > 0 {
        let pre = entries.drop_last();
        let last = entries.last();
        let n = pre.len() as int;
        assert forall|k: int| 0 <= k < n implies #[trigger] pre[k] == entries[k] by {}
        lemma_server_rows(pre, allowed);
        let r0 = server_rows(pre, allowed);
        assert(last == entries[n]);
        if spec_upstream_allowed(allowed, last.name@) {
            assert(server_rows(entries, allowed) == r0.push(server_row_of(last)));
        } else {
            assert(server_rows(entries, allowed) == r0);
        }
        assert forall|i: int|
            #![trigger server_rows(entries, allowed)[i]]
            0 <= i < server_rows(entries, allowed).len() implies exists|k: int|
            #![trigger entries[k]]
            0 <= k < entries.len() && spec_upstream_allowed(allowed, entries[k].name@) && server_rows(entries, allowed)[i]
                == server_row_of(entries[k]) by {
            if i < r0.len() {
                assert(server_rows(entries, allowed)[i] == r0[i]);
                let k = choose|k: int|
                    #![trigger pre[k]]
                    0 <= k < pre.len() && spec_upstream_allowed(allowed, pre[k].name@) && r0[i]
                        == server_row_of(pre[k]);
                assert(entries[k] == pre[k]);
            } else {
                assert(server_rows(entries, allowed)[i] == server_row_of(entries[n]));
            }
        }
        assert forall|k: int|
            0 <= k < entries.len() && spec_upstream_allowed(allowed, #[trigger] entries[k].name@)
                implies server_rows(entries, allowed).contains(server_row_of(entries[k])) by {
            if k < n {
                assert(pre[k] == entries[k]);
                assert(spec_upstream_allowed(allowed, pre[k].name@));
                let j = choose|j: int| 0 <= j < r0.len() && r0[j] == server_row_of(pre[k]);
                assert(server_rows(entries, allowed)[j] == r0[j]);
            } else {
                assert(server_rows(entries, allowed)[server_rows(entries, allowed).len() - 1] == server_row_of(entries[k]));
            }
        }
    }
}

/// An upstream's row counts what its tool policy admits.
proof fn lemma_row_of_counts(e: UpstreamEntry)
    requires
        e.tools@.len() <= usize::MAX,
    ensures
        row_counts(server_row_of(e), e),
{
    lemma_exposed_of_is_filter(e.tools@, e.exposure_policy);
    e.tools@.lemma_filter_len(tool_admitted_by(e.exposure_policy));
}

/// The upstream index as the document lists it: the admitted rows sorted by
/// name.
pub open spec fn server_index(catalog: Seq<UpstreamEntry>, allowed: Option<Seq<Seq<char>>>) -> Seq<GatewayServerRow> {
    bounded_listing(server_rows(catalog, allowed), usize::MAX as nat)
}

/// Law: the upstream index counts, for each admitted upstream, the tools its
/// tool policy admits (hidden tools are never counted) beside its prompt and
/// resource counts; every admitted upstream has a row, and the rows are
/// sorted by name.
pub proof fn law_server_index_counts_exposed_tools(catalog: Seq<UpstreamEntry>, allowed: Option<Seq<Seq<char>>>)
    requires
        forall|k: int| 0 <= k < catalog.len() ==> #[trigger] catalog[k].tools@.len() <= usize::MAX,
    ensures
        crate::bounded::key_sorted(server_index(catalog, allowed)),
        forall|i: int|
            #![trigger server_index(catalog, allowed)[i]]
            0 <= i < server_index(catalog, allowed).len() ==> exists|k: int|
                #![trigger catalog[k]]
                0 <= k < catalog.len() && spec_upstream_allowed(allowed, catalog[k].name@) && row_counts(
                    server_index(catalog, allowed)[i],
                    catalog[k],
                ),
        catalog.len() < usize::MAX ==> forall|k: int|
            0 <= k < catalog.len() && spec_upstream_allowed(allowed, #[trigger] catalog[k].name@) ==> exists|i: int|
                0 <= i < server_index(catalog, allowed).len() && row_counts(#[trigger] server_index(catalog, allowed)[i], catalog[k]),
{
    let items = server_rows(catalog, allowed);
    lemma_server_rows(catalog, allowed);
    law_bounded_listing_holds_smallest(items, usize::MAX as nat);
    assert forall|i: int|
        #![trigger server_index(catalog, allowed)[i]]
        0 <= i < server_index(catalog, allowed).len() implies exists|k: int|
        #![trigger catalog[k]]
        0 <= k < catalog.len() && spec_upstream_allowed(allowed, catalog[k].name@) && row_counts(
            server_index(catalog, allowed)[i],
            catalog[k],
        ) by {
        assert(items.contains(server_index(catalog, allowed)[i]));
        let j = choose|j: int| 0 <= j < items.len() && items[j] == server_index(catalog, allowed)[i];
        let k = choose|k: int|
            #![trigger catalog[k]]
            0 <= k < catalog.len() && spec_upstream_allowed(allowed, catalog[k].name@) && items[j]
                == server_row_of(catalog[k]);
        lemma_row_of_counts(catalog[k]);
        assert(row_counts(server_index(catalog, allowed)[i], catalog[k]));
    }
    assert forall|k: int|
        catalog.len() < usize::MAX && 0 <= k < catalog.len() && spec_upstream_allowed(allowed, #[trigger] catalog[k].name@)
            implies exists|i: int| 0 <= i < server_index(catalog, allowed).len() && row_counts(#[trigger] server_index(catalog, allowed)[i], catalog[k]) by {
        assert(items.len() < usize::MAX);
        assert(items.contains(server_row_of(catalog[k])));
        let j = choose|j: int| 0 <= j < items.len() && items[j] == server_row_of(catalog[k]);
        assert(server_index(catalog, allowed).contains(items[j]));
        let i = choose|i: int| 0 <= i < server_index(catalog, allowed).len() && server_index(catalog, allowed)[i] == items[j];
        lemma_row_of_counts(catalog[k]);
        assert(row_counts(server_index(catalog, allowed)[i], catalog[k]));
    }
}

/// Law: in a catalog whose upstream names are distinct, each index row's
/// tool count is the length of the schema listing of the same upstream.
pub proof fn law_server_row_counts_its_schema_listing(
    catalog: Seq<UpstreamEntry>,
    allowed: Option<Seq<Seq<char>>>,
    i: int,
)
    requires
        forall|k: int| 0 <= k < catalog.len() ==> #[trigger] catalog[k].tools@.len() <= usize::MAX,
        forall|a: int, b: int| 0 <= a < b < catalog.len() ==> #[trigger] catalog[a].name@ != #[trigger] catalog[b].name@,
        0 <= i < server_index(catalog, allowed).len(),
    ensures
        entry_index(catalog, server_index(catalog, allowed)[i].name@) matches Some(k)
            && server_index(catalog, allowed)[i].tool_count == bounded_listing(
            entry_exposed(catalog[k]),
            usize::MAX as nat,
        ).len(),
{
    let rows = server_index(catalog, allowed);
    law_server_index_counts_exposed_tools(catalog, allowed);
    let k = choose|k: int|
        #![trigger catalog[k]]
        0 <= k < catalog.len() && spec_upstream_allowed(allowed, catalog[k].name@) && row_counts(rows[i], catalog[k]);
    lemma_entry_index_first(catalog, rows[i].name@);
    let k2 = entry_index(catalog, rows[i].name@)->Some_0;
    if k2 != k {
        if k < k2 {
            assert(catalog[k].name@ != catalog[k2].name@);
        } else {
            assert(catalog[k2].name@ != catalog[k].name@);
        }
    }
    let e = catalog[k];
    lemma_exposed_of_is_filter(e.tools@, e.exposure_policy);
    e.tools@.lemma_filter_len(tool_admitted_by(e.exposure_policy));
    law_bounded_listing_holds_smallest(entry_exposed(e), usize::MAX as nat);
}

/// Law: an upstream's schema listing holds exactly the tools its tool
/// policy admits, sorted: every listed tool is one of the upstream's tools
/// and admitted, every admitted tool is listed, and there are as many as
/// the policy admits.
pub proof fn law_schema_lists_exactly_the_admitted_tools(e: UpstreamEntry)
    requires
        e.tools@.len() < usize::MAX,
    ensures
        crate::bounded::key_sorted(bounded_listing(entry_exposed(e), usize::MAX as nat)),
        bounded_listing(entry_exposed(e), usize::MAX as nat).len() == e.tools@.filter(
            tool_admitted_by(e.exposure_policy),
        ).len(),
        forall|i: int|
            0 <= i < bounded_listing(entry_exposed(e), usize::MAX as nat).len() ==> e.tools@.contains(
                #[trigger] bounded_listing(entry_exposed(e), usize::MAX as nat)[i],
            ) && e.exposure_policy.spec_matches(bounded_listing(entry_exposed(e), usize::MAX as nat)[i].tool.name@),
        forall|j: int|
            0 <= j < e.tools@.len() && e.exposure_policy.spec_matches(#[trigger] e.tools@[j].tool.name@)
                ==> bounded_listing(entry_exposed(e), usize::MAX as nat).contains(e.tools@[j]),
{
    let f = e.tools@.filter(tool_admitted_by(e.exposure_policy));
    let l = bounded_listing(entry_exposed(e), usize::MAX as nat);
    lemma_exposed_of_is_filter(e.tools@, e.exposure_policy);
    e.tools@.lemma_filter_len(tool_admitted_by(e.exposure_policy));
    law_bounded_listing_holds_smallest(f, usize::MAX as nat);
    assert forall|i: int| 0 <= i < l.len() implies e.tools@.contains(#[trigger] l[i])
        && e.exposure_policy.spec_matches(l[i].tool.name@) by {
        assert(f.contains(l[i]));
        let j = choose|j: int| 0 <= j < f.len() && f[j] == l[i];
        assert(tool_admitted_by(e.exposure_policy)(f[j]));
        e.tools@.lemma_filter_pred(tool_admitted_by(e.exposure_policy), j);
        e.tools@.lemma_filter_contains_rev(tool_admitted_by(e.exposure_policy), f[j]);
    }
    assert forall|j: int|
        0 <= j < e.tools@.len() && e.exposure_policy.spec_matches(#[trigger] e.tools@[j].tool.name@)
            implies l.contains(e.tools@[j]) by {
        e.tools@.lemma_filter_contains(tool_admitted_by(e.exposure_policy), j);
        let m = choose|m: int| 0 <= m < f.len() && f[m] == e.tools@[j];
        assert(l.contains(f[m]));
    }
}

/// The upstream index: one row per registered upstream the scope admits,
/// sorted by name.
pub fn gateway_servers_doc_allowed(catalog: &Vec<UpstreamEntry>, allowed: Option<&Vec<String>>) -> (rows:
    Vec<GatewayServerRow>)
    ensures
        rows@ == bounded_listing(server_rows(catalog@, allowed_view(allowed)), usize::MAX as nat),
        crate::bounded::key_sorted(rows@),
        catalog@.len() < usize::MAX ==> forall|k: int|
            0 <= k < catalog@.len() && spec_upstream_allowed(allowed_view(allowed), #[trigger] catalog@[k].name@)
                ==> exists|i: int| 0 <= i < rows@.len() && row_counts(#[trigger] rows@[i], catalog@[k]),
{
    let mut rows: Vec<GatewayServerRow> = Vec::new();
    let mut i: usize = 0;
    while i < catalog.len()
        invariant
            i <= catalog@.len(),
            rows@ == bounded_listing(
                server_rows(catalog@.subrange(0, i as int), allowed_view(allowed)),
                usize::MAX as nat,
            ),
        decreases catalog.len() - i,
    {
        let e = &catalog[i];
        proof {
            assert(catalog@.subrange(0, i + 1).drop_last() =~= catalog@.subrange(0, i as int));
            assert(catalog@.subrange(0, i + 1).last() == catalog@[i as int]);
        }
        if upstream_allowed(allowed, e.name.as_str()) {
            let tool_count = exposed_tools(e).len();
            let row = GatewayServerRow {
                name: e.name.clone(),
                tool_count,
                prompt_count: e.prompt_count,
                resource_count: e.resource_count,
                tools_routable: e.tools_routable,
            };
            proof {
                assert(row == server_row_of(catalog@[i as int]));
                let items = server_rows(catalog@.subrange(0, i as int), allowed_view(allowed));
                assert(items.push(row).drop_last() =~= items);
            }
            insert_bounded(&mut rows, row, usize::MAX);
        }
        i = i + 1;
    }
    proof {
        assert(catalog@.subrange(0, catalog@.len() as int) =~= catalog@);
        assert forall|k: int| 0 <= k < catalog@.len() implies #[trigger] catalog@[k].tools@.len() <= usize::MAX by {
            assert(catalog@[k].tools.len() == catalog@[k].tools@.len());
        }
        law_server_index_counts_exposed_tools(catalog@, allowed_view(allowed));
        assert(rows@ == server_index(catalog@, allowed_view(allowed)));
    }
    rows
}

/// The upstream index over every registered upstream.
pub fn gateway_servers_doc(catalog: &Vec<UpstreamEntry>) -> (rows: Vec<GatewayServerRow>)
    ensures
        rows@ == bounded_listing(server_rows(catalog@, None), usize::MAX as nat),
{
    gateway_servers_doc_allowed(catalog, None)
}

/// The schema listing of one registered upstream: its exposed tools sorted
/// by name, whatever its health; `None` when the scope excludes it or it is
/// not registered.
pub fn gateway_server_schema_allowed(
    catalog: &Vec<UpstreamEntry>,
    name: &str,
    allowed: Option<&Vec<String>>,
) -> (tools: Option<Vec<UpstreamTool>>)
    ensures
        match tools {
            None => !spec_upstream_allowed(allowed_view(allowed), name@) || entry_index(
                catalog@,
                name@,
            ).is_none(),
            Some(ts) => spec_upstream_allowed(allowed_view(allowed), name@) && (entry_index(
                catalog@,
                name@,
            ) matches Some(k) && ts@ == bounded_listing(
                entry_exposed(catalog@[k]),
                usize::MAX as nat,
            )),
        },
{
    if !upstream_allowed(allowed, name) {
        return None;
    }
    match find_entry(catalog, name) {
        None => None,
        Some(k) => {
            let ex = exposed_tools(&catalog[k]);
            let mut tools: Vec<UpstreamTool> = Vec::new();
            assert(Seq::<UpstreamTool>::empty() + ex@ =~= ex@);
            insert_all_bounded(&mut tools, &ex, usize::MAX, Ghost(Seq::empty()));
            Some(tools)
        },
    }
}

/// The unscoped schema listing of one upstream: `None` exactly when it is
/// not registered.
pub fn gateway_server_schema(catalog: &Vec<UpstreamEntry>, name: &str) -> (tools: Option<Vec<UpstreamTool>>)
    ensures
        match tools {
            None => entry_index(catalog@, name@).is_none(),
            Some(ts) => entry_index(catalog@, name@) matches Some(k) && ts@ == bounded_listing(
                entry_exposed(catalog@[k]),
                usize::MAX as nat,
            ),
        },
{
    gateway_server_schema_allowed(catalog, name, None)
}

/// The tools `policy` exposes, each routed to upstream `name`, in order.
pub open spec fn routed_exposed(name: String, tools: Seq<ToolDescriptor>, policy: ExposurePolicy) -> Seq<
    UpstreamTool,
>
    decreases tools.len(),
{
    if tools.len() == 0 {
        Seq::empty()
    } else {
        let r = routed_exposed(name, tools.drop_last(), policy);
        if policy.spec_matches(tools.last().name@) {
            r.push(UpstreamTool { upstream_name: name, tool: tools.last() })
        } else {
            r
        }
    }
}

/// A schema document: the upstream, its exposed tools sorted by name, and
/// where the listing came from.
pub struct GatewaySchemaDoc {
    pub name: String,
    pub tools: Vec<UpstreamTool>,
    pub health: String,
    pub last_error: Option<String>,
    pub catalog_source: String,
}

/// The schema document of an upstream discovered live for one subject: the
/// tools its policy exposes, sorted by name, reported healthy (the discovery
/// just succeeded) and sourced from the live connection.
pub fn render_subject_scoped_gateway_schema(
    name: &String,
    tools: &Vec<ToolDescriptor>,
    policy: &ExposurePolicy,
) -> (doc: GatewaySchemaDoc)
    ensures
        doc.name == *name,
        doc.tools@ == bounded_listing(routed_exposed(*name, tools@, *policy), usize::MAX as nat),
        doc.health@ == "healthy"@,
        doc.last_error.is_none(),
        doc.catalog_source@ == "subject_scoped_live"@,
{
    let mut rows: Vec<UpstreamTool> = Vec::new();
    let mut i: usize = 0;
    while i < tools.len()
        invariant
            i <= tools@.len(),
            rows@ == bounded_listing(
                routed_exposed(*name, tools@.subrange(0, i as int), *policy),
                usize::MAX as nat,
            ),
        decreases tools.len() - i,
    {
        proof {
            assert(tools@.subrange(0, i + 1).drop_last() =~= tools@.subrange(0, i as int));
            assert(tools@.subrange(0, i + 1).last() == tools@[i as int]);
        }
        if policy.matches(tools[i].name.as_str()) {
            let t = UpstreamTool { upstream_name: name.clone(), tool: tools[i].clone() };
            proof {
                let items = routed_exposed(*name, tools@.subrange(0, i as int), *policy);
                assert(t == UpstreamTool { upstream_name: *name, tool: tools@[i as int] });
                assert(items.push(t).drop_last() =~= items);
            }
            insert_bounded(&mut rows, t, usize::MAX);
        }
        i = i + 1;
    }
    proof {
        assert(tools@.subrange(0, tools@.len() as int) =~= tools@);
        reveal_strlit("healthy");
        reveal_strlit("subject_scoped_live");
    }
    GatewaySchemaDoc {
        name: name.clone(),
        tools: rows,
        health: "healthy".to_string(),
        last_error: None,
        catalog_source: "subject_scoped_live".to_string(),
    }
}

/// One synthetic resource the gateway lists.
pub struct SyntheticResource {
    pub uri: String,
    pub name: String,
    pub description: String,
}

pub open spec fn schema_resource_uri(name: Seq<char>) -> Seq<char> {
    "lab://gateway/"@ + name + "/schema"@
}

pub open spec fn schema_resource_name(name: Seq<char>) -> Seq<char> {
    "gateway/"@ + name + "/schema"@
}

pub open spec fn schema_resource_description(name: Seq<char>) -> Seq<char> {
    "Tool schemas for upstream `"@ + name + "`"@
}

/// The names of the registered upstreams the scope admits, in catalog order.
pub open spec fn allowed_names(entries: Seq<UpstreamEntry>, allowed: Option<Seq<Seq<char>>>) -> Seq<
    Seq<char>,
>
    decreases entries.len(),
{
    if entries.len() == 0 {
        Seq::empty()
    } else {
        let r = allowed_names(entries.drop_last(), allowed);
        if spec_upstream_allowed(allowed, entries.last().name@) {
            r.push(entries.last().name@)
        } else {
            r
        }
    }
}

/// The synthetic resources: the upstream index first, then one schema
/// resource per registered upstream the scope admits, sorted by name.
pub fn gateway_synthetic_resources_allowed(
    catalog: &Vec<UpstreamEntry>,
    allowed: Option<&Vec<String>>,
) -> (out: Vec<SyntheticResource>)
    ensures
        out@.len() >= 1,
        out@[0].uri@ == GATEWAY_SERVERS_URI@,
        out@[0].name@ == "gateway/servers"@,
        out@[0].description@ == "Index of upstream MCP servers registered with the gateway"@,
        exists|names: Seq<Seq<char>>|
            {
                &&& sorted_strict(names)
                &&& names.to_set() == allowed_names(catalog@, allowed_view(allowed)).to_set()
                &&& out@.len() == names.len() + 1
                &&& forall|k: int|
                    0 <= k < names.len() ==> {
                        &&& (#[trigger] out@[k + 1]).uri@ == schema_resource_uri(names[k])
                        &&& out@[k + 1].name@ == schema_resource_name(names[k])
                        &&& out@[k + 1].description@ == schema_resource_description(names[k])
                    }
            },
{
    let mut all: Vec<String> = Vec::new();
    let mut i: usize = 0;
    while i < catalog.len()
        invariant
            i <= catalog@.len(),
            strings_view(all@) == allowed_names(catalog@.subrange(0, i as int), allowed_view(allowed)),
        decreases catalog.len() - i,
    {
        proof {
            assert(catalog@.subrange(0, i + 1).drop_last() =~= catalog@.subrange(0, i as int));
            assert(catalog@.subrange(0, i + 1).last() == catalog@[i as int]);
        }
        if upstream_allowed(allowed, catalog[i].name.as_str()) {
            let ghost a0 = strings_view(all@);
            all.push(catalog[i].name.clone());
            proof {
                assert(strings_view(all@) =~= a0.push(catalog@[i as int].name@));
            }
        }
        i = i + 1;
    }
    proof {
        assert(catalog@.subrange(0, catalog@.len() as int) =~= catalog@);
    }
    let names = sorted_unique(all);
    let mut out: Vec<SyntheticResource> = Vec::new();
    proof {
        reveal_strlit("lab://gateway/servers");
        reveal_strlit("gateway/servers");
        reveal_strlit("Index of upstream MCP servers registered with the gateway");
    }
    out.push(
        SyntheticResource {
            uri: GATEWAY_SERVERS_URI.to_string(),
            name: "gateway/servers".to_string(),
            description: "Index of upstream MCP servers registered with the gateway".to_string(),
        },
    );
    let mut j: usize = 0;
    while j < names.len()
        invariant
            j <= names@.len(),
            out@.len() == j + 1,
            out@[0].uri@ == GATEWAY_SERVERS_URI@,
            out@[0].name@ == "gateway/servers"@,
            out@[0].description@ == "Index of upstream MCP servers registered with the gateway"@,
            forall|k: int|
                0 <= k < j ==> {
                    &&& (#[trigger] out@[k + 1]).uri@ == schema_resource_uri(names@[k]@)
                    &&& out@[k + 1].name@ == schema_resource_name(names@[k]@)
                    &&& out@[k + 1].description@ == schema_resource_description(names@[k]@)
                },
        decreases names.len() - j,
    {
        let n = names[j].as_str();
        let uri = concat_parts(vec!["lab://gateway/", n, "/schema"]);
        let name = concat_parts(vec!["gateway/", n, "/schema"]);
        let description = concat_parts(vec!["Tool schemas for upstream `", n, "`"]);
        proof {
            reveal_strlit("lab://gateway/");
            reveal_strlit("/schema");
            reveal_strlit("gateway/");
            reveal_strlit("Tool schemas for upstream `");
            reveal_strlit("`");
            reveal_with_fuel(concat_views, 4);
        }
        out.push(SyntheticResource { uri, name, description });
        j = j + 1;
    }
    proof {
        assert(strings_view(names@).len() == names@.len());
        assert forall|k: int| 0 <= k < strings_view(names@).len() implies (#[trigger] out@[k
            + 1]).uri@ == schema_resource_uri(strings_view(names@)[k]) by {}
    }
    out
}

/// The synthetic resources over every registered upstream.
pub fn gateway_synthetic_resources(catalog: &Vec<UpstreamEntry>) -> (out: Vec<SyntheticResource>)
    ensures
        out@.len() >= 1,
        out@[0].uri@ == GATEWAY_SERVERS_URI@,
        out@[0].name@ == "gateway/servers"@,
        out@[0].description@ == "Index of upstream MCP servers registered with the gateway"@,
        exists|names: Seq<Seq<char>>|
            {
                &&& sorted_strict(names)
                &&& names.to_set() == allowed_names(catalog@, None).to_set()
                &&& out@.len() == names.len() + 1
                &&& forall|k: int|
                    0 <= k < names.len() ==> {
                        &&& (#[trigger] out@[k + 1]).uri@ == schema_resource_uri(names[k])
                        &&& out@[k + 1].name@ == schema_resource_name(names[k])
                        &&& out@[k + 1].description@ == schema_resource_description(names[k])
                    }
            },
{
    gateway_synthetic_resources_allowed(catalog, None)
}

/// The class of a failed upstream capability call.
#[derive(Clone, Copy, PartialEq, Eq, Structural)]
pub enum CapabilityErrorClass {
    Timeout,
    QueueSaturated,
    ResponseTooLarge,
    Protocol,
    Cancelled,
    InputRequiredRoundsExceeded,
    Mcp,
    Other,
    Transport,
}

pub open spec fn schema_error_kind(class: CapabilityErrorClass, classified: Seq<char>) -> Seq<char> {
    match class {
        CapabilityErrorClass::Timeout => "timeout"@,
        CapabilityErrorClass::QueueSaturated => "queue_saturated"@,
        CapabilityErrorClass::ResponseTooLarge => "response_too_large"@,
        CapabilityErrorClass::Protocol => "decode_error"@,
        CapabilityErrorClass::Cancelled => "cancelled"@,
        CapabilityErrorClass::InputRequiredRoundsExceeded => "confirmation_required"@,
        CapabilityErrorClass::Mcp | CapabilityErrorClass::Other => if classified == "auth_failed"@
            || classified == "auth_required"@ {
            classified
        } else {
            "upstream_error"@
        },
        CapabilityErrorClass::Transport => classified,
    }
}

/// The error kind a failed live schema discovery reports. `classified` is
/// what the upstream-error classifier makes of the failure's text: a
/// transport failure takes it as is, an MCP or other failure only when it is
/// an authentication kind, and the remaining classes have fixed kinds.
pub fn capability_schema_error_kind(class: CapabilityErrorClass, classified: &str) -> (k: String)
    ensures
        k@ == schema_error_kind(class, classified@),
{
    proof {
        reveal_strlit("timeout");
        reveal_strlit("queue_saturated");
        reveal_strlit("response_too_large");
        reveal_strlit("decode_error");
        reveal_strlit("cancelled");
        reveal_strlit("confirmation_required");
        reveal_strlit("auth_failed");
        reveal_strlit("auth_required");
        reveal_strlit("upstream_error");
    }
    match class {
        CapabilityErrorClass::Timeout => "timeout".to_string(),
        CapabilityErrorClass::QueueSaturated => "queue_saturated".to_string(),
        CapabilityErrorClass::ResponseTooLarge => "response_too_large".to_string(),
        CapabilityErrorClass::Protocol => "decode_error".to_string(),
        CapabilityErrorClass::Cancelled => "cancelled".to_string(),
        CapabilityErrorClass::InputRequiredRoundsExceeded => "confirmation_required".to_string(),
        CapabilityErrorClass::Mcp | CapabilityErrorClass::Other => {
            let auth = crate::order::compare_str(classified, "auth_failed") == crate::order::Cmp::Equal
                || crate::order::compare_str(classified, "auth_required") == crate::order::Cmp::Equal;
            if auth {
                classified.to_string()
            } else {
                "upstream_error".to_string()
            }
        },
        CapabilityErrorClass::Transport => classified.to_string(),
    }
}

pub open spec fn schema_error_message(upstream: Seq<char>, error: Seq<char>) -> Seq<char> {
    "subject-scoped discovery for upstream `"@ + upstream + "` failed: "@ + error
}

/// The message of a failed live schema discovery.
pub fn schema_error_message_for(upstream: &str, error: &str) -> (m: String)
    ensures
        m@ == schema_error_message(upstream@, error@),
{
    let m = concat_parts(vec!["subject-scoped discovery for upstream `", upstream, "` failed: ", error]);
    proof {
        reveal_strlit("subject-scoped discovery for upstream `");
        reveal_strlit("` failed: ");
        reveal_with_fuel(concat_views, 5);
    }
    m
}

} // verus!
