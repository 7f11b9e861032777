//! The upstream tool catalog: what each upstream exposes, MCP App ownership of
//! `ui://` resources, and the bounded, deterministic listings built from it.

use vstd::prelude::*;
use vstd::utf8::encode_utf8;
use crate::bounded::{
    bounded_insert, bounded_listing, insert_bounded, key_lt, lower_bound, pair_less, pair_lt,
    SortKeyed,
};
use crate::exposure::ExposurePolicy;
use crate::order::{str_lt, strings_view};
use crate::text::{has_prefix, opt_chars, starts_with, ui_authority, ui_uri_authority};

verus! {

broadcast use vstd::string::group_string_axioms;

/// Hard cap on the number of tools one catalog listing returns.
pub const MAX_UPSTREAM_TOOLS: usize = 1000;

/// Hard cap on the number of resources one listing returns.
pub const MAX_UPSTREAM_RESOURCES: usize = 1000;

/// Hard cap on the number of prompts one listing returns.
pub const MAX_UPSTREAM_PROMPTS: usize = 1000;

/// More eligible OAuth upstreams than this fails subject-scoped discovery closed.
pub const MAX_SUBJECT_SCOPED_UPSTREAMS: usize = 256;

/// Wall-clock budget for one subject-scoped enumeration, in milliseconds.
pub const SUBJECT_SCOPED_ENUMERATION_TIMEOUT_MS: u64 = 10_000;

pub fn clone_opt_string(o: &Option<String>) -> (c: Option<String>)
    ensures
        c == *o,
{
    match o {
        Some(s) => Some(s.clone()),
        None => None,
    }
}

/// The parts of one upstream tool definition that the catalog reads.
///
/// `ui_resource_uri` is `_meta.ui.resourceUri` and `openai_output_template` is
/// `_meta["openai/outputTemplate"]`, each when it is a string;
/// `ui_visible_to_app` is whether `_meta.ui.visibility` lists `"app"`, and
/// `openai_widget_accessible` whether `_meta["openai/widgetAccessible"]` is
/// `true`. `serialized_bytes` is the length of the tool's JSON encoding, and
/// `has_input_schema` whether it declares a non-empty input schema.
#[derive(Debug)]
pub struct ToolDescriptor {
    pub name: String,
    pub description: Option<String>,
    pub serialized_bytes: usize,
    pub has_input_schema: bool,
    pub ui_resource_uri: Option<String>,
    pub openai_output_template: Option<String>,
    pub ui_visible_to_app: bool,
    pub openai_widget_accessible: bool,
}

impl Clone for ToolDescriptor {
    fn clone(&self) -> (c: Self)
        ensures
            c == *self,
    {
        ToolDescriptor {
            name: self.name.clone(),
            description: clone_opt_string(&self.description),
            serialized_bytes: self.serialized_bytes,
            has_input_schema: self.has_input_schema,
            ui_resource_uri: clone_opt_string(&self.ui_resource_uri),
            openai_output_template: clone_opt_string(&self.openai_output_template),
            ui_visible_to_app: self.ui_visible_to_app,
            openai_widget_accessible: self.openai_widget_accessible,
        }
    }
}

/// A tool routed to the upstream that serves it.
#[derive(Debug)]
pub struct UpstreamTool {
    pub upstream_name: String,
    pub tool: ToolDescriptor,
}

impl Clone for UpstreamTool {
    fn clone(&self) -> (c: Self)
        ensures
            c == *self,
    {
        UpstreamTool { upstream_name: self.upstream_name.clone(), tool: self.tool.clone() }
    }
}

/// Tools list in tool-name order, ties broken by upstream name.
impl SortKeyed for UpstreamTool {
    open spec fn sort_key(&self) -> (Seq<char>, Seq<char>) {
        (self.tool.name@, self.upstream_name@)
    }

    fn key_less(&self, other: &Self) -> (b: bool) {
        pair_less(
            self.tool.name.as_str(),
            self.upstream_name.as_str(),
            other.tool.name.as_str(),
            other.upstream_name.as_str(),
        )
    }
}

/// One row of an upstream's tool exposure table.
#[derive(Debug)]
pub struct UpstreamToolExposureRow {
    pub name: String,
    pub description: Option<String>,
    pub exposed: bool,
    pub matched_by: Option<String>,
}

impl Clone for UpstreamToolExposureRow {
    fn clone(&self) -> (c: Self)
        ensures
            c == *self,
    {
        UpstreamToolExposureRow {
            name: self.name.clone(),
            description: clone_opt_string(&self.description),
            exposed: self.exposed,
            matched_by: clone_opt_string(&self.matched_by),
        }
    }
}

impl SortKeyed for UpstreamToolExposureRow {
    open spec fn sort_key(&self) -> (Seq<char>, Seq<char>) {
        (self.name@, Seq::empty())
    }

    fn key_less(&self, other: &Self) -> (b: bool) {
        proof {
            reveal_strlit("");
        }
        pair_less(self.name.as_str(), "", other.name.as_str(), "")
    }
}

/// A candidate owner of a tool name: the upstream and its tool.
impl SortKeyed for (String, UpstreamTool) {
    open spec fn sort_key(&self) -> (Seq<char>, Seq<char>) {
        (self.0@, Seq::empty())
    }

    fn key_less(&self, other: &Self) -> (b: bool) {
        proof {
            reveal_strlit("");
        }
        pair_less(self.0.as_str(), "", other.0.as_str(), "")
    }
}

pub open spec fn allowed_view(allowed: Option<&Vec<String>>) -> Option<Seq<Seq<char>>> {
    match allowed {
        None => None,
        Some(v) => Some(strings_view(v@)),
    }
}

pub open spec fn spec_upstream_allowed(allowed: Option<Seq<Seq<char>>>, upstream: Seq<char>) -> bool {
    match allowed {
        None => true,
        Some(names) => names.contains(upstream),
    }
}

/// Whether a route scope (`None`: unscoped) admits `upstream`.
pub fn upstream_allowed(allowed: Option<&Vec<String>>, upstream: &str) -> (b: bool)
    ensures
        b == spec_upstream_allowed(allowed_view(allowed), upstream@),
{
    match allowed {
        None => true,
        Some(names) => {
            let mut i: usize = 0;
            while i < names.len()
                invariant
                    i <= names@.len(),
                    allowed == Some(names),
                    forall|k: int| 0 <= k < i ==> names@[k]@ != upstream@,
                decreases names.len() - i,
            {
                if crate::order::compare_str(names[i].as_str(), upstream) == crate::order::Cmp::Equal {
                    assert(strings_view(names@).len() == names@.len());
                    assert(strings_view(names@)[i as int] == upstream@);
                    assert(strings_view(names@).contains(upstream@));
                    return true;
                }
                i = i + 1;
            }
            assert(!strings_view(names@).contains(upstream@)) by {
                if strings_view(names@).contains(upstream@) {
                    let k = choose|k: int|
                        0 <= k < strings_view(names@).len() && strings_view(names@)[k] == upstream@;
                    assert(names@[k]@ == upstream@);
                }
            }
            false
        },
    }
}

pub open spec fn sat_add(a: int, b: int) -> int {
    if a + b > usize::MAX {
        usize::MAX as int
    } else {
        a + b
    }
}

/// Catalog cost of one routed tool: its upstream name plus its JSON encoding.
pub open spec fn spec_tool_catalog_bytes(t: UpstreamTool) -> int {
    sat_add(encode_utf8(t.upstream_name@).len() as int, t.tool.serialized_bytes as int)
}

pub fn tool_catalog_bytes(tool: &UpstreamTool) -> (n: usize)
    ensures
        n == spec_tool_catalog_bytes(*tool),
{
    tool.upstream_name.as_str().as_bytes().len().saturating_add(tool.tool.serialized_bytes)
}

} // verus!

verus! {

// ---------------------------------------------------------------------------
// MCP App metadata
// ---------------------------------------------------------------------------

pub open spec fn ui_binding(o: Option<String>) -> Option<Seq<char>> {
    match o {
        Some(s) => if has_prefix(s@, "ui://"@) {
            Some(s@)
        } else {
            None
        },
        None => None,
    }
}

/// The standard binding (`_meta.ui.resourceUri`), then the OpenAI one
/// (`openai/outputTemplate`); each only when it is a `ui://` URI.
pub open spec fn resource_bindings(t: ToolDescriptor) -> (Option<Seq<char>>, Option<Seq<char>>) {
    (ui_binding(t.ui_resource_uri), ui_binding(t.openai_output_template))
}

pub open spec fn has_binding(t: ToolDescriptor) -> bool {
    resource_bindings(t).0.is_some() || resource_bindings(t).1.is_some()
}

pub open spec fn first_binding(t: ToolDescriptor) -> Option<Seq<char>> {
    if resource_bindings(t).0.is_some() {
        resource_bindings(t).0
    } else {
        resource_bindings(t).1
    }
}

pub open spec fn binding_exposed(b: Option<Seq<char>>, policy: ExposurePolicy) -> bool {
    match b {
        Some(uri) => policy.spec_matches(uri),
        None => true,
    }
}

/// Every `ui://` binding of `t` is exposed by the resource policy.
pub open spec fn bindings_exposed(t: ToolDescriptor, policy: ExposurePolicy) -> bool {
    binding_exposed(resource_bindings(t).0, policy) && binding_exposed(
        resource_bindings(t).1,
        policy,
    )
}

/// A tool that a rendered MCP App may call back.
pub open spec fn is_app_callback(t: ToolDescriptor) -> bool {
    t.ui_visible_to_app || t.openai_widget_accessible
}

pub open spec fn host_visible_with_owner(
    t: ToolDescriptor,
    has_exposed_owner: bool,
    policy: ExposurePolicy,
) -> bool {
    if has_binding(t) {
        bindings_exposed(t, policy)
    } else {
        has_exposed_owner && is_app_callback(t)
    }
}

pub open spec fn owns_resource(t: ToolDescriptor, uri: Seq<char>) -> bool {
    resource_bindings(t).0 == Some(uri) || resource_bindings(t).1 == Some(uri)
}

/// `ui` when `o` holds a `ui://` URI.
fn ui_binding_of(o: &Option<String>) -> (b: Option<&String>)
    ensures
        match b {
            Some(s) => ui_binding(*o) == Some(s@),
            None => ui_binding(*o).is_none(),
        },
{
    proof {
        reveal_strlit("ui://");
    }
    match o {
        Some(s) => if starts_with(s.as_str(), "ui://") {
            Some(s)
        } else {
            None
        },
        None => None,
    }
}

/// The authority of a `ui://` URI, as MCP App ownership uses it.
pub fn mcp_ui_uri_authority(uri: &str) -> (a: Option<String>)
    ensures
        opt_chars(a) == ui_authority(uri@),
{
    ui_uri_authority(uri)
}

/// The first `ui://` resource a tool binds, if any.
pub fn tool_mcp_app_ui_resource_uri(tool: &UpstreamTool) -> (u: Option<&String>)
    ensures
        match u {
            Some(s) => first_binding(tool.tool) == Some(s@),
            None => first_binding(tool.tool).is_none(),
        },
{
    match ui_binding_of(&tool.tool.ui_resource_uri) {
        Some(s) => Some(s),
        None => ui_binding_of(&tool.tool.openai_output_template),
    }
}

/// Whether the tool binds `uri` as its MCP App UI.
pub fn mcp_tool_owns_mcp_app_resource(tool: &ToolDescriptor, uri: &str) -> (b: bool)
    ensures
        b == owns_resource(*tool, uri@),
{
    let a = match ui_binding_of(&tool.ui_resource_uri) {
        Some(s) => crate::order::compare_str(s.as_str(), uri) == crate::order::Cmp::Equal,
        None => false,
    };
    let b = match ui_binding_of(&tool.openai_output_template) {
        Some(s) => crate::order::compare_str(s.as_str(), uri) == crate::order::Cmp::Equal,
        None => false,
    };
    a || b
}

pub fn mcp_tool_resource_bindings_are_exposed(tool: &ToolDescriptor, policy: &ExposurePolicy) -> (b:
    bool)
    ensures
        b == bindings_exposed(*tool, *policy),
{
    let a = match ui_binding_of(&tool.ui_resource_uri) {
        Some(s) => policy.matches(s.as_str()),
        None => true,
    };
    let b = match ui_binding_of(&tool.openai_output_template) {
        Some(s) => policy.matches(s.as_str()),
        None => true,
    };
    a && b
}

pub fn mcp_tool_has_binding(tool: &ToolDescriptor) -> (b: bool)
    ensures
        b == has_binding(*tool),
{
    ui_binding_of(&tool.ui_resource_uri).is_some() || ui_binding_of(
        &tool.openai_output_template,
    ).is_some()
}

/// Whether the tool binds an MCP App `ui://` resource.
pub fn tool_has_mcp_app_ui_resource(tool: &UpstreamTool) -> (b: bool)
    ensures
        b == has_binding(tool.tool),
{
    mcp_tool_has_binding(&tool.tool)
}

pub fn mcp_tool_is_mcp_app_callback(tool: &ToolDescriptor) -> (b: bool)
    ensures
        b == is_app_callback(*tool),
{
    tool.ui_visible_to_app || tool.openai_widget_accessible
}

/// A tool the host may show: a bound UI whose resources are all exposed, or an
/// app callback on an upstream that has an exposed UI owner.
pub fn mcp_tool_is_mcp_app_host_visible_with_owner(
    tool: &ToolDescriptor,
    has_exposed_owner: bool,
    resource_policy: &ExposurePolicy,
) -> (b: bool)
    ensures
        b == host_visible_with_owner(*tool, has_exposed_owner, *resource_policy),
{
    if mcp_tool_has_binding(tool) {
        return mcp_tool_resource_bindings_are_exposed(tool, resource_policy);
    }
    has_exposed_owner && mcp_tool_is_mcp_app_callback(tool)
}

pub open spec fn is_exposed_owner(t: ToolDescriptor, policy: ExposurePolicy) -> bool {
    has_binding(t) && bindings_exposed(t, policy)
}

/// Some tool of the upstream binds a UI whose resources are all exposed.
pub fn upstream_has_exposed_mcp_app_owner(tools: &Vec<UpstreamTool>, resource_policy: &ExposurePolicy) -> (b:
    bool)
    ensures
        b == exists|k: int|
            0 <= k < tools@.len() && #[trigger] is_exposed_owner(tools@[k].tool, *resource_policy),
{
    let mut i: usize = 0;
    while i < tools.len()
        invariant
            i <= tools@.len(),
            forall|k: int| 0 <= k < i ==> !#[trigger] is_exposed_owner(tools@[k].tool, *resource_policy),
        decreases tools.len() - i,
    {
        if mcp_tool_has_binding(&tools[i].tool) && mcp_tool_resource_bindings_are_exposed(
            &tools[i].tool,
            resource_policy,
        ) {
            assert(is_exposed_owner(tools@[i as int].tool, *resource_policy));
            return true;
        }
        i = i + 1;
    }
    false
}

} // verus!

verus! {

// ---------------------------------------------------------------------------
// Bounded insertions
// ---------------------------------------------------------------------------

pub fn insert_bounded_tool_row(
    rows: &mut Vec<UpstreamToolExposureRow>,
    row: UpstreamToolExposureRow,
    limit: usize,
)
    ensures
        final(rows)@ == bounded_insert(old(rows)@, row, limit as nat),
{
    insert_bounded(rows, row, limit);
}

pub fn insert_bounded_upstream_tool(tools: &mut Vec<UpstreamTool>, tool: UpstreamTool, limit: usize)
    ensures
        final(tools)@ == bounded_insert(old(tools)@, tool, limit as nat),
{
    insert_bounded(tools, tool, limit);
}

pub fn insert_bounded_name(names: &mut Vec<String>, name: String, limit: usize)
    ensures
        final(names)@ == bounded_insert(old(names)@, name, limit as nat),
{
    insert_bounded(names, name, limit);
}

/// Insert one subject-scoped tool, routed to `upstream`, into a bounded listing.
pub fn insert_bounded_subject_tool(
    tools: &mut Vec<UpstreamTool>,
    upstream: String,
    tool: ToolDescriptor,
    limit: usize,
)
    ensures
        final(tools)@ == bounded_insert(
            old(tools)@,
            UpstreamTool { upstream_name: upstream, tool },
            limit as nat,
        ),
{
    insert_bounded(tools, UpstreamTool { upstream_name: upstream, tool }, limit);
}

/// One tool name of a bounded, ambiguity-aware listing: `tool` is `None` once a
/// second upstream has claimed the name.
#[derive(Debug)]
pub struct NameSlot {
    pub name: String,
    pub tool: Option<UpstreamTool>,
}

impl SortKeyed for NameSlot {
    open spec fn sort_key(&self) -> (Seq<char>, Seq<char>) {
        (self.name@, Seq::empty())
    }

    fn key_less(&self, other: &Self) -> (b: bool) {
        proof {
            reveal_strlit("");
        }
        pair_less(self.name.as_str(), "", other.name.as_str(), "")
    }
}

/// Index of the slot named `name`.
pub open spec fn find_slot(s: Seq<NameSlot>, name: Seq<char>) -> Option<int>
    decreases s.len(),
{
    if s.len() == 0 {
        None
    } else if s[0].name@ == name {
        Some(0)
    } else {
        match find_slot(s.drop_first(), name) {
            Some(k) => Some(k + 1),
            None => None,
        }
    }
}

pub proof fn lemma_find_slot(s: Seq<NameSlot>, name: Seq<char>)
    ensures
        match find_slot(s, name) {
            Some(k) => 0 <= k < s.len() && s[k].name@ == name,
            None => forall|i: int| 0 <= i < s.len() ==> #[trigger] s[i].name@ != name,
        },
    decreases s.len(),
{
    if s.len() > 0 && s[0].name@ != name {
        lemma_find_slot(s.drop_first(), name);
        match find_slot(s.drop_first(), name) {
            Some(k) => {},
            None => {
                assert forall|i: int| 0 <= i < s.len() implies #[trigger] s[i].name@ != name by {
                    if i > 0 {
                        assert(s[i] == s.drop_first()[i - 1]);
                    }
                }
            },
        }
    }
}

/// Slots strictly increasing by name.
pub open spec fn slots_sorted(s: Seq<NameSlot>) -> bool {
    forall|i: int, j: int| 0 <= i < j < s.len() ==> str_lt(#[trigger] s[i].name@, #[trigger] s[j].name@)
}

/// One insertion into the ambiguity-aware listing: a name already present is
/// withheld from then on; a new name enters in order while there is room, or
/// displaces the largest name when it sorts before it.
pub open spec fn unambiguous_insert(s: Seq<NameSlot>, tool: UpstreamTool, limit: nat) -> Seq<NameSlot> {
    if limit == 0 {
        s
    } else {
        match find_slot(s, tool.tool.name@) {
            Some(k) => s.update(k, NameSlot { name: s[k].name, tool: None }),
            None => {
                let slot = NameSlot { name: tool.tool.name, tool: Some(tool) };
                let p = lower_bound(s, slot) as int;
                if s.len() < limit {
                    s.insert(p, slot)
                } else if s.len() > 0 && str_lt(tool.tool.name@, s.last().name@) {
                    s.insert(p, slot).drop_last()
                } else {
                    s
                }
            },
        }
    }
}

/// The tools of the slots that were never claimed twice, in name order.
pub open spec fn slot_tools(s: Seq<NameSlot>) -> Seq<UpstreamTool>
    decreases s.len(),
{
    if s.len() == 0 {
        Seq::empty()
    } else {
        match s.last().tool {
            Some(t) => slot_tools(s.drop_last()).push(t),
            None => slot_tools(s.drop_last()),
        }
    }
}

pub fn insert_bounded_unambiguous_upstream_tool(
    tools: &mut Vec<NameSlot>,
    tool: UpstreamTool,
    limit: usize,
)
    ensures
        final(tools)@ == unambiguous_insert(old(tools)@, tool, limit as nat),
{
    if limit == 0 {
        return;
    }
    let ghost s = tools@;
    proof {
        lemma_find_slot(s, tool.tool.name@);
    }
    let mut i: usize = 0;
    while i < tools.len()
        invariant
            tools@ == s,
            s == old(tools)@,
            limit > 0,
            i <= s.len(),
            forall|k: int| 0 <= k < i ==> #[trigger] s[k].name@ != tool.tool.name@,
            match find_slot(s, tool.tool.name@) {
                Some(k) => 0 <= k < s.len() && s[k].name@ == tool.tool.name@,
                None => forall|k: int| 0 <= k < s.len() ==> #[trigger] s[k].name@ != tool.tool.name@,
            },
        decreases s.len() - i,
    {
        if crate::order::compare_str(tools[i].name.as_str(), tool.tool.name.as_str())
            == crate::order::Cmp::Equal {
            proof {
                lemma_find_slot_first(s, tool.tool.name@, i as int);
            }
            let name = tools[i].name.clone();
            tools.set(i, NameSlot { name, tool: None });
            assert(find_slot(s, tool.tool.name@) == Some(i as int));
            assert(tools@ == s.update(i as int, NameSlot { name: s[i as int].name, tool: None }));
            return;
        }
        i = i + 1;
    }
    let n = tools.len();
    let name = tool.tool.name.clone();
    let slot = NameSlot { name, tool: Some(tool) };
    if n < limit {
        insert_at_lower_bound(tools, slot);
    } else if n > 0 && crate::order::str_less(slot.name.as_str(), tools[n - 1].name.as_str()) {
        insert_at_lower_bound(tools, slot);
        tools.pop();
    }
}

proof fn lemma_find_slot_first(s: Seq<NameSlot>, name: Seq<char>, i: int)
    requires
        0 <= i < s.len(),
        s[i].name@ == name,
        forall|k: int| 0 <= k < i ==> #[trigger] s[k].name@ != name,
    ensures
        find_slot(s, name) == Some(i),
    decreases i,
{
    if i > 0 {
        assert(s[0].name@ != name);
        assert forall|k: int| 0 <= k < i - 1 implies #[trigger] s.drop_first()[k].name@ != name by {
            assert(s.drop_first()[k] == s[k + 1]);
        }
        lemma_find_slot_first(s.drop_first(), name, i - 1);
    }
}

/// Insert `x` before the first slot that does not sort below it.
fn insert_at_lower_bound(v: &mut Vec<NameSlot>, x: NameSlot)
    ensures
        final(v)@ == old(v)@.insert(lower_bound(old(v)@, x) as int, x),
{
    let ghost s = v@;
    let n = v.len();
    let mut i: usize = 0;
    proof {
        assert(s.subrange(0, n as int) =~= s);
    }
    while i < n && v[i].key_less(&x)
        invariant
            v@ == s,
            n == s.len(),
            i <= n,
            lower_bound(s, x) == i + lower_bound(s.subrange(i as int, n as int), x),
        decreases n - i,
    {
        proof {
            let rest = s.subrange(i as int, n as int);
            assert(rest[0] == s[i as int]);
            assert(rest.drop_first() =~= s.subrange(i + 1, n as int));
        }
        i = i + 1;
    }
    proof {
        let rest = s.subrange(i as int, n as int);
        if i < n {
            assert(rest[0] == s[i as int]);
        }
        assert(lower_bound(rest, x) == 0);
    }
    v.insert(i, x);
}

/// The tools of a finished ambiguity-aware listing, in name order.
pub fn finish_unambiguous_upstream_tools(tools: Vec<NameSlot>) -> (out: Vec<UpstreamTool>)
    ensures
        out@ == slot_tools(tools@),
{
    let mut out: Vec<UpstreamTool> = Vec::new();
    let mut i: usize = 0;
    while i < tools.len()
        invariant
            i <= tools@.len(),
            out@ == slot_tools(tools@.subrange(0, i as int)),
        decreases tools.len() - i,
    {
        proof {
            assert(tools@.subrange(0, i + 1).drop_last() =~= tools@.subrange(0, i as int));
        }
        match &tools[i].tool {
            Some(t) => out.push(t.clone()),
            None => {},
        }
        i = i + 1;
    }
    proof {
        assert(tools@.subrange(0, tools@.len() as int) =~= tools@);
    }
    out
}

/// Law: the ambiguity-aware listing stays strictly ordered by name.
pub proof fn law_unambiguous_insert_keeps_names_sorted(s: Seq<NameSlot>, tool: UpstreamTool, limit: nat)
    requires
        slots_sorted(s),
    ensures
        slots_sorted(unambiguous_insert(s, tool, limit)),
{
    crate::order::lemma_str_order();
    crate::bounded::lemma_pair_order();
    lemma_find_slot(s, tool.tool.name@);
    let r = unambiguous_insert(s, tool, limit);
    if limit > 0 {
        match find_slot(s, tool.tool.name@) {
            Some(k) => {
                assert forall|i: int, j: int| 0 <= i < j < r.len() implies str_lt(
                    #[trigger] r[i].name@,
                    #[trigger] r[j].name@,
                ) by {
                    assert(r[i].name@ == s[i].name@ && r[j].name@ == s[j].name@);
                }
            },
            None => {
                let slot = NameSlot { name: tool.tool.name, tool: Some(tool) };
                crate::bounded::lemma_lower_bound(s, slot);
                let p = lower_bound(s, slot) as int;
                let t = s.insert(p, slot);
                // Before `p` every name is smaller; from `p` on every name is larger.
                if p < s.len() {
                    assert(!key_lt(s[p], slot));
                    assert(!str_lt(s[p].name@, slot.name@));
                    assert(s[p].name@ != slot.name@);
                    assert(str_lt(slot.name@, s[p].name@) || slot.name@ == s[p].name@ || str_lt(
                        s[p].name@,
                        slot.name@,
                    ));
                    assert(str_lt(slot.name@, s[p].name@));
                }
                assert forall|i: int| p <= i < s.len() implies str_lt(slot.name@, #[trigger] s[i].name@) by {
                    if i > p {
                        assert(str_lt(s[p].name@, s[i].name@));
                        assert(str_lt(slot.name@, s[p].name@));
                    }
                }
                assert forall|i: int, j: int| 0 <= i < j < t.len() implies str_lt(
                    #[trigger] t[i].name@,
                    #[trigger] t[j].name@,
                ) by {
                    if j < p {
                        assert(t[i] == s[i] && t[j] == s[j]);
                    } else if j == p {
                        assert(t[i] == s[i]);
                        assert(key_lt(s[i], slot));
                    } else if i < p {
                        assert(t[i] == s[i] && t[j] == s[j - 1]);
                        assert(key_lt(s[i], slot));
                    } else if i == p {
                        assert(t[j] == s[j - 1]);
                    } else {
                        assert(t[i] == s[i - 1] && t[j] == s[j - 1]);
                    }
                }
                if s.len() >= limit && s.len() > 0 && str_lt(tool.tool.name@, s.last().name@) {
                    let u = t.drop_last();
                    assert forall|i: int, j: int| 0 <= i < j < u.len() implies str_lt(
                        #[trigger] u[i].name@,
                        #[trigger] u[j].name@,
                    ) by {
                        assert(u[i] == t[i] && u[j] == t[j]);
                    }
                }
            },
        }
    }
}

/// Law: a tool name claimed by two upstreams is never handed out, even when
/// the listing is full.
pub proof fn law_repeated_name_is_withheld(
    s: Seq<NameSlot>,
    first: UpstreamTool,
    second: UpstreamTool,
    limit: nat,
)
    requires
        slots_sorted(s),
        first.tool.name@ == second.tool.name@,
        forall|i: int| 0 <= i < s.len() && #[trigger] s[i].name@ == first.tool.name@ ==> s[i].tool.is_none(),
    ensures
        ({
            let r = unambiguous_insert(unambiguous_insert(s, first, limit), second, limit);
            forall|i: int| 0 <= i < r.len() && #[trigger] r[i].name@ == first.tool.name@ ==> r[i].tool.is_none()
        }),
{
    let name = first.tool.name@;
    let s1 = unambiguous_insert(s, first, limit);
    lemma_find_slot(s, name);
    lemma_find_slot(s1, name);
    law_unambiguous_insert_keeps_names_sorted(s, first, limit);
    if limit > 0 {
        match find_slot(s1, name) {
            Some(k) => {
                let r = unambiguous_insert(s1, second, limit);
                assert forall|i: int| 0 <= i < r.len() && #[trigger] r[i].name@ == name implies r[i].tool.is_none() by {
                    if i != k {
                        assert(r[i] == s1[i]);
                        assert(s1[i].name@ != name) by {
                            crate::order::lemma_str_order();
                            if i < k {
                                assert(str_lt(s1[i].name@, s1[k].name@));
                            } else {
                                assert(str_lt(s1[k].name@, s1[i].name@));
                            }
                        }
                    }
                }
            },
            None => {
                // The first claim did not enter, so the listing was full and the
                // name sorts last; the second claim is refused the same way.
                match find_slot(s, name) {
                    Some(k) => {
                        assert(s1[k].name@ == name);
                    },
                    None => {
                        let slot = NameSlot { name: first.tool.name, tool: Some(first) };
                        crate::bounded::lemma_lower_bound(s, slot);
                        if s.len() < limit || (s.len() > 0 && str_lt(name, s.last().name@)) {
                            let p = lower_bound(s, slot) as int;
                            assert(s.insert(p, slot)[p].name@ == name);
                            if s.len() >= limit {
                                assert(p < s.len()) by {
                                    if p == s.len() {
                                        assert(key_lt(s[s.len() - 1], slot));
                                        crate::order::lemma_str_order();
                                    }
                                }
                            }
                            assert(s1[p].name@ == name);
                        }
                        assert(s1 == s);
                    },
                }
            },
        }
    }
}

} // verus!

verus! {

// ---------------------------------------------------------------------------
// The catalog
// ---------------------------------------------------------------------------

/// What the catalog knows of one connected upstream.
///
/// Each `*_routable` flag is whether that capability's health currently
/// admits traffic. `tools` holds one entry per tool name.
#[derive(Debug)]
pub struct UpstreamEntry {
    pub name: String,
    pub tools_routable: bool,
    pub resources_routable: bool,
    pub prompts_routable: bool,
    pub skills_routable: bool,
    pub proxy_resources: bool,
    pub proxy_skills: bool,
    pub exposure_policy: ExposurePolicy,
    pub resource_exposure_policy: ExposurePolicy,
    pub skill_exposure_policy: ExposurePolicy,
    pub tools: Vec<UpstreamTool>,
    /// Native URIs of the resources the upstream last listed.
    pub resource_uris: Vec<String>,
    pub resource_count: usize,
    pub prompt_count: usize,
    pub skill_count: usize,
    pub skill_names: Vec<String>,
    pub supports_skills: Option<bool>,
}

/// The tools of `tools` that `policy` exposes, in order.
pub open spec fn exposed_of(tools: Seq<UpstreamTool>, policy: ExposurePolicy) -> Seq<UpstreamTool>
    decreases tools.len(),
{
    if tools.len() == 0 {
        Seq::empty()
    } else {
        let r = exposed_of(tools.drop_last(), policy);
        if policy.spec_matches(tools.last().tool.name@) {
            r.push(tools.last())
        } else {
            r
        }
    }
}

pub open spec fn entry_exposed(e: UpstreamEntry) -> Seq<UpstreamTool> {
    exposed_of(e.tools@, e.exposure_policy)
}

/// An upstream whose tools a scoped listing includes.
pub open spec fn entry_listed(e: UpstreamEntry, allowed: Option<Seq<Seq<char>>>) -> bool {
    spec_upstream_allowed(allowed, e.name@) && e.tools_routable
}

/// Every exposed tool of every listed upstream, in catalog order.
pub open spec fn catalog_candidates(
    entries: Seq<UpstreamEntry>,
    allowed: Option<Seq<Seq<char>>>,
) -> Seq<UpstreamTool>
    decreases entries.len(),
{
    if entries.len() == 0 {
        Seq::empty()
    } else {
        let r = catalog_candidates(entries.drop_last(), allowed);
        if entry_listed(entries.last(), allowed) {
            r + entry_exposed(entries.last())
        } else {
            r
        }
    }
}

pub open spec fn tool_names(ts: Seq<UpstreamTool>) -> Seq<String> {
    ts.map_values(|t: UpstreamTool| t.tool.name)
}

/// The longest prefix of `ts` whose running (saturating) byte total, starting
/// from `used`, stays within `limit`.
pub open spec fn byte_prefix(ts: Seq<UpstreamTool>, used: int, limit: int) -> Seq<UpstreamTool>
    decreases ts.len(),
{
    if ts.len() == 0 {
        Seq::empty()
    } else {
        let next = sat_add(used, spec_tool_catalog_bytes(ts[0]));
        if next > limit {
            Seq::empty()
        } else {
            seq![ts[0]] + byte_prefix(ts.drop_first(), next, limit)
        }
    }
}

/// The exposed tools of one entry.
pub fn exposed_tools(entry: &UpstreamEntry) -> (v: Vec<UpstreamTool>)
    ensures
        v@ == entry_exposed(*entry),
{
    let mut v: Vec<UpstreamTool> = Vec::new();
    let mut i: usize = 0;
    while i < entry.tools.len()
        invariant
            i <= entry.tools@.len(),
            v@ == exposed_of(entry.tools@.subrange(0, i as int), entry.exposure_policy),
        decreases entry.tools.len() - i,
    {
        proof {
            assert(entry.tools@.subrange(0, i + 1).drop_last() =~= entry.tools@.subrange(0, i as int));
        }
        if entry.exposure_policy.matches(entry.tools[i].tool.name.as_str()) {
            v.push(entry.tools[i].clone());
        }
        i = i + 1;
    }
    proof {
        assert(entry.tools@.subrange(0, entry.tools@.len() as int) =~= entry.tools@);
    }
    v
}

proof fn lemma_listing_push<T: SortKeyed>(seen: Seq<T>, extra: Seq<T>, j: int, limit: nat)
    requires
        0 <= j < extra.len(),
    ensures
        bounded_listing(seen + extra.subrange(0, j + 1), limit) == bounded_insert(
            bounded_listing(seen + extra.subrange(0, j), limit),
            extra[j],
            limit,
        ),
{
    let s = seen + extra.subrange(0, j + 1);
    assert(s.drop_last() =~= seen + extra.subrange(0, j));
    assert(s.last() == extra[j]);
}

proof fn lemma_candidates_step(entries: Seq<UpstreamEntry>, i: int, allowed: Option<Seq<Seq<char>>>)
    requires
        0 <= i < entries.len(),
    ensures
        catalog_candidates(entries.subrange(0, i + 1), allowed) == if entry_listed(
            entries[i],
            allowed,
        ) {
            catalog_candidates(entries.subrange(0, i), allowed) + entry_exposed(entries[i])
        } else {
            catalog_candidates(entries.subrange(0, i), allowed)
        },
{
    assert(entries.subrange(0, i + 1).drop_last() =~= entries.subrange(0, i));
}

/// Insert every tool of `extra`, in order, into a bounded listing.
pub(crate) fn insert_all_bounded(
    cands: &mut Vec<UpstreamTool>,
    extra: &Vec<UpstreamTool>,
    limit: usize,
    Ghost(seen): Ghost<Seq<UpstreamTool>>,
)
    requires
        old(cands)@ == bounded_listing(seen, limit as nat),
    ensures
        final(cands)@ == bounded_listing(seen + extra@, limit as nat),
{
    let mut j: usize = 0;
    while j < extra.len()
        invariant
            j <= extra@.len(),
            cands@ == bounded_listing(seen + extra@.subrange(0, j as int), limit as nat),
        decreases extra.len() - j,
    {
        proof {
            lemma_listing_push(seen, extra@, j as int, limit as nat);
        }
        insert_bounded(cands, extra[j].clone(), limit);
        j = j + 1;
    }
    proof {
        assert(extra@.subrange(0, extra@.len() as int) =~= extra@);
    }
}

/// The `limit` smallest exposed tools of the listed upstreams, by tool name
/// then upstream name.
pub fn bounded_catalog_candidates(
    catalog: &Vec<UpstreamEntry>,
    allowed: Option<&Vec<String>>,
    limit: usize,
) -> (cands: Vec<UpstreamTool>)
    ensures
        cands@ == bounded_listing(
            catalog_candidates(catalog@, allowed_view(allowed)),
            limit as nat,
        ),
{
    let mut cands: Vec<UpstreamTool> = Vec::new();
    let ghost mut seen: Seq<UpstreamTool> = Seq::empty();
    let mut i: usize = 0;
    while i < catalog.len()
        invariant
            i <= catalog@.len(),
            seen == catalog_candidates(catalog@.subrange(0, i as int), allowed_view(allowed)),
            cands@ == bounded_listing(seen, limit as nat),
        decreases catalog.len() - i,
    {
        proof {
            lemma_candidates_step(catalog@, i as int, allowed_view(allowed));
        }
        let e = &catalog[i];
        if upstream_allowed(allowed, e.name.as_str()) && e.tools_routable {
            let ex = exposed_tools(e);
            insert_all_bounded(&mut cands, &ex, limit, Ghost(seen));
            proof {
                seen = seen + ex@;
            }
        }
        i = i + 1;
    }
    proof {
        assert(catalog@.subrange(0, catalog@.len() as int) =~= catalog@);
    }
    cands
}

/// Keep the longest prefix of `cands` whose catalog bytes fit in `byte_limit`.
pub fn byte_bounded_prefix(cands: &Vec<UpstreamTool>, byte_limit: usize) -> (tools: Vec<UpstreamTool>)
    ensures
        tools@ == byte_prefix(cands@, 0, byte_limit as int),
{
    let mut tools: Vec<UpstreamTool> = Vec::new();
    let mut used: usize = 0;
    let mut k: usize = 0;
    let n = cands.len();
    proof {
        assert(cands@.subrange(0, n as int) =~= cands@);
    }
    while k < n
        invariant
            k <= n == cands@.len(),
            used <= byte_limit,
            byte_prefix(cands@, 0, byte_limit as int) == tools@ + byte_prefix(
                cands@.subrange(k as int, n as int),
                used as int,
                byte_limit as int,
            ),
        decreases n - k,
    {
        let rest = Ghost(cands@.subrange(k as int, n as int));
        proof {
            assert(rest@[0] == cands@[k as int]);
            assert(rest@.drop_first() =~= cands@.subrange(k + 1, n as int));
        }
        let b = tool_catalog_bytes(&cands[k]);
        if used.saturating_add(b) > byte_limit {
            assert(byte_prefix(rest@, used as int, byte_limit as int) =~= Seq::<UpstreamTool>::empty());
            assert(tools@ + Seq::<UpstreamTool>::empty() =~= tools@);
            return tools;
        }
        used = used.saturating_add(b);
        tools.push(cands[k].clone());
        proof {
            assert(tools@ + byte_prefix(cands@.subrange(k + 1, n as int), used as int, byte_limit as int)
                =~= tools@.drop_last() + (seq![cands@[k as int]] + byte_prefix(
                cands@.subrange(k + 1, n as int),
                used as int,
                byte_limit as int,
            )));
        }
        k = k + 1;
    }
    proof {
        assert(byte_prefix(cands@.subrange(n as int, n as int), used as int, byte_limit as int)
            =~= Seq::<UpstreamTool>::empty());
        assert(tools@ + Seq::<UpstreamTool>::empty() =~= tools@);
    }
    tools
}

/// Healthy, exposed tools of the upstreams a route scope admits: the
/// [`MAX_UPSTREAM_TOOLS`] smallest by tool then upstream name, cut further to
/// the longest prefix that fits `byte_limit` serialized bytes.
pub fn healthy_tools_allowed(
    catalog: &Vec<UpstreamEntry>,
    allowed: Option<&Vec<String>>,
    byte_limit: usize,
) -> (tools: Vec<UpstreamTool>)
    ensures
        tools@ == byte_prefix(
            bounded_listing(
                catalog_candidates(catalog@, allowed_view(allowed)),
                MAX_UPSTREAM_TOOLS as nat,
            ),
            0,
            byte_limit as int,
        ),
{
    let cands = bounded_catalog_candidates(catalog, allowed, MAX_UPSTREAM_TOOLS);
    byte_bounded_prefix(&cands, byte_limit)
}

/// Unscoped form of [`healthy_tools_allowed`].
pub fn healthy_tools(catalog: &Vec<UpstreamEntry>, byte_limit: usize) -> (tools: Vec<UpstreamTool>)
    ensures
        tools@ == byte_prefix(
            bounded_listing(catalog_candidates(catalog@, None), MAX_UPSTREAM_TOOLS as nat),
            0,
            byte_limit as int,
        ),
{
    healthy_tools_allowed(catalog, None, byte_limit)
}

/// Names of the healthy exposed tools a route scope admits, under the same
/// cap as [`healthy_tools_allowed`], in order.
pub fn healthy_tool_names_allowed(catalog: &Vec<UpstreamEntry>, allowed: Option<&Vec<String>>) -> (names:
    Vec<String>)
    ensures
        names@ == bounded_listing(
            tool_names(catalog_candidates(catalog@, allowed_view(allowed))),
            MAX_UPSTREAM_TOOLS as nat,
        ),
{
    let mut names: Vec<String> = Vec::new();
    let ghost mut seen: Seq<UpstreamTool> = Seq::empty();
    let mut i: usize = 0;
    while i < catalog.len()
        invariant
            i <= catalog@.len(),
            seen == catalog_candidates(catalog@.subrange(0, i as int), allowed_view(allowed)),
            names@ == bounded_listing(tool_names(seen), MAX_UPSTREAM_TOOLS as nat),
        decreases catalog.len() - i,
    {
        proof {
            lemma_candidates_step(catalog@, i as int, allowed_view(allowed));
        }
        let e = &catalog[i];
        if upstream_allowed(allowed, e.name.as_str()) && e.tools_routable {
            let ex = exposed_tools(e);
            let mut j: usize = 0;
            while j < ex.len()
                invariant
                    j <= ex@.len(),
                    names@ == bounded_listing(
                        tool_names(seen + ex@.subrange(0, j as int)),
                        MAX_UPSTREAM_TOOLS as nat,
                    ),
                decreases ex.len() - j,
            {
                proof {
                    let s = tool_names(seen + ex@.subrange(0, j + 1));
                    assert(s.drop_last() =~= tool_names(seen + ex@.subrange(0, j as int)));
                    assert(s.last() == ex@[j as int].tool.name);
                }
                insert_bounded_name(&mut names, ex[j].tool.name.clone(), MAX_UPSTREAM_TOOLS);
                j = j + 1;
            }
            proof {
                assert(ex@.subrange(0, ex@.len() as int) =~= ex@);
                seen = seen + ex@;
            }
        }
        i = i + 1;
    }
    proof {
        assert(catalog@.subrange(0, catalog@.len() as int) =~= catalog@);
    }
    names
}

/// Unscoped form of [`healthy_tool_names_allowed`].
pub fn healthy_tool_names(catalog: &Vec<UpstreamEntry>) -> (names: Vec<String>)
    ensures
        names@ == bounded_listing(
            tool_names(catalog_candidates(catalog@, None)),
            MAX_UPSTREAM_TOOLS as nat,
        ),
{
    healthy_tool_names_allowed(catalog, None)
}

} // verus!

verus! {

// ---------------------------------------------------------------------------
// Per-upstream and per-name lookups
// ---------------------------------------------------------------------------

/// Index of the catalog entry named `name`.
pub open spec fn entry_index(entries: Seq<UpstreamEntry>, name: Seq<char>) -> Option<int>
    decreases entries.len(),
{
    if entries.len() == 0 {
        None
    } else if entries[0].name@ == name {
        Some(0)
    } else {
        match entry_index(entries.drop_first(), name) {
            Some(k) => Some(k + 1),
            None => None,
        }
    }
}

/// Index of the tool named `name`.
pub open spec fn tool_index(tools: Seq<UpstreamTool>, name: Seq<char>) -> Option<int>
    decreases tools.len(),
{
    if tools.len() == 0 {
        None
    } else if tools[0].tool.name@ == name {
        Some(0)
    } else {
        match tool_index(tools.drop_first(), name) {
            Some(k) => Some(k + 1),
            None => None,
        }
    }
}

/// Find the catalog entry for an upstream.
pub fn find_entry(catalog: &Vec<UpstreamEntry>, name: &str) -> (k: Option<usize>)
    ensures
        match k {
            Some(i) => entry_index(catalog@, name@) == Some(i as int) && i < catalog@.len(),
            None => entry_index(catalog@, name@).is_none(),
        },
{
    let n = catalog.len();
    let mut i: usize = 0;
    proof {
        assert(catalog@.subrange(0, n as int) =~= catalog@);
    }
    while i < n
        invariant
            i <= n == catalog@.len(),
            entry_index(catalog@, name@) == match entry_index(
                catalog@.subrange(i as int, n as int),
                name@,
            ) {
                Some(k) => Some(k + i),
                None => None,
            },
        decreases n - i,
    {
        proof {
            let rest = catalog@.subrange(i as int, n as int);
            assert(rest[0] == catalog@[i as int]);
            assert(rest.drop_first() =~= catalog@.subrange(i + 1, n as int));
        }
        if crate::order::compare_str(catalog[i].name.as_str(), name) == crate::order::Cmp::Equal {
            return Some(i);
        }
        i = i + 1;
    }
    None
}

/// Find the tool named `name` among `tools`.
pub fn find_tool_index(tools: &Vec<UpstreamTool>, name: &str) -> (k: Option<usize>)
    ensures
        match k {
            Some(i) => tool_index(tools@, name@) == Some(i as int) && i < tools@.len(),
            None => tool_index(tools@, name@).is_none(),
        },
{
    let n = tools.len();
    let mut i: usize = 0;
    proof {
        assert(tools@.subrange(0, n as int) =~= tools@);
    }
    while i < n
        invariant
            i <= n == tools@.len(),
            tool_index(tools@, name@) == match tool_index(
                tools@.subrange(i as int, n as int),
                name@,
            ) {
                Some(k) => Some(k + i),
                None => None,
            },
        decreases n - i,
    {
        proof {
            let rest = tools@.subrange(i as int, n as int);
            assert(rest[0] == tools@[i as int]);
            assert(rest.drop_first() =~= tools@.subrange(i + 1, n as int));
        }
        if crate::order::compare_str(tools[i].tool.name.as_str(), name) == crate::order::Cmp::Equal {
            return Some(i);
        }
        i = i + 1;
    }
    None
}

/// The exposed tools of a routable upstream, or nothing.
pub open spec fn upstream_exposed(entries: Seq<UpstreamEntry>, upstream: Seq<char>) -> Seq<UpstreamTool> {
    match entry_index(entries, upstream) {
        Some(k) => if entries[k].tools_routable {
            entry_exposed(entries[k])
        } else {
            Seq::empty()
        },
        None => Seq::empty(),
    }
}

/// At most `limit` exposed, routable tools of one upstream, in name order.
pub fn healthy_tools_for_upstream_bounded(
    catalog: &Vec<UpstreamEntry>,
    upstream: &str,
    limit: usize,
) -> (tools: Vec<UpstreamTool>)
    ensures
        tools@ == bounded_listing(upstream_exposed(catalog@, upstream@), limit as nat),
{
    let mut tools: Vec<UpstreamTool> = Vec::new();
    match find_entry(catalog, upstream) {
        None => tools,
        Some(k) => {
            if !catalog[k].tools_routable {
                return tools;
            }
            let ex = exposed_tools(&catalog[k]);
            assert(Seq::<UpstreamTool>::empty() + ex@ =~= ex@);
            insert_all_bounded(&mut tools, &ex, limit, Ghost(Seq::empty()));
            tools
        },
    }
}

/// Every exposed, routable tool of one upstream, in name order.
pub fn healthy_tools_for_upstream(catalog: &Vec<UpstreamEntry>, upstream: &str) -> (tools: Vec<
    UpstreamTool,
>)
    ensures
        tools@ == bounded_listing(upstream_exposed(catalog@, upstream@), usize::MAX as nat),
{
    healthy_tools_for_upstream_bounded(catalog, upstream, usize::MAX)
}

/// The exposed tool `tool_name` of a routable upstream.
pub open spec fn spec_healthy_tool(entries: Seq<UpstreamEntry>, upstream: Seq<char>, tool_name: Seq<char>) -> Option<
    UpstreamTool,
> {
    match entry_index(entries, upstream) {
        Some(k) => {
            let e = entries[k];
            match tool_index(e.tools@, tool_name) {
                Some(j) => if e.tools_routable && e.exposure_policy.spec_matches(e.tools@[j].tool.name@) {
                    Some(e.tools@[j])
                } else {
                    None
                },
                None => None,
            }
        },
        None => None,
    }
}

/// One exact exposed, routable tool.
pub fn healthy_tool_for_upstream(catalog: &Vec<UpstreamEntry>, upstream: &str, tool_name: &str) -> (t:
    Option<UpstreamTool>)
    ensures
        t == spec_healthy_tool(catalog@, upstream@, tool_name@),
{
    let k = match find_entry(catalog, upstream) {
        Some(k) => k,
        None => return None,
    };
    let e = &catalog[k];
    let j = match find_tool_index(&e.tools, tool_name) {
        Some(j) => j,
        None => return None,
    };
    if e.tools_routable && e.exposure_policy.matches(e.tools[j].tool.name.as_str()) {
        Some(e.tools[j].clone())
    } else {
        None
    }
}

/// Whether an upstream is routable and exposes at least one tool.
pub fn has_healthy_tools_for_upstream(catalog: &Vec<UpstreamEntry>, upstream: &str) -> (b: bool)
    ensures
        b == (upstream_exposed(catalog@, upstream@).len() > 0),
{
    match find_entry(catalog, upstream) {
        None => false,
        Some(k) => {
            if !catalog[k].tools_routable {
                return false;
            }
            let ex = exposed_tools(&catalog[k]);
            ex.len() > 0
        },
    }
}

/// The tool `tool_name` of `e`, when the upstream can be asked for it:
/// admitted by the scope, routable, exposing the tool, and — for MCP App
/// callbacks — serving resources and exposing a UI tool whose resources are
/// exposed too.
pub open spec fn candidate_in(
    e: UpstreamEntry,
    tool_name: Seq<char>,
    allowed: Option<Seq<Seq<char>>>,
    require_ui_sibling: bool,
) -> Option<(String, UpstreamTool)> {
    if !spec_upstream_allowed(allowed, e.name@) || !e.tools_routable || (require_ui_sibling
        && !e.proxy_resources) {
        None
    } else {
        match tool_index(e.tools@, tool_name) {
            Some(j) => {
                let t = e.tools@[j];
                if e.exposure_policy.spec_matches(t.tool.name@) && (!require_ui_sibling || exists|
                    c: int,
                |
                    0 <= c < e.tools@.len() && #[trigger] ui_sibling(e, e.tools@[c])) {
                    Some((e.name, t))
                } else {
                    None
                }
            },
            None => None,
        }
    }
}

/// An exposed tool of `e` that binds a UI whose resources `e` exposes.
pub open spec fn ui_sibling(e: UpstreamEntry, c: UpstreamTool) -> bool {
    e.exposure_policy.spec_matches(c.tool.name@) && has_binding(c.tool) && bindings_exposed(
        c.tool,
        e.resource_exposure_policy,
    )
}

pub open spec fn catalog_tool_candidates(
    entries: Seq<UpstreamEntry>,
    tool_name: Seq<char>,
    allowed: Option<Seq<Seq<char>>>,
    require_ui_sibling: bool,
) -> Seq<(String, UpstreamTool)>
    decreases entries.len(),
{
    if entries.len() == 0 {
        Seq::empty()
    } else {
        let r = catalog_tool_candidates(entries.drop_last(), tool_name, allowed, require_ui_sibling);
        match candidate_in(entries.last(), tool_name, allowed, require_ui_sibling) {
            Some(c) => r.push(c),
            None => r,
        }
    }
}

fn has_ui_sibling(e: &UpstreamEntry) -> (b: bool)
    ensures
        b == exists|c: int| 0 <= c < e.tools@.len() && #[trigger] ui_sibling(*e, e.tools@[c]),
{
    let mut i: usize = 0;
    while i < e.tools.len()
        invariant
            i <= e.tools@.len(),
            forall|c: int| 0 <= c < i ==> !#[trigger] ui_sibling(*e, e.tools@[c]),
        decreases e.tools.len() - i,
    {
        let t = &e.tools[i];
        if e.exposure_policy.matches(t.tool.name.as_str()) && mcp_tool_has_binding(&t.tool)
            && mcp_tool_resource_bindings_are_exposed(&t.tool, &e.resource_exposure_policy) {
            assert(ui_sibling(*e, e.tools@[i as int]));
            return true;
        }
        i = i + 1;
    }
    false
}

fn candidate_of(
    e: &UpstreamEntry,
    tool_name: &str,
    allowed: Option<&Vec<String>>,
    require_ui_sibling: bool,
) -> (c: Option<(String, UpstreamTool)>)
    ensures
        c == candidate_in(*e, tool_name@, allowed_view(allowed), require_ui_sibling),
{
    if !upstream_allowed(allowed, e.name.as_str()) || !e.tools_routable || (require_ui_sibling
        && !e.proxy_resources) {
        return None;
    }
    let j = match find_tool_index(&e.tools, tool_name) {
        Some(j) => j,
        None => return None,
    };
    let t = &e.tools[j];
    if !e.exposure_policy.matches(t.tool.name.as_str()) {
        return None;
    }
    if require_ui_sibling && !has_ui_sibling(e) {
        return None;
    }
    Some((e.name.clone(), t.clone()))
}

fn tool_candidates(
    catalog: &Vec<UpstreamEntry>,
    tool_name: &str,
    allowed: Option<&Vec<String>>,
    require_ui_sibling: bool,
) -> (matches: Vec<(String, UpstreamTool)>)
    ensures
        matches@ == bounded_listing(
            catalog_tool_candidates(catalog@, tool_name@, allowed_view(allowed), require_ui_sibling),
            usize::MAX as nat,
        ),
{
    let mut matches: Vec<(String, UpstreamTool)> = Vec::new();
    let mut i: usize = 0;
    while i < catalog.len()
        invariant
            i <= catalog@.len(),
            matches@ == bounded_listing(
                catalog_tool_candidates(
                    catalog@.subrange(0, i as int),
                    tool_name@,
                    allowed_view(allowed),
                    require_ui_sibling,
                ),
                usize::MAX as nat,
            ),
        decreases catalog.len() - i,
    {
        proof {
            assert(catalog@.subrange(0, i + 1).drop_last() =~= catalog@.subrange(0, i as int));
        }
        let ghost r = catalog_tool_candidates(
            catalog@.subrange(0, i as int),
            tool_name@,
            allowed_view(allowed),
            require_ui_sibling,
        );
        match candidate_of(&catalog[i], tool_name, allowed, require_ui_sibling) {
            Some(c) => {
                proof {
                    assert(r.push(c).drop_last() =~= r);
                }
                insert_bounded(&mut matches, c, usize::MAX);
            },
            None => {},
        }
        i = i + 1;
    }
    proof {
        assert(catalog@.subrange(0, catalog@.len() as int) =~= catalog@);
    }
    matches
}

/// Every routable upstream exposing `tool_name`, by upstream name.
pub fn find_tool_candidates(catalog: &Vec<UpstreamEntry>, tool_name: &str) -> (matches: Vec<
    (String, UpstreamTool),
>)
    ensures
        matches@ == bounded_listing(
            catalog_tool_candidates(catalog@, tool_name@, None, false),
            usize::MAX as nat,
        ),
{
    tool_candidates(catalog, tool_name, None, false)
}

/// Like [`find_tool_candidates`], within a route scope. More than one result
/// means the name is ambiguous within the scope.
pub fn find_exposed_tool_candidates_allowed(
    catalog: &Vec<UpstreamEntry>,
    tool_name: &str,
    allowed: Option<&Vec<String>>,
) -> (matches: Vec<(String, UpstreamTool)>)
    ensures
        matches@ == bounded_listing(
            catalog_tool_candidates(catalog@, tool_name@, allowed_view(allowed), false),
            usize::MAX as nat,
        ),
{
    tool_candidates(catalog, tool_name, allowed, false)
}

/// Exposed tools `tool_name` whose upstream also exposes an MCP App UI tool:
/// the narrow allowlist for host `callServerTool` callbacks.
pub fn find_mcp_app_sibling_tool_candidates(
    catalog: &Vec<UpstreamEntry>,
    tool_name: &str,
    allowed: Option<&Vec<String>>,
) -> (matches: Vec<(String, UpstreamTool)>)
    ensures
        matches@ == bounded_listing(
            catalog_tool_candidates(catalog@, tool_name@, allowed_view(allowed), true),
            usize::MAX as nat,
        ),
{
    tool_candidates(catalog, tool_name, allowed, true)
}

/// The first upstream, in catalog order, that can serve `tool_name`.
pub open spec fn first_tool_owner(
    entries: Seq<UpstreamEntry>,
    tool_name: Seq<char>,
    allowed: Option<Seq<Seq<char>>>,
) -> Option<(String, UpstreamTool)>
    decreases entries.len(),
{
    if entries.len() == 0 {
        None
    } else {
        match candidate_in(entries[0], tool_name, allowed, false) {
            Some(c) => Some(c),
            None => first_tool_owner(entries.drop_first(), tool_name, allowed),
        }
    }
}

/// Which upstream owns a tool name, within a route scope.
pub fn find_tool_allowed(
    catalog: &Vec<UpstreamEntry>,
    tool_name: &str,
    allowed: Option<&Vec<String>>,
) -> (owner: Option<(String, UpstreamTool)>)
    ensures
        owner == first_tool_owner(catalog@, tool_name@, allowed_view(allowed)),
{
    let n = catalog.len();
    let mut i: usize = 0;
    proof {
        assert(catalog@.subrange(0, n as int) =~= catalog@);
    }
    while i < n
        invariant
            i <= n == catalog@.len(),
            first_tool_owner(catalog@, tool_name@, allowed_view(allowed)) == first_tool_owner(
                catalog@.subrange(i as int, n as int),
                tool_name@,
                allowed_view(allowed),
            ),
        decreases n - i,
    {
        proof {
            let rest = catalog@.subrange(i as int, n as int);
            assert(rest[0] == catalog@[i as int]);
            assert(rest.drop_first() =~= catalog@.subrange(i + 1, n as int));
        }
        match candidate_of(&catalog[i], tool_name, allowed, false) {
            Some(c) => return Some(c),
            None => {},
        }
        i = i + 1;
    }
    None
}

/// Unscoped form of [`find_tool_allowed`].
pub fn find_tool(catalog: &Vec<UpstreamEntry>, tool_name: &str) -> (owner: Option<(String, UpstreamTool)>)
    ensures
        owner == first_tool_owner(catalog@, tool_name@, None),
{
    find_tool_allowed(catalog, tool_name, None)
}

/// The first upstream, in catalog order, holding a tool `tool_name` that it
/// exposes and whose cached definition carries an input schema: that tool.
pub open spec fn first_schema_tool(entries: Seq<UpstreamEntry>, tool_name: Seq<char>) -> Option<UpstreamTool>
    decreases entries.len(),
{
    if entries.len() == 0 {
        None
    } else {
        let e = entries[0];
        match tool_index(e.tools@, tool_name) {
            Some(j) => if e.exposure_policy.spec_matches(tool_name) && e.tools@[j].tool.has_input_schema {
                Some(e.tools@[j])
            } else {
                first_schema_tool(entries.drop_first(), tool_name)
            },
            None => first_schema_tool(entries.drop_first(), tool_name),
        }
    }
}

/// The cached tool whose input schema answers a schema lookup for
/// `tool_name`, whatever its upstream's health.
pub fn tool_schema(catalog: &Vec<UpstreamEntry>, tool_name: &str) -> (t: Option<UpstreamTool>)
    ensures
        t == first_schema_tool(catalog@, tool_name@),
{
    let n = catalog.len();
    let mut i: usize = 0;
    proof {
        assert(catalog@.subrange(0, n as int) =~= catalog@);
    }
    while i < n
        invariant
            i <= n == catalog@.len(),
            first_schema_tool(catalog@, tool_name@) == first_schema_tool(
                catalog@.subrange(i as int, n as int),
                tool_name@,
            ),
        decreases n - i,
    {
        proof {
            let rest = catalog@.subrange(i as int, n as int);
            assert(rest[0] == catalog@[i as int]);
            assert(rest.drop_first() =~= catalog@.subrange(i + 1, n as int));
        }
        let e = &catalog[i];
        match find_tool_index(&e.tools, tool_name) {
            Some(j) => {
                if e.exposure_policy.matches(tool_name) && e.tools[j].tool.has_input_schema {
                    return Some(e.tools[j].clone());
                }
            },
            None => {},
        }
        i = i + 1;
    }
    None
}

} // verus!

verus! {

// ---------------------------------------------------------------------------
// OAuth (subject-scoped) upstreams
// ---------------------------------------------------------------------------

/// The parts of an upstream's configuration that routing decisions read.
#[derive(Debug)]
pub struct UpstreamConfig {
    pub name: String,
    pub enabled: bool,
    pub oauth: bool,
    pub proxy_resources: bool,
    pub proxy_prompts: bool,
    pub proxy_skills: bool,
    pub expose_tools: Option<Vec<String>>,
    pub expose_resources: Option<Vec<String>>,
    pub expose_prompts: Option<Vec<String>>,
    pub expose_skills: Option<Vec<String>>,
}

/// A cached per-(upstream, subject) connection: when it was last used and
/// the tools it listed.
#[derive(Debug)]
pub struct SubjectConnection {
    pub upstream: String,
    pub last_used_ms: u64,
    pub tools: Vec<ToolDescriptor>,
}

/// Whether `policy_view` (as [`ExposurePolicy::pview`] gives it) admits `name`.
pub open spec fn pview_matches(policy_view: Option<Seq<Seq<char>>>, name: Seq<char>) -> bool {
    match policy_view {
        None => true,
        Some(ps) => crate::exposure::first_match(ps, name).is_some(),
    }
}

pub proof fn lemma_matches_pview(p: ExposurePolicy, name: Seq<char>)
    ensures
        p.spec_matches(name) == pview_matches(p.pview(), name),
{
}

pub open spec fn config_tool_policy(c: UpstreamConfig) -> Option<Seq<Seq<char>>> {
    crate::exposure::resolved_policy(crate::exposure::opt_patterns_view(c.expose_tools))
}

pub open spec fn config_resource_policy(c: UpstreamConfig) -> Option<Seq<Seq<char>>> {
    crate::exposure::resolved_policy(crate::exposure::opt_patterns_view(c.expose_resources))
}

pub open spec fn binding_exposed_pv(b: Option<Seq<char>>, pv: Option<Seq<Seq<char>>>) -> bool {
    match b {
        Some(uri) => pview_matches(pv, uri),
        None => true,
    }
}

pub open spec fn bindings_exposed_pv(t: ToolDescriptor, pv: Option<Seq<Seq<char>>>) -> bool {
    binding_exposed_pv(resource_bindings(t).0, pv) && binding_exposed_pv(resource_bindings(t).1, pv)
}

pub open spec fn host_visible_pv(t: ToolDescriptor, has_exposed_owner: bool, pv: Option<Seq<Seq<char>>>) -> bool {
    if has_binding(t) {
        bindings_exposed_pv(t, pv)
    } else {
        has_exposed_owner && is_app_callback(t)
    }
}

fn clone_strings(v: &Vec<String>) -> (r: Vec<String>)
    ensures
        r@ == v@,
{
    let mut r: Vec<String> = Vec::new();
    let mut i: usize = 0;
    while i < v.len()
        invariant
            i <= v@.len(),
            r@ == v@.subrange(0, i as int),
        decreases v.len() - i,
    {
        r.push(v[i].clone());
        proof {
            assert(r@ =~= v@.subrange(0, i + 1));
        }
        i = i + 1;
    }
    proof {
        assert(v@.subrange(0, v@.len() as int) =~= v@);
    }
    r
}

pub fn clone_opt_strings(o: &Option<Vec<String>>) -> (r: Option<Vec<String>>)
    ensures
        crate::exposure::opt_patterns_view(r) == crate::exposure::opt_patterns_view(*o),
{
    match o {
        Some(v) => Some(clone_strings(v)),
        None => None,
    }
}

/// The tool allowlist of a configured upstream, compiled failing closed.
pub fn resolve_request_exposure_policy(config: &UpstreamConfig) -> (p: ExposurePolicy)
    ensures
        p.pview() == config_tool_policy(*config),
{
    crate::exposure::resolve_exposure_policy(clone_opt_strings(&config.expose_tools))
}

/// The resource allowlist of a configured upstream, compiled failing closed.
pub fn resolve_request_resource_exposure_policy(config: &UpstreamConfig) -> (p: ExposurePolicy)
    ensures
        p.pview() == config_resource_policy(*config),
{
    crate::exposure::resolve_exposure_policy(clone_opt_strings(&config.expose_resources))
}

/// A cached connection that has not sat idle for `idle_ttl_ms`.
pub open spec fn connection_live(c: SubjectConnection, now_ms: u64, idle_ttl_ms: u64) -> bool {
    (if now_ms >= c.last_used_ms {
        now_ms - c.last_used_ms
    } else {
        0
    }) < idle_ttl_ms
}

/// Index of the live cached connection to `upstream`.
pub open spec fn live_connection(
    conns: Seq<SubjectConnection>,
    upstream: Seq<char>,
    now_ms: u64,
    idle_ttl_ms: u64,
) -> Option<int>
    decreases conns.len(),
{
    if conns.len() == 0 {
        None
    } else if conns[0].upstream@ == upstream {
        if connection_live(conns[0], now_ms, idle_ttl_ms) {
            Some(0)
        } else {
            None
        }
    } else {
        match live_connection(conns.drop_first(), upstream, now_ms, idle_ttl_ms) {
            Some(k) => Some(k + 1),
            None => None,
        }
    }
}

/// The subject's live cached connection to `upstream`, if any.
pub fn find_live_connection(
    conns: &Vec<SubjectConnection>,
    upstream: &str,
    now_ms: u64,
    idle_ttl_ms: u64,
) -> (k: Option<usize>)
    ensures
        match k {
            Some(i) => live_connection(conns@, upstream@, now_ms, idle_ttl_ms) == Some(i as int)
                && i < conns@.len(),
            None => live_connection(conns@, upstream@, now_ms, idle_ttl_ms).is_none(),
        },
{
    let n = conns.len();
    let mut i: usize = 0;
    proof {
        assert(conns@.subrange(0, n as int) =~= conns@);
    }
    while i < n
        invariant
            i <= n == conns@.len(),
            live_connection(conns@, upstream@, now_ms, idle_ttl_ms) == match live_connection(
                conns@.subrange(i as int, n as int),
                upstream@,
                now_ms,
                idle_ttl_ms,
            ) {
                Some(k) => Some(k + i),
                None => None,
            },
        decreases n - i,
    {
        proof {
            let rest = conns@.subrange(i as int, n as int);
            assert(rest[0] == conns@[i as int]);
            assert(rest.drop_first() =~= conns@.subrange(i + 1, n as int));
        }
        let c = &conns[i];
        if crate::order::compare_str(c.upstream.as_str(), upstream) == crate::order::Cmp::Equal {
            let elapsed = now_ms.saturating_sub(c.last_used_ms);
            if elapsed < idle_ttl_ms {
                return Some(i);
            }
            return None;
        }
        i = i + 1;
    }
    None
}

/// Which OAuth upstream configs a subject-scoped MCP App listing consults.
pub open spec fn app_config_eligible(c: UpstreamConfig, allowed: Option<Seq<Seq<char>>>) -> bool {
    c.enabled && c.oauth && c.proxy_resources && spec_upstream_allowed(allowed, c.name@)
}

pub open spec fn app_entry_eligible(e: UpstreamEntry, allowed: Option<Seq<Seq<char>>>) -> bool {
    spec_upstream_allowed(allowed, e.name@) && e.tools_routable && e.proxy_resources
}

/// An exposed tool of `tools` that binds a UI whose resources are exposed.
pub open spec fn has_exposed_owner_pv(
    tools: Seq<ToolDescriptor>,
    tool_pv: Option<Seq<Seq<char>>>,
    resource_pv: Option<Seq<Seq<char>>>,
) -> bool {
    exists|k: int|
        0 <= k < tools.len() && pview_matches(tool_pv, tools[k].name@) && has_binding(
            #[trigger] tools[k],
        ) && bindings_exposed_pv(tools[k], resource_pv)
}

/// The tools of `tools` a host may show for an MCP App, routed to `upstream`.
pub open spec fn app_tools_of(
    upstream: String,
    tools: Seq<ToolDescriptor>,
    tool_pv: Option<Seq<Seq<char>>>,
    resource_pv: Option<Seq<Seq<char>>>,
    owner: bool,
) -> Seq<UpstreamTool>
    decreases tools.len(),
{
    if tools.len() == 0 {
        Seq::empty()
    } else {
        let r = app_tools_of(upstream, tools.drop_last(), tool_pv, resource_pv, owner);
        let t = tools.last();
        if pview_matches(tool_pv, t.name@) && host_visible_pv(t, owner, resource_pv) {
            r.push(UpstreamTool { upstream_name: upstream, tool: t })
        } else {
            r
        }
    }
}

pub open spec fn descriptors(ts: Seq<UpstreamTool>) -> Seq<ToolDescriptor> {
    ts.map_values(|t: UpstreamTool| t.tool)
}

/// The host-visible MCP App tools of the global catalog, in catalog order.
pub open spec fn global_app_tools(entries: Seq<UpstreamEntry>, allowed: Option<Seq<Seq<char>>>) -> Seq<
    UpstreamTool,
>
    decreases entries.len(),
{
    if entries.len() == 0 {
        Seq::empty()
    } else {
        let r = global_app_tools(entries.drop_last(), allowed);
        let e = entries.last();
        if app_entry_eligible(e, allowed) {
            let tv = e.exposure_policy.pview();
            let rv = e.resource_exposure_policy.pview();
            r + app_tools_of_routed(
                e.tools@,
                tv,
                rv,
                has_exposed_owner_pv(descriptors(e.tools@), tv, rv),
            )
        } else {
            r
        }
    }
}

/// Like [`app_tools_of`] for tools already routed to their upstream.
pub open spec fn app_tools_of_routed(
    tools: Seq<UpstreamTool>,
    tool_pv: Option<Seq<Seq<char>>>,
    resource_pv: Option<Seq<Seq<char>>>,
    owner: bool,
) -> Seq<UpstreamTool>
    decreases tools.len(),
{
    if tools.len() == 0 {
        Seq::empty()
    } else {
        let r = app_tools_of_routed(tools.drop_last(), tool_pv, resource_pv, owner);
        let t = tools.last();
        if pview_matches(tool_pv, t.tool.name@) && host_visible_pv(t.tool, owner, resource_pv) {
            r.push(t)
        } else {
            r
        }
    }
}

/// The host-visible MCP App tools of the subject's live OAuth connections,
/// in config order.
pub open spec fn subject_app_tools(
    configs: Seq<UpstreamConfig>,
    conns: Seq<SubjectConnection>,
    allowed: Option<Seq<Seq<char>>>,
    now_ms: u64,
    idle_ttl_ms: u64,
) -> Seq<UpstreamTool>
    decreases configs.len(),
{
    if configs.len() == 0 {
        Seq::empty()
    } else {
        let r = subject_app_tools(configs.drop_last(), conns, allowed, now_ms, idle_ttl_ms);
        let c = configs.last();
        if app_config_eligible(c, allowed) {
            match live_connection(conns, c.name@, now_ms, idle_ttl_ms) {
                Some(k) => {
                    let tv = config_tool_policy(c);
                    let rv = config_resource_policy(c);
                    r + app_tools_of(
                        c.name,
                        conns[k].tools@,
                        tv,
                        rv,
                        has_exposed_owner_pv(conns[k].tools@, tv, rv),
                    )
                },
                None => r,
            }
        } else {
            r
        }
    }
}

/// Ambiguity-aware insertions of `items`, one after the other.
pub open spec fn unambiguous_listing(items: Seq<UpstreamTool>, limit: nat) -> Seq<NameSlot>
    decreases items.len(),
{
    if items.len() == 0 {
        Seq::empty()
    } else {
        unambiguous_insert(unambiguous_listing(items.drop_last(), limit), items.last(), limit)
    }
}

fn exposed_owner_among(tools: &Vec<ToolDescriptor>, tool_policy: &ExposurePolicy, resource_policy: &ExposurePolicy) -> (b:
    bool)
    ensures
        b == has_exposed_owner_pv(tools@, tool_policy.pview(), resource_policy.pview()),
{
    let mut i: usize = 0;
    while i < tools.len()
        invariant
            i <= tools@.len(),
            forall|k: int|
                0 <= k < i ==> !(pview_matches(tool_policy.pview(), tools@[k].name@) && has_binding(
                    #[trigger] tools@[k],
                ) && bindings_exposed_pv(tools@[k], resource_policy.pview())),
        decreases tools.len() - i,
    {
        let t = &tools[i];
        proof {
            lemma_bindings_pv(*t, *resource_policy);
        }
        if tool_policy.matches(t.name.as_str()) && mcp_tool_has_binding(t)
            && mcp_tool_resource_bindings_are_exposed(t, resource_policy) {
            return true;
        }
        i = i + 1;
    }
    false
}

proof fn lemma_bindings_pv(t: ToolDescriptor, p: ExposurePolicy)
    ensures
        bindings_exposed(t, p) == bindings_exposed_pv(t, p.pview()),
        forall|b: bool| host_visible_with_owner(t, b, p) == #[trigger] host_visible_pv(t, b, p.pview()),
{
    match resource_bindings(t).0 {
        Some(u) => lemma_matches_pview(p, u),
        None => {},
    }
    match resource_bindings(t).1 {
        Some(u) => lemma_matches_pview(p, u),
        None => {},
    }
}

/// Insert the host-visible app tools of one tool list, routed to `upstream`.
fn insert_app_tools(
    slots: &mut Vec<NameSlot>,
    upstream: &String,
    tools: &Vec<ToolDescriptor>,
    tool_policy: &ExposurePolicy,
    resource_policy: &ExposurePolicy,
    owner: bool,
    limit: usize,
    Ghost(seen): Ghost<Seq<UpstreamTool>>,
)
    requires
        old(slots)@ == unambiguous_listing(seen, limit as nat),
    ensures
        final(slots)@ == unambiguous_listing(
            seen + app_tools_of(*upstream, tools@, tool_policy.pview(), resource_policy.pview(), owner),
            limit as nat,
        ),
{
    let mut i: usize = 0;
    while i < tools.len()
        invariant
            i <= tools@.len(),
            slots@ == unambiguous_listing(
                seen + app_tools_of(
                    *upstream,
                    tools@.subrange(0, i as int),
                    tool_policy.pview(),
                    resource_policy.pview(),
                    owner,
                ),
                limit as nat,
            ),
        decreases tools.len() - i,
    {
        let ghost prev = app_tools_of(
            *upstream,
            tools@.subrange(0, i as int),
            tool_policy.pview(),
            resource_policy.pview(),
            owner,
        );
        proof {
            assert(tools@.subrange(0, i + 1).drop_last() =~= tools@.subrange(0, i as int));
            lemma_bindings_pv(tools@[i as int], *resource_policy);
            lemma_matches_pview(*tool_policy, tools@[i as int].name@);
        }
        let t = &tools[i];
        if tool_policy.matches(t.name.as_str()) && mcp_tool_is_mcp_app_host_visible_with_owner(
            t,
            owner,
            resource_policy,
        ) {
            let routed = UpstreamTool { upstream_name: upstream.clone(), tool: t.clone() };
            proof {
                let next = seen + prev.push(routed);
                assert(next.drop_last() =~= seen + prev);
            }
            insert_bounded_unambiguous_upstream_tool(slots, routed, limit);
        }
        i = i + 1;
    }
    proof {
        assert(tools@.subrange(0, tools@.len() as int) =~= tools@);
    }
}

/// Insert the host-visible app tools of a catalog entry, as cached (already
/// routed).
fn insert_routed_app_tools(
    slots: &mut Vec<NameSlot>,
    tools: &Vec<UpstreamTool>,
    tool_policy: &ExposurePolicy,
    resource_policy: &ExposurePolicy,
    owner: bool,
    limit: usize,
    Ghost(seen): Ghost<Seq<UpstreamTool>>,
)
    requires
        old(slots)@ == unambiguous_listing(seen, limit as nat),
    ensures
        final(slots)@ == unambiguous_listing(
            seen + app_tools_of_routed(tools@, tool_policy.pview(), resource_policy.pview(), owner),
            limit as nat,
        ),
{
    let mut i: usize = 0;
    while i < tools.len()
        invariant
            i <= tools@.len(),
            slots@ == unambiguous_listing(
                seen + app_tools_of_routed(
                    tools@.subrange(0, i as int),
                    tool_policy.pview(),
                    resource_policy.pview(),
                    owner,
                ),
                limit as nat,
            ),
        decreases tools.len() - i,
    {
        let ghost prev = app_tools_of_routed(
            tools@.subrange(0, i as int),
            tool_policy.pview(),
            resource_policy.pview(),
            owner,
        );
        proof {
            assert(tools@.subrange(0, i + 1).drop_last() =~= tools@.subrange(0, i as int));
            lemma_bindings_pv(tools@[i as int].tool, *resource_policy);
            lemma_matches_pview(*tool_policy, tools@[i as int].tool.name@);
        }
        let t = &tools[i];
        if tool_policy.matches(t.tool.name.as_str()) && mcp_tool_is_mcp_app_host_visible_with_owner(
            &t.tool,
            owner,
            resource_policy,
        ) {
            let routed = t.clone();
            proof {
                let next = seen + prev.push(routed);
                assert(next.drop_last() =~= seen + prev);
            }
            insert_bounded_unambiguous_upstream_tool(slots, routed, limit);
        }
        i = i + 1;
    }
    proof {
        assert(tools@.subrange(0, tools@.len() as int) =~= tools@);
    }
}

fn descriptors_of(tools: &Vec<UpstreamTool>) -> (d: Vec<ToolDescriptor>)
    ensures
        d@ == descriptors(tools@),
{
    let mut d: Vec<ToolDescriptor> = Vec::new();
    let mut i: usize = 0;
    while i < tools.len()
        invariant
            i <= tools@.len(),
            d@ == descriptors(tools@.subrange(0, i as int)),
        decreases tools.len() - i,
    {
        d.push(tools[i].tool.clone());
        proof {
            assert(d@ =~= descriptors(tools@.subrange(0, i + 1)));
        }
        i = i + 1;
    }
    proof {
        assert(tools@.subrange(0, tools@.len() as int) =~= tools@);
    }
    d
}

proof fn lemma_global_app_tools_concat(a: Seq<UpstreamEntry>, b: Seq<UpstreamEntry>, allowed: Option<Seq<Seq<char>>>)
    ensures
        global_app_tools(a + b, allowed) == global_app_tools(a, allowed) + global_app_tools(b, allowed),
    decreases b.len(),
{
    if b.len() == 0 {
        assert(a + b =~= a);
        assert(global_app_tools(a, allowed) + Seq::<UpstreamTool>::empty() =~= global_app_tools(a, allowed));
    } else {
        lemma_global_app_tools_concat(a, b.drop_last(), allowed);
        assert((a + b).drop_last() =~= a + b.drop_last());
        assert((a + b).last() == b.last());
        let ga = global_app_tools(a, allowed);
        let gb = global_app_tools(b.drop_last(), allowed);
        let e = b.last();
        if app_entry_eligible(e, allowed) {
            let tv = e.exposure_policy.pview();
            let rv = e.resource_exposure_policy.pview();
            let extra = app_tools_of_routed(e.tools@, tv, rv, has_exposed_owner_pv(descriptors(e.tools@), tv, rv));
            assert(ga + gb + extra =~= ga + (gb + extra));
        }
    }
}

proof fn lemma_plain_tools_not_app_tools(
    tools: Seq<UpstreamTool>,
    tv: Option<Seq<Seq<char>>>,
    rv: Option<Seq<Seq<char>>>,
    owner: bool,
)
    requires
        forall|k: int|
            0 <= k < tools.len() ==> !has_binding(#[trigger] tools[k].tool) && !is_app_callback(tools[k].tool),
    ensures
        app_tools_of_routed(tools, tv, rv, owner) == Seq::<UpstreamTool>::empty(),
    decreases tools.len(),
{
    if tools.len() > 0 {
        lemma_plain_tools_not_app_tools(tools.drop_last(), tv, rv, owner);
        assert(!has_binding(tools[tools.len() - 1].tool));
    }
}

/// Law: raw tool churn is invisible to the MCP App projection. Adding, at
/// any catalog position, an upstream whose tools bind no `ui://` resource
/// and carry no app-callback marker leaves the global app tools, and so the
/// whole app tool contract built from them and any subject tools, unchanged.
pub proof fn law_raw_tool_churn_leaves_app_tools_unchanged(
    entries: Seq<UpstreamEntry>,
    i: int,
    e: UpstreamEntry,
    allowed: Option<Seq<Seq<char>>>,
    subject_tools: Seq<UpstreamTool>,
    limit: nat,
)
    requires
        0 <= i <= entries.len(),
        forall|k: int|
            0 <= k < e.tools@.len() ==> !has_binding(#[trigger] e.tools@[k].tool) && !is_app_callback(
                e.tools@[k].tool,
            ),
    ensures
        global_app_tools(entries.insert(i, e), allowed) == global_app_tools(entries, allowed),
        slot_tools(unambiguous_listing(global_app_tools(entries.insert(i, e), allowed) + subject_tools, limit))
            == slot_tools(unambiguous_listing(global_app_tools(entries, allowed) + subject_tools, limit)),
{
    let a = entries.take(i);
    let b = entries.skip(i);
    let one = seq![e];
    assert(entries.insert(i, e) =~= (a + one) + b);
    assert(entries =~= a + b);
    lemma_global_app_tools_concat(a + one, b, allowed);
    lemma_global_app_tools_concat(a, one, allowed);
    lemma_global_app_tools_concat(a, b, allowed);
    assert(one.drop_last() =~= Seq::<UpstreamEntry>::empty());
    let tv = e.exposure_policy.pview();
    let rv = e.resource_exposure_policy.pview();
    lemma_plain_tools_not_app_tools(e.tools@, tv, rv, has_exposed_owner_pv(descriptors(e.tools@), tv, rv));
    assert(one.last() == e);
    assert(global_app_tools(one.drop_last(), allowed) == Seq::<UpstreamTool>::empty());
    assert(Seq::<UpstreamTool>::empty() + Seq::<UpstreamTool>::empty() =~= Seq::<UpstreamTool>::empty());
    assert(global_app_tools(one, allowed) =~= Seq::<UpstreamTool>::empty());
    assert(global_app_tools(a, allowed) + Seq::<UpstreamTool>::empty() =~= global_app_tools(a, allowed));
}

/// The complete MCP App tool contract for one request, from cache only:
/// global upstreams, then the subject's live OAuth connections. A tool name
/// claimed more than once is withheld entirely; at most `limit` names are
/// considered, the smallest first.
pub fn cached_mcp_app_tools_allowed(
    catalog: &Vec<UpstreamEntry>,
    allowed: Option<&Vec<String>>,
    oauth_configs: &Vec<UpstreamConfig>,
    subject_connections: Option<&Vec<SubjectConnection>>,
    now_ms: u64,
    idle_ttl_ms: u64,
    limit: usize,
) -> (tools: Vec<UpstreamTool>)
    ensures
        tools@ == slot_tools(
            unambiguous_listing(
                global_app_tools(catalog@, allowed_view(allowed)) + match subject_connections {
                    Some(conns) => subject_app_tools(
                        oauth_configs@,
                        conns@,
                        allowed_view(allowed),
                        now_ms,
                        idle_ttl_ms,
                    ),
                    None => Seq::empty(),
                },
                limit as nat,
            ),
        ),
{
    let mut slots: Vec<NameSlot> = Vec::new();
    let ghost mut seen: Seq<UpstreamTool> = Seq::empty();
    let mut i: usize = 0;
    while i < catalog.len()
        invariant
            i <= catalog@.len(),
            seen == global_app_tools(catalog@.subrange(0, i as int), allowed_view(allowed)),
            slots@ == unambiguous_listing(seen, limit as nat),
        decreases catalog.len() - i,
    {
        proof {
            assert(catalog@.subrange(0, i + 1).drop_last() =~= catalog@.subrange(0, i as int));
        }
        let e = &catalog[i];
        if upstream_allowed(allowed, e.name.as_str()) && e.tools_routable && e.proxy_resources {
            let descs = descriptors_of(&e.tools);
            let owner = exposed_owner_among(&descs, &e.exposure_policy, &e.resource_exposure_policy);
            insert_routed_app_tools(
                &mut slots,
                &e.tools,
                &e.exposure_policy,
                &e.resource_exposure_policy,
                owner,
                limit,
                Ghost(seen),
            );
            proof {
                seen = seen + app_tools_of_routed(
                    e.tools@,
                    e.exposure_policy.pview(),
                    e.resource_exposure_policy.pview(),
                    owner,
                );
            }
        }
        i = i + 1;
    }
    proof {
        assert(catalog@.subrange(0, catalog@.len() as int) =~= catalog@);
    }
    let ghost global = seen;
    match subject_connections {
        None => {
            assert(global + Seq::<UpstreamTool>::empty() =~= global);
        },
        Some(conns) => {
            let mut j: usize = 0;
            while j < oauth_configs.len()
                invariant
                    j <= oauth_configs@.len(),
                    subject_connections == Some(conns),
                    seen == global + subject_app_tools(
                        oauth_configs@.subrange(0, j as int),
                        conns@,
                        allowed_view(allowed),
                        now_ms,
                        idle_ttl_ms,
                    ),
                    slots@ == unambiguous_listing(seen, limit as nat),
                decreases oauth_configs.len() - j,
            {
                proof {
                    assert(oauth_configs@.subrange(0, j + 1).drop_last() =~= oauth_configs@.subrange(
                        0,
                        j as int,
                    ));
                }
                let c = &oauth_configs[j];
                if c.enabled && c.oauth && c.proxy_resources && upstream_allowed(allowed, c.name.as_str()) {
                    match find_live_connection(conns, c.name.as_str(), now_ms, idle_ttl_ms) {
                        Some(k) => {
                            let tp = resolve_request_exposure_policy(c);
                            let rp = resolve_request_resource_exposure_policy(c);
                            let owner = exposed_owner_among(&conns[k].tools, &tp, &rp);
                            insert_app_tools(
                                &mut slots,
                                &c.name,
                                &conns[k].tools,
                                &tp,
                                &rp,
                                owner,
                                limit,
                                Ghost(seen),
                            );
                            proof {
                                let added = app_tools_of(
                                    c.name,
                                    conns@[k as int].tools@,
                                    tp.pview(),
                                    rp.pview(),
                                    owner,
                                );
                                assert(seen + added =~= global + (subject_app_tools(
                                    oauth_configs@.subrange(0, j as int),
                                    conns@,
                                    allowed_view(allowed),
                                    now_ms,
                                    idle_ttl_ms,
                                ) + added));
                                seen = seen + added;
                            }
                        },
                        None => {},
                    }
                }
                j = j + 1;
            }
            proof {
                assert(oauth_configs@.subrange(0, oauth_configs@.len() as int) =~= oauth_configs@);
            }
        },
    }
    finish_unambiguous_upstream_tools(slots)
}

} // verus!

verus! {

/// Why a native `ui://` resource has no single OAuth owner.
#[derive(Debug, Clone, PartialEq, Eq)]
pub enum UiResourceOwnerError {
    /// Both a global and an OAuth catalog claim the resource.
    ClaimedByGlobalAndOAuth,
    /// The claiming OAuth upstream does not expose it.
    NotExposed(String),
    /// Two OAuth upstreams claim it.
    ClaimedByMultiple(String, String),
}

/// Some listed global upstream exposes a tool that binds `uri`, and exposes
/// `uri` itself.
pub open spec fn global_metadata_owner(
    entries: Seq<UpstreamEntry>,
    uri: Seq<char>,
    allowed: Option<Seq<Seq<char>>>,
) -> bool {
    exists|i: int, k: int|
        0 <= i < entries.len() && 0 <= k < entries[i].tools@.len() && #[trigger] global_owns(
            entries[i],
            entries[i].tools@[k],
            uri,
            allowed,
        )
}

pub open spec fn global_owns(
    e: UpstreamEntry,
    t: UpstreamTool,
    uri: Seq<char>,
    allowed: Option<Seq<Seq<char>>>,
) -> bool {
    &&& app_entry_eligible(e, allowed)
    &&& e.exposure_policy.spec_matches(t.tool.name@)
    &&& owns_resource(t.tool, uri)
    &&& e.resource_exposure_policy.spec_matches(uri)
}

/// The subject's live connection to `c` lists an exposed tool binding `uri`.
pub open spec fn metadata_owner(
    c: UpstreamConfig,
    conns: Seq<SubjectConnection>,
    uri: Seq<char>,
    now_ms: u64,
    idle_ttl_ms: u64,
) -> bool {
    match live_connection(conns, c.name@, now_ms, idle_ttl_ms) {
        Some(k) => exists|j: int|
            0 <= j < conns[k].tools@.len() && pview_matches(
                config_tool_policy(c),
                conns[k].tools@[j].name@,
            ) && #[trigger] owns_resource(conns[k].tools@[j], uri),
        None => false,
    }
}

/// One OAuth config's turn in the owner search.
pub open spec fn ui_owner_step(
    configs: Seq<UpstreamConfig>,
    idx: int,
    state: Result<Option<int>, UiResourceOwnerError>,
    conns: Seq<SubjectConnection>,
    uri: Seq<char>,
    global: bool,
    now_ms: u64,
    idle_ttl_ms: u64,
) -> Result<Option<int>, UiResourceOwnerError> {
    let c = configs[idx];
    match state {
        Err(e) => Err(e),
        Ok(owner) => if !(c.enabled && c.oauth) {
            Ok(owner)
        } else {
            let authority_owner = ui_authority(uri) == Some(c.name@);
            let meta = metadata_owner(c, conns, uri, now_ms, idle_ttl_ms);
            if global && meta {
                Err(UiResourceOwnerError::ClaimedByGlobalAndOAuth)
            } else if !meta && (!authority_owner || global) {
                Ok(owner)
            } else if !c.proxy_resources || !pview_matches(config_resource_policy(c), uri) {
                Err(UiResourceOwnerError::NotExposed(c.name))
            } else {
                match owner {
                    Some(o) => if configs[o].name@ != c.name@ {
                        Err(UiResourceOwnerError::ClaimedByMultiple(configs[o].name, c.name))
                    } else {
                        Ok(Some(idx))
                    },
                    None => Ok(Some(idx)),
                }
            }
        },
    }
}

pub open spec fn ui_owner_scan(
    configs: Seq<UpstreamConfig>,
    n: int,
    conns: Seq<SubjectConnection>,
    uri: Seq<char>,
    global: bool,
    now_ms: u64,
    idle_ttl_ms: u64,
) -> Result<Option<int>, UiResourceOwnerError>
    decreases n,
{
    if n <= 0 {
        Ok(None)
    } else {
        ui_owner_step(
            configs,
            n - 1,
            ui_owner_scan(configs, n - 1, conns, uri, global, now_ms, idle_ttl_ms),
            conns,
            uri,
            global,
            now_ms,
            idle_ttl_ms,
        )
    }
}

fn global_metadata_owner_exec(catalog: &Vec<UpstreamEntry>, uri: &str, allowed: Option<&Vec<String>>) -> (b:
    bool)
    ensures
        b == global_metadata_owner(catalog@, uri@, allowed_view(allowed)),
{
    let mut i: usize = 0;
    while i < catalog.len()
        invariant
            i <= catalog@.len(),
            forall|a: int, k: int|
                0 <= a < i && 0 <= k < catalog@[a].tools@.len() ==> !#[trigger] global_owns(
                    catalog@[a],
                    catalog@[a].tools@[k],
                    uri@,
                    allowed_view(allowed),
                ),
        decreases catalog.len() - i,
    {
        let e = &catalog[i];
        if upstream_allowed(allowed, e.name.as_str()) && e.tools_routable && e.proxy_resources {
            let mut k: usize = 0;
            while k < e.tools.len()
                invariant
                    k <= e.tools@.len(),
                    i < catalog@.len(),
                    *e == catalog@[i as int],
                    app_entry_eligible(*e, allowed_view(allowed)),
                    forall|b: int|
                        0 <= b < k ==> !#[trigger] global_owns(
                            *e,
                            e.tools@[b],
                            uri@,
                            allowed_view(allowed),
                        ),
                decreases e.tools.len() - k,
            {
                let t = &e.tools[k];
                if e.exposure_policy.matches(t.tool.name.as_str()) && mcp_tool_owns_mcp_app_resource(
                    &t.tool,
                    uri,
                ) && e.resource_exposure_policy.matches(uri) {
                    assert(global_owns(catalog@[i as int], catalog@[i as int].tools@[k as int], uri@, allowed_view(allowed)));
                    return true;
                }
                k = k + 1;
            }
        }
        i = i + 1;
    }
    false
}

fn metadata_owner_exec(
    c: &UpstreamConfig,
    conns: &Vec<SubjectConnection>,
    uri: &str,
    now_ms: u64,
    idle_ttl_ms: u64,
) -> (b: bool)
    ensures
        b == metadata_owner(*c, conns@, uri@, now_ms, idle_ttl_ms),
{
    let k = match find_live_connection(conns, c.name.as_str(), now_ms, idle_ttl_ms) {
        Some(k) => k,
        None => return false,
    };
    let tp = resolve_request_exposure_policy(c);
    let tools = &conns[k].tools;
    let mut j: usize = 0;
    while j < tools.len()
        invariant
            j <= tools@.len(),
            k < conns@.len(),
            live_connection(conns@, c.name@, now_ms, idle_ttl_ms) == Some(k as int),
            tp.pview() == config_tool_policy(*c),
            *tools == conns@[k as int].tools,
            forall|b: int|
                0 <= b < j ==> !(pview_matches(config_tool_policy(*c), tools@[b].name@)
                    && #[trigger] owns_resource(tools@[b], uri@)),
        decreases tools.len() - j,
    {
        proof {
            lemma_matches_pview(tp, tools@[j as int].name@);
        }
        if tp.matches(tools[j].name.as_str()) && mcp_tool_owns_mcp_app_resource(&tools[j], uri) {
            return true;
        }
        j = j + 1;
    }
    false
}

proof fn lemma_ui_owner_err_sticks(
    configs: Seq<UpstreamConfig>,
    m: int,
    n: int,
    conns: Seq<SubjectConnection>,
    uri: Seq<char>,
    global: bool,
    now_ms: u64,
    idle_ttl_ms: u64,
)
    requires
        0 <= m <= n,
        ui_owner_scan(configs, m, conns, uri, global, now_ms, idle_ttl_ms) is Err,
    ensures
        ui_owner_scan(configs, n, conns, uri, global, now_ms, idle_ttl_ms) == ui_owner_scan(
            configs,
            m,
            conns,
            uri,
            global,
            now_ms,
            idle_ttl_ms,
        ),
    decreases n - m,
{
    if n > m {
        lemma_ui_owner_err_sticks(configs, m, n - 1, conns, uri, global, now_ms, idle_ttl_ms);
    }
}

/// Resolve the cached OAuth owner of one native MCP App `ui://` resource
/// without crossing subjects: the index of the owning config, if any.
///
/// Tool metadata is the ownership evidence; the URI authority naming the
/// upstream is accepted when no global catalog claims the resource.
pub fn cached_subject_scoped_ui_resource_owner(
    catalog: &Vec<UpstreamEntry>,
    configs: &Vec<UpstreamConfig>,
    conns: &Vec<SubjectConnection>,
    uri: &str,
    allowed: Option<&Vec<String>>,
    now_ms: u64,
    idle_ttl_ms: u64,
) -> (r: Result<Option<usize>, UiResourceOwnerError>)
    ensures
        match r {
            Ok(Some(i)) => ui_owner_scan(
                configs@,
                configs@.len() as int,
                conns@,
                uri@,
                global_metadata_owner(catalog@, uri@, allowed_view(allowed)),
                now_ms,
                idle_ttl_ms,
            ) == Ok::<Option<int>, UiResourceOwnerError>(Some(i as int)),
            Ok(None) => ui_owner_scan(
                configs@,
                configs@.len() as int,
                conns@,
                uri@,
                global_metadata_owner(catalog@, uri@, allowed_view(allowed)),
                now_ms,
                idle_ttl_ms,
            ) == Ok::<Option<int>, UiResourceOwnerError>(None),
            Err(e) => ui_owner_scan(
                configs@,
                configs@.len() as int,
                conns@,
                uri@,
                global_metadata_owner(catalog@, uri@, allowed_view(allowed)),
                now_ms,
                idle_ttl_ms,
            ) == Err::<Option<int>, UiResourceOwnerError>(e),
        },
{
    let authority = ui_uri_authority(uri);
    let global = global_metadata_owner_exec(catalog, uri, allowed);
    let mut owner: Option<usize> = None;
    let mut i: usize = 0;
    while i < configs.len()
        invariant
            i <= configs@.len(),
            opt_chars(authority) == ui_authority(uri@),
            global == global_metadata_owner(catalog@, uri@, allowed_view(allowed)),
            ui_owner_scan(configs@, i as int, conns@, uri@, global, now_ms, idle_ttl_ms) == Ok::<
                Option<int>,
                UiResourceOwnerError,
            >(
                match owner {
                    Some(o) => Some(o as int),
                    None => None,
                },
            ),
            match owner {
                Some(o) => o < i,
                None => true,
            },
        decreases configs.len() - i,
    {
        let c = &configs[i];
        if c.enabled && c.oauth {
            let authority_owner = match &authority {
                Some(a) => crate::order::compare_str(a.as_str(), c.name.as_str()) == crate::order::Cmp::Equal,
                None => false,
            };
            let meta = metadata_owner_exec(c, conns, uri, now_ms, idle_ttl_ms);
            if global && meta {
                proof {
                    lemma_ui_owner_err_sticks(configs@, i + 1, configs@.len() as int, conns@, uri@, global, now_ms, idle_ttl_ms);
                }
                return Err(UiResourceOwnerError::ClaimedByGlobalAndOAuth);
            }
            if !meta && (!authority_owner || global) {
                i = i + 1;
                continue;
            }
            let rp = resolve_request_resource_exposure_policy(c);
            proof {
                lemma_matches_pview(rp, uri@);
            }
            if !c.proxy_resources || !rp.matches(uri) {
                proof {
                    lemma_ui_owner_err_sticks(configs@, i + 1, configs@.len() as int, conns@, uri@, global, now_ms, idle_ttl_ms);
                }
                return Err(UiResourceOwnerError::NotExposed(c.name.clone()));
            }
            match owner {
                Some(o) => {
                    if crate::order::compare_str(configs[o].name.as_str(), c.name.as_str())
                        != crate::order::Cmp::Equal {
                        proof {
                            lemma_ui_owner_err_sticks(configs@, i + 1, configs@.len() as int, conns@, uri@, global, now_ms, idle_ttl_ms);
                        }
                        return Err(
                            UiResourceOwnerError::ClaimedByMultiple(
                                configs[o].name.clone(),
                                c.name.clone(),
                            ),
                        );
                    }
                },
                None => {},
            }
            owner = Some(i);
        }
        i = i + 1;
    }
    Ok(owner)
}

/// An enabled OAuth config claims `uri`: the subject's live connection to it
/// lists an exposed tool binding `uri`, or, when no global catalog claims
/// `uri`, the `ui://` authority names it.
pub open spec fn ui_claims(
    c: UpstreamConfig,
    conns: Seq<SubjectConnection>,
    uri: Seq<char>,
    global: bool,
    now_ms: u64,
    idle_ttl_ms: u64,
) -> bool {
    &&& c.enabled && c.oauth
    &&& metadata_owner(c, conns, uri, now_ms, idle_ttl_ms) || (ui_authority(uri) == Some(c.name@) && !global)
}

/// The config proxies resources and its `expose_resources` admits `uri`.
pub open spec fn ui_exposed(c: UpstreamConfig, uri: Seq<char>) -> bool {
    c.proxy_resources && pview_matches(config_resource_policy(c), uri)
}

/// Among the first `n` configs some claim is refused: it collides with a
/// global tool's metadata, its config does not expose `uri`, or another
/// upstream claims `uri` too.
pub open spec fn ui_claim_refused(
    configs: Seq<UpstreamConfig>,
    n: int,
    conns: Seq<SubjectConnection>,
    uri: Seq<char>,
    global: bool,
    now_ms: u64,
    idle_ttl_ms: u64,
) -> bool {
    exists|j: int|
        0 <= j < n && #[trigger] ui_claims(configs[j], conns, uri, global, now_ms, idle_ttl_ms) && {
            ||| global && metadata_owner(configs[j], conns, uri, now_ms, idle_ttl_ms)
            ||| !ui_exposed(configs[j], uri)
            ||| exists|k: int|
                0 <= k < n && ui_claims(configs[k], conns, uri, global, now_ms, idle_ttl_ms) && #[trigger] configs[k].name@
                    != configs[j].name@
        }
}

/// Law: the owner of a `ui://` resource is decided by the claims alone. The
/// search fails exactly when some claim is refused (a global tool and a
/// subject tool both bind it, the claiming upstream does not expose it, or
/// two upstreams claim it); it finds no owner exactly when nobody claims it;
/// and an owner it finds claims and exposes `uri`, as every claimant does
/// under the same upstream name.
pub proof fn law_ui_owner_is_the_single_exposed_claimant(
    configs: Seq<UpstreamConfig>,
    n: int,
    conns: Seq<SubjectConnection>,
    uri: Seq<char>,
    global: bool,
    now_ms: u64,
    idle_ttl_ms: u64,
)
    requires
        0 <= n <= configs.len(),
    ensures
        ui_owner_scan(configs, n, conns, uri, global, now_ms, idle_ttl_ms) is Err <==> ui_claim_refused(
            configs,
            n,
            conns,
            uri,
            global,
            now_ms,
            idle_ttl_ms,
        ),
        ui_owner_scan(configs, n, conns, uri, global, now_ms, idle_ttl_ms) == Ok::<Option<int>, UiResourceOwnerError>(None)
            <==> forall|j: int| 0 <= j < n ==> !#[trigger] ui_claims(configs[j], conns, uri, global, now_ms, idle_ttl_ms),
        match ui_owner_scan(configs, n, conns, uri, global, now_ms, idle_ttl_ms) {
            Ok(Some(i)) => {
                &&& 0 <= i < n
                &&& ui_claims(configs[i], conns, uri, global, now_ms, idle_ttl_ms)
                &&& ui_exposed(configs[i], uri)
                &&& forall|j: int|
                    0 <= j < n && #[trigger] ui_claims(configs[j], conns, uri, global, now_ms, idle_ttl_ms)
                        ==> configs[j].name@ == configs[i].name@
            },
            _ => true,
        },
    decreases n,
{
    if n > 0 {
        law_ui_owner_is_the_single_exposed_claimant(configs, n - 1, conns, uri, global, now_ms, idle_ttl_ms);
        let r = ui_owner_scan(configs, n - 1, conns, uri, global, now_ms, idle_ttl_ms);
        let c = configs[n - 1];
        let claims = ui_claims(c, conns, uri, global, now_ms, idle_ttl_ms);
        let meta = metadata_owner(c, conns, uri, now_ms, idle_ttl_ms);
        match r {
            Err(_) => {
                let j = choose|j: int|
                    0 <= j < n - 1 && #[trigger] ui_claims(configs[j], conns, uri, global, now_ms, idle_ttl_ms) && {
                        ||| global && metadata_owner(configs[j], conns, uri, now_ms, idle_ttl_ms)
                        ||| !ui_exposed(configs[j], uri)
                        ||| exists|k: int|
                            0 <= k < n - 1 && ui_claims(configs[k], conns, uri, global, now_ms, idle_ttl_ms)
                                && #[trigger] configs[k].name@ != configs[j].name@
                    };
                assert(ui_claims(configs[j], conns, uri, global, now_ms, idle_ttl_ms));
            },
            Ok(owner) => {
                if !claims {
                    assert(ui_claim_refused(configs, n, conns, uri, global, now_ms, idle_ttl_ms)
                        ==> ui_claim_refused(configs, n - 1, conns, uri, global, now_ms, idle_ttl_ms)) by {
                        if ui_claim_refused(configs, n, conns, uri, global, now_ms, idle_ttl_ms) {
                            let j = choose|j: int|
                                0 <= j < n && #[trigger] ui_claims(configs[j], conns, uri, global, now_ms, idle_ttl_ms) && {
                                    ||| global && metadata_owner(configs[j], conns, uri, now_ms, idle_ttl_ms)
                                    ||| !ui_exposed(configs[j], uri)
                                    ||| exists|k: int|
                                        0 <= k < n && ui_claims(configs[k], conns, uri, global, now_ms, idle_ttl_ms)
                                            && #[trigger] configs[k].name@ != configs[j].name@
                                };
                            assert(j != n - 1);
                            if !(global && metadata_owner(configs[j], conns, uri, now_ms, idle_ttl_ms))
                                && ui_exposed(configs[j], uri) {
                                let k = choose|k: int|
                                    0 <= k < n && ui_claims(configs[k], conns, uri, global, now_ms, idle_ttl_ms)
                                        && #[trigger] configs[k].name@ != configs[j].name@;
                                assert(k != n - 1);
                                assert(configs[k].name@ != configs[j].name@);
                            }
                        }
                    }
                } else if global && meta {
                    assert(ui_claims(configs[n - 1], conns, uri, global, now_ms, idle_ttl_ms));
                } else if !ui_exposed(c, uri) {
                    assert(ui_claims(configs[n - 1], conns, uri, global, now_ms, idle_ttl_ms));
                } else {
                    match owner {
                        Some(o) => {
                            if configs[o].name@ != c.name@ {
                                assert(ui_claims(configs[n - 1], conns, uri, global, now_ms, idle_ttl_ms));
                                assert(ui_claims(configs[o], conns, uri, global, now_ms, idle_ttl_ms));
                                assert(configs[o].name@ != configs[n - 1].name@);
                            } else {
                                assert(!ui_claim_refused(configs, n, conns, uri, global, now_ms, idle_ttl_ms)) by {
                                    if ui_claim_refused(configs, n, conns, uri, global, now_ms, idle_ttl_ms) {
                                        let j = choose|j: int|
                                            0 <= j < n && #[trigger] ui_claims(configs[j], conns, uri, global, now_ms, idle_ttl_ms) && {
                                                ||| global && metadata_owner(configs[j], conns, uri, now_ms, idle_ttl_ms)
                                                ||| !ui_exposed(configs[j], uri)
                                                ||| exists|k: int|
                                                    0 <= k < n && ui_claims(configs[k], conns, uri, global, now_ms, idle_ttl_ms)
                                                        && #[trigger] configs[k].name@ != configs[j].name@
                                            };
                                        if j < n - 1 {
                                            assert(!(global && metadata_owner(configs[j], conns, uri, now_ms, idle_ttl_ms))
                                                && ui_exposed(configs[j], uri) && configs[j].name@ == configs[o].name@) by {
                                                if !(!(global && metadata_owner(configs[j], conns, uri, now_ms, idle_ttl_ms))
                                                    && ui_exposed(configs[j], uri)) {
                                                    assert(ui_claim_refused(configs, n - 1, conns, uri, global, now_ms, idle_ttl_ms));
                                                }
                                            }
                                        }
                                        let k = choose|k: int|
                                            0 <= k < n && ui_claims(configs[k], conns, uri, global, now_ms, idle_ttl_ms)
                                                && #[trigger] configs[k].name@ != configs[j].name@;
                                        if k < n - 1 {
                                            assert(configs[k].name@ == configs[o].name@);
                                        }
                                        assert(configs[j].name@ == configs[o].name@);
                                        assert(configs[k].name@ == configs[o].name@);
                                    }
                                }
                            }
                        },
                        None => {
                            assert(!ui_claim_refused(configs, n, conns, uri, global, now_ms, idle_ttl_ms)) by {
                                if ui_claim_refused(configs, n, conns, uri, global, now_ms, idle_ttl_ms) {
                                    let j = choose|j: int|
                                        0 <= j < n && #[trigger] ui_claims(configs[j], conns, uri, global, now_ms, idle_ttl_ms) && {
                                            ||| global && metadata_owner(configs[j], conns, uri, now_ms, idle_ttl_ms)
                                            ||| !ui_exposed(configs[j], uri)
                                            ||| exists|k: int|
                                                0 <= k < n && ui_claims(configs[k], conns, uri, global, now_ms, idle_ttl_ms)
                                                    && #[trigger] configs[k].name@ != configs[j].name@
                                        };
                                    assert(j == n - 1);
                                    let k = choose|k: int|
                                        0 <= k < n && ui_claims(configs[k], conns, uri, global, now_ms, idle_ttl_ms)
                                            && #[trigger] configs[k].name@ != configs[j].name@;
                                    assert(k == n - 1);
                                }
                            }
                        },
                    }
                    assert(ui_claims(configs[n - 1], conns, uri, global, now_ms, idle_ttl_ms));
                }
            },
        }
    }
}

} // verus!

verus! {

// ---------------------------------------------------------------------------
// Grouping a routed listing by upstream
// ---------------------------------------------------------------------------

pub open spec fn group_view(g: (String, Vec<ToolDescriptor>)) -> (Seq<char>, Seq<ToolDescriptor>) {
    (g.0@, g.1@)
}

pub open spec fn groups_view(gs: Seq<(String, Vec<ToolDescriptor>)>) -> Seq<(Seq<char>, Seq<ToolDescriptor>)> {
    gs.map_values(|g: (String, Vec<ToolDescriptor>)| group_view(g))
}

pub open spec fn find_group(gs: Seq<(Seq<char>, Seq<ToolDescriptor>)>, name: Seq<char>) -> Option<int>
    decreases gs.len(),
{
    if gs.len() == 0 {
        None
    } else if gs[0].0 == name {
        Some(0)
    } else {
        match find_group(gs.drop_first(), name) {
            Some(k) => Some(k + 1),
            None => None,
        }
    }
}

/// Index of the first group whose name does not sort below `name`.
pub open spec fn group_lower_bound(gs: Seq<(Seq<char>, Seq<ToolDescriptor>)>, name: Seq<char>) -> nat
    decreases gs.len(),
{
    if gs.len() == 0 {
        0
    } else if str_lt(gs[0].0, name) {
        1 + group_lower_bound(gs.drop_first(), name)
    } else {
        0
    }
}

/// Append a tool to its upstream's group, opening the group in name order
/// when it is new.
pub open spec fn group_insert(gs: Seq<(Seq<char>, Seq<ToolDescriptor>)>, t: UpstreamTool) -> Seq<
    (Seq<char>, Seq<ToolDescriptor>),
> {
    match find_group(gs, t.upstream_name@) {
        Some(k) => gs.update(k, (gs[k].0, gs[k].1.push(t.tool))),
        None => gs.insert(
            group_lower_bound(gs, t.upstream_name@) as int,
            (t.upstream_name@, seq![t.tool]),
        ),
    }
}

pub open spec fn group_fold(items: Seq<UpstreamTool>) -> Seq<(Seq<char>, Seq<ToolDescriptor>)>
    decreases items.len(),
{
    if items.len() == 0 {
        Seq::empty()
    } else {
        group_insert(group_fold(items.drop_last()), items.last())
    }
}

fn group_push(groups: &mut Vec<(String, Vec<ToolDescriptor>)>, t: UpstreamTool)
    ensures
        groups_view(final(groups)@) == group_insert(groups_view(old(groups)@), t),
{
    let ghost gs = groups_view(groups@);
    let n = groups.len();
    proof {
        assert(gs.subrange(0, n as int) =~= gs);
    }
    // Look for the upstream's group.
    let mut j: usize = 0;
    while j < n
        invariant
            n == groups@.len(),
            groups@ == old(groups)@,
            gs == groups_view(groups@),
            gs.len() == n,
            j <= n,
            find_group(gs, t.upstream_name@) == match find_group(
                gs.subrange(j as int, n as int),
                t.upstream_name@,
            ) {
                Some(k) => Some(k + j),
                None => None,
            },
        decreases n - j,
    {
        proof {
            let rest = gs.subrange(j as int, n as int);
            assert(rest[0] == gs[j as int]);
            assert(rest.drop_first() =~= gs.subrange(j + 1, n as int));
        }
        if crate::order::compare_str(groups[j].0.as_str(), t.upstream_name.as_str())
            == crate::order::Cmp::Equal {
            proof {
                let rest = gs.subrange(j as int, n as int);
                assert(rest[0].0 == t.upstream_name@);
                assert(find_group(rest, t.upstream_name@) == Some(0int));
            }
            let (name, mut tools) = groups.remove(j);
            tools.push(t.tool);
            groups.insert(j, (name, tools));
            proof {
                assert(groups_view(groups@) =~= gs.update(
                    j as int,
                    (gs[j as int].0, gs[j as int].1.push(t.tool)),
                ));
            }
            return;
        }
        j = j + 1;
    }
    // A new group opens before the first name that does not sort below it.
    let mut i: usize = 0;
    while i < n && crate::order::str_less(groups[i].0.as_str(), t.upstream_name.as_str())
        invariant
            n == groups@.len(),
            groups@ == old(groups)@,
            gs == groups_view(groups@),
            gs.len() == n,
            i <= n,
            find_group(gs, t.upstream_name@).is_none(),
            group_lower_bound(gs, t.upstream_name@) == i + group_lower_bound(
                gs.subrange(i as int, n as int),
                t.upstream_name@,
            ),
        decreases n - i,
    {
        proof {
            let rest = gs.subrange(i as int, n as int);
            assert(rest[0] == gs[i as int]);
            assert(rest.drop_first() =~= gs.subrange(i + 1, n as int));
        }
        i = i + 1;
    }
    proof {
        let rest = gs.subrange(i as int, n as int);
        if i < n {
            assert(rest[0] == gs[i as int]);
        }
        assert(group_lower_bound(rest, t.upstream_name@) == 0);
    }
    let mut tools: Vec<ToolDescriptor> = Vec::new();
    let ghost tool = t.tool;
    let name = t.upstream_name;
    tools.push(t.tool);
    proof {
        assert(tools@ =~= seq![tool]);
    }
    groups.insert(i, (name, tools));
    proof {
        assert(groups_view(groups@) =~= gs.insert(i as int, (name@, seq![tool])));
    }
}

} // verus!

verus! {

/// Group a routed listing by upstream: groups in upstream-name order, each
/// holding its tools in listing order.
pub fn group_by_upstream(tools: Vec<UpstreamTool>) -> (groups: Vec<(String, Vec<ToolDescriptor>)>)
    ensures
        groups_view(groups@) == group_fold(tools@),
{
    let ghost all = tools@;
    let mut groups: Vec<(String, Vec<ToolDescriptor>)> = Vec::new();
    let rest = tools;
    let n = rest.len();
    let mut i: usize = 0;
    proof {
        assert(groups_view(groups@) =~= Seq::<(Seq<char>, Seq<ToolDescriptor>)>::empty());
    }
    while i < n
        invariant
            i <= n == all.len(),
            rest@ == all,
            groups_view(groups@) == group_fold(all.subrange(0, i as int)),
        decreases n - i,
    {
        proof {
            assert(all.subrange(0, i + 1).drop_last() =~= all.subrange(0, i as int));
        }
        group_push(&mut groups, rest[i].clone());
        i = i + 1;
    }
    proof {
        assert(all.subrange(0, n as int) =~= all);
    }
    groups
}

/// Routed, exposed tools of one tool list.
pub open spec fn routed_exposed(name: String, tools: Seq<ToolDescriptor>, pv: Option<Seq<Seq<char>>>) -> Seq<
    UpstreamTool,
>
    decreases tools.len(),
{
    if tools.len() == 0 {
        Seq::empty()
    } else {
        let r = routed_exposed(name, tools.drop_last(), pv);
        if pview_matches(pv, tools.last().name@) {
            r.push(UpstreamTool { upstream_name: name, tool: tools.last() })
        } else {
            r
        }
    }
}

fn route_exposed(name: &String, tools: &Vec<ToolDescriptor>, policy: &ExposurePolicy) -> (v: Vec<
    UpstreamTool,
>)
    ensures
        v@ == routed_exposed(*name, tools@, policy.pview()),
{
    let mut v: Vec<UpstreamTool> = Vec::new();
    let mut i: usize = 0;
    while i < tools.len()
        invariant
            i <= tools@.len(),
            v@ == routed_exposed(*name, tools@.subrange(0, i as int), policy.pview()),
        decreases tools.len() - i,
    {
        proof {
            assert(tools@.subrange(0, i + 1).drop_last() =~= tools@.subrange(0, i as int));
            lemma_matches_pview(*policy, tools@[i as int].name@);
        }
        if policy.matches(tools[i].name.as_str()) {
            v.push(UpstreamTool { upstream_name: name.clone(), tool: tools[i].clone() });
        }
        i = i + 1;
    }
    proof {
        assert(tools@.subrange(0, tools@.len() as int) =~= tools@);
    }
    v
}

/// The exposed tools of the subject's live OAuth connections, each
/// upstream's in name order, upstreams in config order.
pub open spec fn cached_subject_candidates(
    configs: Seq<UpstreamConfig>,
    conns: Seq<SubjectConnection>,
    now_ms: u64,
    idle_ttl_ms: u64,
) -> Seq<UpstreamTool>
    decreases configs.len(),
{
    if configs.len() == 0 {
        Seq::empty()
    } else {
        let r = cached_subject_candidates(configs.drop_last(), conns, now_ms, idle_ttl_ms);
        let c = configs.last();
        if c.enabled && c.oauth {
            match live_connection(conns, c.name@, now_ms, idle_ttl_ms) {
                Some(k) => r + bounded_listing(
                    routed_exposed(c.name, conns[k].tools@, config_tool_policy(c)),
                    usize::MAX as nat,
                ),
                None => r,
            }
        } else {
            r
        }
    }
}

/// `t` passes the call-time exposure gate of an enabled OAuth config it is
/// routed to.
pub open spec fn subject_gate_admits(configs: Seq<UpstreamConfig>, t: UpstreamTool) -> bool {
    exists|i: int|
        #![trigger configs[i]]
        0 <= i < configs.len() && configs[i].name == t.upstream_name && configs[i].enabled
            && configs[i].oauth && pview_matches(config_tool_policy(configs[i]), t.tool.name@)
}

proof fn lemma_routed_exposed_admitted(name: String, tools: Seq<ToolDescriptor>, pv: Option<Seq<Seq<char>>>)
    ensures
        forall|k: int|
            0 <= k < routed_exposed(name, tools, pv).len() ==> (#[trigger] routed_exposed(
                name,
                tools,
                pv,
            )[k]).upstream_name == name && pview_matches(
                pv,
                routed_exposed(name, tools, pv)[k].tool.name@,
            ),
    decreases tools.len(),
{
    if tools.len() > 0 {
        lemma_routed_exposed_admitted(name, tools.drop_last(), pv);
    }
}

proof fn lemma_subject_candidates_admitted(
    configs: Seq<UpstreamConfig>,
    conns: Seq<SubjectConnection>,
    now_ms: u64,
    idle_ttl_ms: u64,
)
    ensures
        forall|k: int|
            0 <= k < cached_subject_candidates(configs, conns, now_ms, idle_ttl_ms).len()
                ==> subject_gate_admits(
                configs,
                #[trigger] cached_subject_candidates(configs, conns, now_ms, idle_ttl_ms)[k],
            ),
    decreases configs.len(),
{
    if configs.len() > 0 {
        let pre = configs.drop_last();
        let last = configs.len() - 1;
        let c = configs.last();
        let r = cached_subject_candidates(pre, conns, now_ms, idle_ttl_ms);
        lemma_subject_candidates_admitted(pre, conns, now_ms, idle_ttl_ms);
        assert forall|k: int| 0 <= k < r.len() implies subject_gate_admits(configs, #[trigger] r[k]) by {
            let i = choose|i: int|
                #![trigger pre[i]]
                0 <= i < pre.len() && pre[i].name == r[k].upstream_name && pre[i].enabled && pre[i].oauth
                    && pview_matches(config_tool_policy(pre[i]), r[k].tool.name@);
            assert(configs[i] == pre[i]);
        }
        if c.enabled && c.oauth {
            match live_connection(conns, c.name@, now_ms, idle_ttl_ms) {
                Some(j) => {
                    let routed = routed_exposed(c.name, conns[j].tools@, config_tool_policy(c));
                    let added = bounded_listing(routed, usize::MAX as nat);
                    lemma_routed_exposed_admitted(c.name, conns[j].tools@, config_tool_policy(c));
                    crate::bounded::law_bounded_listing_holds_smallest(routed, usize::MAX as nat);
                    assert forall|k: int| 0 <= k < added.len() implies subject_gate_admits(
                        configs,
                        #[trigger] added[k],
                    ) by {
                        assert(routed.contains(added[k]));
                        let m = choose|m: int| 0 <= m < routed.len() && routed[m] == added[k];
                        assert(routed[m].upstream_name == c.name);
                        assert(configs[last] == c);
                    }
                    let all = r + added;
                    assert forall|k: int| 0 <= k < all.len() implies subject_gate_admits(
                        configs,
                        #[trigger] all[k],
                    ) by {
                        if k < r.len() {
                            assert(all[k] == r[k]);
                        } else {
                            assert(all[k] == added[k - r.len()]);
                        }
                    }
                },
                None => {},
            }
        }
    }
}

/// Law: discovery and execution agree on exposure for subject-scoped
/// upstreams. Every tool the subject's cached listing offers, at any bound,
/// passes the call-time exposure gate of the enabled OAuth upstream it is
/// routed to; so a tool that gate refuses is never listed.
pub proof fn law_subject_listing_offers_only_callable_tools(
    configs: Seq<UpstreamConfig>,
    conns: Seq<SubjectConnection>,
    now_ms: u64,
    idle_ttl_ms: u64,
    limit: nat,
)
    ensures
        forall|k: int|
            0 <= k < bounded_listing(cached_subject_candidates(configs, conns, now_ms, idle_ttl_ms), limit).len()
                ==> subject_gate_admits(
                configs,
                #[trigger] bounded_listing(
                    cached_subject_candidates(configs, conns, now_ms, idle_ttl_ms),
                    limit,
                )[k],
            ),
{
    let cands = cached_subject_candidates(configs, conns, now_ms, idle_ttl_ms);
    let listed = bounded_listing(cands, limit);
    lemma_subject_candidates_admitted(configs, conns, now_ms, idle_ttl_ms);
    crate::bounded::law_bounded_listing_holds_smallest(cands, limit);
    assert forall|k: int| 0 <= k < listed.len() implies subject_gate_admits(configs, #[trigger] listed[k]) by {
        assert(cands.contains(listed[k]));
        let m = choose|m: int| 0 <= m < cands.len() && cands[m] == listed[k];
        assert(subject_gate_admits(configs, cands[m]));
    }
}

/// At most `limit` already-cached OAuth tools of one subject, in global tool
/// then upstream order, grouped by upstream. A connection that is not cached
/// or has gone idle is skipped, never dialled.
pub fn cached_subject_scoped_tools_bounded(
    configs: &Vec<UpstreamConfig>,
    conns: &Vec<SubjectConnection>,
    now_ms: u64,
    idle_ttl_ms: u64,
    limit: usize,
) -> (groups: Vec<(String, Vec<ToolDescriptor>)>)
    ensures
        groups_view(groups@) == group_fold(
            bounded_listing(
                cached_subject_candidates(configs@, conns@, now_ms, idle_ttl_ms),
                limit as nat,
            ),
        ),
{
    let mut bounded: Vec<UpstreamTool> = Vec::new();
    let ghost mut seen: Seq<UpstreamTool> = Seq::empty();
    let mut i: usize = 0;
    while i < configs.len()
        invariant
            i <= configs@.len(),
            seen == cached_subject_candidates(
                configs@.subrange(0, i as int),
                conns@,
                now_ms,
                idle_ttl_ms,
            ),
            bounded@ == bounded_listing(seen, limit as nat),
        decreases configs.len() - i,
    {
        proof {
            assert(configs@.subrange(0, i + 1).drop_last() =~= configs@.subrange(0, i as int));
        }
        let c = &configs[i];
        if c.enabled && c.oauth {
            match find_live_connection(conns, c.name.as_str(), now_ms, idle_ttl_ms) {
                Some(k) => {
                    let policy = resolve_request_exposure_policy(c);
                    let exposed = route_exposed(&c.name, &conns[k].tools, &policy);
                    let mut sorted: Vec<UpstreamTool> = Vec::new();
                    assert(Seq::<UpstreamTool>::empty() + exposed@ =~= exposed@);
                    insert_all_bounded(&mut sorted, &exposed, usize::MAX, Ghost(Seq::empty()));
                    insert_all_bounded(&mut bounded, &sorted, limit, Ghost(seen));
                    proof {
                        seen = seen + sorted@;
                    }
                },
                None => {},
            }
        }
        i = i + 1;
    }
    proof {
        assert(configs@.subrange(0, configs@.len() as int) =~= configs@);
    }
    group_by_upstream(bounded)
}

pub open spec fn flatten_groups(gs: Seq<(String, Vec<ToolDescriptor>)>) -> Seq<UpstreamTool>
    decreases gs.len(),
{
    if gs.len() == 0 {
        Seq::empty()
    } else {
        flatten_groups(gs.drop_last()) + route_all(gs.last().0, gs.last().1@)
    }
}

pub open spec fn route_all(name: String, tools: Seq<ToolDescriptor>) -> Seq<UpstreamTool> {
    tools.map_values(|t: ToolDescriptor| UpstreamTool { upstream_name: name, tool: t })
}

/// The OAuth tools one subject sees, in the routed form of the global
/// catalog: the groups the subject-scoped discovery returned (for the
/// configs [`subject_configs_allowed`] picks), each tool routed to its
/// upstream, keeping at most `limit` in tool then upstream order.
pub fn subject_scoped_upstream_tools_allowed_bounded(
    groups: &Vec<(String, Vec<ToolDescriptor>)>,
    limit: usize,
) -> (routed: Vec<UpstreamTool>)
    ensures
        routed@ == bounded_listing(flatten_groups(groups@), limit as nat),
{
    let mut routed: Vec<UpstreamTool> = Vec::new();
    let mut i: usize = 0;
    while i < groups.len()
        invariant
            i <= groups@.len(),
            routed@ == bounded_listing(flatten_groups(groups@.subrange(0, i as int)), limit as nat),
        decreases groups.len() - i,
    {
        proof {
            assert(groups@.subrange(0, i + 1).drop_last() =~= groups@.subrange(0, i as int));
        }
        let g = &groups[i];
        let mut one: Vec<UpstreamTool> = Vec::new();
        let mut j: usize = 0;
        while j < g.1.len()
            invariant
                j <= g.1@.len(),
                one@ == route_all(g.0, g.1@.subrange(0, j as int)),
            decreases g.1.len() - j,
        {
            one.push(UpstreamTool { upstream_name: g.0.clone(), tool: g.1[j].clone() });
            proof {
                assert(one@ =~= route_all(g.0, g.1@.subrange(0, j + 1)));
            }
            j = j + 1;
        }
        proof {
            assert(g.1@.subrange(0, g.1@.len() as int) =~= g.1@);
        }
        insert_all_bounded(
            &mut routed,
            &one,
            limit,
            Ghost(flatten_groups(groups@.subrange(0, i as int))),
        );
        i = i + 1;
    }
    proof {
        assert(groups@.subrange(0, groups@.len() as int) =~= groups@);
    }
    routed
}

/// [`subject_scoped_upstream_tools_allowed_bounded`] at the catalog-wide
/// cap of [`MAX_UPSTREAM_TOOLS`].
pub fn subject_scoped_upstream_tools_allowed(groups: &Vec<(String, Vec<ToolDescriptor>)>) -> (routed: Vec<
    UpstreamTool,
>)
    ensures
        routed@ == bounded_listing(flatten_groups(groups@), MAX_UPSTREAM_TOOLS as nat),
{
    subject_scoped_upstream_tools_allowed_bounded(groups, MAX_UPSTREAM_TOOLS)
}

/// Indices, in order, of the first `n` configs that are enabled and inside
/// the route scope.
pub open spec fn allowed_config_indices(
    configs: Seq<UpstreamConfig>,
    allowed: Option<Seq<Seq<char>>>,
    n: int,
) -> Seq<usize>
    decreases n,
{
    if n <= 0 {
        Seq::empty()
    } else {
        let r = allowed_config_indices(configs, allowed, n - 1);
        if configs[n - 1].enabled && spec_upstream_allowed(allowed, configs[n - 1].name@) {
            r.push((n - 1) as usize)
        } else {
            r
        }
    }
}

/// The OAuth configs one subject-scoped routed listing consults: enabled and
/// inside the route scope, as indices in config order.
pub fn subject_configs_allowed(configs: &Vec<UpstreamConfig>, allowed: Option<&Vec<String>>) -> (idx:
    Vec<usize>)
    ensures
        idx@ == allowed_config_indices(configs@, allowed_view(allowed), configs@.len() as int),
{
    let mut idx: Vec<usize> = Vec::new();
    let mut i: usize = 0;
    while i < configs.len()
        invariant
            i <= configs@.len(),
            idx@ == allowed_config_indices(configs@, allowed_view(allowed), i as int),
        decreases configs.len() - i,
    {
        if configs[i].enabled && upstream_allowed(allowed, configs[i].name.as_str()) {
            idx.push(i);
        }
        i = i + 1;
    }
    idx
}

} // verus!

verus! {

// ---------------------------------------------------------------------------
// Exposure tables, summaries and routable names
// ---------------------------------------------------------------------------

/// A description worth showing: present and not only whitespace.
pub open spec fn shown_description(o: Option<String>) -> Option<Seq<char>> {
    match o {
        Some(s) => if crate::text::is_blank(s@) {
            None
        } else {
            Some(s@)
        },
        None => None,
    }
}

/// `r` is the exposure row of tool `t` under `policy`.
pub open spec fn row_of(r: UpstreamToolExposureRow, t: UpstreamTool, policy: ExposurePolicy) -> bool {
    &&& r.name == t.tool.name
    &&& opt_chars(r.description) == shown_description(t.tool.description)
    &&& r.exposed == policy.spec_matches(t.tool.name@)
    &&& opt_chars(r.matched_by) == policy.spec_matched_by(t.tool.name@)
}

fn shown_description_exec(o: &Option<String>) -> (r: Option<String>)
    ensures
        opt_chars(r) == shown_description(*o),
{
    match o {
        Some(s) => if crate::stderr::line_is_blank(s.as_str()) {
            None
        } else {
            Some(s.clone())
        },
        None => None,
    }
}

fn row_for(t: &UpstreamTool, policy: &ExposurePolicy) -> (r: UpstreamToolExposureRow)
    ensures
        row_of(r, *t, *policy),
{
    let matched_by = policy.matched_by(t.tool.name.as_str());
    UpstreamToolExposureRow {
        name: t.tool.name.clone(),
        description: shown_description_exec(&t.tool.description),
        exposed: matched_by.is_some(),
        matched_by,
    }
}

fn rows_for(tools: &Vec<UpstreamTool>, policy: &ExposurePolicy) -> (rows: Vec<UpstreamToolExposureRow>)
    ensures
        rows@.len() == tools@.len(),
        forall|i: int| 0 <= i < tools@.len() ==> row_of(#[trigger] rows@[i], tools@[i], *policy),
{
    let mut rows: Vec<UpstreamToolExposureRow> = Vec::new();
    let mut i: usize = 0;
    while i < tools.len()
        invariant
            i <= tools@.len(),
            rows@.len() == i,
            forall|k: int| 0 <= k < i ==> row_of(#[trigger] rows@[k], tools@[k], *policy),
        decreases tools.len() - i,
    {
        rows.push(row_for(&tools[i], policy));
        i = i + 1;
    }
    rows
}

/// Every discovered tool of one upstream, hidden ones included, with its
/// exposure, in name order.
pub fn tool_exposure_rows(catalog: &Vec<UpstreamEntry>, upstream: &str) -> (rows: Vec<
    UpstreamToolExposureRow,
>)
    ensures
        match entry_index(catalog@, upstream@) {
            None => rows@.len() == 0,
            Some(k) => {
                let sorted = bounded_listing(catalog@[k].tools@, usize::MAX as nat);
                &&& rows@.len() == sorted.len()
                &&& forall|i: int|
                    0 <= i < sorted.len() ==> row_of(
                        #[trigger] rows@[i],
                        sorted[i],
                        catalog@[k].exposure_policy,
                    )
            },
        },
{
    match find_entry(catalog, upstream) {
        None => Vec::new(),
        Some(k) => {
            let e = &catalog[k];
            let mut sorted: Vec<UpstreamTool> = Vec::new();
            assert(Seq::<UpstreamTool>::empty() + e.tools@ =~= e.tools@);
            insert_all_bounded(&mut sorted, &e.tools, usize::MAX, Ghost(Seq::empty()));
            rows_for(&sorted, &e.exposure_policy)
        },
    }
}

/// One upstream's bounded enrichment preview.
#[derive(Debug)]
pub struct UpstreamEnrichmentCatalogEntry {
    pub upstream: String,
    pub tool_rows: Vec<UpstreamToolExposureRow>,
    pub resource_count: usize,
    pub prompt_count: usize,
}

/// A catalog entry's name and position.
impl SortKeyed for (String, usize) {
    open spec fn sort_key(&self) -> (Seq<char>, Seq<char>) {
        (self.0@, Seq::empty())
    }

    fn key_less(&self, other: &Self) -> (b: bool) {
        proof {
            reveal_strlit("");
        }
        pair_less(self.0.as_str(), "", other.0.as_str(), "")
    }
}

/// Names and positions of the entries a route scope admits, in catalog order.
pub open spec fn allowed_entry_refs(entries: Seq<UpstreamEntry>, allowed: Option<Seq<Seq<char>>>) -> Seq<
    (String, usize),
>
    decreases entries.len(),
{
    if entries.len() == 0 {
        Seq::empty()
    } else {
        let r = allowed_entry_refs(entries.drop_last(), allowed);
        if spec_upstream_allowed(allowed, entries.last().name@) {
            r.push((entries.last().name, (entries.len() - 1) as usize))
        } else {
            r
        }
    }
}

/// `x` previews entry `e` with at most `row_limit` exposed tool rows.
pub open spec fn enrichment_of(x: UpstreamEnrichmentCatalogEntry, e: UpstreamEntry, row_limit: nat) -> bool {
    let tools = if e.tools_routable {
        bounded_listing(entry_exposed(e), row_limit)
    } else {
        Seq::empty()
    };
    &&& x.upstream == e.name
    &&& x.tool_rows@.len() == tools.len()
    &&& forall|i: int| 0 <= i < tools.len() ==> row_of(#[trigger] x.tool_rows@[i], tools[i], e.exposure_policy)
    &&& x.resource_count == if e.resources_routable {
        e.resource_count
    } else {
        0
    }
    &&& x.prompt_count == if e.prompts_routable {
        e.prompt_count
    } else {
        0
    }
}

/// A deterministic, cache-only enrichment preview: per admitted upstream (in
/// upstream-name order) at most `per_upstream_tool_limit + 1` exposed tool
/// rows, and its resource and prompt counts when those are routable.
pub fn cached_enrichment_snapshot(
    catalog: &Vec<UpstreamEntry>,
    allowed: Option<&Vec<String>>,
    per_upstream_tool_limit: usize,
) -> (entries: Vec<UpstreamEnrichmentCatalogEntry>)
    ensures
        ({
            let order = bounded_listing(
                allowed_entry_refs(catalog@, allowed_view(allowed)),
                usize::MAX as nat,
            );
            &&& entries@.len() == order.len()
            &&& forall|i: int|
                0 <= i < order.len() ==> order[i].1 < catalog@.len() && enrichment_of(
                    #[trigger] entries@[i],
                    catalog@[order[i].1 as int],
                    sat_add(per_upstream_tool_limit as int, 1) as nat,
                )
        }),
{
    let row_limit = per_upstream_tool_limit.saturating_add(1);
    // Order the admitted entries by upstream name.
    let mut order: Vec<(String, usize)> = Vec::new();
    let mut i: usize = 0;
    while i < catalog.len()
        invariant
            i <= catalog@.len(),
            order@ == bounded_listing(
                allowed_entry_refs(catalog@.subrange(0, i as int), allowed_view(allowed)),
                usize::MAX as nat,
            ),
        decreases catalog.len() - i,
    {
        let ghost prev = allowed_entry_refs(catalog@.subrange(0, i as int), allowed_view(allowed));
        proof {
            assert(catalog@.subrange(0, i + 1).drop_last() =~= catalog@.subrange(0, i as int));
        }
        if upstream_allowed(allowed, catalog[i].name.as_str()) {
            let item = (catalog[i].name.clone(), i);
            proof {
                assert(prev.push(item).drop_last() =~= prev);
            }
            insert_bounded(&mut order, item, usize::MAX);
        }
        i = i + 1;
    }
    proof {
        assert(catalog@.subrange(0, catalog@.len() as int) =~= catalog@);
        lemma_entry_refs_in_range(catalog@, allowed_view(allowed));
        crate::bounded::law_bounded_listing_holds_smallest(
            allowed_entry_refs(catalog@, allowed_view(allowed)),
            usize::MAX as nat,
        );
    }
    let mut entries: Vec<UpstreamEnrichmentCatalogEntry> = Vec::new();
    let mut j: usize = 0;
    while j < order.len()
        invariant
            j <= order@.len(),
            entries@.len() == j,
            forall|k: int| 0 <= k < order@.len() ==> #[trigger] order@[k].1 < catalog@.len(),
            forall|k: int|
                0 <= k < j ==> enrichment_of(
                    #[trigger] entries@[k],
                    catalog@[order@[k].1 as int],
                    row_limit as nat,
                ),
        decreases order.len() - j,
    {
        let e = &catalog[order[j].1];
        let mut selected: Vec<UpstreamTool> = Vec::new();
        if e.tools_routable {
            let ex = exposed_tools(e);
            assert(Seq::<UpstreamTool>::empty() + ex@ =~= ex@);
            insert_all_bounded(&mut selected, &ex, row_limit, Ghost(Seq::empty()));
        }
        let tool_rows = rows_for(&selected, &e.exposure_policy);
        let entry = UpstreamEnrichmentCatalogEntry {
            upstream: e.name.clone(),
            tool_rows,
            resource_count: if e.resources_routable {
                e.resource_count
            } else {
                0
            },
            prompt_count: if e.prompts_routable {
                e.prompt_count
            } else {
                0
            },
        };
        entries.push(entry);
        j = j + 1;
    }
    entries
}

proof fn lemma_entry_refs_in_range(entries: Seq<UpstreamEntry>, allowed: Option<Seq<Seq<char>>>)
    ensures
        forall|k: int|
            0 <= k < allowed_entry_refs(entries, allowed).len() ==> #[trigger] allowed_entry_refs(
                entries,
                allowed,
            )[k].1 < entries.len(),
    decreases entries.len(),
{
    if entries.len() > 0 {
        lemma_entry_refs_in_range(entries.drop_last(), allowed);
        let r = allowed_entry_refs(entries.drop_last(), allowed);
        assert forall|k: int|
            0 <= k < allowed_entry_refs(entries, allowed).len() implies #[trigger] allowed_entry_refs(
            entries,
            allowed,
        )[k].1 < entries.len() by {
            if k < r.len() {
                assert(allowed_entry_refs(entries, allowed)[k] == r[k]);
            }
        }
    }
}

proof fn lemma_contains_push(s: Seq<Seq<char>>, x: Seq<char>, n: Seq<char>)
    ensures
        s.push(x).contains(n) <==> (s.contains(n) || n == x),
{
    if s.push(x).contains(n) {
        let k = choose|k: int| 0 <= k < s.push(x).len() && s.push(x)[k] == n;
        if k < s.len() {
            assert(s[k] == n);
        }
    }
    if s.contains(n) {
        let k = choose|k: int| 0 <= k < s.len() && s[k] == n;
        assert(s.push(x)[k] == n);
    }
    if n == x {
        assert(s.push(x)[s.len() as int] == n);
    }
}

/// The entry an index lookup finds is the first one carrying the name.
pub proof fn lemma_entry_index_first(entries: Seq<UpstreamEntry>, name: Seq<char>)
    ensures
        match entry_index(entries, name) {
            Some(k) => 0 <= k < entries.len() && entries[k].name@ == name && forall|j: int|
                0 <= j < k ==> #[trigger] entries[j].name@ != name,
            None => forall|k: int| 0 <= k < entries.len() ==> #[trigger] entries[k].name@ != name,
        },
    decreases entries.len(),
{
    lemma_entry_index(entries, name);
    if entries.len() > 0 && entries[0].name@ != name {
        lemma_entry_index_first(entries.drop_first(), name);
        match entry_index(entries, name) {
            Some(k) => {
                assert forall|j: int| 0 <= j < k implies #[trigger] entries[j].name@ != name by {
                    if j > 0 {
                        assert(entries[j] == entries.drop_first()[j - 1]);
                    }
                }
            },
            None => {},
        }
    }
}

pub proof fn lemma_entry_index(entries: Seq<UpstreamEntry>, name: Seq<char>)
    ensures
        match entry_index(entries, name) {
            Some(k) => 0 <= k < entries.len() && entries[k].name@ == name,
            None => forall|k: int| 0 <= k < entries.len() ==> #[trigger] entries[k].name@ != name,
        },
    decreases entries.len(),
{
    if entries.len() > 0 && entries[0].name@ != name {
        lemma_entry_index(entries.drop_first(), name);
        if entry_index(entries, name).is_none() {
            assert forall|k: int| 0 <= k < entries.len() implies #[trigger] entries[k].name@ != name by {
                if k > 0 {
                    assert(entries[k] == entries.drop_first()[k - 1]);
                }
            }
        }
    }
}

/// Discovered and exposed counts of one upstream's cached catalog.
#[derive(Debug, Clone, PartialEq, Eq, Structural)]
pub struct UpstreamCachedSummary {
    pub discovered_tool_count: usize,
    pub exposed_tool_count: usize,
    pub discovered_resource_count: usize,
    pub exposed_resource_count: usize,
    pub discovered_prompt_count: usize,
    pub exposed_prompt_count: usize,
    pub discovered_skill_count: usize,
    pub exposed_skill_count: usize,
    pub supports_skills: Option<bool>,
}

/// How many of `names` `policy` admits.
pub open spec fn count_matching(names: Seq<String>, policy: ExposurePolicy) -> nat
    decreases names.len(),
{
    if names.len() == 0 {
        0
    } else {
        count_matching(names.drop_last(), policy) + if policy.spec_matches(names.last()@) {
            1nat
        } else {
            0nat
        }
    }
}

/// A tool whose name `policy` admits.
pub open spec fn tool_admitted_by(policy: ExposurePolicy) -> spec_fn(UpstreamTool) -> bool {
    |t: UpstreamTool| policy.spec_matches(t.tool.name@)
}

/// A name `policy` admits.
pub open spec fn name_admitted_by(policy: ExposurePolicy) -> spec_fn(String) -> bool {
    |n: String| policy.spec_matches(n@)
}

pub proof fn lemma_exposed_of_is_filter(tools: Seq<UpstreamTool>, policy: ExposurePolicy)
    ensures
        exposed_of(tools, policy) == tools.filter(tool_admitted_by(policy)),
    decreases tools.len(),
{
    reveal(Seq::filter);
    if tools.len() > 0 {
        lemma_exposed_of_is_filter(tools.drop_last(), policy);
    }
}

proof fn lemma_count_matching_is_filter(names: Seq<String>, policy: ExposurePolicy)
    ensures
        count_matching(names, policy) == names.filter(name_admitted_by(policy)).len(),
    decreases names.len(),
{
    reveal(Seq::filter);
    if names.len() > 0 {
        lemma_count_matching_is_filter(names.drop_last(), policy);
    }
}

pub open spec fn summary_of(e: UpstreamEntry) -> UpstreamCachedSummary {
    UpstreamCachedSummary {
        discovered_tool_count: e.tools@.len() as usize,
        exposed_tool_count: entry_exposed(e).len() as usize,
        discovered_resource_count: e.resource_count,
        exposed_resource_count: if e.resources_routable {
            e.resource_count
        } else {
            0
        },
        discovered_prompt_count: e.prompt_count,
        exposed_prompt_count: if e.prompts_routable {
            e.prompt_count
        } else {
            0
        },
        discovered_skill_count: e.skill_count,
        exposed_skill_count: if e.proxy_skills && e.skills_routable {
            count_matching(e.skill_names@, e.skill_exposure_policy) as usize
        } else {
            0
        },
        supports_skills: e.supports_skills,
    }
}

proof fn lemma_exposed_len(tools: Seq<UpstreamTool>, p: ExposurePolicy)
    ensures
        exposed_of(tools, p).len() <= tools.len(),
    decreases tools.len(),
{
    if tools.len() > 0 {
        lemma_exposed_len(tools.drop_last(), p);
    }
}

/// Law: an operator summary counts what the policies expose. Its exposed
/// tools are exactly the tools the tool policy admits, never more than were
/// discovered; its exposed skills are exactly the skill names the skill
/// policy admits when skills are proxied and routable, and none otherwise;
/// resources and prompts count as exposed only while their own capability is
/// routable.
pub proof fn law_summary_counts_what_the_policies_expose(e: UpstreamEntry)
    requires
        e.tools@.len() <= usize::MAX,
        e.skill_names@.len() <= usize::MAX,
    ensures
        summary_of(e).discovered_tool_count == e.tools@.len(),
        summary_of(e).exposed_tool_count == e.tools@.filter(tool_admitted_by(e.exposure_policy)).len(),
        summary_of(e).exposed_tool_count <= summary_of(e).discovered_tool_count,
        summary_of(e).exposed_skill_count == if e.proxy_skills && e.skills_routable {
            e.skill_names@.filter(name_admitted_by(e.skill_exposure_policy)).len()
        } else {
            0
        },
        summary_of(e).exposed_skill_count <= e.skill_names@.len(),
        summary_of(e).discovered_resource_count == e.resource_count,
        summary_of(e).exposed_resource_count == if e.resources_routable { e.resource_count } else { 0 },
        summary_of(e).discovered_prompt_count == e.prompt_count,
        summary_of(e).exposed_prompt_count == if e.prompts_routable { e.prompt_count } else { 0 },
        summary_of(e).discovered_skill_count == e.skill_count,
        summary_of(e).supports_skills == e.supports_skills,
{
    lemma_exposed_of_is_filter(e.tools@, e.exposure_policy);
    lemma_count_matching_is_filter(e.skill_names@, e.skill_exposure_policy);
    e.tools@.lemma_filter_len(tool_admitted_by(e.exposure_policy));
    e.skill_names@.lemma_filter_len(name_admitted_by(e.skill_exposure_policy));
}

/// The counts an operator sees for one upstream.
pub fn cached_upstream_summary(catalog: &Vec<UpstreamEntry>, upstream: &str) -> (s: Option<
    UpstreamCachedSummary,
>)
    ensures
        match entry_index(catalog@, upstream@) {
            None => s.is_none(),
            Some(k) => s == Some(summary_of(catalog@[k])),
        },
        s.is_some() <==> exists|k: int| 0 <= k < catalog@.len() && #[trigger] catalog@[k].name@ == upstream@,
        match s {
            Some(r) => exists|k: int|
                0 <= k < catalog@.len() && #[trigger] catalog@[k].name@ == upstream@ && {
                    let e = catalog@[k];
                    &&& r.discovered_tool_count == e.tools@.len()
                    &&& r.exposed_tool_count == e.tools@.filter(tool_admitted_by(e.exposure_policy)).len()
                    &&& r.exposed_skill_count == if e.proxy_skills && e.skills_routable {
                        e.skill_names@.filter(name_admitted_by(e.skill_exposure_policy)).len()
                    } else {
                        0
                    }
                    &&& r.discovered_resource_count == e.resource_count
                    &&& r.exposed_resource_count == if e.resources_routable { e.resource_count } else { 0 }
                    &&& r.discovered_prompt_count == e.prompt_count
                    &&& r.exposed_prompt_count == if e.prompts_routable { e.prompt_count } else { 0 }
                    &&& r.discovered_skill_count == e.skill_count
                    &&& r.supports_skills == e.supports_skills
                },
            None => true,
        },
{
    proof {
        lemma_entry_index(catalog@, upstream@);
    }
    let k = match find_entry(catalog, upstream) {
        None => return None,
        Some(k) => k,
    };
    let e = &catalog[k];
    let exposed = exposed_tools(e);
    proof {
        lemma_exposed_len(e.tools@, e.exposure_policy);
    }
    let mut skills: usize = 0;
    if e.proxy_skills && e.skills_routable {
        let mut i: usize = 0;
        while i < e.skill_names.len()
            invariant
                i <= e.skill_names@.len(),
                skills == count_matching(e.skill_names@.subrange(0, i as int), e.skill_exposure_policy),
                skills <= i,
            decreases e.skill_names.len() - i,
        {
            proof {
                assert(e.skill_names@.subrange(0, i + 1).drop_last() =~= e.skill_names@.subrange(
                    0,
                    i as int,
                ));
            }
            if e.skill_exposure_policy.matches(e.skill_names[i].as_str()) {
                skills = skills + 1;
            }
            i = i + 1;
        }
        proof {
            assert(e.skill_names@.subrange(0, e.skill_names@.len() as int) =~= e.skill_names@);
        }
    }
    proof {
        assert(e.tools.len() == e.tools@.len());
        assert(e.skill_names.len() == e.skill_names@.len());
        law_summary_counts_what_the_policies_expose(*e);
    }
    Some(
        UpstreamCachedSummary {
            discovered_tool_count: e.tools.len(),
            exposed_tool_count: exposed.len(),
            discovered_resource_count: e.resource_count,
            exposed_resource_count: if e.resources_routable {
                e.resource_count
            } else {
                0
            },
            discovered_prompt_count: e.prompt_count,
            exposed_prompt_count: if e.prompts_routable {
                e.prompt_count
            } else {
                0
            },
            discovered_skill_count: e.skill_count,
            exposed_skill_count: skills,
            supports_skills: e.supports_skills,
        },
    )
}

/// A capability an upstream may serve.
#[derive(Debug, Clone, Copy, PartialEq, Eq, Structural)]
pub enum UpstreamCapability {
    Tools,
    Resources,
    Prompts,
    Skills,
}

pub open spec fn capability_routable(e: UpstreamEntry, c: UpstreamCapability) -> bool {
    match c {
        UpstreamCapability::Tools => e.tools_routable,
        UpstreamCapability::Resources => e.resources_routable,
        UpstreamCapability::Prompts => e.prompts_routable,
        UpstreamCapability::Skills => e.skills_routable,
    }
}

/// Law: each capability is routable by its own health alone. An upstream is
/// routable for tools, resources, prompts or skills exactly when that
/// capability's health admits traffic, whatever the health of the others.
pub proof fn law_routability_follows_each_capabilitys_own_health(catalog: Seq<UpstreamEntry>)
    ensures
        forall|k: int|
            0 <= k < catalog.len() ==> {
                &&& capability_routable(#[trigger] catalog[k], UpstreamCapability::Tools) == catalog[k].tools_routable
                &&& capability_routable(catalog[k], UpstreamCapability::Resources) == catalog[k].resources_routable
                &&& capability_routable(catalog[k], UpstreamCapability::Prompts) == catalog[k].prompts_routable
                &&& capability_routable(catalog[k], UpstreamCapability::Skills) == catalog[k].skills_routable
            },
{
}

/// Names of the upstreams currently routable for `capability`, sorted and
/// without repeats. Resources consult the resource-serving upstream list.
pub fn routable_upstream_names(
    catalog: &Vec<UpstreamEntry>,
    capability: UpstreamCapability,
    resource_upstreams: &Vec<String>,
) -> (names: Vec<String>)
    ensures
        crate::order::sorted_strict(strings_view(names@)),
        forall|n: Seq<char>|
            strings_view(names@).contains(n) <==> if capability == UpstreamCapability::Resources {
                strings_view(resource_upstreams@).contains(n) && (match entry_index(catalog@, n) {
                    Some(k) => catalog@[k].resources_routable,
                    None => false,
                })
            } else {
                exists|k: int|
                    #![trigger catalog@[k]]
                    0 <= k < catalog@.len() && catalog@[k].name@ == n && capability_routable(
                        catalog@[k],
                        capability,
                    )
            },
        forall|n: Seq<char>|
            strings_view(names@).contains(n) <==> match capability {
                UpstreamCapability::Tools => exists|k: int|
                    0 <= k < catalog@.len() && #[trigger] catalog@[k].name@ == n && catalog@[k].tools_routable,
                UpstreamCapability::Prompts => exists|k: int|
                    0 <= k < catalog@.len() && #[trigger] catalog@[k].name@ == n && catalog@[k].prompts_routable,
                UpstreamCapability::Skills => exists|k: int|
                    0 <= k < catalog@.len() && #[trigger] catalog@[k].name@ == n && catalog@[k].skills_routable,
                UpstreamCapability::Resources => strings_view(resource_upstreams@).contains(n) && exists|k: int|
                    0 <= k < catalog@.len() && #[trigger] catalog@[k].name@ == n && catalog@[k].resources_routable
                        && forall|j: int| 0 <= j < k ==> catalog@[j].name@ != n,
            },
{
    proof {
        law_routability_follows_each_capabilitys_own_health(catalog@);
    }
    let mut picked: Vec<String> = Vec::new();
    if capability == UpstreamCapability::Resources {
        let mut i: usize = 0;
        while i < resource_upstreams.len()
            invariant
                i <= resource_upstreams@.len(),
                capability == UpstreamCapability::Resources,
                forall|n: Seq<char>|
                    strings_view(picked@).contains(n) <==> (strings_view(
                        resource_upstreams@.subrange(0, i as int),
                    ).contains(n) && (match entry_index(catalog@, n) {
                        Some(k) => catalog@[k].resources_routable,
                        None => false,
                    })),
            decreases resource_upstreams.len() - i,
        {
            let ghost before = picked@;
            let name = &resource_upstreams[i];
            let routable = match find_entry(catalog, name.as_str()) {
                Some(k) => catalog[k].resources_routable,
                None => false,
            };
            if routable {
                picked.push(name.clone());
            }
            proof {
                let prev = strings_view(resource_upstreams@.subrange(0, i as int));
                assert(strings_view(resource_upstreams@.subrange(0, i + 1)) =~= prev.push(name@));
                if routable {
                    assert(strings_view(picked@) =~= strings_view(before).push(name@));
                } else {
                    assert(strings_view(picked@) =~= strings_view(before));
                }
                assert forall|n: Seq<char>|
                    strings_view(picked@).contains(n) <==> (strings_view(
                        resource_upstreams@.subrange(0, i + 1),
                    ).contains(n) && (match entry_index(catalog@, n) {
                        Some(k) => catalog@[k].resources_routable,
                        None => false,
                    })) by {
                    lemma_contains_push(prev, name@, n);
                    lemma_contains_push(strings_view(before), name@, n);
                    lemma_entry_index(catalog@, n);
                }
            }
            i = i + 1;
        }
        proof {
            assert(resource_upstreams@.subrange(0, resource_upstreams@.len() as int)
                =~= resource_upstreams@);
        }
    } else {
        let mut i: usize = 0;
        while i < catalog.len()
            invariant
                i <= catalog@.len(),
                capability != UpstreamCapability::Resources,
                forall|n: Seq<char>|
                    strings_view(picked@).contains(n) <==> exists|k: int|
                        0 <= k < i && #[trigger] catalog@[k].name@ == n && capability_routable(
                            catalog@[k],
                            capability,
                        ),
            decreases catalog.len() - i,
        {
            let ghost before = picked@;
            let e = &catalog[i];
            let routable = match capability {
                UpstreamCapability::Tools => e.tools_routable,
                UpstreamCapability::Resources => e.resources_routable,
                UpstreamCapability::Prompts => e.prompts_routable,
                UpstreamCapability::Skills => e.skills_routable,
            };
            if routable {
                picked.push(e.name.clone());
            }
            proof {
                if routable {
                    assert(strings_view(picked@) =~= strings_view(before).push(e.name@));
                } else {
                    assert(strings_view(picked@) =~= strings_view(before));
                }
                assert forall|n: Seq<char>|
                    strings_view(picked@).contains(n) <==> exists|k: int|
                        0 <= k < i + 1 && #[trigger] catalog@[k].name@ == n && capability_routable(
                            catalog@[k],
                            capability,
                        ) by {
                    lemma_contains_push(strings_view(before), e.name@, n);
                    if exists|k: int|
                        0 <= k < i + 1 && #[trigger] catalog@[k].name@ == n && capability_routable(
                            catalog@[k],
                            capability,
                        ) {
                        let k = choose|k: int|
                            0 <= k < i + 1 && #[trigger] catalog@[k].name@ == n && capability_routable(
                                catalog@[k],
                                capability,
                            );
                        if k == i {
                            assert(strings_view(picked@)[strings_view(picked@).len() - 1] == n);
                        }
                    }
                }
            }
            i = i + 1;
        }
    }
    let names = crate::order::sorted_unique(picked);
    proof {
        assert forall|n: Seq<char>| strings_view(names@).contains(n) <==> strings_view(picked@).contains(
            n,
        ) by {
            assert(strings_view(names@).to_set().contains(n) == strings_view(names@).contains(n));
            assert(strings_view(picked@).to_set().contains(n) == strings_view(picked@).contains(n));
        }
        if capability == UpstreamCapability::Resources {
            assert forall|n: Seq<char>|
                #![trigger entry_index(catalog@, n)]
                (match entry_index(catalog@, n) {
                    Some(i) => catalog@[i].resources_routable,
                    None => false,
                }) <==> exists|k: int|
                    0 <= k < catalog@.len() && #[trigger] catalog@[k].name@ == n && catalog@[k].resources_routable
                        && forall|j: int| 0 <= j < k ==> catalog@[j].name@ != n by {
                lemma_entry_index_first(catalog@, n);
                match entry_index(catalog@, n) {
                    Some(k) => {
                        if exists|k2: int|
                            0 <= k2 < catalog@.len() && #[trigger] catalog@[k2].name@ == n
                                && catalog@[k2].resources_routable && forall|j: int| 0 <= j < k2 ==> catalog@[j].name@ != n {
                            let k2 = choose|k2: int|
                                0 <= k2 < catalog@.len() && #[trigger] catalog@[k2].name@ == n
                                    && catalog@[k2].resources_routable && forall|j: int| 0 <= j < k2 ==> catalog@[j].name@ != n;
                            if k2 < k {
                                assert(catalog@[k2].name@ != n);
                            } else if k < k2 {
                                assert(catalog@[k].name@ != n);
                            }
                        }
                    },
                    None => {},
                }
            }
        }
    }
    names
}

} // verus!

verus! {

/// An upstream that proxies resources and has a tool binding a UI whose
/// resources its configured resource allowlist exposes.
pub fn upstream_has_mcp_app_ui_owner_for_config(tools: &Vec<UpstreamTool>, config: &UpstreamConfig) -> (b:
    bool)
    ensures
        b == (config.proxy_resources && has_exposed_owner_pv(
            descriptors(tools@),
            None,
            config_resource_policy(*config),
        )),
{
    if !config.proxy_resources {
        return false;
    }
    let policy = resolve_request_resource_exposure_policy(config);
    let descs = descriptors_of(tools);
    exposed_owner_among(&descs, &ExposurePolicy::All, &policy)
}

/// Whether the host may show `tool` of an upstream configured by `config`:
/// a bound UI whose resources are exposed, or an app callback on an upstream
/// with such an owner.
pub fn tool_is_mcp_app_host_visible_for_config(
    tool: &UpstreamTool,
    upstream_tools: &Vec<UpstreamTool>,
    config: &UpstreamConfig,
) -> (b: bool)
    ensures
        b == (config.proxy_resources && if has_binding(tool.tool) {
            bindings_exposed_pv(tool.tool, config_resource_policy(*config))
        } else {
            is_app_callback(tool.tool) && has_exposed_owner_pv(
                descriptors(upstream_tools@),
                None,
                config_resource_policy(*config),
            )
        }),
{
    if !config.proxy_resources {
        return false;
    }
    let policy = resolve_request_resource_exposure_policy(config);
    proof {
        lemma_bindings_pv(tool.tool, policy);
    }
    if mcp_tool_has_binding(&tool.tool) {
        return mcp_tool_resource_bindings_are_exposed(&tool.tool, &policy);
    }
    if !mcp_tool_is_mcp_app_callback(&tool.tool) {
        return false;
    }
    let descs = descriptors_of(upstream_tools);
    exposed_owner_among(&descs, &ExposurePolicy::All, &policy)
}

} // verus!
