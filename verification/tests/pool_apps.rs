use labby_gateway::exposure::ExposurePolicy;
use labby_gateway::resources::{ui_read_target, ui_resource_owner, UiOwnerResolution};
use labby_gateway::tool_call::subject_scoped_call_refusal;
use labby_gateway::tool_catalog::{
    has_healthy_tools_for_upstream, healthy_tools_for_upstream, insert_bounded_subject_tool,
    insert_bounded_tool_row, insert_bounded_upstream_tool, mcp_ui_uri_authority,
    tool_has_mcp_app_ui_resource, tool_mcp_app_ui_resource_uri, upstream_has_exposed_mcp_app_owner,
    UpstreamToolExposureRow, cached_enrichment_snapshot, cached_mcp_app_tools_allowed, cached_subject_scoped_tools_bounded,
    cached_subject_scoped_ui_resource_owner, find_exposed_tool_candidates_allowed,
    find_mcp_app_sibling_tool_candidates, find_tool_candidates, healthy_tool_for_upstream,
    healthy_tools_allowed, healthy_tools_for_upstream_bounded, tool_is_mcp_app_host_visible_for_config,
    upstream_has_mcp_app_ui_owner_for_config, SubjectConnection, ToolDescriptor, UiResourceOwnerError,
    UpstreamConfig, UpstreamEntry, UpstreamTool,
};

const NOW: u64 = 1_000_000;
const TTL: u64 = 60_000;

fn plain(name: &str) -> ToolDescriptor {
    ToolDescriptor {
        name: name.to_string(),
        description: None,
        serialized_bytes: 10,
        has_input_schema: true,
        ui_resource_uri: None,
        openai_output_template: None,
        ui_visible_to_app: false,
        openai_widget_accessible: false,
    }
}

fn ui_tool(name: &str, uri: &str) -> ToolDescriptor {
    let mut t = plain(name);
    t.ui_resource_uri = Some(uri.to_string());
    t
}

fn callback(name: &str) -> ToolDescriptor {
    let mut t = plain(name);
    t.ui_visible_to_app = true;
    t
}

fn entry(name: &str, tools: Vec<ToolDescriptor>) -> UpstreamEntry {
    UpstreamEntry {
        name: name.to_string(),
        tools_routable: true,
        resources_routable: true,
        prompts_routable: true,
        skills_routable: true,
        proxy_resources: true,
        proxy_skills: true,
        exposure_policy: ExposurePolicy::All,
        resource_exposure_policy: ExposurePolicy::All,
        skill_exposure_policy: ExposurePolicy::All,
        tools: tools
            .into_iter()
            .map(|tool| UpstreamTool { upstream_name: name.to_string(), tool })
            .collect(),
        resource_uris: Vec::new(),
        resource_count: 2,
        prompt_count: 1,
        skill_count: 0,
        skill_names: Vec::new(),
        supports_skills: None,
    }
}

fn catalog() -> Vec<UpstreamEntry> {
    vec![
        entry("alpha", vec![callback("cb"), ui_tool("panel", "ui://alpha/panel"), plain("plain")]),
        entry("beta", vec![callback("cb2"), ui_tool("panel", "ui://beta/panel")]),
        entry("gamma", vec![callback("cb")]),
    ]
}

fn oauth(name: &str, expose_resources: Option<Vec<&str>>) -> UpstreamConfig {
    UpstreamConfig {
        name: name.to_string(),
        enabled: true,
        oauth: true,
        proxy_resources: true,
        proxy_prompts: true,
        proxy_skills: true,
        expose_tools: None,
        expose_resources: expose_resources.map(|v| v.into_iter().map(String::from).collect()),
        expose_prompts: None,
        expose_skills: None,
    }
}

fn conn(upstream: &str, last_used_ms: u64, tools: Vec<ToolDescriptor>) -> SubjectConnection {
    SubjectConnection { upstream: upstream.to_string(), last_used_ms, tools }
}

fn names(tools: &[UpstreamTool]) -> Vec<(String, String)> {
    tools.iter().map(|t| (t.tool.name.clone(), t.upstream_name.clone())).collect()
}

#[test]
fn app_tool_contract_withholds_names_claimed_twice() {
    let tools = cached_mcp_app_tools_allowed(&catalog(), None, &Vec::new(), None, NOW, TTL, 100);
    assert_eq!(
        names(&tools),
        vec![("cb".to_string(), "alpha".to_string()), ("cb2".to_string(), "beta".to_string())]
    );
    let smallest = cached_mcp_app_tools_allowed(&catalog(), None, &Vec::new(), None, NOW, TTL, 1);
    assert_eq!(names(&smallest), vec![("cb".to_string(), "alpha".to_string())]);
    let scope = vec!["alpha".to_string()];
    let scoped = cached_mcp_app_tools_allowed(&catalog(), Some(&scope), &Vec::new(), None, NOW, TTL, 100);
    assert_eq!(
        names(&scoped),
        vec![("cb".to_string(), "alpha".to_string()), ("panel".to_string(), "alpha".to_string())]
    );
}

#[test]
fn app_tool_contract_adds_the_subjects_live_oauth_tools() {
    let configs = vec![oauth("linear", None), oauth("stale", None)];
    let conns = vec![
        conn("linear", NOW - 10, vec![ui_tool("lin_panel", "ui://linear/x"), plain("lin_plain")]),
        conn("stale", NOW - TTL, vec![ui_tool("old_panel", "ui://stale/x")]),
    ];
    let tools = cached_mcp_app_tools_allowed(&catalog(), None, &configs, Some(&conns), NOW, TTL, 100);
    assert_eq!(
        names(&tools),
        vec![
            ("cb".to_string(), "alpha".to_string()),
            ("cb2".to_string(), "beta".to_string()),
            ("lin_panel".to_string(), "linear".to_string())
        ]
    );
}

#[test]
fn tool_candidates_and_app_siblings() {
    let cat = catalog();
    let owners: Vec<String> = find_tool_candidates(&cat, "panel").into_iter().map(|c| c.0).collect();
    assert_eq!(owners, vec!["alpha".to_string(), "beta".to_string()]);
    let owners: Vec<String> =
        find_mcp_app_sibling_tool_candidates(&cat, "cb", None).into_iter().map(|c| c.0).collect();
    assert_eq!(owners, vec!["alpha".to_string()]);
    let scope = vec!["gamma".to_string()];
    let owners: Vec<String> =
        find_exposed_tool_candidates_allowed(&cat, "cb", Some(&scope)).into_iter().map(|c| c.0).collect();
    assert_eq!(owners, vec!["gamma".to_string()]);
}

#[test]
fn native_ui_resources_resolve_to_metadata_then_authority() {
    let cat = catalog();
    assert_eq!(
        ui_resource_owner(&cat, "ui://alpha/panel", None),
        Some(("alpha".to_string(), UiOwnerResolution::CachedResourceUri))
    );
    assert_eq!(
        ui_resource_owner(&cat, "ui://gamma/unlisted", None),
        Some(("gamma".to_string(), UiOwnerResolution::UriAuthority))
    );
    assert_eq!(ui_resource_owner(&cat, "ui://nobody/x", None), None);
    let scope = vec!["beta".to_string()];
    assert_eq!(ui_resource_owner(&cat, "ui://alpha/panel", Some(&scope)), None);
}

#[test]
fn oauth_ui_owners_never_cross_the_global_catalog() {
    let cat = catalog();
    let configs = vec![oauth("linear", None), oauth("notion", Some(vec!["ui://notion/*"]))];
    let conns = vec![
        conn("linear", NOW, vec![ui_tool("lin_panel", "ui://linear/x")]),
        conn("notion", NOW, vec![ui_tool("copy", "ui://alpha/panel"), ui_tool("n", "ui://elsewhere/n")]),
    ];
    assert_eq!(
        cached_subject_scoped_ui_resource_owner(&cat, &configs, &conns, "ui://linear/x", None, NOW, TTL),
        Ok(Some(0))
    );
    assert_eq!(
        cached_subject_scoped_ui_resource_owner(&cat, &configs, &conns, "ui://alpha/panel", None, NOW, TTL),
        Err(UiResourceOwnerError::ClaimedByGlobalAndOAuth)
    );
    assert_eq!(
        cached_subject_scoped_ui_resource_owner(&cat, &configs, &conns, "ui://elsewhere/n", None, NOW, TTL),
        Err(UiResourceOwnerError::NotExposed("notion".to_string()))
    );
    assert_eq!(
        cached_subject_scoped_ui_resource_owner(&cat, &configs, &conns, "ui://unknown/x", None, NOW, TTL),
        Ok(None)
    );
}

#[test]
fn cached_subject_tools_are_grouped_and_bounded() {
    let mut hidden = oauth("notion", None);
    hidden.expose_tools = Some(vec!["read*".to_string()]);
    let configs = vec![oauth("linear", None), hidden];
    let conns = vec![
        conn("linear", NOW, vec![plain("search"), plain("create")]),
        conn("notion", NOW, vec![plain("read_page"), plain("write_page")]),
    ];
    let groups = cached_subject_scoped_tools_bounded(&configs, &conns, NOW, TTL, 10);
    let shape: Vec<(String, Vec<String>)> = groups
        .iter()
        .map(|(u, ts)| (u.clone(), ts.iter().map(|t| t.name.clone()).collect()))
        .collect();
    assert_eq!(
        shape,
        vec![
            ("linear".to_string(), vec!["create".to_string(), "search".to_string()]),
            ("notion".to_string(), vec!["read_page".to_string()])
        ]
    );
    let bounded = cached_subject_scoped_tools_bounded(&configs, &conns, NOW, TTL, 1);
    assert_eq!(bounded.len(), 1);
    assert_eq!(bounded[0].1.len(), 1);
    assert_eq!(bounded[0].1[0].name, "create");
    assert!(cached_subject_scoped_tools_bounded(&configs, &conns, NOW + TTL, TTL, 10).is_empty());
    // What discovery leaves out, execution refuses.
    assert!(subject_scoped_call_refusal(&configs[1], "write_page").is_some());
    assert!(subject_scoped_call_refusal(&configs[1], "read_page").is_none());
}

#[test]
fn per_upstream_lookups_respect_health_and_exposure() {
    let mut cat = catalog();
    cat[1].tools_routable = false;
    let scope = vec!["alpha".to_string(), "beta".to_string()];
    let tools = healthy_tools_allowed(&cat, Some(&scope), usize::MAX);
    assert_eq!(tools.len(), 3);
    assert!(tools.iter().all(|t| t.upstream_name == "alpha"));
    assert!(healthy_tool_for_upstream(&cat, "alpha", "panel").is_some());
    assert!(healthy_tool_for_upstream(&cat, "beta", "panel").is_none());
    cat[0].exposure_policy = ExposurePolicy::from_patterns(vec!["p*".to_string()]).expect("policy");
    assert!(healthy_tool_for_upstream(&cat, "alpha", "cb").is_none());
    let first = healthy_tools_for_upstream_bounded(&cat, "alpha", 1);
    assert_eq!(names(&first), vec![("panel".to_string(), "alpha".to_string())]);
}

#[test]
fn enrichment_snapshot_previews_each_upstream_in_name_order() {
    let mut cat = catalog();
    cat.reverse();
    cat[0].prompts_routable = false;
    let snapshot = cached_enrichment_snapshot(&cat, None, 0);
    let upstreams: Vec<&str> = snapshot.iter().map(|e| e.upstream.as_str()).collect();
    assert_eq!(upstreams, vec!["alpha", "beta", "gamma"]);
    assert_eq!(snapshot[0].tool_rows.len(), 1);
    assert_eq!(snapshot[0].tool_rows[0].name, "cb");
    assert!(snapshot[0].tool_rows[0].exposed);
    assert_eq!(snapshot[0].resource_count, 2);
    assert_eq!(snapshot[2].prompt_count, 0);
    assert_eq!(snapshot[1].prompt_count, 1);
}

#[test]
fn app_visibility_for_a_config_follows_its_resource_allowlist() {
    let alpha = catalog().remove(0);
    let open = oauth("alpha", None);
    assert!(upstream_has_mcp_app_ui_owner_for_config(&alpha.tools, &open));
    assert!(tool_is_mcp_app_host_visible_for_config(&alpha.tools[0], &alpha.tools, &open));
    assert!(!tool_is_mcp_app_host_visible_for_config(&alpha.tools[2], &alpha.tools, &open));
    let closed = oauth("alpha", Some(vec!["ui://other/*"]));
    assert!(!upstream_has_mcp_app_ui_owner_for_config(&alpha.tools, &closed));
    assert!(!tool_is_mcp_app_host_visible_for_config(&alpha.tools[1], &alpha.tools, &closed));
    assert!(!tool_is_mcp_app_host_visible_for_config(&alpha.tools[0], &alpha.tools, &closed));
}

#[test]
fn ui_bindings_and_bounded_insertions() {
    let alpha = catalog().remove(0);
    assert!(!tool_has_mcp_app_ui_resource(&alpha.tools[0]));
    assert!(tool_has_mcp_app_ui_resource(&alpha.tools[1]));
    assert_eq!(tool_mcp_app_ui_resource_uri(&alpha.tools[1]).map(String::as_str), Some("ui://alpha/panel"));
    let mut templated = alpha.tools[2].clone();
    templated.tool.openai_output_template = Some("ui://alpha/widget".to_string());
    templated.tool.ui_resource_uri = Some("https://not-a-ui".to_string());
    assert_eq!(tool_mcp_app_ui_resource_uri(&templated).map(String::as_str), Some("ui://alpha/widget"));
    assert_eq!(mcp_ui_uri_authority("ui://alpha/panel"), Some("alpha".to_string()));
    assert_eq!(mcp_ui_uri_authority("https://alpha/panel"), None);
    assert!(upstream_has_exposed_mcp_app_owner(&alpha.tools, &ExposurePolicy::All));
    let narrow = ExposurePolicy::from_patterns(vec!["ui://other/*".to_string()]).expect("policy");
    assert!(!upstream_has_exposed_mcp_app_owner(&alpha.tools, &narrow));

    let mut cat = catalog();
    assert_eq!(healthy_tools_for_upstream(&cat, "beta").len(), 2);
    assert!(has_healthy_tools_for_upstream(&cat, "beta"));
    cat[1].tools_routable = false;
    assert!(healthy_tools_for_upstream(&cat, "beta").is_empty());
    assert!(!has_healthy_tools_for_upstream(&cat, "beta"));
    assert!(!has_healthy_tools_for_upstream(&cat, "nobody"));

    let mut rows: Vec<UpstreamToolExposureRow> = Vec::new();
    for name in ["c", "a", "b"] {
        let row = UpstreamToolExposureRow { name: name.to_string(), description: None, exposed: true, matched_by: None };
        insert_bounded_tool_row(&mut rows, row, 2);
    }
    let kept: Vec<&str> = rows.iter().map(|r| r.name.as_str()).collect();
    assert_eq!(kept, vec!["a", "b"]);

    let mut routed: Vec<UpstreamTool> = Vec::new();
    insert_bounded_subject_tool(&mut routed, "zeta".to_string(), plain("search"), 2);
    insert_bounded_upstream_tool(&mut routed, UpstreamTool { upstream_name: "alpha".to_string(), tool: plain("search") }, 2);
    insert_bounded_upstream_tool(&mut routed, UpstreamTool { upstream_name: "alpha".to_string(), tool: plain("zzz") }, 2);
    assert_eq!(
        names(&routed),
        vec![("search".to_string(), "alpha".to_string()), ("search".to_string(), "zeta".to_string())]
    );
}

#[test]
fn bounded_listings_are_prefixes_and_plain_tools_leave_the_app_contract_alone() {
    let cat = catalog();
    let all = healthy_tools_for_upstream(&cat, "alpha");
    for limit in 0..4 {
        let some = healthy_tools_for_upstream_bounded(&cat, "alpha", limit);
        assert_eq!(names(&some), names(&all[..limit.min(all.len())]));
    }

    let before = cached_mcp_app_tools_allowed(&cat, None, &Vec::new(), None, NOW, TTL, 100);
    let mut churned = catalog();
    churned.insert(1, entry("aardvark", vec![plain("cb"), plain("panel"), plain("other")]));
    let after = cached_mcp_app_tools_allowed(&churned, None, &Vec::new(), None, NOW, TTL, 100);
    assert_eq!(names(&before), names(&after));
}

#[test]
fn native_ui_reads_are_refused_when_the_owner_hides_the_uri() {
    let mut cat = catalog();
    assert_eq!(ui_read_target(&cat, "ui://alpha/panel", None), Some("alpha".to_string()));
    cat[0].resource_exposure_policy =
        ExposurePolicy::from_patterns(vec!["ui://alpha/other".to_string()]).expect("policy");
    assert_eq!(ui_read_target(&cat, "ui://alpha/panel", None), None);
    assert_eq!(ui_read_target(&cat, "ui://gamma/unlisted", None), Some("gamma".to_string()));
    let scope = vec!["beta".to_string()];
    assert_eq!(ui_read_target(&cat, "ui://gamma/unlisted", Some(&scope)), None);
    assert_eq!(ui_read_target(&cat, "ui://nobody/x", None), None);
}
